//! The page labels of a document: the page numbers a reader shows, such as `xii` or `A-3`, from
//! the catalog's `/PageLabels` number tree.

use vstd::prelude::*;

use crate::bytes::{key, spells};
use crate::common_data_structures::{decode_text_bytes, decoded_text};
use crate::error::{Error, Result};
use crate::number_tree::{
    integer, lower_bound, read_tree, tree_of, whole_number, NumberTree, TreeNode,
};
use crate::object::{dictionary_in, named_entry, Dictionary, Entries, Object, Value};
use crate::resolver::{
    catalog, catalog_of, dictionary_named, followed_entry, source_failure, Model, ObjectResolver,
};
use crate::text::{
    append_chars, chars_of, decimal, decimal_chars, decimal_of_usize, string_of,
};

verus! {

/// The label of each page, read as pdfium reads them, so that they match what other readers show.
///
/// A page takes the range that the number tree's lower bound for its index gives: the range's
/// `/P` prefix, then the page's number within it, counted from `/St` (1 when absent), in the `/S`
/// style: decimal, upper or lower Roman, or upper or lower letters (`A` to `Z`, then `AA`). A
/// range without a style gives the prefix alone. A page without a range, or whose range is not a
/// dictionary, takes its physical number.
///
/// pdfium finds the lower bound in its own way, which only a malformed tree tells apart from the
/// standard's: it scans `/Nums` and `/Kids` from the end, and a page at or past a node's upper
/// `/Limits` takes the range listed at that limit, or its physical number when there is none.
#[derive(Debug, Clone, PartialEq, Eq)]
pub struct PageLabels {
    /// The label of each page, in page order.
    pub labels: Vec<String>,
}

/// `count` times the character `c`.
pub open spec fn repeated(c: char, count: nat) -> Seq<char> {
    Seq::new(count, |i: int| c)
}

/// One place of a Roman numeral: a digit from 0 to 9, in the letters for one, five, and ten of
/// that place.
pub open spec fn roman_place(digit: int, one: char, five: char, ten: char) -> Seq<char> {
    if digit <= 3 {
        repeated(one, digit as nat)
    } else if digit == 4 {
        seq![one, five]
    } else if digit <= 8 {
        seq![five] + repeated(one, (digit - 5) as nat)
    } else {
        seq![one, ten]
    }
}

/// `number` in lower-case Roman numerals, from its remainder by 1,000,000; nothing for zero or
/// less.
pub open spec fn roman_numeral(number: int) -> Seq<char> {
    if number <= 0 {
        Seq::empty()
    } else {
        let n = number % 1_000_000;
        repeated('m', (n / 1000) as nat) + roman_place(n / 100 % 10, 'c', 'd', 'm') + roman_place(
            n / 10 % 10,
            'x',
            'l',
            'c',
        ) + roman_place(n % 10, 'i', 'v', 'x')
    }
}

/// `number` as lower-case letters: `a` to `z`, then `aa` to `zz`, and so on, with a letter
/// repeated at most 999 times. Counting on below 1 leaves the letters for the characters before
/// `a`, down to 25 places, with nothing for 0 itself; and the number below the least one is the
/// greatest.
pub open spec fn letter_numeral(number: i64) -> Seq<char> {
    let index = if number == i64::MIN {
        i64::MAX as int
    } else {
        number - 1
    };
    if number == 0 || index <= -26 {
        Seq::empty()
    } else if index < 0 {
        seq![(97 + index) as u8 as char]
    } else {
        repeated((97 + index % 26) as u8 as char, ((index / 26 + 1) % 1000) as nat)
    }
}

/// `c` in upper case, where it is an ASCII letter.
pub open spec fn upper(c: char) -> char {
    if 'a' <= c <= 'z' {
        (c as u8 - 32) as u8 as char
    } else {
        c
    }
}

/// `text` in upper case.
pub open spec fn uppercase(text: Seq<char>) -> Seq<char> {
    Seq::new(text.len(), |i: int| upper(text[i]))
}

/// The text before a page's number in a range.
pub open spec fn range_prefix(range: Entries) -> Seq<char> {
    let text = match named_entry(range, "P"@) {
        Some(Value::Name(bytes)) => decoded_text(bytes),
        Some(Value::String(bytes, _)) => decoded_text(bytes),
        _ => None,
    };
    match text {
        Some(text) => text,
        None => Seq::empty(),
    }
}

/// The number of the first page of a range.
pub open spec fn range_start(range: Entries) -> i64 {
    match named_entry(range, "St"@) {
        Some(value) => whole_number(value),
        None => 1,
    }
}

/// The sum of two numbers, kept within what an `i64` holds.
pub open spec fn saturating_sum(a: i64, b: i64) -> i64 {
    if a + b > i64::MAX {
        i64::MAX
    } else if a + b < i64::MIN {
        i64::MIN
    } else {
        (a + b) as i64
    }
}

/// `number` in a style.
pub open spec fn styled(style: Seq<u8>, number: i64) -> Seq<char> {
    if style == key("D"@) {
        decimal(number as int)
    } else if style == key("R"@) {
        uppercase(roman_numeral(number as int))
    } else if style == key("r"@) {
        roman_numeral(number as int)
    } else if style == key("A"@) {
        uppercase(letter_numeral(number))
    } else if style == key("a"@) {
        letter_numeral(number)
    } else {
        Seq::empty()
    }
}

/// The label of the page `offset` pages into a range.
pub open spec fn range_label(range: Entries, offset: i64) -> Seq<char> {
    let number = saturating_sum(offset, range_start(range));
    range_prefix(range) + match named_entry(range, "S"@) {
        Some(Value::Name(style)) => styled(style, number),
        Some(Value::String(style, _)) => styled(style, number),
        _ => Seq::empty(),
    }
}

/// How far `number` is past `key`, wrapped around as an `i64` is.
pub open spec fn pages_into(number: i64, key: i64) -> i64 {
    if number - key > i64::MAX {
        (number - key - 0x1_0000_0000_0000_0000) as i64
    } else {
        (number - key) as i64
    }
}

/// The label of the page with the index `index`.
pub open spec fn page_label(tree: TreeNode, index: int) -> Seq<char> {
    match lower_bound(tree, index as i64) {
        Some((key, Some(Value::Dictionary(range)))) => range_label(
            range,
            pages_into(index as i64, key),
        ),
        _ => decimal(index + 1),
    }
}

/// The number tree of a document's page labels.
pub open spec fn labels_tree(model: Model) -> Option<TreeNode> {
    match catalog_of(model) {
        Some(catalog) => match dictionary_in(followed_entry(model, catalog, "PageLabels"@)) {
            Some(root) => Some(tree_of(model, root)),
            None => None,
        },
        None => None,
    }
}

/// The first page of a range has the number that the range starts with, and each page after it
/// the next one, as long as an `i64` holds it.
pub proof fn lemma_pages_count_up(range: Entries, offset: i64)
    requires
        0 <= offset < i64::MAX,
        range_start(range) + offset < i64::MAX,
    ensures
        saturating_sum(0, range_start(range)) == range_start(range),
        saturating_sum((offset + 1) as i64, range_start(range)) == saturating_sum(
            offset,
            range_start(range),
        ) + 1,
{
}

/// Past `z`, the letters of a number are those of the number 26 before, with one letter more, up to
/// 999 of them.
pub proof fn lemma_letters_repeat(number: i64)
    requires
        26 < number <= 26 * 999,
    ensures
        letter_numeral(number) == letter_numeral((number - 26) as i64).push(
            letter_numeral((number - 26) as i64)[0],
        ),
{
    let index = number - 1;
    let before = index - 26;
    assert(index / 26 == before / 26 + 1);
    assert(index % 26 == before % 26);
    assert(before / 26 + 2 < 1000);
    assert(letter_numeral(number) =~= letter_numeral((number - 26) as i64).push(
        letter_numeral((number - 26) as i64)[0],
    ));
}

impl PageLabels {
    /// The labels of a document of `page_count` pages, or `None` when it has no `/PageLabels`.
    /// Only a failure to read the source is an error.
    pub fn read<R: ObjectResolver>(resolver: &R, page_count: usize) -> (r: Result<Option<Self>>)
        requires
            page_count <= i64::MAX,
        ensures
            match r {
                Ok(Some(labels)) => {
                    &&& labels_of_pages(resolver.model(), page_count as nat) == Some(
                        labels.labels@.map_values(|label: String| label@),
                    )
                    &&& labels_tree(resolver.model()) is Some
                    &&& labels.labels@.len() == page_count
                    &&& forall|i: int|
                        0 <= i < page_count ==> (#[trigger] labels.labels@[i])@ == page_label(
                            labels_tree(resolver.model())->Some_0,
                            i,
                        )
                },
                Ok(None) => labels_tree(resolver.model()) is None,
                Err(error) => source_failure(error, resolver.can_fail()),
            },
    {
        let catalog = match catalog(resolver) {
            Ok(Some(catalog)) => catalog,
            Ok(None) => {
                return Ok(None);
            },
            Err(error) => {
                return Err(error);
            },
        };
        let root = match dictionary_named(resolver, &catalog, "PageLabels") {
            Ok(Some(root)) => root,
            Ok(None) => {
                return Ok(None);
            },
            Err(error) => {
                return Err(error);
            },
        };
        let (mut tree, place) = match read_tree(resolver, &root) {
            Ok(read) => read,
            Err(error) => {
                return Err(error);
            },
        };
        let ghost model = labels_tree(resolver.model())->Some_0;
        let mut labels: Vec<String> = Vec::new();
        while labels.len() < page_count
            invariant
                page_count <= i64::MAX,
                labels@.len() <= page_count,
                tree.well_formed(),
                place < tree.nodes().len(),
                tree.nodes()[place as int].model@ == model,
                forall|i: int|
                    0 <= i < labels@.len() ==> (#[trigger] labels@[i])@ == page_label(model, i),
            decreases page_count - labels@.len(),
        {
            let index = labels.len();
            labels.push(label_of_page(&mut tree, place, index));
        }
        Ok(Some(PageLabels { labels }))
    }
}

/// The label of the page with the index `index`, by the tree whose root is at `place`.
fn label_of_page(tree: &mut NumberTree, place: usize, index: usize) -> (r: String)
    requires
        old(tree).well_formed(),
        place < old(tree).nodes().len(),
        index < i64::MAX,
        index < usize::MAX,
    ensures
        final(tree).well_formed(),
        final(tree).nodes() == old(tree).nodes(),
        r@ == page_label(old(tree).nodes()[place as int].model@, index as int),
{
    let ghost model = tree.nodes()[place as int].model@;
    let number = index as i64;
    if let Some((key, Some(entry))) = tree.lower_bound(place, number) {
        let ghost expected = lower_bound(model, number)->Some_0.1->Some_0;
        if let Object::Dictionary(range) = tree.entry_value(entry, Ghost(expected)) {
            return label(range, offset_from(number, key));
        }
    }
    string_of(&decimal_of_usize(index + 1))
}

/// How far `number` is past `key`, wrapped around as an `i64` is.
fn offset_from(number: i64, key: i64) -> (r: i64)
    requires
        0 <= number,
    ensures
        r == pages_into(number, key),
{
    let offset = number as i128 - key as i128;
    if offset > i64::MAX as i128 {
        (offset - 0x1_0000_0000_0000_0000) as i64
    } else {
        offset as i64
    }
}

/// The label of the page `offset` pages into the range `range`.
pub fn label(range: &Dictionary, offset: i64) -> (r: String)
    ensures
        r@ == range_label(range@, offset),
{
    let mut label: Vec<char> = Vec::new();
    let prefix = match range.named("P") {
        Some(Object::Name(name)) => decode_text_bytes(name.as_slice()),
        Some(Object::String(bytes, _)) => decode_text_bytes(bytes.as_slice()),
        _ => Err(Error::TextStringDecode),
    };
    if let Ok(prefix) = prefix {
        label = chars_of(prefix.as_str());
    }
    assert(label@ =~= range_prefix(range@));
    let first = match range.named("St") {
        Some(start) => integer(start),
        None => 1,
    };
    let sum = offset as i128 + first as i128;
    let number = if sum > i64::MAX as i128 {
        i64::MAX
    } else if sum < i64::MIN as i128 {
        i64::MIN
    } else {
        sum as i64
    };
    let style = match range.named("S") {
        Some(Object::Name(name)) => Some(name),
        Some(Object::String(bytes, _)) => Some(bytes),
        _ => None,
    };
    if let Some(style) = style {
        append_chars(&mut label, &number_in_style(style.as_slice(), number));
    }
    assert(label@ =~= range_label(range@, offset));
    string_of(&label)
}

fn number_in_style(style: &[u8], number: i64) -> (r: Vec<char>)
    ensures
        r@ == styled(style@, number),
{
    if spells(style, "D") {
        decimal_chars(number)
    } else if spells(style, "R") {
        upper_case(&roman_chars(number))
    } else if spells(style, "r") {
        roman_chars(number)
    } else if spells(style, "A") {
        upper_case(&letter_chars(number))
    } else if spells(style, "a") {
        letter_chars(number)
    } else {
        Vec::new()
    }
}

fn upper_case(text: &Vec<char>) -> (r: Vec<char>)
    ensures
        r@ == uppercase(text@),
{
    let mut out: Vec<char> = Vec::new();
    while out.len() < text.len()
        invariant
            out@.len() <= text@.len(),
            forall|i: int| 0 <= i < out@.len() ==> #[trigger] out@[i] == upper(text@[i]),
        decreases text@.len() - out@.len(),
    {
        let c = text[out.len()];
        if 'a' <= c && c <= 'z' {
            out.push((c as u8 - 32) as char);
        } else {
            out.push(c);
        }
    }
    assert(out@ =~= uppercase(text@));
    out
}

/// Appends `c` `count` times.
fn push_repeated(out: &mut Vec<char>, c: char, count: u64)
    ensures
        final(out)@ == old(out)@ + repeated(c, count as nat),
{
    let ghost before = out@;
    let mut i: u64 = 0;
    assert(out@ =~= before + repeated(c, 0));
    while i < count
        invariant
            i <= count,
            out@ == before + repeated(c, i as nat),
        decreases count - i,
    {
        out.push(c);
        i += 1;
        assert(out@ =~= before + repeated(c, i as nat));
    }
}

/// Appends one place of a Roman numeral.
fn push_roman_place(out: &mut Vec<char>, digit: u64, one: char, five: char, ten: char)
    requires
        digit < 10,
    ensures
        final(out)@ == old(out)@ + roman_place(digit as int, one, five, ten),
{
    let ghost before = out@;
    if digit <= 3 {
        push_repeated(out, one, digit);
    } else if digit == 4 {
        out.push(one);
        out.push(five);
    } else if digit <= 8 {
        out.push(five);
        push_repeated(out, one, digit - 5);
    } else {
        out.push(one);
        out.push(ten);
    }
    assert(out@ =~= before + roman_place(digit as int, one, five, ten));
}

fn roman_chars(number: i64) -> (r: Vec<char>)
    ensures
        r@ == roman_numeral(number as int),
{
    let mut out: Vec<char> = Vec::new();
    if number > 0 {
        let n = number as u64 % 1_000_000;
        push_repeated(&mut out, 'm', n / 1000);
        push_roman_place(&mut out, n / 100 % 10, 'c', 'd', 'm');
        push_roman_place(&mut out, n / 10 % 10, 'x', 'l', 'c');
        push_roman_place(&mut out, n % 10, 'i', 'v', 'x');
    }
    assert(out@ =~= roman_numeral(number as int));
    out
}

fn letter_chars(number: i64) -> (r: Vec<char>)
    ensures
        r@ == letter_numeral(number),
{
    let mut out: Vec<char> = Vec::new();
    if number == 0 {
        return out;
    }
    let index = if number == i64::MIN {
        i64::MAX
    } else {
        number - 1
    };
    if index >= 0 {
        let index = index as u64;
        let letter = (97 + index % 26) as u8 as char;
        push_repeated(&mut out, letter, (index / 26 + 1) % 1000);
    } else if index > -26 {
        out.push((97 + index) as u8 as char);
    }
    assert(out@ =~= letter_numeral(number));
    out
}

/// `number` in lower-case Roman numerals, from its remainder by 1,000,000 as in pdfium; nothing
/// for zero or less.
pub fn roman(number: i64) -> (r: String)
    ensures
        r@ == roman_numeral(number as int),
{
    string_of(&roman_chars(number))
}

/// `number` as lower-case letters, as in pdfium: `a` to `z`, then `aa` to `zz`, and so on, with a
/// letter repeated at most 999 times.
pub fn letters(number: i64) -> (r: String)
    ensures
        r@ == letter_numeral(number),
{
    string_of(&letter_chars(number))
}

/// The labels of a document's first `count` pages.
pub open spec fn labels_of_pages(model: Model, count: nat) -> Option<Seq<Seq<char>>> {
    match labels_tree(model) {
        Some(tree) => Some(Seq::new(count, |i: int| page_label(tree, i))),
        None => None,
    }
}

/// A label depends on its page's index, not on how many pages there are: the labels of fewer pages are
/// those that the labels of more pages start with.
pub proof fn lemma_labels_of_fewer_pages(model: Model, fewer: nat, more: nat)
    requires
        fewer <= more,
    ensures
        match labels_of_pages(model, more) {
            Some(labels) => labels_of_pages(model, fewer) == Some(labels.take(fewer as int)),
            None => labels_of_pages(model, fewer) is None,
        },
{
    if let Some(labels) = labels_of_pages(model, more) {
        assert(labels_of_pages(model, fewer)->Some_0 =~= labels.take(fewer as int));
    }
}

} // verus!
