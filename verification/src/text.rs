//! Text as characters: whitespace, decimal numbers, and strings built a character at a time.

use vstd::prelude::*;
use vstd::utf8::{decode_utf8, is_scalar, valid_utf8};

verus! {

/// `String::push` appends one character.
pub assume_specification[ std::string::String::push ](string: &mut std::string::String, c: char)
    ensures
        final(string)@ == old(string)@.push(c),
;

/// `char::from_u32` gives the character with the code point `code`, which there is unless `code`
/// is a surrogate or past the last code point.
pub assume_specification[ char::from_u32 ](code: u32) -> (r: Option<char>)
    ensures
        match r {
            Some(c) => is_scalar(code) && c as u32 == code,
            None => !is_scalar(code),
        },
;

/// `String::from_utf8` decodes UTF-8, and fails on anything else.
#[verifier::external_body]
pub(crate) fn utf8_string(bytes: Vec<u8>) -> (r: Option<String>)
    ensures
        match r {
            Some(string) => valid_utf8(bytes@) && string@ == decode_utf8(bytes@),
            None => !valid_utf8(bytes@),
        },
{
    String::from_utf8(bytes).ok()
}

/// What `String::from_utf8_lossy` decodes bytes to.
pub uninterp spec fn lossy_utf8(bytes: Seq<u8>) -> Seq<char>;

/// `String::from_utf8_lossy` decodes UTF-8, with a replacement character where the bytes are not
/// UTF-8.
#[verifier::external_body]
pub(crate) fn lossy_utf8_string(bytes: &[u8]) -> (r: String)
    ensures
        r@ == lossy_utf8(bytes@),
        valid_utf8(bytes@) ==> r@ == decode_utf8(bytes@),
{
    String::from_utf8_lossy(bytes).into_owned()
}

/// How `str`'s `Debug` writes text: in quotes, with escapes.
pub uninterp spec fn debug_text(text: Seq<char>) -> Seq<char>;

/// `format!("{:?}", ..)` of a string writes it in quotes, with escapes.
#[verifier::external_body]
pub(crate) fn debug_string(text: &String) -> (r: String)
    ensures
        r@ == debug_text(text@),
{
    format!("{:?}", text)
}

/// Whether `c` has Unicode's `White_Space` property.
pub open spec fn is_space(c: char) -> bool {
    let code = c as u32;
    ||| 0x9 <= code <= 0xd
    ||| code == 0x20
    ||| code == 0x85
    ||| code == 0xa0
    ||| code == 0x1680
    ||| 0x2000 <= code <= 0x200a
    ||| code == 0x2028
    ||| code == 0x2029
    ||| code == 0x202f
    ||| code == 0x205f
    ||| code == 0x3000
}

pub fn is_whitespace(c: char) -> (r: bool)
    ensures
        r == is_space(c),
{
    let code = c as u32;
    (0x9 <= code && code <= 0xd) || code == 0x20 || code == 0x85 || code == 0xa0 || code == 0x1680
        || (0x2000 <= code && code <= 0x200a) || code == 0x2028 || code == 0x2029 || code == 0x202f
        || code == 0x205f || code == 0x3000
}

/// The characters of `text`.
pub fn chars_of(text: &str) -> (r: Vec<char>)
    ensures
        r@ == text@,
{
    let mut chars: Vec<char> = Vec::new();
    for c in iter: text.chars()
        invariant
            iter.seq() == text@,
            chars@ == text@.take(iter.index() as int),
    {
        chars.push(c);
        assert(chars@ =~= text@.take(iter.index() + 1));
    }
    assert(chars@ =~= text@);
    chars
}

/// The string of `chars`.
pub fn string_of(chars: &Vec<char>) -> (r: String)
    ensures
        r@ == chars@,
{
    let mut string = String::new();
    let mut i: usize = 0;
    while i < chars.len()
        invariant
            i <= chars@.len(),
            string@ == chars@.take(i as int),
        decreases chars@.len() - i,
    {
        string.push(chars[i]);
        i += 1;
        assert(string@ =~= chars@.take(i as int));
    }
    assert(string@ =~= chars@);
    string
}

/// Appends `tail` to `chars`.
pub fn append_chars(chars: &mut Vec<char>, tail: &Vec<char>)
    ensures
        final(chars)@ == old(chars)@ + tail@,
{
    let ghost before = chars@;
    let mut i: usize = 0;
    assert(chars@ =~= before + tail@.take(0));
    while i < tail.len()
        invariant
            i <= tail@.len(),
            chars@ == before + tail@.take(i as int),
        decreases tail@.len() - i,
    {
        chars.push(tail[i]);
        i += 1;
        assert(chars@ =~= before + tail@.take(i as int));
    }
    assert(chars@ =~= before + tail@);
}

/// `text` with each run of whitespace between words as a single space, and none at either end.
pub open spec fn collapsed(text: Seq<char>) -> Seq<char>
    decreases text.len(),
{
    if text.len() == 0 {
        Seq::empty()
    } else {
        let head = collapsed(text.drop_last());
        if is_space(text.last()) {
            head
        } else if head.len() > 0 && is_space(text[text.len() - 2]) {
            head.push(' ').push(text.last())
        } else {
            head.push(text.last())
        }
    }
}

/// Collapsed text starts and ends with no whitespace, and holds none but single spaces.
pub proof fn lemma_collapsed(text: Seq<char>)
    ensures
        collapsed(text).len() > 0 ==> !is_space(collapsed(text)[0]) && !is_space(
            collapsed(text).last(),
        ),
        forall|i: int|
            0 <= i < collapsed(text).len() && is_space(#[trigger] collapsed(text)[i])
                ==> collapsed(text)[i] == ' ',
        forall|i: int|
            0 < i < collapsed(text).len() && is_space(#[trigger] collapsed(text)[i]) ==> !is_space(
                collapsed(text)[i - 1],
            ),
    decreases text.len(),
{
    if text.len() > 0 {
        lemma_collapsed(text.drop_last());
    }
}

/// Text without whitespace in need of it collapses to itself.
pub proof fn lemma_collapsed_again(text: Seq<char>)
    requires
        text.len() > 0 ==> !is_space(text[0]),
        forall|i: int| 0 <= i < text.len() && is_space(#[trigger] text[i]) ==> text[i] == ' ',
        forall|i: int|
            0 < i < text.len() && is_space(#[trigger] text[i]) ==> !is_space(text[i - 1]),
    ensures
        collapsed(text) == if text.len() > 0 && is_space(text.last()) {
            text.drop_last()
        } else {
            text
        },
    decreases text.len(),
{
    if text.len() > 0 {
        let head = text.drop_last();
        lemma_collapsed_again(head);
        if !is_space(text.last()) {
            if head.len() > 0 && is_space(head.last()) {
                assert(is_space(text[text.len() - 2]));
                assert(head.drop_last().len() > 0);
                assert(collapsed(text) =~= text);
            } else {
                assert(collapsed(text) =~= text);
            }
        }
    }
}

/// Collapsing text twice changes nothing more.
pub proof fn lemma_collapsing_is_idempotent(text: Seq<char>)
    ensures
        collapsed(collapsed(text)) == collapsed(text),
{
    lemma_collapsed(text);
    lemma_collapsed_again(collapsed(text));
}

/// `text` with each run of whitespace between words as a single space, and none at either end.
pub fn collapse_whitespace(text: &str) -> (r: String)
    ensures
        r@ == collapsed(text@),
{
    let chars = chars_of(text);
    let mut out = String::new();
    let mut empty = true;
    let mut gap = false;
    let mut i: usize = 0;
    while i < chars.len()
        invariant
            i <= chars@.len(),
            out@ == collapsed(chars@.take(i as int)),
            empty == (out@.len() == 0),
            gap == (i > 0 && is_space(chars@[i - 1])),
        decreases chars@.len() - i,
    {
        assert(chars@.take(i + 1).drop_last() =~= chars@.take(i as int));
        let c = chars[i];
        if is_whitespace(c) {
            gap = true;
        } else {
            if gap && !empty {
                out.push(' ');
            }
            out.push(c);
            empty = false;
            gap = false;
        }
        i += 1;
    }
    assert(chars@.take(i as int) =~= text@);
    out
}

/// Where the whitespace at the start of `text` ends.
pub open spec fn leading_space(text: Seq<char>) -> nat
    decreases text.len(),
{
    if text.len() > 0 && is_space(text[0]) {
        1 + leading_space(text.drop_first())
    } else {
        0
    }
}

/// How much whitespace `text` ends with.
pub open spec fn trailing_space(text: Seq<char>) -> nat
    decreases text.len(),
{
    if text.len() > 0 && is_space(text.last()) {
        1 + trailing_space(text.drop_last())
    } else {
        0
    }
}

/// `text` without the whitespace at its ends.
pub open spec fn trimmed(text: Seq<char>) -> Seq<char> {
    let rest = text.skip(leading_space(text) as int);
    rest.take(rest.len() - trailing_space(rest))
}

proof fn lemma_leading_space(text: Seq<char>, n: nat)
    requires
        n <= text.len(),
        forall|i: int| 0 <= i < n ==> is_space(#[trigger] text[i]),
        n == text.len() || !is_space(text[n as int]),
    ensures
        leading_space(text) == n,
    decreases n,
{
    if n > 0 {
        let rest = text.drop_first();
        assert forall|i: int| 0 <= i < n - 1 implies is_space(#[trigger] rest[i]) by {
            assert(rest[i] == text[i + 1]);
        }
        assert(is_space(text[0]));
        lemma_leading_space(rest, (n - 1) as nat);
    }
}

proof fn lemma_trailing_space(text: Seq<char>, n: nat)
    requires
        n <= text.len(),
        forall|i: int| text.len() - n <= i < text.len() ==> is_space(#[trigger] text[i]),
        n == text.len() || !is_space(text[text.len() - n - 1]),
    ensures
        trailing_space(text) == n,
    decreases n,
{
    if n > 0 {
        lemma_trailing_space(text.drop_last(), (n - 1) as nat);
    }
}

/// `text` without the whitespace at its ends.
pub fn trim(text: &str) -> (r: String)
    ensures
        r@ == trimmed(text@),
{
    let chars = chars_of(text);
    let mut start: usize = 0;
    while start < chars.len() && is_whitespace(chars[start])
        invariant
            start <= chars@.len(),
            forall|i: int| 0 <= i < start ==> is_space(#[trigger] chars@[i]),
        decreases chars@.len() - start,
    {
        start += 1;
    }
    let mut end: usize = chars.len();
    while end > start && is_whitespace(chars[end - 1])
        invariant
            start <= end <= chars@.len(),
            forall|i: int| end <= i < chars@.len() ==> is_space(#[trigger] chars@[i]),
        decreases end,
    {
        end -= 1;
    }
    let ghost rest = chars@.skip(start as int);
    proof {
        lemma_leading_space(chars@, start as nat);
        lemma_trailing_space(rest, (chars@.len() - end) as nat);
    }
    let mut out = String::new();
    let mut i: usize = start;
    while i < end
        invariant
            start <= i <= end <= chars@.len(),
            out@ == chars@.subrange(start as int, i as int),
        decreases end - i,
    {
        out.push(chars[i]);
        i += 1;
        assert(out@ =~= chars@.subrange(start as int, i as int));
    }
    assert(out@ =~= rest.take(end - start));
    out
}

/// The decimal digits of `n`.
pub open spec fn digits(n: nat) -> Seq<char>
    decreases n,
{
    if n < 10 {
        seq![('0' as u32 + n) as u32 as char]
    } else {
        digits(n / 10).push(('0' as u32 + n % 10) as u32 as char)
    }
}

/// `n` in decimal.
pub open spec fn decimal(n: int) -> Seq<char> {
    if n < 0 {
        seq!['-'] + digits((-n) as nat)
    } else {
        digits(n as nat)
    }
}

fn digit(n: u64) -> (r: char)
    requires
        n < 10,
    ensures
        r == ('0' as u32 + n) as u32 as char,
{
    (48u8 + n as u8) as char
}

/// The decimal digits of `n`.
pub fn digits_of(n: u64) -> (r: Vec<char>)
    ensures
        r@ == digits(n as nat),
    decreases n,
{
    if n < 10 {
        let mut chars: Vec<char> = Vec::new();
        chars.push(digit(n));
        assert(chars@ =~= digits(n as nat));
        chars
    } else {
        let mut chars = digits_of(n / 10);
        chars.push(digit(n % 10));
        chars
    }
}

/// `n` in decimal.
pub fn decimal_chars(n: i64) -> (r: Vec<char>)
    ensures
        r@ == decimal(n as int),
{
    if n < 0 {
        let digits = digits_of((-(n as i128)) as u64);
        let mut chars: Vec<char> = Vec::new();
        chars.push('-');
        append_chars(&mut chars, &digits);
        assert(chars@ =~= decimal(n as int));
        chars
    } else {
        digits_of(n as u64)
    }
}

/// `n` in decimal.
pub fn decimal_of_usize(n: usize) -> (r: Vec<char>)
    ensures
        r@ == decimal(n as int),
{
    digits_of(n as u64)
}

} // verus!
