//! Writing documents: with a cross-reference table, or with object streams and a cross-reference
//! stream.
//!
//! Only objects of generation 0 are written, and documents that hold no real number.

use vstd::prelude::*;

use crate::bytes::{key, spells};
use crate::document::Document;
use crate::fixtures::{
    escaped, name_object, name_value, numbered, push_escaped, push_text, put, with,
};
use crate::object::{
    entry_values, value, values, Dictionary, Entries, Object, ObjectId, Stream, StringFormat, Value,
};
use crate::text::{decimal, decimal_chars, digits, digits_of, string_of};

verus! {

/// A hexadecimal digit.
pub open spec fn hex_digit(n: u8) -> u8 {
    if n < 10 {
        (0x30 + n) as u8
    } else {
        (0x37 + n) as u8
    }
}

/// The two hexadecimal digits of a byte.
pub open spec fn hex_pair(byte: u8) -> Seq<u8> {
    seq![hex_digit(byte / 16), hex_digit(byte % 16)]
}

/// The bytes of `text` as hexadecimal digits.
pub open spec fn hex_pairs(text: Seq<u8>) -> Seq<u8>
    decreases text.len(),
{
    if text.len() == 0 {
        Seq::empty()
    } else {
        hex_pairs(text.drop_last()) + hex_pair(text.last())
    }
}

/// Whether a byte of a name stands for itself: a letter, a digit, or one of `-_.+`.
pub open spec fn is_plain(byte: u8) -> bool {
    ||| 0x30 <= byte <= 0x39
    ||| 0x41 <= byte <= 0x5a
    ||| 0x61 <= byte <= 0x7a
    ||| byte == 0x2d
    ||| byte == 0x5f
    ||| byte == 0x2e
    ||| byte == 0x2b
}

/// The bytes of a name behind its `/`: what does not stand for itself is given by its digits.
pub open spec fn name_text(name: Seq<u8>) -> Seq<u8>
    decreases name.len(),
{
    if name.len() == 0 {
        Seq::empty()
    } else {
        name_text(name.drop_last()) + if is_plain(name.last()) {
            seq![name.last()]
        } else {
            seq![0x23u8] + hex_pair(name.last())
        }
    }
}

/// A number in decimal.
pub open spec fn number_text(n: int) -> Seq<u8> {
    key(decimal(n))
}

/// How `value` is written. A stream's `/Length` is that of its content.
pub open spec fn object_bytes(value: Value) -> Seq<u8>
    decreases value, 0int,
{
    match value {
        Value::Null => key("null"@),
        Value::Boolean(true) => key("true"@),
        Value::Boolean(false) => key("false"@),
        Value::Integer(i) => number_text(i as int),
        Value::Real(_) => Seq::empty(),
        Value::Name(name) => key("/"@) + name_text(name),
        Value::String(text, StringFormat::Literal) => key("("@) + escaped(text) + key(")"@),
        Value::String(text, StringFormat::Hexadecimal) => key("<"@) + hex_pairs(text) + key(">"@),
        Value::Array(items) => key("["@) + items_bytes(items, 0) + key("]"@),
        Value::Dictionary(entries) => key("<<"@) + entries_bytes(entries, 0, false) + key(">>"@),
        Value::Stream(entries, content) => key("<<"@) + entries_bytes(entries, 0, true) + key(
            "/Length "@,
        ) + key(digits(content.len())) + key(">>\nstream\n"@) + content + key("\nendstream"@),
        Value::Reference(id) => key(digits(id.0 as nat)) + key(" "@) + key(digits(id.1 as nat)) + key(
            " R"@,
        ),
    }
}

/// How `items` from `i` on are written.
pub open spec fn items_bytes(items: Seq<Value>, i: nat) -> Seq<u8>
    decreases items, items.len() - i,
{
    if i < items.len() {
        object_bytes(items[i as int]) + key(" "@) + items_bytes(items, i + 1)
    } else {
        Seq::empty()
    }
}

/// How `entries` from `i` on are written, without `/Length` for a stream.
pub open spec fn entries_bytes(entries: Entries, i: nat, stream: bool) -> Seq<u8>
    decreases entries, entries.len() - i,
{
    if i < entries.len() {
        let (name, value) = entries[i as int];
        let own = if stream && name == key("Length"@) {
            Seq::empty()
        } else {
            key("/"@) + name_text(name) + key(" "@) + object_bytes(entries[i as int].1) + key(" "@)
        };
        own + entries_bytes(entries, i + 1, stream)
    } else {
        Seq::empty()
    }
}

/// Whether `value` is or holds a real number.
pub open spec fn has_real(value: Value) -> bool
    decreases value, 0int,
{
    match value {
        Value::Real(_) => true,
        Value::Array(items) => items_have_real(items, 0),
        Value::Dictionary(entries) => entries_have_real(entries, 0),
        Value::Stream(entries, _) => entries_have_real(entries, 0),
        _ => false,
    }
}

pub open spec fn items_have_real(items: Seq<Value>, i: nat) -> bool
    decreases items, items.len() - i,
{
    i < items.len() && (has_real(items[i as int]) || items_have_real(items, i + 1))
}

pub open spec fn entries_have_real(entries: Entries, i: nat) -> bool
    decreases entries, entries.len() - i,
{
    i < entries.len() && (has_real(entries[i as int].1) || entries_have_real(entries, i + 1))
}

fn push_hex(out: &mut Vec<u8>, byte: u8)
    ensures
        final(out)@ == old(out)@ + hex_pair(byte),
{
    let high = byte / 16;
    let low = byte % 16;
    out.push(if high < 10 {
        0x30 + high
    } else {
        0x37 + high
    });
    out.push(if low < 10 {
        0x30 + low
    } else {
        0x37 + low
    });
    assert(out@ =~= old(out)@ + hex_pair(byte));
}

fn push_pairs(out: &mut Vec<u8>, text: &[u8])
    ensures
        final(out)@ == old(out)@ + hex_pairs(text@),
{
    let mut i: usize = 0;
    assert(out@ =~= old(out)@ + hex_pairs(text@.take(0)));
    while i < text.len()
        invariant
            i <= text@.len(),
            out@ == old(out)@ + hex_pairs(text@.take(i as int)),
        decreases text@.len() - i,
    {
        push_hex(out, text[i]);
        i += 1;
        assert(text@.take(i as int).drop_last() =~= text@.take(i - 1));
        assert(out@ =~= old(out)@ + hex_pairs(text@.take(i as int)));
    }
    assert(text@.take(i as int) =~= text@);
}

fn push_name(out: &mut Vec<u8>, name: &[u8])
    ensures
        final(out)@ == old(out)@ + key("/"@) + name_text(name@),
{
    push_text(out, "/");
    let ghost before = out@;
    let mut i: usize = 0;
    assert(out@ =~= before + name_text(name@.take(0)));
    while i < name.len()
        invariant
            i <= name@.len(),
            out@ == before + name_text(name@.take(i as int)),
        decreases name@.len() - i,
    {
        let byte = name[i];
        if (0x30 <= byte && byte <= 0x39) || (0x41 <= byte && byte <= 0x5a) || (0x61 <= byte && byte
            <= 0x7a) || byte == 0x2d || byte == 0x5f || byte == 0x2e || byte == 0x2b {
            out.push(byte);
        } else {
            out.push(0x23);
            push_hex(out, byte);
        }
        i += 1;
        assert(name@.take(i as int).drop_last() =~= name@.take(i - 1));
        assert(out@ =~= before + name_text(name@.take(i as int)));
    }
    assert(name@.take(i as int) =~= name@);
}

fn push_integer(out: &mut Vec<u8>, n: i64)
    ensures
        final(out)@ == old(out)@ + number_text(n as int),
{
    push_text(out, string_of(&decimal_chars(n)).as_str());
}

fn push_count(out: &mut Vec<u8>, n: u64)
    ensures
        final(out)@ == old(out)@ + key(digits(n as nat)),
{
    push_text(out, string_of(&digits_of(n)).as_str());
}

/// Appends `object` as it is written.
pub fn push_object(out: &mut Vec<u8>, object: &Object)
    ensures
        final(out)@ == old(out)@ + object_bytes(object@),
    decreases object,
{
    let ghost before = out@;
    match object {
        Object::Null => {
            push_text(out, "null");
        },
        Object::Boolean(b) => {
            if *b {
                push_text(out, "true");
            } else {
                push_text(out, "false");
            }
        },
        Object::Integer(i) => {
            push_integer(out, *i);
        },
        Object::Real(_) => {},
        Object::Name(name) => {
            push_name(out, name.as_slice());
        },
        Object::String(text, StringFormat::Literal) => {
            push_text(out, "(");
            push_escaped(out, text.as_slice());
            push_text(out, ")");
        },
        Object::String(text, StringFormat::Hexadecimal) => {
            push_text(out, "<");
            push_pairs(out, text.as_slice());
            push_text(out, ">");
        },
        Object::Array(items) => {
            push_text(out, "[");
            push_items(out, items);
            push_text(out, "]");
        },
        Object::Dictionary(dictionary) => {
            push_text(out, "<<");
            push_entries(out, &dictionary.entries, false);
            push_text(out, ">>");
        },
        Object::Stream(stream) => {
            push_text(out, "<<");
            push_entries(out, &stream.dict.entries, true);
            push_text(out, "/Length ");
            push_count(out, stream.content.len() as u64);
            push_text(out, ">>\nstream\n");
            let ghost head = out@;
            out.extend_from_slice(stream.content.as_slice());
            assert(out@ =~= head + stream.content@);
            push_text(out, "\nendstream");
        },
        Object::Reference(id) => {
            push_count(out, id.0 as u64);
            push_text(out, " ");
            push_count(out, id.1 as u64);
            push_text(out, " R");
        },
    }
    assert(out@ =~= before + object_bytes(object@));
}

fn push_items(out: &mut Vec<u8>, items: &Vec<Object>)
    ensures
        final(out)@ == old(out)@ + items_bytes(values(items@), 0),
    decreases items,
{
    let ghost all = values(items@);
    let ghost whole = out@ + items_bytes(all, 0);
    let mut i: usize = 0;
    while i < items.len()
        invariant
            i <= items@.len(),
            all == values(items@),
            out@ + items_bytes(all, i as nat) == whole,
        decreases items@.len() - i,
    {
        let ghost before = out@;
        assert(all[i as int] == value(items@[i as int]));
        push_object(out, &items[i]);
        push_text(out, " ");
        i += 1;
        assert(out@ + items_bytes(all, i as nat) =~= before + items_bytes(all, (i - 1) as nat));
    }
    assert(out@ + items_bytes(all, i as nat) =~= out@);
}

fn push_entries(out: &mut Vec<u8>, entries: &Vec<(Vec<u8>, Object)>, stream: bool)
    ensures
        final(out)@ == old(out)@ + entries_bytes(
            entry_values(entries@),
            0,
            stream,
        ),
    decreases entries,
{
    let ghost all = entry_values(entries@);
    let ghost whole = out@ + entries_bytes(all, 0, stream);
    let mut i: usize = 0;
    while i < entries.len()
        invariant
            i <= entries@.len(),
            all == entry_values(entries@),
            out@ + entries_bytes(all, i as nat, stream) == whole,
        decreases entries@.len() - i,
    {
        let ghost before = out@;
        let entry = &entries[i];
        assert(all[i as int] == (entry.0@, value(entry.1)));
        if !(stream && spells(entry.0.as_slice(), "Length")) {
            push_name(out, entry.0.as_slice());
            push_text(out, " ");
            push_object(out, &entry.1);
            push_text(out, " ");
        }
        i += 1;
        assert(out@ + entries_bytes(all, i as nat, stream) =~= before + entries_bytes(
            all,
            (i - 1) as nat,
            stream,
        ));
    }
    assert(out@ + entries_bytes(all, i as nat, stream) =~= out@);
}

fn holds_real(object: &Object) -> (r: bool)
    ensures
        r == has_real(object@),
    decreases object,
{
    match object {
        Object::Real(_) => true,
        Object::Array(items) => item_holds_real(items),
        Object::Dictionary(dictionary) => entry_holds_real(&dictionary.entries),
        Object::Stream(stream) => entry_holds_real(&stream.dict.entries),
        _ => false,
    }
}

fn item_holds_real(items: &Vec<Object>) -> (r: bool)
    ensures
        r == items_have_real(values(items@), 0),
    decreases items,
{
    let ghost all = values(items@);
    let mut i: usize = 0;
    while i < items.len()
        invariant
            i <= items@.len(),
            all == values(items@),
            items_have_real(all, 0) == items_have_real(all, i as nat),
        decreases items@.len() - i,
    {
        assert(all[i as int] == value(items@[i as int]));
        if holds_real(&items[i]) {
            return true;
        }
        i += 1;
    }
    false
}

fn entry_holds_real(entries: &Vec<(Vec<u8>, Object)>) -> (r: bool)
    ensures
        r == entries_have_real(entry_values(entries@), 0),
    decreases entries,
{
    let ghost all = entry_values(entries@);
    let mut i: usize = 0;
    while i < entries.len()
        invariant
            i <= entries@.len(),
            all == entry_values(entries@),
            entries_have_real(all, 0) == entries_have_real(all, i as nat),
        decreases entries@.len() - i,
    {
        let entry = &entries[i];
        assert(all[i as int] == (entry.0@, value(entry.1)));
        if holds_real(&entry.1) {
            return true;
        }
        i += 1;
    }
    false
}

/// Whether none of the objects numbered up to `n` holds a real number.
pub open spec fn no_real_up_to(objects: Map<ObjectId, Value>, n: nat) -> bool
    decreases n,
{
    n == 0 || (no_real_up_to(objects, (n - 1) as nat) && !(objects.contains_key(
        numbered(n as int),
    ) && has_real(objects[numbered(n as int)])))
}

/// Whether a document holds no real number.
pub open spec fn holds_no_real(document: &Document) -> bool {
    no_real_up_to(document.stored(), document.max_id as nat) && !entries_have_real(
        document.trailer@,
        0,
    )
}

fn is_without_reals(document: &Document) -> (r: bool)
    ensures
        r == holds_no_real(document),
{
    let mut n: u32 = 0;
    let mut none: bool = true;
    while n < document.max_id
        invariant
            n <= document.max_id,
            none == no_real_up_to(document.stored(), n as nat),
        decreases document.max_id - n,
    {
        n += 1;
        if let Some(object) = document.objects.get((n, 0)) {
            assert(document.stored()[(n, 0)] == object@);
            if holds_real(object) {
                none = false;
            }
        }
    }
    none && !entry_holds_real(&document.trailer.entries)
}

/// An object with its number.
pub open spec fn block(number: int, value: Value) -> Seq<u8> {
    key(digits(number as nat)) + key(" 0 obj\n"@) + object_bytes(value) + key("\nendobj\n"@)
}

fn push_block(out: &mut Vec<u8>, number: u32, object: &Object)
    ensures
        final(out)@ == old(out)@ + block(number as int, object@),
{
    let ghost before = out@;
    push_count(out, number as u64);
    push_text(out, " 0 obj\n");
    push_object(out, object);
    push_text(out, "\nendobj\n");
    assert(out@ =~= before + block(number as int, object@));
}

/// The first line of a file.
pub open spec fn header_line(version: Seq<char>) -> Seq<u8> {
    key("%PDF-"@) + key(version) + key("\n"@)
}

/// The last lines of a file whose cross-reference section is at `start`.
pub open spec fn last_lines(start: nat) -> Seq<u8> {
    key("startxref\n"@) + key(digits(start)) + key("\n%%EOF\n"@)
}

fn push_last_lines(out: &mut Vec<u8>, start: usize)
    ensures
        final(out)@ == old(out)@ + last_lines(start as nat),
{
    let ghost before = out@;
    push_text(out, "startxref\n");
    push_count(out, start as u64);
    push_text(out, "\n%%EOF\n");
    assert(out@ =~= before + last_lines(start as nat));
}

/// The objects numbered up to `n` behind `head`.
pub open spec fn blocks(objects: Map<ObjectId, Value>, head: Seq<u8>, n: nat) -> Seq<u8>
    decreases n,
{
    if n == 0 {
        head
    } else {
        let before = blocks(objects, head, (n - 1) as nat);
        let id = numbered(n as int);
        if objects.contains_key(id) {
            before + block(n as int, objects[id])
        } else {
            before
        }
    }
}

/// The last `width` decimal digits of `n`, with zeros in front.
pub open spec fn padded(n: nat, width: nat) -> Seq<u8>
    decreases width,
{
    if width == 0 {
        Seq::empty()
    } else {
        padded(n / 10, (width - 1) as nat).push((0x30 + n % 10) as u8)
    }
}

fn push_padded(out: &mut Vec<u8>, n: u64, width: usize)
    ensures
        final(out)@ == old(out)@ + padded(n as nat, width as nat),
    decreases width,
{
    let ghost before = out@;
    if width > 0 {
        push_padded(out, n / 10, width - 1);
        out.push(0x30 + (n % 10) as u8);
    }
    assert(out@ =~= before + padded(n as nat, width as nat));
}

/// The entries of a cross-reference table for the objects numbered up to `n`.
pub open spec fn table_lines(objects: Map<ObjectId, Value>, head: Seq<u8>, n: nat) -> Seq<u8>
    decreases n,
{
    if n == 0 {
        Seq::empty()
    } else {
        let before = table_lines(objects, head, (n - 1) as nat);
        if objects.contains_key(numbered(n as int)) {
            before + padded(blocks(objects, head, (n - 1) as nat).len(), 10) + key(
                " 00000 n \n"@,
            )
        } else {
            before + key("0000000000 00000 f \n"@)
        }
    }
}

/// The trailer of a document of `size` numbers.
pub open spec fn sized_trailer(trailer: Entries, size: int) -> Entries {
    with(trailer, "Size"@, Value::Integer(size as i64))
}

/// A document with a cross-reference table.
pub open spec fn with_table(document: &Document) -> Seq<u8> {
    let objects = document.stored();
    let head = header_line(document.version@);
    let count = document.max_id as nat;
    let body = blocks(objects, head, count);
    body + key("xref\n0 "@) + key(digits(count + 1)) + key("\n0000000000 65535 f \n"@) + table_lines(
        objects,
        head,
        count,
    ) + key("trailer\n"@) + object_bytes(
        Value::Dictionary(sized_trailer(document.trailer@, count as int + 1)),
    ) + key("\n"@) + last_lines(body.len())
}

/// The greatest offset that a cross-reference table can give.
pub const MAX_TABLE_OFFSET: u64 = 9_999_999_999;

/// Whether a document can be written with a cross-reference table.
pub open spec fn fits_a_table(document: &Document) -> bool {
    &&& holds_no_real(document)
    &&& blocks(
        document.stored(),
        header_line(document.version@),
        document.max_id as nat,
    ).len() <= MAX_TABLE_OFFSET
}

/// Writes `document` with a cross-reference table. `None` for one that holds a real number, or is
/// too long for the table's offsets.
pub fn save_with_table(document: &Document) -> (r: Option<Vec<u8>>)
    ensures
        match r {
            Some(bytes) => fits_a_table(document) && bytes@ == with_table(document),
            None => !fits_a_table(document),
        },
{
    if !is_without_reals(document) {
        return None;
    }
    let ghost objects = document.stored();
    let ghost head = header_line(document.version@);
    let mut out: Vec<u8> = Vec::new();
    push_text(&mut out, "%PDF-");
    push_text(&mut out, document.version.as_str());
    push_text(&mut out, "\n");
    assert(out@ =~= head);
    let mut table: Vec<u8> = Vec::new();
    let mut n: u32 = 0;
    while n < document.max_id
        invariant
            n <= document.max_id,
            objects == document.stored(),
            out@ == blocks(objects, head, n as nat),
            table@ == table_lines(objects, head, n as nat),
        decreases document.max_id - n,
    {
        n += 1;
        let ghost before = table@;
        match document.objects.get((n, 0)) {
            Some(object) => {
                assert(objects[(n, 0)] == object@);
                push_padded(&mut table, out.len() as u64, 10);
                push_text(&mut table, " 00000 n \n");
                push_block(&mut out, n, object);
            },
            None => {
                push_text(&mut table, "0000000000 00000 f \n");
            },
        }
        assert(table@ =~= table_lines(objects, head, n as nat));
    }
    let start = out.len();
    if start as u64 > MAX_TABLE_OFFSET {
        return None;
    }
    let ghost body = out@;
    push_text(&mut out, "xref\n0 ");
    push_count(&mut out, document.max_id as u64 + 1);
    push_text(&mut out, "\n0000000000 65535 f \n");
    let ghost so_far = out@;
    out.extend_from_slice(table.as_slice());
    assert(out@ =~= so_far + table@);
    push_text(&mut out, "trailer\n");
    let mut trailer = document.trailer.clone();
    put(&mut trailer, "Size", Object::Integer(document.max_id as i64 + 1));
    push_object(&mut out, &Object::Dictionary(trailer));
    push_text(&mut out, "\n");
    push_last_lines(&mut out, start);
    assert(out@ =~= with_table(document));
    Some(out)
}

/// Whether object number `n` can stand in an object stream: it is there, and is no stream.
pub open spec fn is_member(objects: Map<ObjectId, Value>, n: int) -> bool {
    objects.contains_key(numbered(n)) && !(objects[numbered(n)] is Stream)
}

/// The streams numbered up to `n` behind `head`.
pub open spec fn stream_blocks(objects: Map<ObjectId, Value>, head: Seq<u8>, n: nat) -> Seq<u8>
    decreases n,
{
    if n == 0 {
        head
    } else {
        let before = stream_blocks(objects, head, (n - 1) as nat);
        let id = numbered(n as int);
        if objects.contains_key(id) && objects[id] is Stream {
            before + block(n as int, objects[id])
        } else {
            before
        }
    }
}

/// The objects numbered up to `n` that an object stream holds, one behind the other.
pub open spec fn held(objects: Map<ObjectId, Value>, n: nat) -> Seq<u8>
    decreases n,
{
    if n == 0 {
        Seq::empty()
    } else if is_member(objects, n as int) {
        held(objects, (n - 1) as nat) + object_bytes(objects[numbered(n as int)]) + key(" "@)
    } else {
        held(objects, (n - 1) as nat)
    }
}

/// The numbers of those objects, each with where it stands.
pub open spec fn member_index(objects: Map<ObjectId, Value>, n: nat) -> Seq<u8>
    decreases n,
{
    if n == 0 {
        Seq::empty()
    } else if is_member(objects, n as int) {
        member_index(objects, (n - 1) as nat) + key(digits(n)) + key(" "@) + key(
            digits(held(objects, (n - 1) as nat).len()),
        ) + key(" "@)
    } else {
        member_index(objects, (n - 1) as nat)
    }
}

/// How many of the objects numbered up to `n` an object stream holds.
pub open spec fn member_count(objects: Map<ObjectId, Value>, n: nat) -> nat
    decreases n,
{
    if n == 0 {
        0
    } else if is_member(objects, n as int) {
        member_count(objects, (n - 1) as nat) + 1
    } else {
        member_count(objects, (n - 1) as nat)
    }
}

proof fn lemma_members_counted(objects: Map<ObjectId, Value>, n: nat)
    ensures
        member_count(objects, n) <= n,
    decreases n,
{
    if n > 0 {
        lemma_members_counted(objects, (n - 1) as nat);
    }
}

/// The object stream that holds them.
pub open spec fn container_value(objects: Map<ObjectId, Value>, n: nat) -> Value {
    let index = member_index(objects, n);
    let entries = with(
        with(
            with(Seq::empty(), "Type"@, name_value("ObjStm"@)),
            "N"@,
            Value::Integer(member_count(objects, n) as i64),
        ),
        "First"@,
        Value::Integer(index.len() as i64),
    );
    Value::Stream(entries, index + held(objects, n))
}

/// Four bytes, the most significant first.
pub open spec fn four_bytes(n: nat) -> Seq<u8> {
    seq![
        (n / 0x100_0000 % 0x100) as u8,
        (n / 0x1_0000 % 0x100) as u8,
        (n / 0x100 % 0x100) as u8,
        (n % 0x100) as u8,
    ]
}

fn push_four(out: &mut Vec<u8>, n: u32)
    ensures
        final(out)@ == old(out)@ + four_bytes(n as nat),
{
    out.push((n / 0x100_0000 % 0x100) as u8);
    out.push((n / 0x1_0000 % 0x100) as u8);
    out.push((n / 0x100 % 0x100) as u8);
    out.push((n % 0x100) as u8);
    assert(out@ =~= old(out)@ + four_bytes(n as nat));
}

/// An entry of a cross-reference stream.
pub open spec fn row(kind: u8, field: nat, last: nat) -> Seq<u8> {
    seq![kind] + four_bytes(field) + four_bytes(last)
}

fn push_row(out: &mut Vec<u8>, kind: u8, field: u32, last: u32)
    ensures
        final(out)@ == old(out)@ + row(kind, field as nat, last as nat),
{
    let ghost before = out@;
    out.push(kind);
    push_four(out, field);
    push_four(out, last);
    assert(out@ =~= before + row(kind, field as nat, last as nat));
}

/// The entries of a cross-reference stream for the numbers up to `n`, where `container` is the number
/// of the object stream.
pub open spec fn rows(
    objects: Map<ObjectId, Value>,
    head: Seq<u8>,
    container: nat,
    n: nat,
) -> Seq<u8>
    decreases n,
{
    if n == 0 {
        row(0, 0, 0)
    } else {
        let before = rows(objects, head, container, (n - 1) as nat);
        if is_member(objects, n as int) {
            before + row(2, container, member_count(objects, (n - 1) as nat))
        } else if objects.contains_key(numbered(n as int)) {
            before + row(1, stream_blocks(objects, head, (n - 1) as nat).len(), 0)
        } else {
            before + row(0, 0, 0)
        }
    }
}

/// The dictionary of a cross-reference stream of `size` numbers.
pub open spec fn stream_trailer(trailer: Entries, size: int) -> Entries {
    with(
        with(sized_trailer(trailer, size), "Type"@, name_value("XRef"@)),
        "W"@,
        Value::Array(seq![Value::Integer(1), Value::Integer(4), Value::Integer(4)]),
    )
}

/// The streams of a document, and the object stream of its other objects.
pub open spec fn streamed_body(document: &Document) -> Seq<u8> {
    let count = document.max_id as nat;
    stream_blocks(document.stored(), header_line(document.version@), count) + block(
        count as int + 1,
        container_value(document.stored(), count),
    )
}

/// A document with an object stream and a cross-reference stream.
pub open spec fn with_streams(document: &Document) -> Seq<u8> {
    let objects = document.stored();
    let head = header_line(document.version@);
    let count = document.max_id as nat;
    let body = streamed_body(document);
    let entries = rows(objects, head, count + 1, count) + row(
        1,
        stream_blocks(objects, head, count).len(),
        0,
    ) + row(1, body.len(), 0);
    body + block(
        count as int + 2,
        Value::Stream(stream_trailer(document.trailer@, count as int + 3), entries),
    ) + last_lines(body.len())
}

/// The object stream of the objects numbered up to `n` that are no streams.
fn container_of(index: Vec<u8>, members: &Vec<u8>, count: u32) -> (r: Object)
    requires
        index@.len() <= u32::MAX,
    ensures
        r@ == Value::Stream(
            with(
                with(
                    with(Seq::empty(), "Type"@, name_value("ObjStm"@)),
                    "N"@,
                    Value::Integer(count as i64),
                ),
                "First"@,
                Value::Integer(index@.len() as i64),
            ),
            index@ + members@,
        ),
{
    let mut dict = Dictionary::new();
    put(&mut dict, "Type", name_object("ObjStm"));
    put(&mut dict, "N", Object::Integer(count as i64));
    put(&mut dict, "First", Object::Integer(index.len() as i64));
    let ghost first = index@;
    let mut content = index;
    content.extend_from_slice(members.as_slice());
    assert(content@ =~= first + members@);
    Object::Stream(Stream { dict, content })
}

/// The cross-reference stream of `size` numbers.
fn table_stream(trailer: &Dictionary, size: u32, content: Vec<u8>) -> (r: Object)
    ensures
        r@ == Value::Stream(stream_trailer(trailer@, size as int), content@),
{
    let mut dict = trailer.clone();
    put(&mut dict, "Size", Object::Integer(size as i64));
    put(&mut dict, "Type", name_object("XRef"));
    let widths: Vec<Object> = vec![Object::Integer(1), Object::Integer(4), Object::Integer(4)];
    assert(values(widths@) =~= seq![Value::Integer(1), Value::Integer(4), Value::Integer(4)]);
    put(&mut dict, "W", Object::Array(widths));
    Object::Stream(Stream { dict, content })
}

/// Whether a document can be written with an object stream and a cross-reference stream.
pub open spec fn fits_streams(document: &Document) -> bool {
    &&& holds_no_real(document)
    &&& document.max_id <= u32::MAX - 3
    &&& member_index(document.stored(), document.max_id as nat).len() <= u32::MAX
    &&& streamed_body(document).len() <= u32::MAX
}

/// Writes `document` with an object stream and a cross-reference stream. `None` for one that holds a
/// real number, or is too long or has too many numbers for four bytes.
pub fn save_with_streams(document: &Document) -> (r: Option<Vec<u8>>)
    ensures
        match r {
            Some(bytes) => fits_streams(document) && bytes@ == with_streams(document),
            None => !fits_streams(document),
        },
{
    if !is_without_reals(document) || document.max_id > u32::MAX - 3 {
        return None;
    }
    let container = document.max_id + 1;
    let ghost objects = document.stored();
    let ghost head = header_line(document.version@);
    let mut out: Vec<u8> = Vec::new();
    push_text(&mut out, "%PDF-");
    push_text(&mut out, document.version.as_str());
    push_text(&mut out, "\n");
    assert(out@ =~= head);
    let mut index: Vec<u8> = Vec::new();
    let mut members: Vec<u8> = Vec::new();
    let mut count: u32 = 0;
    let mut entries: Vec<u8> = Vec::new();
    push_row(&mut entries, 0, 0, 0);
    assert(entries@ =~= rows(objects, head, container as nat, 0));
    let mut n: u32 = 0;
    // Offsets that do not fit in four bytes are left out: nothing is then written.
    while n < document.max_id
        invariant
            n <= document.max_id <= u32::MAX - 3,
            container == document.max_id + 1,
            objects == document.stored(),
            out@ == stream_blocks(objects, head, n as nat),
            index@ == member_index(objects, n as nat),
            members@ == held(objects, n as nat),
            count == member_count(objects, n as nat),
            entries@ == rows(objects, head, container as nat, n as nat) || out@.len() > u32::MAX,
        decreases document.max_id - n,
    {
        proof {
            lemma_members_counted(objects, n as nat);
        }
        n += 1;
        let ghost before = entries@;
        match document.objects.get((n, 0)) {
            Some(Object::Stream(stream)) => {
                assert(objects[(n, 0)] is Stream);
                if out.len() as u64 <= u32::MAX as u64 {
                    push_row(&mut entries, 1, out.len() as u32, 0);
                }
                if let Some(object) = document.objects.get((n, 0)) {
                    assert(objects[(n, 0)] == object@);
                    push_block(&mut out, n, object);
                }
            },
            Some(object) => {
                assert(objects[(n, 0)] == object@);
                push_row(&mut entries, 2, container, count);
                push_count(&mut index, n as u64);
                push_text(&mut index, " ");
                push_count(&mut index, members.len() as u64);
                push_text(&mut index, " ");
                push_object(&mut members, object);
                push_text(&mut members, " ");
                count += 1;
            },
            None => {
                push_row(&mut entries, 0, 0, 0);
            },
        }
    }
    if index.len() as u64 > u32::MAX as u64 {
        return None;
    }
    let streams_end = out.len();
    let object = container_of(index, &members, count);
    push_block(&mut out, container, &object);
    let start = out.len();
    if start as u64 > u32::MAX as u64 {
        return None;
    }
    let ghost body = out@;
    push_row(&mut entries, 1, streams_end as u32, 0);
    push_row(&mut entries, 1, start as u32, 0);
    let table = table_stream(&document.trailer, container + 2, entries);
    push_block(&mut out, container + 1, &table);
    push_last_lines(&mut out, start);
    assert(out@ =~= with_streams(document));
    Some(out)
}

} // verus!
