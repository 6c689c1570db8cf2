//! The records of cross-reference streams.

use vstd::arithmetic::power::{lemma_pow0, lemma_pow1, lemma_pow_adds, pow};
use vstd::prelude::*;

use crate::bytes::key;
use crate::object::{
    distinct_keys, entry, lemma_remove_takes_the_key_out, named_entry, remove_entry, Entries, Value,
};
use crate::parser::xref_stream::{
    as_trailer, field_worth, record_entry, records, sections, stream_table, widths_of, Widths,
};
use crate::xref::XrefEntry;

verus! {

/// What `width` bytes from `at` on count: each as many as the power of 256 of its place, the last one
/// byte for byte.
pub open spec fn field_count(content: Seq<u8>, at: int, width: nat) -> int
    decreases width,
{
    if width == 0 {
        0
    } else {
        content[at] * pow(256, (width - 1) as nat) + field_count(content, at + 1, (width - 1) as nat)
    }
}

/// A field counts its first byte most.
pub proof fn lemma_fields(content: Seq<u8>, at: int, width: nat)
    ensures
        field_worth(content, at, at + width) == field_count(content, at, width),
    decreases width,
{
    if width > 0 {
        lemma_fields(content, at + 1, (width - 1) as nat);
        lemma_first_byte(content, at, at + width);
    }
}

proof fn lemma_first_byte(content: Seq<u8>, from: int, to: int)
    requires
        from < to,
    ensures
        field_worth(content, from, to) == content[from] * pow(256, (to - from - 1) as nat)
            + field_worth(content, from + 1, to),
    decreases to - from,
{
    let b = content[from] as int;
    if from + 1 == to {
        lemma_pow0(256);
        assert(field_worth(content, from, from) == 0);
        assert(b * 1 == b);
    } else {
        lemma_first_byte(content, from, to - 1);
        let p = pow(256, (to - from - 2) as nat);
        lemma_pow_adds(256, 1, (to - from - 2) as nat);
        lemma_pow1(256);
        assert(b * p * 256 == b * (256 * p)) by (nonlinear_arith);
    }
}

/// Whether `entry` is what the record at `at` stands for: by its first field, which is 1 without one, a
/// free object, an object at an offset, or an object in another.
pub open spec fn is_record(content: Seq<u8>, at: int, widths: Widths, entry: Option<XrefEntry>) -> bool {
    let kind = if widths.kind == 0 {
        1
    } else {
        field_count(content, at, widths.kind)
    };
    let first = field_count(content, at + widths.kind, widths.first);
    let second = field_count(content, at + widths.kind + widths.first, widths.second);
    &&& kind == 0 ==> entry == Some(XrefEntry::Free)
    &&& kind == 1 && first <= 0xffff_ffff && second <= 0xffff ==> entry == Some(
        XrefEntry::Normal { offset: first as u32, generation: second as u16 },
    )
    &&& kind == 2 && first <= 0xffff_ffff && second <= 0xffff ==> entry == Some(
        XrefEntry::Compressed { container: first as u32, index: second as u16 },
    )
    &&& kind > 2 || (kind > 0 && (first > 0xffff_ffff || second > 0xffff)) ==> entry is None
}

/// A record is what its three fields say.
pub proof fn lemma_records(content: Seq<u8>, at: int, widths: Widths)
    ensures
        is_record(content, at, widths, record_entry(content, at, widths)),
{
    lemma_fields(content, at, widths.kind);
    lemma_fields(content, at + widths.kind, widths.first);
    lemma_fields(content, at + widths.kind + widths.first, widths.second);
}

/// The widths of the fields are the three numbers of `/W`, each up to 8, and not all of them 0.
pub proof fn lemma_widths(dict: Entries, a: i64, b: i64, c: i64)
    requires
        named_entry(dict, "W"@) == Some(
            Value::Array(seq![Value::Integer(a), Value::Integer(b), Value::Integer(c)]),
        ),
    ensures
        if 0 <= a <= 8 && 0 <= b <= 8 && 0 <= c <= 8 && a + b + c > 0 {
            widths_of(dict) == Some(Widths { kind: a as nat, first: b as nat, second: c as nat })
        } else {
            widths_of(dict) is None
        },
{
    let widths = seq![Value::Integer(a), Value::Integer(b), Value::Integer(c)];
    assert(widths[0] == Value::Integer(a) && widths[1] == Value::Integer(b) && widths[2]
        == Value::Integer(c));
}

/// How many records the first `count` of `listed` have: each lists as many objects, from a number on.
pub open spec fn rows_before(listed: Seq<(u32, u32)>, count: int) -> int
    decreases count,
{
    if count <= 0 {
        0
    } else {
        rows_before(listed, count - 1) + listed[count - 1].1
    }
}

/// Whether object `number` is listed in section `s`.
pub open spec fn lists(listed: Seq<(u32, u32)>, s: int, number: u32) -> bool {
    listed[s].0 <= number < listed[s].0 + listed[s].1
}

/// Whether `index` are the numbers of `listed`: the first object of each section, and how many there are.
pub open spec fn is_index(index: Seq<Value>, listed: Seq<(u32, u32)>) -> bool {
    &&& index.len() == 2 * listed.len()
    &&& forall|s: int|
        0 <= s < listed.len() ==> index[2 * s] == Value::Integer((#[trigger] listed[s]).0 as i64)
            && index[2 * s + 1] == Value::Integer(listed[s].1 as i64)
}

proof fn lemma_section(
    content: Seq<u8>,
    at: int,
    widths: Widths,
    first: nat,
    count: nat,
    table: Map<u32, XrefEntry>,
    number: u32,
)
    requires
        0 <= at,
        at + count * widths.total() <= content.len(),
    ensures
        ({
            let (listed, end) = records(content, at, widths, first, count, table);
            &&& end == at + count * widths.total()
            &&& if first <= number < first + count {
                match record_entry(content, at + (number - first) * widths.total(), widths) {
                    Some(entry) => listed.contains_pair(number, entry),
                    None => listed.contains_key(number) == table.contains_key(number)
                        && listed[number] == table[number],
                }
            } else {
                listed.contains_key(number) == table.contains_key(number) && listed[number]
                    == table[number]
            }
        }),
    decreases count,
{
    let width = widths.total() as int;
    if count > 0 {
        assert(count * width == width + (count - 1) * width) by (nonlinear_arith);
        assert((count - 1) * width >= 0) by (nonlinear_arith)
            requires
                count > 0,
                width >= 0,
        ;
        let more = match record_entry(content, at, widths) {
            Some(entry) if first <= u32::MAX => table.insert(first as u32, entry),
            _ => table,
        };
        lemma_section(content, at + width, widths, first + 1, (count - 1) as nat, more, number);
        if number > first {
            assert(at + width + (number - (first + 1)) * width == at + (number - first) * width)
                by (nonlinear_arith);
        } else if number == first {
            assert(at + 0 * width == at);
        }
    } else {
        assert(0 * width == 0);
    }
}

proof fn lemma_sections_from(
    content: Seq<u8>,
    widths: Widths,
    index: Seq<Value>,
    listed: Seq<(u32, u32)>,
    k: int,
    table: Map<u32, XrefEntry>,
    s: int,
    number: u32,
)
    requires
        is_index(index, listed),
        rows_before(listed, listed.len() as int) * widths.total() <= content.len(),
        0 <= k <= listed.len(),
        forall|t: int| s < t < listed.len() ==> !#[trigger] lists(listed, t, number),
        s < k || (s < listed.len() && lists(listed, s, number) && record_entry(
            content,
            (rows_before(listed, s) + (number - listed[s].0)) * widths.total(),
            widths,
        ) is Some),
    ensures
        ({
            let found = sections(
                content,
                rows_before(listed, k) * widths.total(),
                widths,
                index,
                2 * k,
                table,
            );
            if s < k {
                found.contains_key(number) == table.contains_key(number) && found[number]
                    == table[number]
            } else {
                record_entry(
                    content,
                    (rows_before(listed, s) + (number - listed[s].0)) * widths.total(),
                    widths,
                ) matches Some(entry) && found.contains_pair(number, entry)
            }
        }),
    decreases listed.len() - k,
{
    if k < listed.len() {
        let width = widths.total() as int;
        let (first, count) = listed[k];
        assert(index[2 * k] == Value::Integer(listed[k].0 as i64) && index[2 * k + 1]
            == Value::Integer(listed[k].1 as i64));
        let at = rows_before(listed, k) * width;
        lemma_rows(listed, k);
        lemma_rows_grow(listed, k + 1);
        assert(rows_before(listed, k + 1) == rows_before(listed, k) + count);
        assert(rows_before(listed, k + 1) * width == at + count * width) by (nonlinear_arith)
            requires
                rows_before(listed, k + 1) == rows_before(listed, k) + count,
                at == rows_before(listed, k) * width,
        ;
        assert(rows_before(listed, k + 1) * width <= rows_before(listed, listed.len() as int) * width)
            by (nonlinear_arith)
            requires
                rows_before(listed, k + 1) <= rows_before(listed, listed.len() as int),
                width >= 0,
        ;
        assert(at >= 0) by (nonlinear_arith)
            requires
                at == rows_before(listed, k) * width,
                rows_before(listed, k) >= 0,
                width >= 0,
        ;
        lemma_section(content, at, widths, first as nat, count as nat, table, number);
        let (more, end) = records(content, at, widths, first as nat, count as nat, table);
        if s < k {
            assert(!lists(listed, k, number));
        }
        if s == k {
            assert(at + (number - first) * width == (rows_before(listed, s) + (number - listed[s].0))
                * width) by (nonlinear_arith)
                requires
                    at == rows_before(listed, k) * width,
                    s == k,
                    first == listed[s].0,
            ;
        }
        lemma_sections_from(content, widths, index, listed, k + 1, more, s, number);
        assert(2 * k + 2 == 2 * (k + 1));
    }
}

proof fn lemma_rows(listed: Seq<(u32, u32)>, count: int)
    ensures
        rows_before(listed, count) >= 0,
    decreases count,
{
    if count > 0 {
        lemma_rows(listed, count - 1);
    }
}

proof fn lemma_rows_grow(listed: Seq<(u32, u32)>, count: int)
    requires
        0 <= count <= listed.len(),
    ensures
        rows_before(listed, count) <= rows_before(listed, listed.len() as int),
    decreases listed.len() - count,
{
    if count < listed.len() {
        lemma_rows_grow(listed, count + 1);
    }
}

/// A cross-reference stream lists each object by its record: the records of one section after the other,
/// one for each object of the section. Of two for one object the later one counts.
pub proof fn lemma_stream_tables(
    content: Seq<u8>,
    widths: Widths,
    index: Seq<Value>,
    listed: Seq<(u32, u32)>,
    size: u32,
    s: int,
    number: u32,
)
    requires
        is_index(index, listed),
        rows_before(listed, listed.len() as int) * widths.total() <= content.len(),
        0 <= s < listed.len(),
        lists(listed, s, number),
        forall|t: int| s < t < listed.len() ==> !#[trigger] lists(listed, t, number),
        !is_record(
            content,
            (rows_before(listed, s) + (number - listed[s].0)) * widths.total(),
            widths,
            None,
        ),
    ensures
        stream_table(content, widths, Some(index), size).contains_key(number),
        is_record(
            content,
            (rows_before(listed, s) + (number - listed[s].0)) * widths.total(),
            widths,
            Some(stream_table(content, widths, Some(index), size)[number]),
        ),
{
    let at = (rows_before(listed, s) + (number - listed[s].0)) * widths.total();
    lemma_records(content, at, widths);
    lemma_sections_from(content, widths, index, listed, 0, Map::empty(), s, number);
    assert(0 * widths.total() == 0);
}

/// Without `/Index` the records are for the objects from 0 on, `size` of them.
pub proof fn lemma_stream_table_without_index(
    content: Seq<u8>,
    widths: Widths,
    size: u32,
    number: u32,
)
    requires
        size * widths.total() <= content.len(),
    ensures
        number >= size ==> !stream_table(content, widths, None, size).contains_key(number),
        number < size && !is_record(content, number * widths.total(), widths, None) ==> {
            &&& stream_table(content, widths, None, size).contains_key(number)
            &&& is_record(
                content,
                number * widths.total(),
                widths,
                Some(stream_table(content, widths, None, size)[number]),
            )
        },
{
    lemma_records(content, number * widths.total(), widths);
    lemma_section(content, 0, widths, 0, size as nat, Map::empty(), number);
    assert(0 + (number - 0) * widths.total() == number * widths.total());
}

/// The trailer that a cross-reference stream gives is its dictionary but for `/Length`, `/W` and `/Index`.
pub proof fn lemma_stream_trailers(dict: Entries, name: Seq<u8>)
    requires
        distinct_keys(dict),
    ensures
        entry(as_trailer(dict), name) == if name == key("Length"@) || name == key("W"@) || name == key(
            "Index"@,
        ) {
            None
        } else {
            entry(dict, name)
        },
{
    let once = remove_entry(dict, key("Length"@));
    let twice = remove_entry(once, key("W"@));
    lemma_remove_takes_the_key_out(dict, key("Length"@));
    lemma_remove_takes_the_key_out(once, key("W"@));
    lemma_remove_takes_the_key_out(twice, key("Index"@));
}

} // verus!
