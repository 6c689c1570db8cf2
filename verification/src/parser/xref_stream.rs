//! Cross-reference streams.

use vstd::prelude::*;

use crate::error::ParseError;
use crate::object::{
    array_in, integer_of, named_entry, remove_entry, value, values, Dictionary, Entries, Object,
    Value,
};
use crate::bytes::key;
use crate::parser::indirect::{
    content_of_stream, head_of, indirect_head, stream_content, HeadModel, ObjectHead,
};
use crate::stream_filters::{plain_content, plain_within};
use crate::xref::{Xref, XrefEntry};

verus! {

/// What the bytes from `from` to `to` are worth, the first counting most.
pub open spec fn field_worth(content: Seq<u8>, from: int, to: int) -> nat
    decreases to - from,
{
    if from >= to {
        0
    } else {
        field_worth(content, from, to - 1) * 256 + content[to - 1] as nat
    }
}

/// How wide the fields of a record are.
pub struct Widths {
    pub kind: nat,
    pub first: nat,
    pub second: nat,
}

impl Widths {
    pub open spec fn total(self) -> nat {
        self.kind + self.first + self.second
    }
}

/// The width at `index` of `/W`.
pub open spec fn width_at(widths: Seq<Value>, index: int) -> Option<nat> {
    match integer_of(widths[index]) {
        Some(width) => if 0 <= width <= 8 {
            Some(width as nat)
        } else {
            None
        },
        None => None,
    }
}

/// The widths that `/W` gives.
pub open spec fn widths_of(dict: Entries) -> Option<Widths> {
    match array_in(named_entry(dict, "W"@)) {
        Some(widths) => if widths.len() == 3 {
            match (width_at(widths, 0), width_at(widths, 1), width_at(widths, 2)) {
                (Some(kind), Some(first), Some(second)) => if kind + first + second > 0 {
                    Some(Widths { kind, first, second })
                } else {
                    None
                },
                _ => None,
            }
        } else {
            None
        },
        None => None,
    }
}

/// What a record stands for.
pub open spec fn record_entry(content: Seq<u8>, at: int, widths: Widths) -> Option<XrefEntry> {
    let kind = if widths.kind == 0 {
        1
    } else {
        field_worth(content, at, at + widths.kind)
    };
    let middle = at + widths.kind + widths.first;
    let first = field_worth(content, at + widths.kind, middle);
    let second = field_worth(content, middle, middle + widths.second);
    if kind == 0 {
        Some(XrefEntry::Free)
    } else if kind == 1 && first <= u32::MAX && second <= u16::MAX {
        Some(XrefEntry::Normal { offset: first as u32, generation: second as u16 })
    } else if kind == 2 && first <= u32::MAX && second <= u16::MAX {
        Some(XrefEntry::Compressed { container: first as u32, index: second as u16 })
    } else {
        None
    }
}

/// Up to `count` records from `at` on, for the object numbers from `id` on, put into `table`.
pub open spec fn records(
    content: Seq<u8>,
    at: int,
    widths: Widths,
    id: nat,
    count: nat,
    table: Map<u32, XrefEntry>,
) -> (Map<u32, XrefEntry>, int)
    decreases count,
{
    if count == 0 || at + widths.total() > content.len() {
        (table, at)
    } else {
        let more = match record_entry(content, at, widths) {
            Some(entry) if id <= u32::MAX => table.insert(id as u32, entry),
            _ => table,
        };
        records(content, at + widths.total(), widths, id + 1, (count - 1) as nat, more)
    }
}

/// The number at `index` of `/Index`.
pub open spec fn index_number(index: Seq<Value>, i: int) -> nat {
    match integer_of(index[i]) {
        Some(number) => if 0 <= number <= u32::MAX {
            number as nat
        } else {
            0
        },
        None => 0,
    }
}

/// The records of the sections that `/Index` lists from position `i` on, put into `table`.
pub open spec fn sections(
    content: Seq<u8>,
    at: int,
    widths: Widths,
    index: Seq<Value>,
    i: int,
    table: Map<u32, XrefEntry>,
) -> Map<u32, XrefEntry>
    decreases index.len() - i,
{
    if i < 0 || i + 1 >= index.len() {
        table
    } else {
        let (more, end) = records(
            content,
            at,
            widths,
            index_number(index, i),
            index_number(index, i + 1),
            table,
        );
        sections(content, end, widths, index, i + 2, more)
    }
}

/// The entries that the content of a cross-reference stream gives.
pub open spec fn stream_table(
    content: Seq<u8>,
    widths: Widths,
    index: Option<Seq<Value>>,
    size: u32,
) -> Map<u32, XrefEntry> {
    match index {
        Some(index) => sections(content, 0, widths, index, 0, Map::empty()),
        None => records(content, 0, widths, 0, size as nat, Map::empty()).0,
    }
}

/// The dictionary of a cross-reference stream without what only describes the stream.
pub open spec fn as_trailer(dict: Entries) -> Entries {
    remove_entry(
        remove_entry(remove_entry(dict, key("Length"@)), key("W"@)),
        key("Index"@),
    )
}

/// A cross-reference stream: its entries, its dictionary as a trailer, and its `/Size`.
pub open spec fn stream_and_trailer(bytes: Seq<u8>, limit: usize) -> std::result::Result<
    (Map<u32, XrefEntry>, Entries, u32),
    ParseError,
> {
    match head_of(bytes) {
        Some((_, HeadModel::Stream { dict, start })) => {
            let length = match named_entry(dict, "Length"@) {
                Some(length) => integer_of(length),
                None => None,
            };
            match stream_content(bytes, start, length, bytes.len() as int) {
                Some(stored) => match (plain_within(dict, stored, limit), widths_of(dict)) {
                    (Ok(content), Some(widths)) => match named_entry(dict, "Size"@) {
                        Some(Value::Integer(size)) => if 0 <= size <= u32::MAX {
                            Ok(
                                (
                                    stream_table(
                                        content,
                                        widths,
                                        array_in(named_entry(dict, "Index"@)),
                                        size as u32,
                                    ),
                                    as_trailer(dict),
                                    size as u32,
                                ),
                            )
                        } else {
                            Err(ParseError::InvalidTrailer)
                        },
                        _ => Err(ParseError::InvalidTrailer),
                    },
                    _ => Err(ParseError::InvalidXref),
                },
                None => Err(ParseError::InvalidXref),
            }
        },
        _ => Err(ParseError::InvalidXref),
    }
}

proof fn lemma_field_worth(content: Seq<u8>, from: int, to: int)
    requires
        0 <= from <= to <= content.len(),
        to - from <= 8,
    ensures
        field_worth(content, from, to) < 0x1_0000_0000_0000_0000,
        to - from <= 7 ==> field_worth(content, from, to) < 0x100_0000_0000_0000,
        to - from <= 6 ==> field_worth(content, from, to) < 0x1_0000_0000_0000,
        to - from <= 5 ==> field_worth(content, from, to) < 0x100_0000_0000,
        to - from <= 4 ==> field_worth(content, from, to) < 0x1_0000_0000,
        to - from <= 3 ==> field_worth(content, from, to) < 0x100_0000,
        to - from <= 2 ==> field_worth(content, from, to) < 0x1_0000,
        to - from <= 1 ==> field_worth(content, from, to) < 0x100,
    decreases to - from,
{
    if from < to {
        lemma_field_worth(content, from, to - 1);
    }
}

fn field(content: &[u8], from: usize, to: usize) -> (r: u64)
    requires
        from <= to <= content@.len(),
        to - from <= 8,
    ensures
        r == field_worth(content@, from as int, to as int),
{
    let mut worth: u64 = 0;
    let mut i: usize = from;
    while i < to
        invariant
            from <= i <= to <= content@.len(),
            to - from <= 8,
            worth == field_worth(content@, from as int, i as int),
        decreases to - i,
    {
        proof {
            lemma_field_worth(content@, from as int, i + 1);
        }
        worth = worth * 256 + content[i] as u64;
        i += 1;
    }
    worth
}

fn entry_of_record(content: &[u8], at: usize, kind: usize, first: usize, second: usize) -> (r: Option<
    XrefEntry,
>)
    requires
        kind <= 8,
        first <= 8,
        second <= 8,
        at + kind + first + second <= content@.len(),
    ensures
        r == record_entry(
            content@,
            at as int,
            Widths { kind: kind as nat, first: first as nat, second: second as nat },
        ),
{
    let len = content.len();
    let middle = at + kind + first;
    let tag = if kind == 0 {
        1
    } else {
        field(content, at, at + kind)
    };
    let a = field(content, at + kind, middle);
    let b = field(content, middle, middle + second);
    if tag == 0 {
        Some(XrefEntry::Free)
    } else if tag == 1 && a <= u32::MAX as u64 && b <= u16::MAX as u64 {
        Some(XrefEntry::Normal { offset: a as u32, generation: b as u16 })
    } else if tag == 2 && a <= u32::MAX as u64 && b <= u16::MAX as u64 {
        Some(XrefEntry::Compressed { container: a as u32, index: b as u16 })
    } else {
        None
    }
}

fn read_records(
    content: &[u8],
    at: usize,
    widths: (usize, usize, usize),
    start: u32,
    count: u32,
    xref: &mut Xref,
) -> (r: usize)
    requires
        at <= content@.len(),
        widths.0 <= 8,
        widths.1 <= 8,
        widths.2 <= 8,
        widths.0 + widths.1 + widths.2 > 0,
        old(xref).well_formed(),
    ensures
        final(xref).well_formed(),
        final(xref).declared_size() == old(xref).declared_size(),
        at <= r <= content@.len(),
        records(
            content@,
            at as int,
            Widths {
                kind: widths.0 as nat,
                first: widths.1 as nat,
                second: widths.2 as nat,
            },
            start as nat,
            count as nat,
            old(xref)@,
        ) == (final(xref)@, r as int),
{
    let ghost w = Widths {
        kind: widths.0 as nat,
        first: widths.1 as nat,
        second: widths.2 as nat,
    };
    let ghost expected = records(content@, at as int, w, start as nat, count as nat, xref@);
    let total = widths.0 + widths.1 + widths.2;
    let mut position: usize = at;
    let mut id: u64 = start as u64;
    let mut left: u32 = count;
    while left > 0 && content.len() - position >= total
        invariant
            w == (Widths {
                kind: widths.0 as nat,
                first: widths.1 as nat,
                second: widths.2 as nat,
            }),
            widths.0 <= 8,
            widths.1 <= 8,
            widths.2 <= 8,
            total == widths.0 + widths.1 + widths.2,
            at <= position <= content@.len(),
            id + left <= start + count,
            xref.well_formed(),
            xref.declared_size() == old(xref).declared_size(),
            expected == records(
                content@,
                at as int,
                w,
                start as nat,
                count as nat,
                old(xref)@,
            ),
            expected == records(content@, position as int, w, id as nat, left as nat, xref@),
        decreases left,
    {
        if let Some(entry) = entry_of_record(content, position, widths.0, widths.1, widths.2) {
            if id <= u32::MAX as u64 {
                xref.insert(id as u32, entry);
            }
        }
        let len = content.len();
        position += total;
        id += 1;
        left -= 1;
    }
    position
}

fn width(widths: &Vec<Object>, index: usize) -> (r: Option<usize>)
    requires
        index < widths@.len(),
    ensures
        match r {
            Some(width) => width_at(values(widths@), index as int) == Some(width as nat) && width
                <= 8,
            None => width_at(values(widths@), index as int) is None,
        },
{
    assert(values(widths@)[index as int] == value(widths@[index as int]));
    match &widths[index] {
        Object::Integer(width) => if *width >= 0 && *width <= 8 {
            Some(*width as usize)
        } else {
            None
        },
        _ => None,
    }
}

fn read_widths(dict: &Dictionary) -> (r: Option<(usize, usize, usize)>)
    ensures
        match r {
            Some(widths) => {
                &&& widths_of(dict@) == Some(
                    Widths {
                        kind: widths.0 as nat,
                        first: widths.1 as nat,
                        second: widths.2 as nat,
                    },
                )
                &&& widths.0 <= 8
                &&& widths.1 <= 8
                &&& widths.2 <= 8
                &&& widths.0 + widths.1 + widths.2 > 0
            },
            None => widths_of(dict@) is None,
        },
{
    match dict.named("W") {
        Some(Object::Array(widths)) => {
            if widths.len() != 3 {
                return None;
            }
            match (width(widths, 0), width(widths, 1), width(widths, 2)) {
                (Some(kind), Some(first), Some(second)) => if kind + first + second > 0 {
                    Some((kind, first, second))
                } else {
                    None
                },
                _ => None,
            }
        },
        _ => None,
    }
}

fn number_of_index(index: &Vec<Object>, i: usize) -> (r: u32)
    requires
        i < index@.len(),
    ensures
        r == index_number(values(index@), i as int),
{
    assert(values(index@)[i as int] == value(index@[i as int]));
    match &index[i] {
        Object::Integer(number) => if *number >= 0 && *number <= u32::MAX as i64 {
            *number as u32
        } else {
            0
        },
        _ => 0,
    }
}

fn read_sections(
    content: &[u8],
    widths: (usize, usize, usize),
    index: &Vec<Object>,
    xref: &mut Xref,
)
    requires
        widths.0 <= 8,
        widths.1 <= 8,
        widths.2 <= 8,
        widths.0 + widths.1 + widths.2 > 0,
        old(xref).well_formed(),
    ensures
        final(xref).well_formed(),
        final(xref).declared_size() == old(xref).declared_size(),
        final(xref)@ == sections(
            content@,
            0,
            Widths {
                kind: widths.0 as nat,
                first: widths.1 as nat,
                second: widths.2 as nat,
            },
            values(index@),
            0,
            old(xref)@,
        ),
{
    let ghost w = Widths {
        kind: widths.0 as nat,
        first: widths.1 as nat,
        second: widths.2 as nat,
    };
    let ghost all = values(index@);
    let ghost expected = sections(content@, 0, w, all, 0, xref@);
    let mut at: usize = 0;
    let mut i: usize = 0;
    while index.len() - i >= 2
        invariant
            w == (Widths {
                kind: widths.0 as nat,
                first: widths.1 as nat,
                second: widths.2 as nat,
            }),
            widths.0 <= 8,
            widths.1 <= 8,
            widths.2 <= 8,
            widths.0 + widths.1 + widths.2 > 0,
            i <= index@.len(),
            at <= content@.len(),
            all == values(index@),
            xref.well_formed(),
            xref.declared_size() == old(xref).declared_size(),
            expected == sections(content@, 0, w, all, 0, old(xref)@),
            expected == sections(content@, at as int, w, all, i as int, xref@),
        decreases index@.len() - i,
    {
        at = read_records(
            content,
            at,
            widths,
            number_of_index(index, i),
            number_of_index(index, i + 1),
            xref,
        );
        i += 2;
    }
}

/// A cross-reference stream with its dictionary as a trailer.
pub fn xref_stream_and_trailer(bytes: &[u8], limit: usize) -> (r: std::result::Result<
    (Xref, Dictionary),
    ParseError,
>)
    ensures
        match (r, stream_and_trailer(bytes@, limit)) {
            (Ok((xref, trailer)), Ok((table, entries, size))) => {
                &&& xref.well_formed()
                &&& xref@ == table
                &&& xref.declared_size() == size
                &&& trailer@ == entries
            },
            (Err(error), Err(expected)) => error == expected,
            _ => false,
        },
{
    let (mut dict, start) = match indirect_head(bytes) {
        Some((_, ObjectHead::Stream { dict, start })) => (dict, start),
        _ => {
            return Err(ParseError::InvalidXref);
        },
    };
    let length = match dict.named("Length") {
        Some(Object::Integer(length)) => Some(*length),
        _ => None,
    };
    let stored = match content_of_stream(bytes, start, length, bytes.len()) {
        Some(stored) => stored,
        None => {
            return Err(ParseError::InvalidXref);
        },
    };
    let content = match plain_content(&dict, stored.as_slice(), limit) {
        Ok(content) => content,
        Err(_) => {
            return Err(ParseError::InvalidXref);
        },
    };
    let widths = match read_widths(&dict) {
        Some(widths) => widths,
        None => {
            return Err(ParseError::InvalidXref);
        },
    };
    let size = match dict.named("Size") {
        Some(Object::Integer(size)) => *size,
        _ => {
            return Err(ParseError::InvalidTrailer);
        },
    };
    if size < 0 || size > u32::MAX as i64 {
        return Err(ParseError::InvalidTrailer);
    }
    let mut xref = Xref::new(size as u32);
    match dict.named("Index") {
        Some(Object::Array(index)) => {
            read_sections(content.as_slice(), widths, index, &mut xref);
        },
        _ => {
            read_records(content.as_slice(), 0, widths, 0, size as u32, &mut xref);
        },
    }
    dict.remove("Length".as_bytes());
    dict.remove("W".as_bytes());
    dict.remove("Index".as_bytes());
    Ok((xref, dict))
}

} // verus!
