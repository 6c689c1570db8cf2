//! The structure of a file: its header, cross-reference sections, and trailers.

use vstd::prelude::*;
use vstd::slice::slice_subrange;
use vstd::utf8::{decode_utf8, valid_utf8};

use crate::bytes::{key, to_vec};
use crate::error::ParseError;
use crate::object::{named_entry, Dictionary, Entries, Object, Value};
use crate::parser::lexical::{
    after_space, after_white, end_of_line_len, eol_len, has_tag, line_end, skip_line, skip_space,
    skip_white, tagged, unsigned, unsigned_at,
};
use crate::parser::objects::{dictionary, dictionary_at, MAX_NESTING};
use crate::text::utf8_string;
use crate::xref::{Xref, XrefEntry};

verus! {

/// The version that a file's header gives: the rest of the line behind `%PDF-`.
pub open spec fn header_version(bytes: Seq<u8>) -> Option<Seq<char>> {
    let from = key("%PDF-"@).len() as int;
    let to = line_end(bytes, from);
    if tagged(bytes, 0, key("%PDF-"@)) && eol_len(bytes, to) > 0 && valid_utf8(
        bytes.subrange(from, to),
    ) {
        Some(decode_utf8(bytes.subrange(from, to)))
    } else {
        None
    }
}

pub proof fn lemma_file_keywords()
    ensures
        key("%PDF-"@).len() == 5,
        key("startxref"@).len() == 9,
        key("xref"@).len() == 4,
        key("trailer"@).len() == 7,
{
    reveal_strlit("%PDF-");
    reveal_strlit("startxref");
    reveal_strlit("xref");
    reveal_strlit("trailer");
    vstd::utf8::is_ascii_chars_encode_utf8("%PDF-"@);
    vstd::utf8::is_ascii_chars_encode_utf8("startxref"@);
    vstd::utf8::is_ascii_chars_encode_utf8("xref"@);
    vstd::utf8::is_ascii_chars_encode_utf8("trailer"@);
}

/// The version that the header of `bytes` gives.
pub fn header(bytes: &[u8]) -> (r: Option<String>)
    ensures
        match r {
            Some(version) => header_version(bytes@) == Some(version@),
            None => header_version(bytes@) is None,
        },
{
    proof {
        lemma_file_keywords();
    }
    if !has_tag(bytes, 0, "%PDF-".as_bytes()) {
        return None;
    }
    let to = skip_line(bytes, 5);
    if end_of_line_len(bytes, to) == 0 {
        return None;
    }
    utf8_string(to_vec(slice_subrange(bytes, 5, to)))
}

/// The first place from `at` on where `tag` stands.
pub open spec fn first_tag(bytes: Seq<u8>, at: int, tag: Seq<u8>) -> Option<int>
    decreases bytes.len() - at,
{
    if at < 0 || at >= bytes.len() {
        None
    } else if tagged(bytes, at, tag) {
        Some(at)
    } else {
        first_tag(bytes, at + 1, tag)
    }
}

/// The first place where `tag` stands in `bytes`.
pub fn find_first(bytes: &[u8], tag: &str) -> (r: Option<usize>)
    ensures
        match r {
            Some(at) => first_tag(bytes@, 0, key(tag@)) == Some(at as int) && at < bytes@.len(),
            None => first_tag(bytes@, 0, key(tag@)) is None,
        },
{
    let mut at: usize = 0;
    while at < bytes.len()
        invariant
            at <= bytes@.len(),
            first_tag(bytes@, 0, key(tag@)) == first_tag(bytes@, at as int, key(tag@)),
        decreases bytes@.len() - at,
    {
        if has_tag(bytes, at, tag.as_bytes()) {
            return Some(at);
        }
        at += 1;
    }
    None
}

/// The last place before `before` where `tag` stands.
pub open spec fn last_tag(bytes: Seq<u8>, before: int, tag: Seq<u8>) -> Option<int>
    decreases before,
{
    if before <= 0 {
        None
    } else if tagged(bytes, before - 1, tag) {
        Some(before - 1)
    } else {
        last_tag(bytes, before - 1, tag)
    }
}

/// Where the newest cross-reference section is, as the last `startxref` says.
pub open spec fn xref_start_of(bytes: Seq<u8>) -> Option<nat> {
    match last_tag(bytes, bytes.len() as int, key("startxref"@)) {
        Some(at) => match unsigned_at(
            bytes,
            after_space(bytes, at + key("startxref"@).len()),
            0x7fff_ffff,
        ) {
            Some((offset, _)) => Some(offset),
            None => None,
        },
        None => None,
    }
}

/// Where the newest cross-reference section is, as the last `startxref` of `bytes` says.
pub fn xref_start(bytes: &[u8]) -> (r: Option<usize>)
    ensures
        match r {
            Some(offset) => xref_start_of(bytes@) == Some(offset as nat),
            None => xref_start_of(bytes@) is None,
        },
{
    proof {
        lemma_file_keywords();
    }
    let len = bytes.len();
    let mut before: usize = len;
    while before > 0
        invariant
            before <= len == bytes@.len(),
            key("startxref"@).len() == 9,
            last_tag(bytes@, bytes@.len() as int, key("startxref"@)) == last_tag(
                bytes@,
                before as int,
                key("startxref"@),
            ),
        decreases before,
    {
        before -= 1;
        if has_tag(bytes, before, "startxref".as_bytes()) {
            assert(before + 9 <= len);
            return match unsigned(bytes, skip_space(bytes, before + 9), 0x7fff_ffff) {
                Some((offset, _)) => Some(offset as usize),
                None => None,
            };
        }
    }
    None
}

/// An entry of a cross-reference table: an offset, a generation, and whether the object is in use,
/// with white space between and behind them.
pub open spec fn table_entry_at(bytes: Seq<u8>, at: int) -> Option<(nat, nat, bool, int)> {
    match unsigned_at(bytes, at, u32::MAX as nat) {
        Some((offset, offset_end)) => match unsigned_at(
            bytes,
            after_white(bytes, offset_end),
            u32::MAX as nat,
        ) {
            Some((generation, generation_end)) => {
                let kind = after_white(bytes, generation_end);
                if 0 <= kind < bytes.len() && (bytes[kind] == 0x6e || bytes[kind] == 0x66) {
                    Some((offset, generation, bytes[kind] == 0x6e, after_white(bytes, kind + 1)))
                } else {
                    None
                }
            },
            None => None,
        },
        None => None,
    }
}

/// The table with an entry for object number `id`, if that is in use and can be one.
pub open spec fn with_entry(
    table: Map<u32, XrefEntry>,
    id: nat,
    offset: nat,
    generation: nat,
    used: bool,
) -> Map<u32, XrefEntry> {
    if used && id <= u32::MAX && generation <= u16::MAX {
        table.insert(
            id as u32,
            XrefEntry::Normal { offset: offset as u32, generation: generation as u16 },
        )
    } else {
        table
    }
}

/// The entries of a subsection, for the object numbers from `id` on, put into `table`.
pub open spec fn table_entries_at(
    bytes: Seq<u8>,
    at: int,
    id: nat,
    table: Map<u32, XrefEntry>,
) -> (Map<u32, XrefEntry>, int)
    decreases bytes.len() - at,
{
    match table_entry_at(bytes, at) {
        Some((offset, generation, used, end)) => if at < end <= bytes.len() {
            table_entries_at(
                bytes,
                end,
                id + 1,
                with_entry(table, id, offset, generation, used),
            )
        } else {
            (table, at)
        },
        None => (table, at),
    }
}

/// The head of a subsection: the number of its first object, and how many there are.
pub open spec fn subsection_at(bytes: Seq<u8>, at: int) -> Option<(nat, int)> {
    match unsigned_at(bytes, at, u32::MAX as nat) {
        Some((start, start_end)) => match unsigned_at(
            bytes,
            after_white(bytes, start_end),
            u32::MAX as nat,
        ) {
            Some((_, end)) => Some((start, after_white(bytes, end))),
            None => None,
        },
        None => None,
    }
}

/// The subsections of a cross-reference table, put into `table`.
pub open spec fn subsections_at(bytes: Seq<u8>, at: int, table: Map<u32, XrefEntry>) -> (
    Map<u32, XrefEntry>,
    int,
)
    decreases bytes.len() - at,
{
    match subsection_at(bytes, at) {
        Some((start, from)) => if at < from <= bytes.len() {
            let (more, end) = table_entries_at(bytes, from, start, table);
            if from <= end <= bytes.len() {
                subsections_at(bytes, end, more)
            } else {
                (more, end)
            }
        } else {
            (table, at)
        },
        None => (table, at),
    }
}

/// A cross-reference table with its trailer: the entries, the trailer's dictionary, and its
/// `/Size`.
pub open spec fn table_and_trailer(bytes: Seq<u8>) -> std::result::Result<
    (Map<u32, XrefEntry>, Entries, u32),
    ParseError,
> {
    let start = after_space(bytes, 0);
    if !tagged(bytes, start, key("xref"@)) {
        Err(ParseError::InvalidXref)
    } else {
        let (table, end) = subsections_at(
            bytes,
            after_space(bytes, start + key("xref"@).len()),
            Map::empty(),
        );
        let trailer = after_space(bytes, end);
        if !tagged(bytes, trailer, key("trailer"@)) {
            Err(ParseError::InvalidXref)
        } else {
            match dictionary_at(
                bytes,
                after_space(bytes, trailer + key("trailer"@).len()),
                (MAX_NESTING - 1) as nat,
            ) {
                Some((entries, _)) => match named_entry(entries, "Size"@) {
                    Some(Value::Integer(size)) => if 0 <= size <= u32::MAX {
                        Ok((table, entries, size as u32))
                    } else {
                        Err(ParseError::InvalidTrailer)
                    },
                    _ => Err(ParseError::InvalidTrailer),
                },
                None => Err(ParseError::InvalidXref),
            }
        }
    }
}

fn table_entry(bytes: &[u8], at: usize) -> (r: Option<(u32, u32, bool, usize)>)
    requires
        at <= bytes@.len(),
    ensures
        match r {
            Some((offset, generation, used, end)) => table_entry_at(bytes@, at as int) == Some(
                (offset as nat, generation as nat, used, end as int),
            ) && at < end <= bytes@.len(),
            None => table_entry_at(bytes@, at as int) is None,
        },
{
    let (offset, offset_end) = match unsigned(bytes, at, u32::MAX as u64) {
        Some(read) => read,
        None => {
            return None;
        },
    };
    let next = skip_white(bytes, offset_end);
    let (generation, generation_end) = match unsigned(bytes, next, u32::MAX as u64) {
        Some(read) => read,
        None => {
            return None;
        },
    };
    let kind = skip_white(bytes, generation_end);
    if kind < bytes.len() && (bytes[kind] == 0x6e || bytes[kind] == 0x66) {
        Some((offset as u32, generation as u32, bytes[kind] == 0x6e, skip_white(bytes, kind + 1)))
    } else {
        None
    }
}

fn table_entries(bytes: &[u8], at: usize, start: u32, xref: &mut Xref) -> (r: usize)
    requires
        at <= bytes@.len(),
        old(xref).well_formed(),
    ensures
        final(xref).well_formed(),
        final(xref).declared_size() == old(xref).declared_size(),
        table_entries_at(bytes@, at as int, start as nat, old(xref)@) == (final(xref)@, r as int),
        at <= r <= bytes@.len(),
{
    let ghost expected = table_entries_at(bytes@, at as int, start as nat, xref@);
    let mut i: usize = at;
    let mut id: u128 = start as u128;
    loop
        invariant
            at <= i <= bytes@.len(),
            id <= start + (i - at),
            xref.well_formed(),
            xref.declared_size() == old(xref).declared_size(),
            expected == table_entries_at(bytes@, at as int, start as nat, old(xref)@),
            expected == table_entries_at(bytes@, i as int, id as nat, xref@),
        decreases bytes@.len() - i,
    {
        match table_entry(bytes, i) {
            Some((offset, generation, used, end)) => {
                if used && id <= u32::MAX as u128 && generation <= u16::MAX as u32 {
                    xref.insert(
                        id as u32,
                        XrefEntry::Normal { offset, generation: generation as u16 },
                    );
                }
                let len = bytes.len();
                assert(end <= len);
                i = end;
                id += 1;
            },
            None => {
                return i;
            },
        }
    }
}

/// A cross-reference table with its trailer.
pub fn xref_table_and_trailer(bytes: &[u8]) -> (r: std::result::Result<
    (Xref, Dictionary),
    ParseError,
>)
    ensures
        match (r, table_and_trailer(bytes@)) {
            (Ok((xref, trailer)), Ok((table, entries, size))) => {
                &&& xref.well_formed()
                &&& xref@ == table
                &&& xref.declared_size() == size
                &&& trailer@ == entries
            },
            (Err(error), Err(expected)) => error == expected,
            _ => false,
        },
{
    proof {
        lemma_file_keywords();
    }
    let len = bytes.len();
    let start = skip_space(bytes, 0);
    if !has_tag(bytes, start, "xref".as_bytes()) {
        return Err(ParseError::InvalidXref);
    }
    assert(start + 4 <= len);
    let mut xref = Xref::new(0);
    let first = skip_space(bytes, start + 4);
    let mut at: usize = first;
    let ghost expected = subsections_at(bytes@, first as int, Map::empty());
    loop
        invariant_except_break
            first <= at <= bytes@.len(),
            xref.well_formed(),
            expected == subsections_at(bytes@, at as int, xref@),
        ensures
            first <= at <= bytes@.len(),
            xref.well_formed(),
            expected == (xref@, at as int),
        decreases bytes@.len() - at,
    {
        let (number, number_end) = match unsigned(bytes, at, u32::MAX as u64) {
            Some(read) => read,
            None => {
                break;
            },
        };
        match unsigned(bytes, skip_white(bytes, number_end), u32::MAX as u64) {
            Some((_, end)) => {
                let from = skip_white(bytes, end);
                at = table_entries(bytes, from, number as u32, &mut xref);
            },
            None => {
                break;
            },
        }
    }
    let trailer = skip_space(bytes, at);
    if !has_tag(bytes, trailer, "trailer".as_bytes()) {
        return Err(ParseError::InvalidXref);
    }
    assert(trailer + 7 <= len);
    match dictionary(bytes, skip_space(bytes, trailer + 7), MAX_NESTING - 1) {
        Some((entries, _)) => {
            let size = match entries.named("Size") {
                Some(Object::Integer(size)) => *size,
                _ => {
                    return Err(ParseError::InvalidTrailer);
                },
            };
            if size < 0 || size > u32::MAX as i64 {
                return Err(ParseError::InvalidTrailer);
            }
            xref.set_size(size as u32);
            Ok((xref, entries))
        },
        None => Err(ParseError::InvalidXref),
    }
}

} // verus!
