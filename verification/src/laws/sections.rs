//! Cross-reference sections: tables with their trailers, and streams.

use vstd::prelude::*;

use crate::bytes::key;
use crate::error::{Error, ParseError, XrefError};
use crate::laws::numbers::{are_digits, count_of, lemma_unsigned};
use crate::laws::stored_objects::{lemma_tagged, stands_at, xref_word};
use crate::lazy::file::{
    corrected_offset, head_bytes, header_base, opened, section_at, section_in, section_of,
    structure_of, tail_bytes, with_older, ReadOptions, Section, Structure,
};
use crate::object::{named_entry, Entries, ObjectId, Value};
use crate::parser::file::{
    header_version, subsection_at, subsections_at, table_and_trailer, table_entries_at,
    xref_start_of,
};
use crate::parser::indirect::{head_of, stream_content, HeadModel};
use crate::parser::lexical::{after_space, after_white};
use crate::parser::objects::dictionary_at;
use crate::parser::xref_stream::{as_trailer, stream_and_trailer, stream_table, widths_of, Widths};
use crate::stream_filters::plain_within;
use crate::xref::XrefEntry;

verus! {

/// `trailer`, in bytes.
pub open spec fn trailer_word() -> Seq<u8> {
    seq![0x74u8, 0x72, 0x61, 0x69, 0x6c, 0x65, 0x72]
}

proof fn lemma_words()
    ensures
        key("xref"@) == xref_word(),
        key("trailer"@) == trailer_word(),
{
    reveal_strlit("xref");
    reveal_strlit("trailer");
    vstd::utf8::is_ascii_chars_encode_utf8("xref"@);
    vstd::utf8::is_ascii_chars_encode_utf8("trailer"@);
    assert(key("xref"@) =~= xref_word());
    assert(key("trailer"@) =~= trailer_word());
}

/// A subsection starts with the number of its first object and how many there are.
pub proof fn lemma_subsection_heads(bytes: Seq<u8>, at: int, first_end: int, end: int)
    requires
        at < first_end,
        are_digits(bytes, at, first_end),
        after_white(bytes, first_end) < end,
        are_digits(bytes, after_white(bytes, first_end), end),
        count_of(bytes, at, first_end) <= 0xffff_ffff,
        count_of(bytes, after_white(bytes, first_end), end) <= 0xffff_ffff,
    ensures
        subsection_at(bytes, at) == Some(
            (count_of(bytes, at, first_end) as nat, after_white(bytes, end)),
        ),
{
    lemma_unsigned(bytes, at, first_end, u32::MAX as nat);
    lemma_unsigned(bytes, after_white(bytes, first_end), end, u32::MAX as nat);
}

/// Whether subsections stand at `starts`, each from its first number on, with its entries behind its head,
/// up to the last start, where there is none; `tables` is what is listed before each of them.
pub open spec fn are_subsections(
    bytes: Seq<u8>,
    starts: Seq<int>,
    firsts: Seq<nat>,
    heads: Seq<int>,
    tables: Seq<Map<u32, XrefEntry>>,
) -> bool {
    &&& starts.len() == firsts.len() + 1
    &&& heads.len() == firsts.len()
    &&& tables.len() == firsts.len() + 1
    &&& forall|k: int|
        0 <= k < firsts.len() ==> subsection_at(bytes, starts[k]) == Some(
            (#[trigger] firsts[k], heads[k]),
        )
    &&& forall|k: int|
        0 <= k < firsts.len() ==> table_entries_at(bytes, heads[k], firsts[k], tables[k]) == (
            #[trigger] tables[k + 1],
            starts[k + 1],
        )
    &&& forall|k: int|
        0 <= k < firsts.len() ==> starts[k] < #[trigger] heads[k] <= starts[k + 1] <= bytes.len()
    &&& subsection_at(bytes, starts.last()) is None
}

proof fn lemma_subsections_from(
    bytes: Seq<u8>,
    starts: Seq<int>,
    firsts: Seq<nat>,
    heads: Seq<int>,
    tables: Seq<Map<u32, XrefEntry>>,
    k: int,
)
    requires
        are_subsections(bytes, starts, firsts, heads, tables),
        0 <= k <= firsts.len(),
    ensures
        subsections_at(bytes, starts[k], tables[k]) == (tables.last(), starts.last()),
    decreases firsts.len() - k,
{
    if k < firsts.len() {
        assert(subsection_at(bytes, starts[k]) == Some((firsts[k], heads[k])));
        assert(table_entries_at(bytes, heads[k], firsts[k], tables[k]) == (
            tables[k + 1],
            starts[k + 1],
        ));
        assert(starts[k] < heads[k] <= starts[k + 1] <= bytes.len());
        lemma_subsections_from(bytes, starts, firsts, heads, tables, k + 1);
    }
}

/// A cross-reference table is `xref`, its subsections, each over those before it, `trailer`, and the
/// trailer's dictionary, which says how many numbers there are. A dictionary that does not say so, or one
/// that is missing, is an error.
pub proof fn lemma_tables(
    bytes: Seq<u8>,
    starts: Seq<int>,
    firsts: Seq<nat>,
    heads: Seq<int>,
    tables: Seq<Map<u32, XrefEntry>>,
)
    requires
        stands_at(bytes, after_space(bytes, 0), xref_word()),
        are_subsections(bytes, starts, firsts, heads, tables),
        starts[0] == after_space(bytes, after_space(bytes, 0) + 4),
        tables[0] == Map::<u32, XrefEntry>::empty(),
    ensures
        ({
            let at = after_space(bytes, starts.last());
            if stands_at(bytes, at, trailer_word()) {
                match dictionary_at(bytes, after_space(bytes, at + 7), 255) {
                    Some((trailer, _)) => match named_entry(trailer, "Size"@) {
                        Some(Value::Integer(size)) => if 0 <= size <= 0xffff_ffff {
                            table_and_trailer(bytes) == Ok::<Section, ParseError>(
                                (tables.last(), trailer, size as u32),
                            )
                        } else {
                            table_and_trailer(bytes) == Err::<Section, ParseError>(
                                ParseError::InvalidTrailer,
                            )
                        },
                        _ => table_and_trailer(bytes) == Err::<Section, ParseError>(
                            ParseError::InvalidTrailer,
                        ),
                    },
                    None => table_and_trailer(bytes) == Err::<Section, ParseError>(
                        ParseError::InvalidXref,
                    ),
                }
            } else {
                table_and_trailer(bytes) == Err::<Section, ParseError>(ParseError::InvalidXref)
            }
        }),
{
    lemma_words();
    let start = after_space(bytes, 0);
    lemma_tagged(bytes, start, xref_word());
    lemma_subsections_from(bytes, starts, firsts, heads, tables, 0);
    let at = after_space(bytes, starts.last());
    lemma_tagged(bytes, at, trailer_word());
}

/// Where `xref` does not stand, there is no table, and the section is read as a stream.
pub proof fn lemma_streams_for_tables(bytes: Seq<u8>, limit: usize)
    requires
        !stands_at(bytes, after_space(bytes, 0), xref_word()),
    ensures
        section_of(bytes, limit) == stream_and_trailer(bytes, limit),
{
    reveal(section_of);
    lemma_words();
    lemma_tagged(bytes, after_space(bytes, 0), xref_word());
}

/// A section that is a table is that table.
pub proof fn lemma_tables_are_sections(bytes: Seq<u8>, limit: usize)
    ensures
        table_and_trailer(bytes) matches Ok(section) ==> section_of(bytes, limit) == Ok::<
            Section,
            ParseError,
        >(section),
        table_and_trailer(bytes) == Err::<Section, ParseError>(ParseError::InvalidTrailer)
            ==> section_of(bytes, limit) == Err::<Section, ParseError>(ParseError::InvalidTrailer),
{
    reveal(section_of);
}

/// A cross-reference stream gives the entries of its plain content, by its `/W` and `/Index`, and its
/// dictionary for a trailer, which says how many numbers there are.
pub proof fn lemma_streams(
    bytes: Seq<u8>,
    limit: usize,
    id: ObjectId,
    dict: Entries,
    start: int,
    length: i64,
    stored: Seq<u8>,
    plain: Seq<u8>,
    widths: Widths,
)
    requires
        head_of(bytes) == Some((id, HeadModel::Stream { dict, start })),
        named_entry(dict, "Length"@) == Some(Value::Integer(length)),
        stream_content(bytes, start, Some(length), bytes.len() as int) == Some(stored),
        plain_within(dict, stored, limit) == Ok::<Seq<u8>, Error>(plain),
        widths_of(dict) == Some(widths),
    ensures
        match named_entry(dict, "Size"@) {
            Some(Value::Integer(size)) => if 0 <= size <= 0xffff_ffff {
                stream_and_trailer(bytes, limit) == Ok::<Section, ParseError>(
                    (
                        stream_table(
                            plain,
                            widths,
                            match named_entry(dict, "Index"@) {
                                Some(Value::Array(index)) => Some(index),
                                _ => None,
                            },
                            size as u32,
                        ),
                        as_trailer(dict),
                        size as u32,
                    ),
                )
            } else {
                stream_and_trailer(bytes, limit) == Err::<Section, ParseError>(
                    ParseError::InvalidTrailer,
                )
            },
            _ => stream_and_trailer(bytes, limit) == Err::<Section, ParseError>(
                ParseError::InvalidTrailer,
            ),
        },
{
}

/// Whether `windows` are how much is read for a section in turn: 65,536 bytes first, and each time four
/// times as much as before, up to the end of the file or 64 MiB.
pub open spec fn are_section_windows(file: Seq<u8>, offset: int, windows: Seq<int>) -> bool {
    &&& windows.len() > 0
    &&& windows[0] == 65_536
    &&& forall|k: int|
        0 <= k < windows.len() - 1 ==> #[trigger] is_widened(
            file,
            offset,
            windows[k],
            windows[k + 1],
        )
}

/// Whether `wider` is read when a section is not in what was read before: four times as much, if there is
/// more in the file and 64 MiB have not been read.
pub open spec fn is_widened(file: Seq<u8>, offset: int, window: int, wider: int) -> bool {
    &&& 0 < window < 67_108_864
    &&& offset + window < file.len()
    &&& wider == 4 * window
}

/// The section at an offset is the one that is read from the first window that holds one.
pub proof fn lemma_section_windows(
    file: Seq<u8>,
    offset: int,
    windows: Seq<int>,
    limit: usize,
    k: int,
    section: Section,
)
    requires
        are_section_windows(file, offset, windows),
        0 <= k < windows.len(),
        forall|j: int|
            k <= j < windows.len() - 1 ==> section_of(
                file.subrange(offset, offset + #[trigger] windows[j]),
                limit,
            ) is Err,
        section_of(
            file.subrange(
                offset,
                if offset + windows.last() < file.len() {
                    offset + windows.last()
                } else {
                    file.len() as int
                },
            ),
            limit,
        ) == Ok::<Section, ParseError>(section),
    ensures
        section_in(file, offset, windows[k], limit) == Ok::<Section, Error>(section),
    decreases windows.len() - k,
{
    if k < windows.len() - 1 {
        assert(is_widened(file, offset, windows[k], windows[k + 1]));
        assert(section_of(file.subrange(offset, offset + windows[k]), limit) is Err);
        lemma_section_windows(file, offset, windows, limit, k + 1, section);
    }
}

/// A section is read where it is found to be, with 65,536 bytes at first.
pub proof fn lemma_sections_where_they_are(file: Seq<u8>, options: ReadOptions, offset: int)
    ensures
        section_at(file, options, offset) == section_in(
            file,
            corrected_offset(file, options.strict, offset),
            65_536,
            match options.max_decompressed_size {
                Some(limit) => limit,
                None => usize::MAX,
            },
        ),
{
    reveal(section_at);
}

/// A revision that cannot be read is an error, and so is one that should be outside the file; one that has
/// been read ends the revisions.
pub proof fn lemma_unreadable_revisions(
    file: Seq<u8>,
    options: ReadOptions,
    prev: i64,
    seen: Set<int>,
    table: Map<u32, XrefEntry>,
    trailer: Entries,
)
    ensures
        seen.contains(prev as int) ==> with_older(file, options, Some(prev), seen, table, trailer)
            == Ok::<(Map<u32, XrefEntry>, Entries), Error>((table, trailer)),
        !seen.contains(prev as int) && (prev < 0 || prev > file.len()) ==> with_older(
            file,
            options,
            Some(prev),
            seen,
            table,
            trailer,
        ) == Err::<(Map<u32, XrefEntry>, Entries), Error>(Error::Xref(XrefError::PrevStart)),
        !seen.contains(prev as int) && 0 <= prev <= file.len() ==> (section_at(
            file,
            options,
            prev as int,
        ) matches Err(error) ==> with_older(file, options, Some(prev), seen, table, trailer) == Err::<
            (Map<u32, XrefEntry>, Entries),
            Error,
        >(error)),
        with_older(file, options, None, seen, table, trailer) == Ok::<
            (Map<u32, XrefEntry>, Entries),
            Error,
        >((table, trailer)),
{
}

/// A file opens only where its header can be read, and its newest section, which the file says where to
/// find.
pub proof fn lemma_unreadable_files(content: Seq<u8>, options: ReadOptions)
    ensures
        header_version(head_bytes(content).skip(header_base(content))) is None ==> opened(
            content,
            options,
        ) == Err::<(Seq<char>, int, Structure), Error>(Error::Parse(ParseError::InvalidFileHeader)),
        xref_start_of(tail_bytes(content)) is None ==> structure_of(content, options) == Err::<
            Structure,
            Error,
        >(Error::Xref(XrefError::Start)),
        xref_start_of(tail_bytes(content)) matches Some(start) ==> (start > content.len()
            ==> structure_of(content, options) == Err::<Structure, Error>(
            Error::Xref(XrefError::Start),
        )),
{
}

} // verus!
