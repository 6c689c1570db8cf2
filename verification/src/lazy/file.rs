//! The structure of a file in a source: where it starts, and its cross-reference data.

use vstd::prelude::*;
use vstd::set_lib::{lemma_int_range, set_int_range};
use vstd::slice::slice_subrange;
use vstd::utf8::{encode_utf8_decode_utf8, is_ascii_chars_encode_utf8};

use crate::bytes::key;
use crate::encryption::security::NoSecurity;
use crate::error::{Error, IoError, ParseError, Result, XrefError};
use crate::lazy::source::RandomAccessSource;
use crate::object::{
    distinct_keys, integer_of, lemma_remove_takes_the_key_out, named_entry, remove_entry, Dictionary,
    Entries, Object,
};
use crate::parser::file::{
    find_first, first_tag, header, header_version, lemma_file_keywords, subsections_at,
    table_and_trailer, xref_start, xref_start_of, xref_table_and_trailer,
};
use crate::parser::indirect::{head_of, lemma_head_keys_are_distinct, HeadModel};
use crate::parser::lexical::{
    after_space, has_tag, is_end_of_line, lemma_line_end, line_end, object_id, object_id_at, tagged,
};
use crate::parser::objects::{lemma_parsed_keys_are_distinct, MAX_NESTING};
use crate::parser::xref_stream::{stream_and_trailer, xref_stream_and_trailer};
use crate::resolver::source_failure;
use crate::xref::{is_greatest, merged, Xref, XrefEntry};

verus! {

/// How far into a source the `%PDF-` header is looked for.
pub const HEADER_SEARCH_LEN: usize = 4096;

/// How much of the end of the source is searched for `startxref`.
pub const TAIL_LEN: usize = 1024;

/// The first window read for a cross-reference section. It grows until the section parses.
pub const XREF_WINDOW: usize = 65_536;

/// The largest window read for one cross-reference section or one object.
pub const MAX_WINDOW: usize = 67_108_864;

/// How far from where it should be a cross-reference section is looked for.
pub const XREF_OFFSET_RECOVERY_WINDOW: usize = 32;

/// Options for opening a document.
#[derive(Clone, Debug)]
pub struct LoadOptions<H = NoSecurity> {
    /// Whether a cross-reference section must be exactly where it should be.
    pub strict: bool,
    /// The most bytes that a filter of an object stream or a cross-reference stream may give.
    pub max_decompressed_size: Option<usize>,
    /// The password that opens an encrypted document that the empty one does not open.
    pub password: Option<String>,
    /// What tells which passwords open an encrypted document, and what they unlock.
    pub security: H,
}

impl<H> LoadOptions<H> {
    /// How a document is read, whatever opens it.
    pub open spec fn reading(self) -> ReadOptions {
        ReadOptions { strict: self.strict, max_decompressed_size: self.max_decompressed_size }
    }

    pub open spec fn password_text(self) -> Option<Seq<char>> {
        match self.password {
            Some(password) => Some(password@),
            None => None,
        }
    }
}

/// How a document is read.
#[derive(Clone, Copy, Debug, PartialEq, Eq)]
pub struct ReadOptions {
    /// Whether a cross-reference section must be exactly where it should be.
    pub strict: bool,
    /// The most bytes that a filter of an object stream or a cross-reference stream may give.
    pub max_decompressed_size: Option<usize>,
}

impl Default for LoadOptions<NoSecurity> {
    /// No security handler is set: an encrypted document is read as far as it goes without one.
    fn default() -> (r: Self)
        ensures
            !r.strict,
            r.max_decompressed_size is None,
            r.password is None,
    {
        LoadOptions {
            strict: false,
            max_decompressed_size: None,
            password: None,
            security: NoSecurity,
        }
    }
}

/// The most bytes that a filter may give.
pub open spec fn size_limit(options: ReadOptions) -> usize {
    match options.max_decompressed_size {
        Some(limit) => limit,
        None => usize::MAX,
    }
}

/// The first bytes of a source, where the header is looked for.
pub open spec fn head_bytes(content: Seq<u8>) -> Seq<u8> {
    content.take(
        if content.len() < HEADER_SEARCH_LEN {
            content.len() as int
        } else {
            HEADER_SEARCH_LEN as int
        },
    )
}

/// Where `%PDF-` starts in a source. Offsets inside the PDF count from here.
pub open spec fn header_base(content: Seq<u8>) -> int {
    match first_tag(head_bytes(content), 0, key("%PDF-"@)) {
        Some(at) => at,
        None => 0,
    }
}

/// A cross-reference section: its entries, its trailer, and the trailer's `/Size`.
pub type Section = (Map<u32, XrefEntry>, Entries, u32);

/// The cross-reference section that the bytes start with: a table, or else a stream.
#[verifier::opaque]
pub open spec fn section_of(bytes: Seq<u8>, limit: usize) -> std::result::Result<
    Section,
    ParseError,
> {
    match table_and_trailer(bytes) {
        Err(ParseError::InvalidXref) => stream_and_trailer(bytes, limit),
        section => section,
    }
}

/// Where a window of so many bytes from `offset` on ends.
pub open spec fn window_end(len: nat, offset: int, window: int) -> int {
    if offset + window < len {
        offset + window
    } else {
        len as int
    }
}

/// The cross-reference section at `offset`, with more of the file being read while the window is
/// too short to hold it.
pub open spec fn section_in(file: Seq<u8>, offset: int, window: int, limit: usize) -> std::result::Result<
    Section,
    Error,
>
    decreases 4 * MAX_WINDOW - window,
{
    let end = window_end(file.len(), offset, window);
    match section_of(file.subrange(offset, end), limit) {
        Ok(section) => Ok(section),
        Err(error) => if end < file.len() && 0 < window < MAX_WINDOW {
            section_in(file, offset, window * 4, limit)
        } else {
            Err(Error::Parse(error))
        },
    }
}

/// Whether a cross-reference section could start at `at`: with `xref`, or with an object.
pub open spec fn starts_section(bytes: Seq<u8>, at: int) -> bool {
    tagged(bytes, at, key("xref"@)) || match object_id_at(bytes, at) {
        Some((_, end)) => tagged(bytes, end, key("obj"@)),
        None => false,
    }
}

/// The first `xref` in `bytes` from `at` on that is not the end of `startxref`.
pub open spec fn section_nearby(bytes: Seq<u8>, at: int) -> Option<int>
    decreases bytes.len() - at,
{
    if at < 0 || at >= bytes.len() {
        None
    } else if tagged(bytes, at, key("xref"@)) && !(at >= 5 && tagged(
        bytes,
        at - 5,
        key("startxref"@),
    )) {
        Some(at)
    } else {
        section_nearby(bytes, at + 1)
    }
}

/// Where the bytes around `offset` start that are searched for a cross-reference section.
pub open spec fn recovery_start(offset: int) -> int {
    if offset < XREF_OFFSET_RECOVERY_WINDOW + 5 {
        0
    } else {
        offset - XREF_OFFSET_RECOVERY_WINDOW - 5
    }
}

/// Where the cross-reference section that should be at `offset` is: there, or nearby.
pub open spec fn corrected_offset(file: Seq<u8>, strict: bool, offset: int) -> int {
    if strict || offset >= file.len() {
        offset
    } else {
        let start = recovery_start(offset);
        let end = window_end(file.len(), offset, 2 * XREF_OFFSET_RECOVERY_WINDOW);
        let window = file.subrange(start, end);
        if starts_section(window, offset - start) {
            offset
        } else {
            match section_nearby(window, 0) {
                Some(at) => start + at,
                None => offset,
            }
        }
    }
}

/// The cross-reference section that should be at `offset`.
#[verifier::opaque]
pub open spec fn section_at(file: Seq<u8>, options: ReadOptions, offset: int) -> std::result::Result<
    Section,
    Error,
> {
    section_in(
        file,
        corrected_offset(file, options.strict, offset),
        XREF_WINDOW as int,
        size_limit(options),
    )
}

/// How many offsets in a file of `len` bytes are not in `seen`.
pub open spec fn unseen_offsets(len: nat, seen: Set<int>) -> nat {
    set_int_range(0, len as int + 1).difference(seen).len()
}

/// Seeing another offset leaves fewer unseen.
pub proof fn lemma_unseen_offsets(len: nat, seen: Set<int>, offset: int)
    requires
        0 <= offset <= len,
        !seen.contains(offset),
    ensures
        unseen_offsets(len, seen.insert(offset)) < unseen_offsets(len, seen),
{
    lemma_int_range(0, len as int + 1);
    let rest = set_int_range(0, len as int + 1).difference(seen);
    assert(rest.contains(offset));
    assert(set_int_range(0, len as int + 1).difference(seen.insert(offset)) =~= rest.remove(offset));
}

/// The offset that an entry of a trailer gives.
pub open spec fn offset_in(trailer: Entries, name: Seq<char>) -> Option<i64> {
    match named_entry(trailer, name) {
        Some(value) => integer_of(value),
        None => None,
    }
}

/// The newest section with the older ones that `/Prev` leads to merged in, and the stream of a
/// hybrid-reference file with the first of them.
pub open spec fn with_older(
    file: Seq<u8>,
    options: ReadOptions,
    prev: Option<i64>,
    seen: Set<int>,
    table: Map<u32, XrefEntry>,
    trailer: Entries,
) -> std::result::Result<(Map<u32, XrefEntry>, Entries), Error>
    decreases unseen_offsets(file.len(), seen),
{
    match prev {
        None => Ok((table, trailer)),
        Some(prev) => if seen.contains(prev as int) {
            Ok((table, trailer))
        } else if prev < 0 || prev > file.len() {
            Err(Error::Xref(XrefError::PrevStart))
        } else {
            proof {
                lemma_unseen_offsets(file.len(), seen, prev as int);
            }
            match section_at(file, options, prev as int) {
                Ok((older, older_trailer, _)) => {
                    let more = merged(table, older);
                    let rest = remove_entry(trailer, key("XRefStm"@));
                    let next = offset_in(older_trailer, "Prev"@);
                    match offset_in(trailer, "XRefStm"@) {
                        None => with_older(
                            file,
                            options,
                            next,
                            seen.insert(prev as int),
                            more,
                            rest,
                        ),
                        Some(stream) => if stream < 0 || stream > file.len() {
                            Err(Error::Xref(XrefError::StreamStart))
                        } else {
                            match section_at(file, options, stream as int) {
                                Ok((hybrid, _, _)) => with_older(
                                    file,
                                    options,
                                    next,
                                    seen.insert(prev as int),
                                    merged(more, hybrid),
                                    rest,
                                ),
                                Err(error) => Err(error),
                            }
                        },
                    }
                },
                Err(error) => Err(error),
            }
        },
    }
}

/// The last bytes of a file, where `startxref` is looked for.
pub open spec fn tail_bytes(file: Seq<u8>) -> Seq<u8> {
    if file.len() < TAIL_LEN {
        file
    } else {
        file.skip(file.len() - TAIL_LEN)
    }
}

/// What a file's cross-reference data says.
pub struct Structure {
    /// Where the newest cross-reference section is.
    pub xref_start: int,
    /// The merged cross-reference table of every revision.
    pub table: Map<u32, XrefEntry>,
    /// The trailer of the newest revision, without `/Prev`.
    pub trailer: Entries,
}

/// The newest cross-reference section and trailer with every `/Prev` revision.
pub open spec fn structure_of(file: Seq<u8>, options: ReadOptions) -> std::result::Result<
    Structure,
    Error,
> {
    match xref_start_of(tail_bytes(file)) {
        None => Err(Error::Xref(XrefError::Start)),
        Some(start) => if start > file.len() {
            Err(Error::Xref(XrefError::Start))
        } else {
            let xref_start = corrected_offset(file, options.strict, start as int);
            match section_at(file, options, xref_start) {
                Err(error) => Err(error),
                Ok((table, trailer, _)) => match with_older(
                    file,
                    options,
                    offset_in(trailer, "Prev"@),
                    Set::empty(),
                    table,
                    remove_entry(trailer, key("Prev"@)),
                ) {
                    Err(error) => Err(error),
                    Ok((table, trailer)) => if table.contains_key(u32::MAX) {
                        Err(Error::Parse(ParseError::InvalidXref))
                    } else {
                        Ok(Structure { xref_start, table, trailer })
                    },
                },
            }
        },
    }
}

/// The version of a source's PDF, where the PDF starts, and what its cross-reference data says.
pub open spec fn opened(content: Seq<u8>, options: ReadOptions) -> std::result::Result<
    (Seq<char>, int, Structure),
    Error,
> {
    let base = header_base(content);
    match header_version(head_bytes(content).skip(base)) {
        None => Err(Error::Parse(ParseError::InvalidFileHeader)),
        Some(version) => if content.len() - base > usize::MAX {
            Err(Error::IO(IoError::Unsupported))
        } else {
            match structure_of(content.skip(base), options) {
                Ok(structure) => Ok((version, base, structure)),
                Err(error) => Err(error),
            }
        },
    }
}

/// The trailer of a section names no key twice.
proof fn lemma_section_trailer(bytes: Seq<u8>, limit: usize)
    ensures
        section_of(bytes, limit) matches Ok((_, trailer, _)) ==> distinct_keys(trailer),
{
    reveal(section_of);
    let start = after_space(bytes, 0);
    let (_, end) = subsections_at(
        bytes,
        after_space(bytes, start + key("xref"@).len()),
        Map::empty(),
    );
    let trailer = after_space(bytes, end);
    lemma_parsed_keys_are_distinct(
        bytes,
        after_space(bytes, trailer + key("trailer"@).len()),
        (MAX_NESTING - 1) as nat,
    );
    if let Some((_, HeadModel::Stream { dict, .. })) = head_of(bytes) {
        lemma_head_keys_are_distinct(bytes);
        lemma_remove_takes_the_key_out(dict, key("Length"@));
        let shorter = remove_entry(dict, key("Length"@));
        lemma_remove_takes_the_key_out(shorter, key("W"@));
        lemma_remove_takes_the_key_out(remove_entry(shorter, key("W"@)), key("Index"@));
    }
}

proof fn lemma_section_in_trailer(file: Seq<u8>, offset: int, window: int, limit: usize)
    ensures
        section_in(file, offset, window, limit) matches Ok((_, trailer, _)) ==> distinct_keys(
            trailer,
        ),
    decreases 4 * MAX_WINDOW - window,
{
    let end = window_end(file.len(), offset, window);
    lemma_section_trailer(file.subrange(offset, end), limit);
    if section_of(file.subrange(offset, end), limit) is Err && end < file.len() && 0 < window
        < MAX_WINDOW {
        lemma_section_in_trailer(file, offset, window * 4, limit);
    }
}

/// The trailer of the section at an offset names no key twice.
pub proof fn lemma_section_keys(file: Seq<u8>, options: ReadOptions, offset: int)
    ensures
        section_at(file, options, offset) matches Ok((_, trailer, _)) ==> distinct_keys(trailer),
{
    reveal(section_at);
    lemma_section_in_trailer(
        file,
        corrected_offset(file, options.strict, offset),
        XREF_WINDOW as int,
        size_limit(options),
    );
}

/// Merging older sections takes nothing into the trailer.
proof fn lemma_older_keep_the_trailer(
    file: Seq<u8>,
    options: ReadOptions,
    prev: Option<i64>,
    seen: Set<int>,
    table: Map<u32, XrefEntry>,
    trailer: Entries,
)
    requires
        distinct_keys(trailer),
        named_entry(trailer, "Prev"@) is None,
    ensures
        with_older(file, options, prev, seen, table, trailer) matches Ok((_, rest))
            ==> distinct_keys(rest) && named_entry(rest, "Prev"@) is None,
    decreases unseen_offsets(file.len(), seen),
{
    if let Some(prev) = prev {
        if !seen.contains(prev as int) && 0 <= prev <= file.len() {
            lemma_unseen_offsets(file.len(), seen, prev as int);
            if let Ok((older, older_trailer, _)) = section_at(file, options, prev as int) {
                let more = merged(table, older);
                let rest = remove_entry(trailer, key("XRefStm"@));
                let next = offset_in(older_trailer, "Prev"@);
                lemma_remove_takes_the_key_out(trailer, key("XRefStm"@));
                assert(key("Prev"@) != key("XRefStm"@)) by {
                    reveal_strlit("Prev");
                    reveal_strlit("XRefStm");
                    encode_utf8_decode_utf8("Prev"@);
                    encode_utf8_decode_utf8("XRefStm"@);
                }
                let after = seen.insert(prev as int);
                lemma_older_keep_the_trailer(file, options, next, after, more, rest);
                if let Some(stream) = offset_in(trailer, "XRefStm"@) {
                    if let Ok((hybrid, _, _)) = section_at(file, options, stream as int) {
                        lemma_older_keep_the_trailer(
                            file,
                            options,
                            next,
                            after,
                            merged(more, hybrid),
                            rest,
                        );
                    }
                }
            }
        }
    }
}

/// The trailer of a file names no key twice, and is without `/Prev`, however many revisions there are.
pub proof fn lemma_trailer_is_without_prev(file: Seq<u8>, options: ReadOptions)
    ensures
        structure_of(file, options) matches Ok(structure) ==> distinct_keys(structure.trailer)
            && named_entry(structure.trailer, "Prev"@) is None,
{
    reveal(section_at);
    if let Some(start) = xref_start_of(tail_bytes(file)) {
        let xref_start = corrected_offset(file, options.strict, start as int);
        lemma_section_in_trailer(
            file,
            corrected_offset(file, options.strict, xref_start),
            XREF_WINDOW as int,
            size_limit(options),
        );
        if let Ok((table, trailer, _)) = section_at(file, options, xref_start) {
            lemma_remove_takes_the_key_out(trailer, key("Prev"@));
            lemma_older_keep_the_trailer(
                file,
                options,
                offset_in(trailer, "Prev"@),
                Set::empty(),
                table,
                remove_entry(trailer, key("Prev"@)),
            );
        }
    }
}

/// The first tag is where none stands before it.
proof fn lemma_first_tag(bytes: Seq<u8>, from: int, at: int, tag: Seq<u8>)
    requires
        0 <= from <= at < bytes.len(),
        tagged(bytes, at, tag),
        forall|i: int| from <= i < at ==> !tagged(bytes, i, tag),
    ensures
        first_tag(bytes, from, tag) == Some(at),
    decreases at - from,
{
    if from < at {
        lemma_first_tag(bytes, from + 1, at, tag);
    }
}

/// A line that ends in the first bytes ends there in all of them.
proof fn lemma_line_in_front(bytes: Seq<u8>, at: int, count: int)
    requires
        0 <= at,
        line_end(bytes, at) < count <= bytes.len(),
    ensures
        line_end(bytes.take(count), at) == line_end(bytes, at),
        at <= line_end(bytes, at),
    decreases bytes.len() - at,
{
    if at < bytes.len() && !is_end_of_line(bytes[at]) {
        lemma_line_end(bytes, at);
        lemma_line_in_front(bytes, at + 1, count);
        lemma_line_end(bytes, at + 1);
    }
}

/// The header gives the same version as long as its line is among the first bytes.
proof fn lemma_header_in_front(bytes: Seq<u8>, count: int)
    requires
        5 <= line_end(bytes, 5) < count <= bytes.len(),
    ensures
        header_version(bytes.take(count)) == header_version(bytes),
{
    lemma_file_keywords();
    let tag = key("%PDF-"@);
    lemma_line_in_front(bytes, 5, count);
    let to = line_end(bytes, 5);
    assert(bytes.take(count).subrange(0, 5) =~= bytes.subrange(0, 5));
    assert(bytes.take(count).subrange(5, to) =~= bytes.subrange(5, to));
}

/// No header starts in front of another and runs into it.
proof fn lemma_headers_do_not_overlap(front: Seq<u8>, bytes: Seq<u8>, i: int)
    requires
        tagged(bytes, 0, key("%PDF-"@)),
        0 <= i < front.len(),
        !tagged(front, i, key("%PDF-"@)),
    ensures
        !tagged(front + bytes, i, key("%PDF-"@)),
{
    lemma_file_keywords();
    let tag = key("%PDF-"@);
    let all = front + bytes;
    if tagged(all, i, tag) {
        if i + 5 <= front.len() {
            assert(front.subrange(i, i + 5) =~= all.subrange(i, i + 5));
        } else {
            reveal_strlit("%PDF-");
            is_ascii_chars_encode_utf8("%PDF-"@);
            let k = front.len() - i;
            assert(all.subrange(i, i + 5)[k] == all[i + k]);
            assert(all[i + k] == bytes[0]);
            assert(bytes.subrange(0, 5)[0] == bytes[0]);
            assert(tag[0] == 0x25u8);
            assert(tag[k] != 0x25u8);
        }
    }
}

/// A header that a source starts with is found there.
proof fn lemma_header_alone(bytes: Seq<u8>)
    requires
        tagged(bytes, 0, key("%PDF-"@)),
        line_end(bytes, 5) < HEADER_SEARCH_LEN,
        line_end(bytes, 5) < bytes.len(),
    ensures
        header_base(bytes) == 0,
        header_version(head_bytes(bytes).skip(0)) == header_version(bytes),
{
    lemma_file_keywords();
    lemma_line_end(bytes, 5);
    let head = head_bytes(bytes);
    assert(head.subrange(0, 5) =~= bytes.subrange(0, 5));
    lemma_first_tag(head, 0, 0, key("%PDF-"@));
    assert(head.skip(0) =~= bytes.take(head.len() as int));
    lemma_header_in_front(bytes, head.len() as int);
}

/// A header behind bytes that hold none is found where they end.
proof fn lemma_header_behind(front: Seq<u8>, bytes: Seq<u8>)
    requires
        tagged(bytes, 0, key("%PDF-"@)),
        forall|i: int| 0 <= i < front.len() ==> !tagged(front, i, key("%PDF-"@)),
        front.len() + line_end(bytes, 5) < HEADER_SEARCH_LEN,
        line_end(bytes, 5) < bytes.len(),
    ensures
        header_base(front + bytes) == front.len(),
        header_version(head_bytes(front + bytes).skip(front.len() as int)) == header_version(bytes),
{
    lemma_file_keywords();
    lemma_line_end(bytes, 5);
    let tag = key("%PDF-"@);
    let all = front + bytes;
    let n = front.len() as int;
    let head = head_bytes(all);
    assert(head.subrange(n, n + 5) =~= bytes.subrange(0, 5));
    assert forall|i: int| 0 <= i < n implies !tagged(head, i, tag) by {
        lemma_headers_do_not_overlap(front, bytes, i);
        if tagged(head, i, tag) {
            assert(head.subrange(i, i + 5) =~= all.subrange(i, i + 5));
        }
    }
    lemma_first_tag(head, 0, n, tag);
    assert(head.skip(n) =~= bytes.take(head.len() - n));
    lemma_header_in_front(bytes, head.len() - n);
}

/// Bytes in front of the header change nothing but where the PDF starts: offsets count from the
/// header, so the source opens or not as it does without them, with the same version and structure,
/// and its objects are read from the same bytes.
pub proof fn lemma_bytes_before_the_header(front: Seq<u8>, bytes: Seq<u8>, options: ReadOptions)
    requires
        tagged(bytes, 0, key("%PDF-"@)),
        forall|i: int| 0 <= i < front.len() ==> !tagged(front, i, key("%PDF-"@)),
        front.len() + line_end(bytes, 5) < HEADER_SEARCH_LEN,
        line_end(bytes, 5) < bytes.len(),
    ensures
        opened(front + bytes, options) == match opened(bytes, options) {
            Ok((version, _, structure)) => Ok((version, front.len() as int, structure)),
            Err(error) => Err(error),
        },
        opened(bytes, options) matches Ok((_, base, _)) ==> bytes.skip(base) == (front
            + bytes).skip(front.len() as int),
{
    lemma_header_alone(bytes);
    lemma_header_behind(front, bytes);
    assert((front + bytes).skip(front.len() as int) =~= bytes);
    assert(bytes.skip(0) =~= bytes);
}

/// A PDF in a source.
pub struct LazyFile<S: RandomAccessSource> {
    source: S,
    /// Where `%PDF-` starts in the source. Offsets inside the PDF count from here.
    base: u64,
    /// Length of the PDF from `base`.
    len: usize,
}

impl<S: RandomAccessSource> LazyFile<S> {
    pub closed spec fn source(&self) -> S {
        self.source
    }

    /// The bytes of the PDF.
    pub closed spec fn bytes(&self) -> Seq<u8> {
        self.source.content().skip(self.base as int)
    }

    pub closed spec fn well_formed(&self) -> bool {
        &&& self.base <= self.source.content().len()
        &&& self.source.content().len() <= u64::MAX
        &&& self.len == self.source.content().len() - self.base
    }

    pub fn len(&self) -> (r: usize)
        requires
            self.well_formed(),
        ensures
            r == self.bytes().len(),
    {
        self.len
    }

    /// Reads bytes `start..end` of the PDF, counted from its `%PDF-` header.
    pub fn read(&self, start: usize, end: usize) -> (r: Result<Vec<u8>>)
        requires
            self.well_formed(),
            start <= end <= self.bytes().len(),
        ensures
            match r {
                Ok(bytes) => bytes@ == self.bytes().subrange(start as int, end as int),
                Err(error) => source_failure(error, self.source().can_fail()),
            },
    {
        let mut bytes: Vec<u8> = Vec::new();
        bytes.resize(end - start, 0);
        match self.source.read_exact_at(self.base + start as u64, &mut bytes) {
            Ok(_) => {
                assert(bytes@ =~= self.bytes().subrange(start as int, end as int));
                Ok(bytes)
            },
            Err(error) => Err(Error::IO(error)),
        }
    }

    /// Finds the PDF in `source`, and its version.
    pub fn find(source: S) -> (r: Result<(Self, String)>)
        ensures
            ({
                let content = source.content();
                let base = header_base(content);
                match r {
                    Ok((file, version)) => {
                        &&& file.well_formed()
                        &&& file.source() == source
                        &&& 0 <= base <= content.len()
                        &&& file.bytes() == content.skip(base)
                        &&& header_version(head_bytes(content).skip(base)) == Some(version@)
                        &&& content.len() - base <= usize::MAX
                    },
                    Err(Error::Parse(error)) => header_version(head_bytes(content).skip(base))
                        is None && error == ParseError::InvalidFileHeader,
                    Err(error) => source_failure(error, source.can_fail()) || (error == Error::IO(
                        IoError::Unsupported,
                    ) && header_version(head_bytes(content).skip(base)) is Some && content.len()
                        - base > usize::MAX),
                }
            }),
    {
        let total = source.len();
        let head_len: usize = if total < HEADER_SEARCH_LEN as u64 {
            total as usize
        } else {
            HEADER_SEARCH_LEN
        };
        let mut head: Vec<u8> = Vec::new();
        head.resize(head_len, 0);
        match source.read_exact_at(0, &mut head) {
            Ok(_) => {},
            Err(error) => {
                return Err(Error::IO(error));
            },
        }
        assert(head@ =~= head_bytes(source.content()));
        let base: usize = match find_first(head.as_slice(), "%PDF-") {
            Some(at) => at,
            None => 0,
        };
        let rest = slice_subrange(head.as_slice(), base, head.len());
        assert(rest@ =~= head@.skip(base as int));
        let version = match header(rest) {
            Some(version) => version,
            None => {
                return Err(Error::Parse(ParseError::InvalidFileHeader));
            },
        };
        let len = total - base as u64;
        if len > usize::MAX as u64 {
            return Err(Error::IO(IoError::Unsupported));
        }
        Ok((LazyFile { source, base: base as u64, len: len as usize }, version))
    }

    /// Where the cross-reference section that should be at `offset` is: there, or nearby.
    fn correct_xref_offset(&self, strict: bool, offset: usize) -> (r: Result<usize>)
        requires
            self.well_formed(),
        ensures
            match r {
                Ok(corrected) => corrected == corrected_offset(
                    self.bytes(),
                    strict,
                    offset as int,
                ) && (offset <= self.bytes().len() ==> corrected <= self.bytes().len()),
                Err(error) => source_failure(error, self.source().can_fail()),
            },
    {
        if strict || offset >= self.len {
            return Ok(offset);
        }
        // Five more bytes before the window let the correction rule out `startxref`.
        let start = if offset < XREF_OFFSET_RECOVERY_WINDOW + 5 {
            0
        } else {
            offset - XREF_OFFSET_RECOVERY_WINDOW - 5
        };
        let end = if self.len - offset > 2 * XREF_OFFSET_RECOVERY_WINDOW {
            offset + 2 * XREF_OFFSET_RECOVERY_WINDOW
        } else {
            self.len
        };
        let window = match self.read(start, end) {
            Ok(window) => window,
            Err(error) => {
                return Err(error);
            },
        };
        let bytes = window.as_slice();
        proof {
            lemma_file_keywords();
        }
        if is_section_start(bytes, offset - start) {
            return Ok(offset);
        }
        let mut at: usize = 0;
        while at < bytes.len()
            invariant
                at <= bytes@.len(),
                bytes@ == window@,
                section_nearby(bytes@, 0) == section_nearby(bytes@, at as int),
                start + bytes@.len() == end,
                end <= self.len,
                self.well_formed(),
                corrected_offset(self.bytes(), strict, offset as int) == match section_nearby(
                    bytes@,
                    0,
                ) {
                    Some(at) => start + at,
                    None => offset as int,
                },
            decreases bytes@.len() - at,
        {
            if has_tag(bytes, at, "xref".as_bytes()) && !(at >= 5 && has_tag(
                bytes,
                at - 5,
                "startxref".as_bytes(),
            )) {
                return Ok(start + at);
            }
            at += 1;
        }
        Ok(offset)
    }

    /// Parses the cross-reference section that should be at `offset`, reading more of the source
    /// while the window is too short to hold it.
    fn xref_and_trailer_at(&self, options: ReadOptions, offset: usize) -> (r: Result<
        (Xref, Dictionary),
    >)
        requires
            self.well_formed(),
            offset <= self.bytes().len(),
        ensures
            match (r, section_at(self.bytes(), options, offset as int)) {
                (Ok((xref, trailer)), Ok((table, entries, size))) => {
                    &&& xref.well_formed()
                    &&& xref@ == table
                    &&& xref.declared_size() == size
                    &&& trailer@ == entries
                },
                (Err(error), Err(expected)) => error == expected || source_failure(
                    error,
                    self.source().can_fail(),
                ),
                (Err(error), Ok(_)) => source_failure(error, self.source().can_fail()),
                (Ok(_), Err(_)) => false,
            },
    {
        proof {
            reveal(section_at);
        }
        let limit = match options.max_decompressed_size {
            Some(limit) => limit,
            None => usize::MAX,
        };
        let start = match self.correct_xref_offset(options.strict, offset) {
            Ok(start) => start,
            Err(error) => {
                return Err(error);
            },
        };
        let ghost expected = section_at(self.bytes(), options, offset as int);
        let mut window: usize = XREF_WINDOW;
        loop
            invariant
                self.well_formed(),
                start <= self.bytes().len(),
                0 < window <= 4 * MAX_WINDOW,
                expected == section_at(self.bytes(), options, offset as int),
                expected == section_in(self.bytes(), start as int, window as int, limit),
            decreases 4 * MAX_WINDOW - window,
        {
            let end = if self.len - start > window {
                start + window
            } else {
                self.len
            };
            let bytes = match self.read(start, end) {
                Ok(bytes) => bytes,
                Err(error) => {
                    return Err(error);
                },
            };
            match parse_section(bytes.as_slice(), limit) {
                Ok(section) => {
                    return Ok(section);
                },
                Err(error) => {
                    if end < self.len && window < MAX_WINDOW {
                        window = window * 4;
                    } else {
                        return Err(Error::Parse(error));
                    }
                },
            }
        }
    }

    /// Resolves the newest cross-reference section and trailer and every `/Prev` revision.
    pub fn resolve_xref_and_trailer(&self, options: ReadOptions) -> (r: Result<
        (usize, Xref, Dictionary),
    >)
        requires
            self.well_formed(),
        ensures
            match (r, structure_of(self.bytes(), options)) {
                (Ok((start, xref, trailer)), Ok(structure)) => {
                    &&& start == structure.xref_start
                    &&& xref.well_formed()
                    &&& xref@ == structure.table
                    &&& trailer@ == structure.trailer
                    &&& xref.declared_size() >= 1
                    &&& is_greatest(xref@.dom(), (xref.declared_size() - 1) as u32)
                },
                (Err(error), Err(expected)) => error == expected || source_failure(
                    error,
                    self.source().can_fail(),
                ),
                (Err(error), Ok(_)) => source_failure(error, self.source().can_fail()),
                (Ok(_), Err(_)) => false,
            },
    {
        let tail_start = if self.len < TAIL_LEN {
            0
        } else {
            self.len - TAIL_LEN
        };
        let tail = match self.read(tail_start, self.len) {
            Ok(tail) => tail,
            Err(error) => {
                return Err(error);
            },
        };
        assert(tail@ =~= tail_bytes(self.bytes()));
        let start = match xref_start(tail.as_slice()) {
            Some(start) => start,
            None => {
                return Err(Error::Xref(XrefError::Start));
            },
        };
        if start > self.len {
            return Err(Error::Xref(XrefError::Start));
        }
        let start = match self.correct_xref_offset(options.strict, start) {
            Ok(start) => start,
            Err(error) => {
                return Err(error);
            },
        };
        let (mut xref, mut trailer) = match self.xref_and_trailer_at(options, start) {
            Ok(section) => section,
            Err(error) => {
                return Err(error);
            },
        };
        let prev = integer_named(&trailer, "Prev");
        trailer.remove("Prev".as_bytes());
        match self.merge_older(options, prev, &mut xref, &mut trailer) {
            Ok(_) => {},
            Err(error) => {
                return Err(error);
            },
        }
        let most = xref.max_id();
        if most == u32::MAX {
            return Err(Error::Parse(ParseError::InvalidXref));
        }
        // What the trailer's `/Size` says can be wrong.
        xref.set_size(most + 1);
        Ok((start, xref, trailer))
    }

    /// Merges the sections that `/Prev` leads to into `xref`.
    fn merge_older(
        &self,
        options: ReadOptions,
        prev: Option<i64>,
        xref: &mut Xref,
        trailer: &mut Dictionary,
    ) -> (r: Result<()>)
        requires
            self.well_formed(),
            old(xref).well_formed(),
        ensures
            match (
                r,
                with_older(
                    self.bytes(),
                    options,
                    prev,
                    Set::empty(),
                    old(xref)@,
                    old(trailer)@,
                ),
            ) {
                (Ok(_), Ok((table, entries))) => {
                    &&& final(xref).well_formed()
                    &&& final(xref)@ == table
                    &&& final(trailer)@ == entries
                },
                (Err(error), Err(expected)) => error == expected || source_failure(
                    error,
                    self.source().can_fail(),
                ),
                (Err(error), Ok(_)) => source_failure(error, self.source().can_fail()),
                (Ok(_), Err(_)) => false,
            },
    {
        let ghost file = self.bytes();
        let ghost expected = with_older(file, options, prev, Set::empty(), xref@, trailer@);
        let mut seen: Vec<i64> = Vec::new();
        let mut next = prev;
        assert(offsets(seen@) =~= Set::<int>::empty());
        loop
            invariant
                self.well_formed(),
                file == self.bytes(),
                xref.well_formed(),
                expected == with_older(
                    file,
                    options,
                    prev,
                    Set::empty(),
                    old(xref)@,
                    old(trailer)@,
                ),
                expected == with_older(file, options, next, offsets(seen@), xref@, trailer@),
            decreases unseen_offsets(file.len(), offsets(seen@)),
        {
            let at = match next {
                Some(at) => at,
                None => {
                    return Ok(());
                },
            };
            if holds_offset(&seen, at) {
                return Ok(());
            }
            if at < 0 || at as u64 > self.len as u64 {
                return Err(Error::Xref(XrefError::PrevStart));
            }
            proof {
                lemma_unseen_offsets(file.len(), offsets(seen@), at as int);
                assert(offsets(seen@.push(at)) =~= offsets(seen@).insert(at as int)) by {
                    lemma_offsets_push(seen@, at);
                }
            }
            let (older, older_trailer) = match self.xref_and_trailer_at(options, at as usize) {
                Ok(section) => section,
                Err(error) => {
                    return Err(error);
                },
            };
            xref.merge(&older);
            // Read the xref stream of a hybrid-reference file.
            let stream = integer_named(trailer, "XRefStm");
            trailer.remove("XRefStm".as_bytes());
            if let Some(stream) = stream {
                if stream < 0 || stream as u64 > self.len as u64 {
                    return Err(Error::Xref(XrefError::StreamStart));
                }
                let (hybrid, _) = match self.xref_and_trailer_at(options, stream as usize) {
                    Ok(section) => section,
                    Err(error) => {
                        return Err(error);
                    },
                };
                xref.merge(&hybrid);
            }
            seen.push(at);
            next = integer_named(&older_trailer, "Prev");
        }
    }
}

/// The offsets in `seen`.
spec fn offsets(seen: Seq<i64>) -> Set<int> {
    Set::new(|offset: int| exists|i: int| 0 <= i < seen.len() && #[trigger] seen[i] == offset)
}

proof fn lemma_offsets_push(seen: Seq<i64>, at: i64)
    ensures
        forall|offset: int| #[trigger]
            offsets(seen.push(at)).contains(offset) <==> offsets(seen).contains(offset) || offset
                == at,
{
    assert forall|offset: int| #[trigger] offsets(seen.push(at)).contains(offset) <==> offsets(
        seen,
    ).contains(offset) || offset == at by {
        let more = seen.push(at);
        if offsets(seen).contains(offset) {
            let i = choose|i: int| 0 <= i < seen.len() && #[trigger] seen[i] == offset;
            assert(more[i] == offset);
        }
        if offset == at {
            assert(more[seen.len() as int] == offset);
        }
        if offsets(more).contains(offset) {
            let i = choose|i: int| 0 <= i < more.len() && #[trigger] more[i] == offset;
            if i < seen.len() {
                assert(seen[i] == offset);
            }
        }
    }
}

fn holds_offset(seen: &Vec<i64>, at: i64) -> (r: bool)
    ensures
        r == offsets(seen@).contains(at as int),
{
    let mut i: usize = 0;
    while i < seen.len()
        invariant
            i <= seen@.len(),
            forall|j: int| 0 <= j < i ==> #[trigger] seen@[j] != at,
        decreases seen@.len() - i,
    {
        if seen[i] == at {
            assert(seen@[i as int] == at);
            return true;
        }
        i += 1;
    }
    false
}

fn integer_named(dictionary: &Dictionary, name: &str) -> (r: Option<i64>)
    ensures
        r == offset_in(dictionary@, name@),
{
    match dictionary.named(name) {
        Some(Object::Integer(i)) => Some(*i),
        _ => None,
    }
}

fn is_section_start(bytes: &[u8], at: usize) -> (r: bool)
    requires
        at <= bytes@.len(),
    ensures
        r == starts_section(bytes@, at as int),
{
    if has_tag(bytes, at, "xref".as_bytes()) {
        return true;
    }
    match object_id(bytes, at) {
        Some((_, end)) => has_tag(bytes, end, "obj".as_bytes()),
        None => false,
    }
}

/// The cross-reference section that `bytes` start with: a table, or else a stream.
fn parse_section(bytes: &[u8], limit: usize) -> (r: std::result::Result<
    (Xref, Dictionary),
    ParseError,
>)
    ensures
        match (r, section_of(bytes@, limit)) {
            (Ok((xref, trailer)), Ok((table, entries, size))) => {
                &&& xref.well_formed()
                &&& xref@ == table
                &&& xref.declared_size() == size
                &&& trailer@ == entries
            },
            (Err(error), Err(expected)) => error == expected,
            _ => false,
        },
{
    proof {
        reveal(section_of);
    }
    match xref_table_and_trailer(bytes) {
        Ok(section) => Ok(section),
        Err(ParseError::InvalidXref) => xref_stream_and_trailer(bytes, limit),
        Err(error) => Err(error),
    }
}

} // verus!
