//! The objects of a file, where they stand in it.

use vstd::prelude::*;
use vstd::utf8::{decode_utf8, valid_utf8};

use crate::bytes::key;
use crate::document::{chased};
use crate::error::{Error, ParseError};
use crate::lazy::document::{
    bounds_object, can_widen, compressed_within, content_limit, decrypted, first_window,
    followed_object, integer_in, integer_object, is_object_end, length_of, members_within,
    object_end, object_in, object_in_window, object_within, stored_object, wider, FileModel,
};
use crate::lazy::file::{
    corrected_offset, head_bytes, header_base, recovery_start, section_nearby, starts_section,
    tail_bytes, window_end,
};
use crate::object::{named_entry, Entries, ObjectId, Value};
use crate::object_stream::{members_of, StreamMembers};
use crate::parser::file::{first_tag, header_version, lemma_file_keywords};
use crate::parser::indirect::{
    end_marker, ends_stream, head_of, object_start, stream_content, without_eol, HeadModel,
};
use crate::parser::lexical::{after_space, eol_len, line_end, object_id_at, tagged};
use crate::parser::objects::{bare_at, dictionary_at};
use crate::xref::XrefEntry;

verus! {

/// Whether the bytes of `word` stand at `at`.
pub open spec fn stands_at(bytes: Seq<u8>, at: int, word: Seq<u8>) -> bool {
    &&& 0 <= at
    &&& at + word.len() <= bytes.len()
    &&& forall|i: int| 0 <= i < word.len() ==> bytes[at + i] == #[trigger] word[i]
}

/// A word is found where it stands.
pub proof fn lemma_tagged(bytes: Seq<u8>, at: int, word: Seq<u8>)
    ensures
        tagged(bytes, at, word) <==> stands_at(bytes, at, word),
{
    if tagged(bytes, at, word) {
        assert forall|i: int| 0 <= i < word.len() implies bytes[at + i] == #[trigger] word[i] by {
            assert(bytes.subrange(at, at + word.len())[i] == bytes[at + i]);
        }
    }
    if stands_at(bytes, at, word) {
        assert(bytes.subrange(at, at + word.len()) =~= word);
    }
}

/// `obj`, in bytes.
pub open spec fn obj_word() -> Seq<u8> {
    seq![0x6fu8, 0x62, 0x6a]
}

/// `stream`, in bytes.
pub open spec fn stream_word() -> Seq<u8> {
    seq![0x73u8, 0x74, 0x72, 0x65, 0x61, 0x6d]
}

/// `endstream`, in bytes.
pub open spec fn endstream_word() -> Seq<u8> {
    seq![0x65u8, 0x6e, 0x64, 0x73, 0x74, 0x72, 0x65, 0x61, 0x6d]
}

/// `xref`, in bytes.
pub open spec fn xref_word() -> Seq<u8> {
    seq![0x78u8, 0x72, 0x65, 0x66]
}

/// The words of a file, in bytes.
pub proof fn lemma_words()
    ensures
        key("obj"@) == obj_word(),
        key("stream"@) == stream_word(),
        key("endstream"@) == endstream_word(),
        key("xref"@) == xref_word(),
{
    reveal_strlit("obj");
    reveal_strlit("stream");
    reveal_strlit("endstream");
    reveal_strlit("xref");
    vstd::utf8::is_ascii_chars_encode_utf8("obj"@);
    vstd::utf8::is_ascii_chars_encode_utf8("stream"@);
    vstd::utf8::is_ascii_chars_encode_utf8("endstream"@);
    vstd::utf8::is_ascii_chars_encode_utf8("xref"@);
    assert(key("obj"@) =~= obj_word());
    assert(key("stream"@) =~= stream_word());
    assert(key("endstream"@) =~= endstream_word());
    assert(key("xref"@) =~= xref_word());
}

/// Whether the end of a line stands at `at`, and the next line starts at `next`.
pub open spec fn ends_line(bytes: Seq<u8>, at: int, next: int) -> bool {
    &&& 0 <= at < bytes.len()
    &&& if bytes[at] == 0x0d && at + 1 < bytes.len() && bytes[at + 1] == 0x0a {
        next == at + 2
    } else {
        (bytes[at] == 0x0a || bytes[at] == 0x0d) && next == at + 1
    }
}

/// An object with an id is what stands behind `obj`: a dictionary with `stream` and the end of a line behind
/// it is a stream, whose content starts on the next line.
pub proof fn lemma_objects_with_ids(
    bytes: Seq<u8>,
    id: ObjectId,
    id_end: int,
    value: Value,
    end: int,
    start: int,
)
    requires
        object_id_at(bytes, after_space(bytes, 0)) == Some((id, id_end)),
        stands_at(bytes, id_end, obj_word()),
        bare_at(bytes, after_space(bytes, id_end + 3), 256) == Some((value, end)),
    ensures
        !(value is Dictionary) ==> head_of(bytes) == Some((id, HeadModel::Object(value))),
        value is Dictionary && stands_at(bytes, after_space(bytes, end), stream_word()) && ends_line(
            bytes,
            after_space(bytes, end) + 6,
            start,
        ) ==> head_of(bytes) == Some(
            (id, HeadModel::Stream { dict: value->Dictionary_0, start }),
        ),
        value is Dictionary && !stands_at(bytes, after_space(bytes, end), stream_word()) ==> head_of(
            bytes,
        ) == Some((id, HeadModel::Object(value))),
{
    lemma_words();
    lemma_tagged(bytes, id_end, obj_word());
    lemma_tagged(bytes, after_space(bytes, end), stream_word());
    let at = after_space(bytes, id_end + 3);
    assert(object_start(bytes) == Some((id, at)));
    match dictionary_at(bytes, at, 255) {
        Some((dict, dict_end)) => {
            lemma_dictionary_object(bytes, at);
            assert(value == Value::Dictionary(dict) && end == dict_end);
        },
        None => {
            lemma_dictionary_object(bytes, at);
            assert(!(value is Dictionary));
        },
    }
}

/// A dictionary is an object by itself.
pub proof fn lemma_dictionary_object(bytes: Seq<u8>, at: int)
    ensures
        dictionary_at(bytes, at, 255) matches Some((dict, end)) ==> bare_at(bytes, at, 256) == Some(
            (Value::Dictionary(dict), end),
        ),
        bare_at(bytes, at, 256) matches Some((Value::Dictionary(dict), end)) ==> dictionary_at(
            bytes,
            at,
            255,
        ) == Some((dict, end)),
{
    reveal_strlit("null");
    reveal_strlit("true");
    reveal_strlit("false");
    vstd::utf8::is_ascii_chars_encode_utf8("null"@);
    vstd::utf8::is_ascii_chars_encode_utf8("true"@);
    vstd::utf8::is_ascii_chars_encode_utf8("false"@);
    lemma_tagged(bytes, at, key("null"@));
    lemma_tagged(bytes, at, key("true"@));
    lemma_tagged(bytes, at, key("false"@));
    if dictionary_at(bytes, at, 255) is Some {
        assert(bytes[at] == 0x3c);
        assert(!stands_at(bytes, at, key("null"@))) by {
            if stands_at(bytes, at, key("null"@)) {
                assert(bytes[at + 0] == key("null"@)[0]);
            }
        }
        assert(!stands_at(bytes, at, key("true"@))) by {
            if stands_at(bytes, at, key("true"@)) {
                assert(bytes[at + 0] == key("true"@)[0]);
            }
        }
        assert(!stands_at(bytes, at, key("false"@))) by {
            if stands_at(bytes, at, key("false"@)) {
                assert(bytes[at + 0] == key("false"@)[0]);
            }
        }
    }
}

/// The content of a stream is as long as its length says, where `endstream` stands behind it, on the same
/// line or the next.
pub proof fn lemma_content_of_its_length(bytes: Seq<u8>, start: int, length: i64, limit: int)
    requires
        0 <= start,
        0 <= length,
        start + length <= bytes.len(),
        stands_at(bytes, start + length, endstream_word()) || (exists|next: int| #[trigger]
            ends_line(bytes, start + length, next) && stands_at(bytes, next, endstream_word())),
    ensures
        stream_content(bytes, start, Some(length), limit) == Some(
            bytes.subrange(start, start + length),
        ),
{
    lemma_words();
    let end = start + length;
    lemma_tagged(bytes, end + eol_len(bytes, end), endstream_word());
    if stands_at(bytes, end, endstream_word()) {
        assert(bytes[end + 0] == endstream_word()[0]);
        assert(eol_len(bytes, end) == 0);
    } else {
        let next = choose|next: int| #[trigger]
            ends_line(bytes, end, next) && stands_at(bytes, next, endstream_word());
        assert(next == end + eol_len(bytes, end));
    }
}

/// Where the length is missing or wrong, the content of a stream goes up to the first `endstream` before the
/// limit, without the end of the line before it.
pub proof fn lemma_content_without_length(
    bytes: Seq<u8>,
    start: int,
    length: Option<i64>,
    limit: int,
    end: int,
    marker: int,
)
    requires
        0 <= start <= marker < limit <= bytes.len(),
        length matches Some(length) ==> length < 0 || start + length > bytes.len() || (!stands_at(
            bytes,
            start + length,
            endstream_word(),
        ) && forall|next: int| #[trigger]
            ends_line(bytes, start + length, next) ==> !stands_at(bytes, next, endstream_word())),
        stands_at(bytes, marker, endstream_word()),
        forall|p: int| start <= p < marker ==> !#[trigger] stands_at(bytes, p, endstream_word()),
        start <= end <= marker,
        end == marker || ends_line(bytes, end, marker),
        end == marker ==> (marker > start ==> bytes[marker - 1] != 0x0a && bytes[marker - 1] != 0x0d),
        end == marker - 1 && bytes[end] == 0x0a && end > start ==> bytes[end - 1] != 0x0d,
    ensures
        stream_content(bytes, start, length, limit) == Some(bytes.subrange(start, end)),
{
    lemma_words();
    if let Some(length) = length {
        if 0 <= length && start + length <= bytes.len() {
            let at = start + length;
            lemma_tagged(bytes, at + eol_len(bytes, at), endstream_word());
            if eol_len(bytes, at) > 0 {
                assert(ends_line(bytes, at, at + eol_len(bytes, at)));
            }
            assert(!ends_stream(bytes, at));
        }
    }
    lemma_end_marker(bytes, start, limit, marker);
    assert(without_eol(bytes, start, marker) == end);
}

proof fn lemma_end_marker(bytes: Seq<u8>, at: int, limit: int, marker: int)
    requires
        0 <= at <= marker < limit,
        stands_at(bytes, marker, endstream_word()),
        forall|p: int| at <= p < marker ==> !#[trigger] stands_at(bytes, p, endstream_word()),
    ensures
        end_marker(bytes, at, limit) == Some(marker),
    decreases marker - at,
{
    lemma_words();
    lemma_tagged(bytes, at, endstream_word());
    if at < marker {
        assert(!stands_at(bytes, at, endstream_word()));
        lemma_end_marker(bytes, at + 1, limit, marker);
    }
}

/// Whether something of the file starts at `at`: an object, or the newest cross-reference section.
pub open spec fn starts_there(file: FileModel, at: int) -> bool {
    ||| at == file.structure.xref_start
    ||| exists|number: u32|
        file.structure.table.contains_key(number) && (
        #[trigger] file.structure.table[number] matches XrefEntry::Normal { offset, .. } && offset
            == at)
}

/// An object ends where the next thing of the file starts, or with the file.
pub proof fn lemma_object_ends(file: FileModel, offset: int, end: int)
    requires
        end <= file.bytes.len(),
        end == file.bytes.len() || (offset < end && starts_there(file, end)),
        forall|at: int| offset < at < end ==> !#[trigger] starts_there(file, at),
    ensures
        object_end(file, offset) == end,
{
    assert forall|bound: int| #[trigger] bounds_object(file.structure, offset, bound) implies end
        <= bound by {
        if bound < end {
            assert(starts_there(file, bound));
        }
    }
    if end < file.bytes.len() {
        assert(bounds_object(file.structure, offset, end));
    }
    assert(is_object_end(file, offset, end));
    let other = object_end(file, offset);
    assert(is_object_end(file, offset, other));
    if other < end {
        assert(bounds_object(file.structure, offset, other));
    } else if end < other {
        assert(bounds_object(file.structure, offset, end));
    }
}

/// What is read first for an object goes to its end, or 4096 bytes far if that is more, as far as the file
/// goes.
pub proof fn lemma_first_windows(file: FileModel, offset: int)
    ensures
        first_window(file, offset) <= file.bytes.len(),
        first_window(file, offset) == file.bytes.len() || (first_window(file, offset) >= object_end(
            file,
            offset,
        ) && first_window(file, offset) >= offset + 4096 && (first_window(file, offset) == object_end(
            file,
            offset,
        ) || first_window(file, offset) == offset + 4096)),
        file.bytes.len() <= offset + 4096 ==> first_window(file, offset) == file.bytes.len(),
{
}

/// Whether `windows` are the ends of what is read for the object at `offset` in turn: each time four times
/// as much as before, up to the end of the file or 64 MiB, from the first on.
pub open spec fn are_windows(file: FileModel, offset: int, windows: Seq<int>) -> bool {
    &&& windows.len() > 0
    &&& windows[0] == first_window(file, offset)
    &&& forall|k: int|
        0 <= k < windows.len() - 1 ==> {
            &&& offset < windows[k] < file.bytes.len()
            &&& windows[k] - offset < 64 * 1024 * 1024
            &&& #[trigger] windows[k + 1] == if offset + 4 * (windows[k] - offset)
                < file.bytes.len() {
                offset + 4 * (windows[k] - offset)
            } else {
                file.bytes.len() as int
            }
        }
}

proof fn lemma_windows_from(
    file: FileModel,
    id: ObjectId,
    offset: int,
    windows: Seq<int>,
    path: Seq<u32>,
    k: int,
)
    requires
        are_windows(file, offset, windows),
        0 <= k < windows.len(),
        forall|j: int|
            0 <= j < windows.len() - 1 ==> object_in_window(
                file,
                id,
                offset,
                #[trigger] windows[j],
                path,
            ) is None,
    ensures
        object_in(file, id, offset, windows[k], path) == object_in(
            file,
            id,
            offset,
            windows.last(),
            path,
        ),
    decreases windows.len() - k,
{
    if k < windows.len() - 1 {
        assert(object_in_window(file, id, offset, windows[k], path) is None);
        assert(windows[k + 1] == wider(file.bytes.len(), offset, windows[k]));
        assert(can_widen(file.bytes.len(), offset, windows[k]));
        lemma_windows_from(file, id, offset, windows, path, k + 1);
    }
}

/// An object that is in use at an offset is the one that stands there, decrypted, in the first of the
/// windows that holds it; if there is none with its number and generation, not even in the last window, it
/// cannot be read.
pub proof fn lemma_objects_at_offsets(
    file: FileModel,
    id: ObjectId,
    offset: u32,
    windows: Seq<int>,
    value: Value,
)
    requires
        file.structure.table.contains_pair(
            id.0,
            XrefEntry::Normal { offset, generation: id.1 },
        ),
        offset < file.bytes.len(),
        are_windows(file, offset as int, windows),
        forall|j: int|
            0 <= j < windows.len() - 1 ==> object_in_window(
                file,
                id,
                offset as int,
                #[trigger] windows[j],
                Seq::empty(),
            ) is None,
    ensures
        head_of(file.bytes.subrange(offset as int, windows.last())) == Some(
            (id, HeadModel::Object(value)),
        ) ==> stored_object(file, id) == Ok::<Value, Error>(decrypted(file, id, value)),
        object_in_window(file, id, offset as int, windows.last(), Seq::empty()) == Some(value)
            ==> stored_object(file, id) == Ok::<Value, Error>(decrypted(file, id, value)),
        object_in_window(file, id, offset as int, windows.last(), Seq::empty()) is None && (
        windows.last() == file.bytes.len() || windows.last() - offset >= 64 * 1024 * 1024)
            ==> stored_object(file, id) == Err::<Value, Error>(
            Error::Parse(ParseError::IndirectObject),
        ),
{
    lemma_windows_from(file, id, offset as int, windows, Seq::empty(), 0);
    let last = windows.last();
    let found = object_in(file, id, offset as int, last, Seq::empty());
    match object_in_window(file, id, offset as int, last, Seq::empty()) {
        Some(value) => {
            assert(found == Ok::<Value, Error>(value));
        },
        None => {
            if last == file.bytes.len() || last - offset >= 64 * 1024 * 1024 {
                assert(found == Err::<Value, Error>(Error::Parse(ParseError::IndirectObject)));
            }
        },
    }
    assert(stored_object(file, id) == match object_in(
        file,
        id,
        offset as int,
        first_window(file, offset as int),
        Seq::empty(),
    ) {
        Ok(value) => Ok(decrypted(file, id, value)),
        Err(error) => Err(error),
    });
}

/// What stands in a window is the object with the number and generation asked for, or nothing; a stream
/// there has the content that its length says, if it gives that itself.
pub proof fn lemma_objects_in_windows(
    file: FileModel,
    id: ObjectId,
    offset: int,
    end: int,
    path: Seq<u32>,
    other: ObjectId,
    head: HeadModel,
)
    requires
        head_of(file.bytes.subrange(offset, end)) == Some((other, head)),
    ensures
        other != id ==> object_in_window(file, id, offset, end, path) is None,
        other == id ==> match head {
            HeadModel::Object(value) => object_in_window(file, id, offset, end, path) == Some(value),
            HeadModel::Stream { dict, start } => named_entry(dict, "Length"@) matches Some(
                Value::Integer(length),
            ) ==> object_in_window(file, id, offset, end, path) == match stream_content(
                file.bytes.subrange(offset, end),
                start,
                Some(length),
                content_limit(file, offset, end),
            ) {
                Some(content) => Some(Value::Stream(dict, content)),
                None => None,
            },
        },
        content_limit(file, offset, end) <= end - offset,
        content_limit(file, offset, end) <= object_end(file, offset) - offset,
{
    if other == id {
        if let HeadModel::Stream { dict, start } = head {
            if let Some(Value::Integer(length)) = named_entry(dict, "Length"@) {
                assert(length_of(file, dict, path) == Some(length));
            }
        }
    }
}

/// An object that is not in use, or of another generation, or past the end of the file, cannot be read.
pub proof fn lemma_objects_not_in_use(file: FileModel, id: ObjectId)
    ensures
        !file.structure.table.contains_key(id.0) ==> stored_object(file, id) == Err::<Value, Error>(
            Error::MissingXrefEntry,
        ),
        file.structure.table.contains_pair(id.0, XrefEntry::Free) ==> stored_object(file, id) == Err::<
            Value,
            Error,
        >(Error::MissingXrefEntry),
        (file.structure.table.contains_key(id.0) && (
        file.structure.table[id.0] matches XrefEntry::Normal { offset, generation } && generation
            != id.1)) ==> stored_object(file, id) == Err::<Value, Error>(Error::MissingXrefEntry),
        (file.structure.table.contains_key(id.0) && (
        file.structure.table[id.0] matches XrefEntry::Normal { offset, generation } && generation
            == id.1 && offset >= file.bytes.len())) ==> (stored_object(file, id) matches Err(
            Error::InvalidOffset(_),
        )),
{
}

/// An object in an object stream is the one that the stream holds under its number, and has generation 0.
pub proof fn lemma_objects_in_streams(
    file: FileModel,
    id: ObjectId,
    container: u32,
    index: u16,
    dict: Entries,
    content: Seq<u8>,
    members: StreamMembers,
)
    requires
        file.structure.table.contains_pair(id.0, XrefEntry::Compressed { container, index }),
        object_within(file, (container, 0u16), seq![container]) == Ok::<Value, Error>(
            Value::Stream(dict, content),
        ),
        members_of(dict, content, file.limit) == Ok::<StreamMembers, Error>(members),
    ensures
        stored_object(file, id) == match members.object(id.0) {
            Some(value) => if id.1 == 0 {
                Ok(value)
            } else {
                Err(Error::MissingXrefEntry)
            },
            None => Err(Error::MissingXrefEntry),
        },
{
    let none = Seq::<u32>::empty();
    assert(none.push(container) =~= seq![container]);
    assert(!none.contains(container));
    assert(members_within(file, container, none) == Ok::<StreamMembers, Error>(members));
    assert(compressed_within(file, id, container, none) == stored_object(file, id));
}

/// Without decryption objects are what stands in the file; with it they are decrypted with their id, but
/// for the encryption dictionary.
pub proof fn lemma_decrypted_objects(file: FileModel, id: ObjectId, value: Value)
    ensures
        file.decryption is None ==> decrypted(file, id, value) == value,
        file.encryption_id == Some(id) ==> decrypted(file, id, value) == value,
        file.encryption_id != Some(id) ==> (file.decryption matches Some(plain) ==> decrypted(
            file,
            id,
            value,
        ) == plain(id, value)),
{
}

/// Whether each of `ids` is a reference to the next.
pub open spec fn are_references(file: FileModel, ids: Seq<ObjectId>) -> bool {
    forall|k: int|
        0 <= k < ids.len() - 1 ==> stored_object(file, #[trigger] ids[k]) == Ok::<Value, Error>(
            Value::Reference(ids[k + 1]),
        )
}

/// Following an object that is a reference leads to what the last of them is, through no more references
/// than are allowed.
pub proof fn lemma_references_are_followed(file: FileModel, ids: Seq<ObjectId>, left: nat)
    requires
        ids.len() > 0,
        are_references(file, ids),
    ensures
        ids.len() <= left + 1 && !(stored_object(file, ids.last()) matches Ok(Value::Reference(_)))
            ==> followed_object(file, ids[0], left) == stored_object(file, ids.last()),
        ids.len() > left + 1 ==> followed_object(file, ids[0], left) == Err::<Value, Error>(
            Error::ReferenceLimit,
        ),
    decreases ids.len(),
{
    if ids.len() > 1 {
        let rest = ids.drop_first();
        assert(stored_object(file, ids[0]) == Ok::<Value, Error>(Value::Reference(ids[0 + 1int])));
        assert forall|k: int| 0 <= k < rest.len() - 1 implies stored_object(
            file,
            #[trigger] rest[k],
        ) == Ok::<Value, Error>(Value::Reference(rest[k + 1])) by {
            assert(rest[k] == ids[k + 1]);
        }
        if left > 0 {
            lemma_references_are_followed(file, rest, (left - 1) as nat);
        }
    }
}

/// In a document in memory too, following an object that is a reference leads to what the last of them is.
pub proof fn lemma_references_are_chased(objects: Map<ObjectId, Value>, ids: Seq<ObjectId>, left: nat)
    requires
        ids.len() > 0,
        forall|k: int|
            0 <= k < ids.len() - 1 ==> objects.contains_pair(
                #[trigger] ids[k],
                Value::Reference(ids[k + 1]),
            ),
    ensures
        ids.len() <= left + 1 && objects.contains_key(ids.last()) && !(objects[ids.last()]
            is Reference) ==> chased(objects, ids[0], left) == Ok::<Value, Error>(
            objects[ids.last()],
        ),
        ids.len() <= left + 1 && !objects.contains_key(ids.last()) ==> chased(objects, ids[0], left)
            == Err::<Value, Error>(Error::ObjectNotFound(ids.last())),
        ids.len() > left + 1 ==> chased(objects, ids[0], left) == Err::<Value, Error>(
            Error::ReferenceLimit,
        ),
    decreases ids.len(),
{
    if ids.len() > 1 {
        let rest = ids.drop_first();
        assert(objects.contains_pair(ids[0], Value::Reference(ids[0 + 1int])));
        assert forall|k: int| 0 <= k < rest.len() - 1 implies objects.contains_pair(
            #[trigger] rest[k],
            Value::Reference(rest[k + 1]),
        ) by {
            assert(rest[k] == ids[k + 1]);
        }
        if left > 0 {
            lemma_references_are_chased(objects, rest, (left - 1) as nat);
        }
    }
}

/// The length of a stream that another object gives is the integer that stands at that object's offset.
pub proof fn lemma_lengths_by_reference(
    file: FileModel,
    dict: Entries,
    path: Seq<u32>,
    id: ObjectId,
    offset: u32,
    length: i64,
)
    requires
        named_entry(dict, "Length"@) == Some(Value::Reference(id)),
        file.structure.table.contains_pair(
            id.0,
            XrefEntry::Normal { offset, generation: id.1 },
        ),
        offset < file.bytes.len(),
        head_of(file.bytes.subrange(offset as int, first_window(file, offset as int))) == Some(
            (id, HeadModel::Object(Value::Integer(length))),
        ),
    ensures
        length_of(file, dict, path) == Some(length),
{
    assert(integer_in(file, id, offset as int, first_window(file, offset as int)) == Some(length));
    assert(integer_object(file, id) == Some(length));
}

/// The header is the first `%PDF-` in the first 4096 bytes, and the version the rest of its line.
pub proof fn lemma_headers(content: Seq<u8>, at: int, end: int)
    requires
        0 <= at,
        stands_at(head_bytes(content), at, key("%PDF-"@)),
        forall|p: int| 0 <= p < at ==> !#[trigger] stands_at(head_bytes(content), p, key("%PDF-"@)),
        at + 5 <= end < head_bytes(content).len(),
        forall|p: int| at + 5 <= p < end ==> content[p] != 0x0a && #[trigger] content[p] != 0x0d,
        content[end] == 0x0a || content[end] == 0x0d,
        valid_utf8(content.subrange(at + 5, end)),
    ensures
        header_base(content) == at,
        header_version(head_bytes(content).skip(at)) == Some(
            decode_utf8(content.subrange(at + 5, end)),
        ),
        head_bytes(content).len() == if content.len() < 4096 {
            content.len()
        } else {
            4096
        },
{
    lemma_file_keywords();
    let head = head_bytes(content);
    let tag = key("%PDF-"@);
    lemma_first_tag(head, 0, tag, at);
    let bytes = head.skip(at);
    lemma_tagged(bytes, 0, tag);
    assert(stands_at(bytes, 0, tag)) by {
        assert forall|i: int| 0 <= i < tag.len() implies bytes[0 + i] == #[trigger] tag[i] by {
            assert(head[at + i] == tag[i]);
        }
    }
    assert forall|p: int| 5 <= p < end - at implies bytes[p] != 0x0a && #[trigger] bytes[p]
        != 0x0d by {
        assert(bytes[p] == content[at + p]);
    }
    assert(bytes[end - at] == content[end]);
    lemma_line(bytes, 5, end - at);
    assert(bytes.subrange(5, end - at) =~= content.subrange(at + 5, end));
}

proof fn lemma_line(bytes: Seq<u8>, at: int, end: int)
    requires
        0 <= at <= end < bytes.len(),
        forall|p: int| at <= p < end ==> bytes[p] != 0x0a && #[trigger] bytes[p] != 0x0d,
        bytes[end] == 0x0a || bytes[end] == 0x0d,
    ensures
        line_end(bytes, at) == end,
        eol_len(bytes, end) > 0,
    decreases end - at,
{
    if at < end {
        assert(bytes[at] != 0x0a && bytes[at] != 0x0d);
        lemma_line(bytes, at + 1, end);
    }
}

proof fn lemma_first_tag(bytes: Seq<u8>, at: int, tag: Seq<u8>, place: int)
    requires
        0 <= at <= place < bytes.len(),
        stands_at(bytes, place, tag),
        forall|p: int| at <= p < place ==> !#[trigger] stands_at(bytes, p, tag),
    ensures
        first_tag(bytes, at, tag) == Some(place),
    decreases place - at,
{
    lemma_tagged(bytes, at, tag);
    if at < place {
        assert(!stands_at(bytes, at, tag));
        lemma_first_tag(bytes, at + 1, tag, place);
    }
}

/// The cross-reference section is looked for in the last 1024 bytes.
pub proof fn lemma_tails(file: Seq<u8>)
    ensures
        file.len() <= 1024 ==> tail_bytes(file) == file,
        file.len() > 1024 ==> tail_bytes(file).len() == 1024 && tail_bytes(file) == file.subrange(
            file.len() - 1024,
            file.len() as int,
        ),
{
    if file.len() >= 1024 {
        assert(tail_bytes(file) =~= file.subrange(file.len() - 1024, file.len() as int));
        assert(file.len() == 1024 ==> tail_bytes(file) =~= file);
    }
}

/// Whether `xref` stands at `at` by itself, and not as the end of `startxref`.
pub open spec fn is_section_word(file: Seq<u8>, at: int, from: int, to: int) -> bool {
    &&& from <= at
    &&& at + 4 <= to
    &&& stands_at(file, at, xref_word())
    &&& !(at - 5 >= from && stands_at(file, at - 5, key("startxref"@)))
}

proof fn lemma_section_nearby(file: Seq<u8>, from: int, to: int, at: int, place: Option<int>)
    requires
        0 <= from <= at <= to <= file.len(),
        place matches Some(p) ==> at <= p && is_section_word(file, p, from, to) && forall|q: int|
            at <= q < p ==> !#[trigger] is_section_word(file, q, from, to),
        place is None ==> forall|q: int| at <= q ==> !#[trigger] is_section_word(file, q, from, to),
    ensures
        section_nearby(file.subrange(from, to), at - from) == match place {
            Some(p) => Some(p - from),
            None => None,
        },
    decreases to - at,
{
    lemma_words();
    lemma_file_keywords();
    let window = file.subrange(from, to);
    let i = at - from;
    if at < to {
        lemma_tagged(window, i, xref_word());
        lemma_in_window(file, from, to, at, xref_word());
        if i >= 5 {
            lemma_tagged(window, i - 5, key("startxref"@));
            lemma_in_window(file, from, to, at - 5, key("startxref"@));
            if stands_at(file, at - 5, key("startxref"@)) && at + 4 <= to {
                assert(stands_at(window, i - 5, key("startxref"@)));
            }
        }
        if place != Some(at) {
            assert(!is_section_word(file, at, from, to));
            lemma_section_nearby(file, from, to, at + 1, place);
        }
    }
}

/// What stands in part of a file stands in the file.
pub proof fn lemma_in_window(file: Seq<u8>, from: int, to: int, at: int, word: Seq<u8>)
    requires
        0 <= from <= at <= to <= file.len(),
    ensures
        stands_at(file.subrange(from, to), at - from, word) <==> stands_at(file, at, word) && at
            + word.len() <= to,
{
    let window = file.subrange(from, to);
    if stands_at(file, at, word) && at + word.len() <= to {
        assert forall|i: int| 0 <= i < word.len() implies window[at - from + i]
            == #[trigger] word[i] by {
            assert(file[at + i] == word[i]);
        }
    }
    if stands_at(window, at - from, word) {
        assert forall|i: int| 0 <= i < word.len() implies file[at + i] == #[trigger] word[i] by {
            assert(window[at - from + i] == word[i]);
        }
    }
}

/// A cross-reference section is where it should be, if `xref` or an object with an id stands there; and
/// else, unless reading is strict, at the first `xref` nearby: no more than 37 bytes before it, and within
/// 64 bytes behind it.
pub proof fn lemma_sections_nearby(
    file: Seq<u8>,
    offset: int,
    from: int,
    to: int,
    place: Option<int>,
)
    requires
        0 <= offset < file.len(),
        from == if offset < 37 {
            0
        } else {
            offset - 37
        },
        to == if offset + 64 < file.len() {
            offset + 64
        } else {
            file.len() as int
        },
        place matches Some(p) ==> is_section_word(file, p, from, to) && forall|q: int|
            from <= q < p ==> !#[trigger] is_section_word(file, q, from, to),
        place is None ==> forall|q: int| from <= q ==> !#[trigger] is_section_word(file, q, from, to),
    ensures
        corrected_offset(file, true, offset) == offset,
        stands_at(file, offset, xref_word()) && offset + 4 <= to ==> corrected_offset(
            file,
            false,
            offset,
        ) == offset,
        !starts_section(file.subrange(from, to), offset - from) ==> corrected_offset(
            file,
            false,
            offset,
        ) == match place {
            Some(p) => p,
            None => offset,
        },
{
    lemma_words();
    assert(recovery_start(offset) == from);
    assert(window_end(file.len(), offset, 64) == to);
    let window = file.subrange(from, to);
    lemma_tagged(window, offset - from, xref_word());
    lemma_in_window(file, from, to, offset, xref_word());
    lemma_section_nearby(file, from, to, from, place);
}

} // verus!
