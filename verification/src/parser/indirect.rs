//! Indirect objects and the content of streams.

use vstd::prelude::*;
use vstd::slice::slice_subrange;

use crate::bytes::{key, to_vec};
use crate::object::{distinct_keys, Dictionary, Entries, Object, ObjectId, Value};
use crate::parser::lexical::{
    after_space, end_of_line_len, eol_len, has_tag, object_id, object_id_at, skip_space, tagged,
};
use crate::parser::objects::{
    bare_at, bare_object, dictionary, dictionary_at, lemma_parsed_keys_are_distinct, MAX_NESTING,
};

verus! {

/// An indirect object as far as it shows without a stream's length.
pub enum HeadModel {
    Object(Value),
    /// A stream, whose content starts at `start`.
    Stream { dict: Entries, start: int },
}

/// An indirect object as far as it shows without a stream's length.
pub enum ObjectHead {
    Object(Object),
    /// A stream, whose content starts at `start`.
    Stream { dict: Dictionary, start: usize },
}

impl ObjectHead {
    pub open spec fn model(&self) -> HeadModel {
        match self {
            ObjectHead::Object(object) => HeadModel::Object(object@),
            ObjectHead::Stream { dict, start } => HeadModel::Stream {
                dict: dict@,
                start: *start as int,
            },
        }
    }
}

/// Where the content of a stream starts whose dictionary ends at `at`: behind `stream` and an
/// end-of-line marker.
pub open spec fn content_start(bytes: Seq<u8>, at: int) -> Option<int> {
    let next = after_space(bytes, at);
    let end = next + key("stream"@).len();
    if tagged(bytes, next, key("stream"@)) && eol_len(bytes, end) > 0 {
        Some(end + eol_len(bytes, end))
    } else {
        None
    }
}

/// Where the object itself starts, behind its id and `obj`, and that id.
pub open spec fn object_start(bytes: Seq<u8>) -> Option<(ObjectId, int)> {
    match object_id_at(bytes, after_space(bytes, 0)) {
        Some((id, end)) => if tagged(bytes, end, key("obj"@)) {
            Some((id, after_space(bytes, end + key("obj"@).len())))
        } else {
            None
        },
        None => None,
    }
}

/// The indirect object that the bytes start with, with its id.
pub open spec fn head_of(bytes: Seq<u8>) -> Option<(ObjectId, HeadModel)> {
    match object_start(bytes) {
        Some((id, at)) => match dictionary_at(bytes, at, (MAX_NESTING - 1) as nat) {
            Some((dict, end)) => match content_start(bytes, end) {
                Some(start) => Some((id, HeadModel::Stream { dict, start })),
                None => Some((id, HeadModel::Object(Value::Dictionary(dict)))),
            },
            None => match bare_at(bytes, at, MAX_NESTING as nat) {
                Some((object, _)) => Some((id, HeadModel::Object(object))),
                None => None,
            },
        },
        None => None,
    }
}

/// The dictionary of a stream names no key twice.
pub proof fn lemma_head_keys_are_distinct(bytes: Seq<u8>)
    ensures
        head_of(bytes) matches Some((_, HeadModel::Stream { dict, .. })) ==> distinct_keys(dict),
{
    if let Some((_, at)) = object_start(bytes) {
        lemma_parsed_keys_are_distinct(bytes, at, (MAX_NESTING - 1) as nat);
    }
}

/// Whether the content of a stream ends at `at`: there is `endstream`, behind an end-of-line marker
/// or none.
pub open spec fn ends_stream(bytes: Seq<u8>, at: int) -> bool {
    tagged(bytes, at + eol_len(bytes, at), key("endstream"@))
}

/// The first `endstream` from `at` on and before `limit`.
pub open spec fn end_marker(bytes: Seq<u8>, at: int, limit: int) -> Option<int>
    decreases limit - at,
{
    if at < 0 || at >= limit {
        None
    } else if tagged(bytes, at, key("endstream"@)) {
        Some(at)
    } else {
        end_marker(bytes, at + 1, limit)
    }
}

/// Where content that ends before `at` ends without an end-of-line marker behind it.
pub open spec fn without_eol(bytes: Seq<u8>, start: int, at: int) -> int {
    if at - 2 >= start && bytes[at - 2] == 0x0d && bytes[at - 1] == 0x0a {
        at - 2
    } else if at - 1 >= start && (bytes[at - 1] == 0x0a || bytes[at - 1] == 0x0d) {
        at - 1
    } else {
        at
    }
}

/// The content of a stream from `start` on: as long as its length says, if it ends there, and else
/// up to the first `endstream` before `limit`.
pub open spec fn stream_content(bytes: Seq<u8>, start: int, length: Option<i64>, limit: int) -> Option<
    Seq<u8>,
> {
    if length is Some && 0 <= length->Some_0 && start + length->Some_0 <= bytes.len() && ends_stream(
        bytes,
        start + length->Some_0,
    ) {
        Some(bytes.subrange(start, start + length->Some_0))
    } else {
        match end_marker(bytes, start, limit) {
            Some(end) => Some(bytes.subrange(start, without_eol(bytes, start, end))),
            None => None,
        }
    }
}

proof fn lemma_keywords()
    ensures
        key("obj"@).len() == 3,
        key("stream"@).len() == 6,
        key("endstream"@).len() == 9,
{
    reveal_strlit("obj");
    reveal_strlit("stream");
    reveal_strlit("endstream");
    vstd::utf8::is_ascii_chars_encode_utf8("obj"@);
    vstd::utf8::is_ascii_chars_encode_utf8("stream"@);
    vstd::utf8::is_ascii_chars_encode_utf8("endstream"@);
}

/// The indirect object that `bytes` start with, with its id.
pub fn indirect_head(bytes: &[u8]) -> (r: Option<(ObjectId, ObjectHead)>)
    ensures
        match r {
            Some((id, head)) => head_of(bytes@) == Some((id, head.model())) && (
            head matches ObjectHead::Stream { start, .. } ==> start <= bytes@.len()),
            None => head_of(bytes@) is None,
        },
{
    proof {
        lemma_keywords();
    }
    let (id, id_end) = match object_id(bytes, skip_space(bytes, 0)) {
        Some(read) => read,
        None => {
            return None;
        },
    };
    if !has_tag(bytes, id_end, "obj".as_bytes()) {
        return None;
    }
    let len = bytes.len();
    assert(id_end + 3 <= len);
    let at = skip_space(bytes, id_end + 3);
    if let Some((dict, end)) = dictionary(bytes, at, MAX_NESTING - 1) {
        let next = skip_space(bytes, end);
        if has_tag(bytes, next, "stream".as_bytes()) {
            assert(next + 6 <= len);
            let marker = end_of_line_len(bytes, next + 6);
            if marker > 0 {
                return Some((id, ObjectHead::Stream { dict, start: next + 6 + marker }));
            }
        }
        return Some((id, ObjectHead::Object(Object::Dictionary(dict))));
    }
    match bare_object(bytes, at, MAX_NESTING) {
        Some((object, _)) => Some((id, ObjectHead::Object(object))),
        None => None,
    }
}

/// Whether the content of a stream ends at `at`.
pub fn is_stream_end_at(bytes: &[u8], at: usize) -> (r: bool)
    requires
        at <= bytes@.len(),
    ensures
        r == ends_stream(bytes@, at as int),
{
    let len = bytes.len();
    let marker = end_of_line_len(bytes, at);
    assert(at + marker <= len);
    has_tag(bytes, at + marker, "endstream".as_bytes())
}

/// The content of a stream from `start` on.
pub fn content_of_stream(bytes: &[u8], start: usize, length: Option<i64>, limit: usize) -> (r: Option<
    Vec<u8>,
>)
    requires
        start <= bytes@.len(),
        limit <= bytes@.len(),
    ensures
        match r {
            Some(content) => stream_content(bytes@, start as int, length, limit as int) == Some(
                content@,
            ),
            None => stream_content(bytes@, start as int, length, limit as int) is None,
        },
{
    if let Some(length) = length {
        if length >= 0 && length as u64 <= (bytes.len() - start) as u64 {
            let end = start + length as usize;
            if is_stream_end_at(bytes, end) {
                return Some(to_vec(slice_subrange(bytes, start, end)));
            }
        }
    }
    let ghost expected = end_marker(bytes@, start as int, limit as int);
    let mut at: usize = start;
    while at < limit
        invariant
            start <= at,
            start <= bytes@.len(),
            limit <= bytes@.len(),
            expected == end_marker(bytes@, start as int, limit as int),
            expected == end_marker(bytes@, at as int, limit as int),
            stream_content(bytes@, start as int, length, limit as int) == match expected {
                Some(end) => Some(
                    bytes@.subrange(start as int, without_eol(bytes@, start as int, end)),
                ),
                None => None,
            },
        decreases limit - at,
    {
        if has_tag(bytes, at, "endstream".as_bytes()) {
            let end = if at - start >= 2 && bytes[at - 2] == 0x0d && bytes[at - 1] == 0x0a {
                at - 2
            } else if at - start >= 1 && (bytes[at - 1] == 0x0a || bytes[at - 1] == 0x0d) {
                at - 1
            } else {
                at
            };
            return Some(to_vec(slice_subrange(bytes, start, end)));
        }
        at += 1;
    }
    None
}

} // verus!
