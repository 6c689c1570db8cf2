//! Direct objects.

use vstd::prelude::*;

use crate::bytes::key;
use crate::object::{
    distinct_keys, lemma_set_keeps_keys_distinct, set_entry, values, Dictionary, Entries, Object,
    StringFormat, Value,
};
use crate::parser::decimal::{real_at, real_number};
use crate::parser::lexical::{
    after_space, has_tag, hexadecimal, hexadecimal_at, integer, integer_at, literal, literal_at,
    name, name_at, object_id, object_id_at, skip_space, tagged,
};

verus! {

/// Deepest nesting of arrays and dictionaries.
pub const MAX_NESTING: usize = 256;

/// A reference: an object's number and generation, and `R`.
pub open spec fn reference_at(bytes: Seq<u8>, at: int) -> Option<(Value, int)> {
    match object_id_at(bytes, at) {
        Some((id, end)) => if 0 <= end < bytes.len() && bytes[end] == 0x52 {
            Some((Value::Reference(id), end + 1))
        } else {
            None
        },
        None => None,
    }
}

/// A reference, a real number, or an integer.
pub open spec fn number_at(bytes: Seq<u8>, at: int) -> Option<(Value, int)> {
    match reference_at(bytes, at) {
        Some(read) => Some(read),
        None => match real_at(bytes, at) {
            Some((r, end)) => Some((Value::Real(r), end)),
            None => match integer_at(bytes, at) {
                Some((i, end)) => Some((Value::Integer(i), end)),
                None => None,
            },
        },
    }
}

/// A direct object, without the space behind it, holding no more than `depth` levels of others.
pub open spec fn bare_at(bytes: Seq<u8>, at: int, depth: nat) -> Option<(Value, int)>
    decreases depth, bytes.len() - at, 1int,
{
    if at < 0 || at >= bytes.len() {
        None
    } else if tagged(bytes, at, key("null"@)) {
        Some((Value::Null, at + key("null"@).len()))
    } else if tagged(bytes, at, key("true"@)) {
        Some((Value::Boolean(true), at + key("true"@).len()))
    } else if tagged(bytes, at, key("false"@)) {
        Some((Value::Boolean(false), at + key("false"@).len()))
    } else if bytes[at] == 0x2f {
        match name_at(bytes, at) {
            Some((name, end)) => Some((Value::Name(name), end)),
            None => None,
        }
    } else if bytes[at] == 0x28 {
        match literal_at(bytes, at) {
            Some((string, end)) => Some((Value::String(string, StringFormat::Literal), end)),
            None => None,
        }
    } else if bytes[at] == 0x5b {
        if depth == 0 {
            None
        } else {
            let (items, end) = items_at(
                bytes,
                after_space(bytes, at + 1),
                (depth - 1) as nat,
                Seq::empty(),
            );
            if 0 <= end < bytes.len() && bytes[end] == 0x5d {
                Some((Value::Array(items), end + 1))
            } else {
                None
            }
        }
    } else if bytes[at] == 0x3c {
        if at + 1 < bytes.len() && bytes[at + 1] == 0x3c {
            if depth == 0 {
                None
            } else {
                match dictionary_at(bytes, at, (depth - 1) as nat) {
                    Some((entries, end)) => Some((Value::Dictionary(entries), end)),
                    None => None,
                }
            }
        } else {
            match hexadecimal_at(bytes, at) {
                Some((string, end)) => Some((Value::String(string, StringFormat::Hexadecimal), end)),
                None => None,
            }
        }
    } else {
        number_at(bytes, at)
    }
}

/// A direct object, with the space behind it.
pub open spec fn direct_at(bytes: Seq<u8>, at: int, depth: nat) -> Option<(Value, int)>
    decreases depth, bytes.len() - at, 2int,
{
    match bare_at(bytes, at, depth) {
        Some((object, end)) => Some((object, after_space(bytes, end))),
        None => None,
    }
}

/// Direct objects, as many as there are, behind those in `done`.
pub open spec fn items_at(bytes: Seq<u8>, at: int, depth: nat, done: Seq<Value>) -> (Seq<Value>, int)
    decreases depth, bytes.len() - at, 3int,
{
    match direct_at(bytes, at, depth) {
        Some((item, end)) => if at < end <= bytes.len() {
            items_at(bytes, end, depth, done.push(item))
        } else {
            (done, at)
        },
        None => (done, at),
    }
}

/// Names, each with a direct object, as many as there are, set in `done`.
pub open spec fn entries_at(bytes: Seq<u8>, at: int, depth: nat, done: Entries) -> (Entries, int)
    decreases depth, bytes.len() - at, 3int,
{
    match name_at(bytes, at) {
        Some((name, name_end)) => {
            let next = after_space(bytes, name_end);
            if at < next <= bytes.len() {
                match direct_at(bytes, next, depth) {
                    Some((object, end)) => if next < end <= bytes.len() {
                        entries_at(bytes, end, depth, set_entry(done, name, object))
                    } else {
                        (done, at)
                    },
                    None => (done, at),
                }
            } else {
                (done, at)
            }
        },
        None => (done, at),
    }
}

/// A dictionary: `<<`, names with objects, and `>>`.
pub open spec fn dictionary_at(bytes: Seq<u8>, at: int, depth: nat) -> Option<(Entries, int)>
    decreases depth, bytes.len() - at, 4int,
{
    if at < 0 || at + 1 >= bytes.len() || bytes[at] != 0x3c || bytes[at + 1] != 0x3c {
        None
    } else {
        let from = after_space(bytes, at + 2);
        if at < from <= bytes.len() {
            let (entries, end) = entries_at(bytes, from, depth, Seq::empty());
            if 0 <= end && end + 1 < bytes.len() && bytes[end] == 0x3e && bytes[end + 1] == 0x3e {
                Some((entries, end + 2))
            } else {
                None
            }
        } else {
            None
        }
    }
}

/// A parsed dictionary names no key twice: the last of several entries under a key stands in the place
/// of the first.
pub proof fn lemma_parsed_keys_are_distinct(bytes: Seq<u8>, at: int, depth: nat)
    ensures
        dictionary_at(bytes, at, depth) matches Some((entries, _)) ==> distinct_keys(entries),
{
    if dictionary_at(bytes, at, depth) is Some {
        lemma_entries_are_distinct(bytes, after_space(bytes, at + 2), depth, Seq::empty());
    }
}

proof fn lemma_entries_are_distinct(bytes: Seq<u8>, at: int, depth: nat, done: Entries)
    requires
        distinct_keys(done),
    ensures
        distinct_keys(entries_at(bytes, at, depth, done).0),
    decreases bytes.len() - at,
{
    if let Some((name, name_end)) = name_at(bytes, at) {
        let next = after_space(bytes, name_end);
        if at < next <= bytes.len() {
            if let Some((object, end)) = direct_at(bytes, next, depth) {
                if next < end <= bytes.len() {
                    lemma_set_keeps_keys_distinct(done, name, object);
                    lemma_entries_are_distinct(bytes, end, depth, set_entry(done, name, object));
                }
            }
        }
    }
}

/// Whether `read` is what was expected, and ends behind `at`.
pub open spec fn reads_object(
    read: Option<(Object, usize)>,
    expected: Option<(Value, int)>,
    at: usize,
    len: nat,
) -> bool {
    match read {
        Some((object, end)) => expected == Some((object@, end as int)) && at < end <= len,
        None => expected is None,
    }
}

fn number(bytes: &[u8], at: usize) -> (r: Option<(Object, usize)>)
    requires
        at <= bytes@.len(),
    ensures
        reads_object(r, number_at(bytes@, at as int), at, bytes@.len()),
{
    if let Some((id, end)) = object_id(bytes, at) {
        if end < bytes.len() && bytes[end] == 0x52 {
            return Some((Object::Reference(id), end + 1));
        }
    }
    if let Some((r, end)) = real_number(bytes, at) {
        return Some((Object::Real(r), end));
    }
    match integer(bytes, at) {
        Some((i, end)) => Some((Object::Integer(i), end)),
        None => None,
    }
}

/// Where the keyword `tag` at `at` ends, if it is there.
fn keyword(bytes: &[u8], at: usize, tag: &str) -> (r: Option<usize>)
    requires
        at < bytes@.len(),
        key(tag@).len() > 0,
    ensures
        match r {
            Some(end) => tagged(bytes@, at as int, key(tag@)) && end == at + key(tag@).len() && at
                < end <= bytes@.len(),
            None => !tagged(bytes@, at as int, key(tag@)),
        },
{
    let tag_bytes = tag.as_bytes();
    let len = bytes.len();
    if has_tag(bytes, at, tag_bytes) {
        assert(at + tag_bytes@.len() <= len);
        Some(at + tag_bytes.len())
    } else {
        None
    }
}

proof fn lemma_keywords()
    ensures
        key("null"@).len() == 4,
        key("true"@).len() == 4,
        key("false"@).len() == 5,
{
    reveal_strlit("null");
    reveal_strlit("true");
    reveal_strlit("false");
    vstd::utf8::is_ascii_chars_encode_utf8("null"@);
    vstd::utf8::is_ascii_chars_encode_utf8("true"@);
    vstd::utf8::is_ascii_chars_encode_utf8("false"@);
}

/// A direct object, without the space behind it.
pub fn bare_object(bytes: &[u8], at: usize, depth: usize) -> (r: Option<(Object, usize)>)
    requires
        at <= bytes@.len(),
    ensures
        reads_object(r, bare_at(bytes@, at as int, depth as nat), at, bytes@.len()),
    decreases depth, 1int,
{
    if at >= bytes.len() {
        return None;
    }
    proof {
        lemma_keywords();
    }
    if let Some(end) = keyword(bytes, at, "null") {
        return Some((Object::Null, end));
    }
    if let Some(end) = keyword(bytes, at, "true") {
        return Some((Object::Boolean(true), end));
    }
    if let Some(end) = keyword(bytes, at, "false") {
        return Some((Object::Boolean(false), end));
    }
    let first = bytes[at];
    if first == 0x2f {
        match name(bytes, at) {
            Some((name, end)) => Some((Object::Name(name), end)),
            None => None,
        }
    } else if first == 0x28 {
        match literal(bytes, at) {
            Some((string, end)) => Some((Object::String(string, StringFormat::Literal), end)),
            None => None,
        }
    } else if first == 0x5b {
        if depth == 0 {
            return None;
        }
        let (items, end) = items(bytes, skip_space(bytes, at + 1), depth - 1);
        if end < bytes.len() && bytes[end] == 0x5d {
            Some((Object::Array(items), end + 1))
        } else {
            None
        }
    } else if first == 0x3c {
        if at + 1 < bytes.len() && bytes[at + 1] == 0x3c {
            if depth == 0 {
                return None;
            }
            match dictionary(bytes, at, depth - 1) {
                Some((entries, end)) => Some((Object::Dictionary(entries), end)),
                None => None,
            }
        } else {
            match hexadecimal(bytes, at) {
                Some((string, end)) => Some((Object::String(string, StringFormat::Hexadecimal), end)),
                None => None,
            }
        }
    } else {
        number(bytes, at)
    }
}

/// A direct object, with the space behind it.
pub fn direct(bytes: &[u8], at: usize, depth: usize) -> (r: Option<(Object, usize)>)
    requires
        at <= bytes@.len(),
    ensures
        reads_object(r, direct_at(bytes@, at as int, depth as nat), at, bytes@.len()),
    decreases depth, 2int,
{
    match bare_object(bytes, at, depth) {
        Some((object, end)) => Some((object, skip_space(bytes, end))),
        None => None,
    }
}

fn items(bytes: &[u8], at: usize, depth: usize) -> (r: (Vec<Object>, usize))
    requires
        at <= bytes@.len(),
    ensures
        items_at(bytes@, at as int, depth as nat, Seq::empty()) == (values(r.0@), r.1 as int),
        at <= r.1 <= bytes@.len(),
    decreases depth, 3int,
{
    let mut items: Vec<Object> = Vec::new();
    let mut i: usize = at;
    let ghost expected = items_at(bytes@, at as int, depth as nat, Seq::empty());
    assert(values(items@) =~= Seq::<Value>::empty());
    loop
        invariant
            at <= i <= bytes@.len(),
            expected == items_at(bytes@, at as int, depth as nat, Seq::empty()),
            expected == items_at(bytes@, i as int, depth as nat, values(items@)),
        decreases bytes@.len() - i,
    {
        let ghost done = values(items@);
        match direct(bytes, i, depth) {
            Some((item, end)) => {
                let ghost item_value = item@;
                items.push(item);
                assert(values(items@) =~= done.push(item_value));
                i = end;
            },
            None => {
                return (items, i);
            },
        }
    }
}

fn entries(bytes: &[u8], at: usize, depth: usize) -> (r: (Dictionary, usize))
    requires
        at <= bytes@.len(),
    ensures
        entries_at(bytes@, at as int, depth as nat, Seq::empty()) == (r.0@, r.1 as int),
        at <= r.1 <= bytes@.len(),
    decreases depth, 3int,
{
    let mut dictionary = Dictionary::new();
    let mut i: usize = at;
    let ghost expected = entries_at(bytes@, at as int, depth as nat, Seq::empty());
    loop
        invariant
            at <= i <= bytes@.len(),
            expected == entries_at(bytes@, at as int, depth as nat, Seq::empty()),
            expected == entries_at(bytes@, i as int, depth as nat, dictionary@),
        decreases bytes@.len() - i,
    {
        match name(bytes, i) {
            Some((name, name_end)) => {
                let next = skip_space(bytes, name_end);
                match direct(bytes, next, depth) {
                    Some((object, end)) => {
                        dictionary.set(name, object);
                        i = end;
                    },
                    None => {
                        return (dictionary, i);
                    },
                }
            },
            None => {
                return (dictionary, i);
            },
        }
    }
}

/// A dictionary: `<<`, names with objects, and `>>`.
pub fn dictionary(bytes: &[u8], at: usize, depth: usize) -> (r: Option<(Dictionary, usize)>)
    requires
        at <= bytes@.len(),
    ensures
        match r {
            Some((dictionary, end)) => dictionary_at(bytes@, at as int, depth as nat) == Some(
                (dictionary@, end as int),
            ) && at < end <= bytes@.len(),
            None => dictionary_at(bytes@, at as int, depth as nat) is None,
        },
    decreases depth, 4int,
{
    if bytes.len() - at < 2 || bytes[at] != 0x3c || bytes[at + 1] != 0x3c {
        return None;
    }
    let from = skip_space(bytes, at + 2);
    let (dictionary, end) = entries(bytes, from, depth);
    if bytes.len() - end >= 2 && bytes[end] == 0x3e && bytes[end + 1] == 0x3e {
        Some((dictionary, end + 2))
    } else {
        None
    }
}

/// The direct object that `bytes` start with.
pub fn direct_object(bytes: &[u8]) -> (r: Option<Object>)
    ensures
        match (r, direct_at(bytes@, 0, MAX_NESTING as nat)) {
            (Some(object), Some((expected, _))) => object@ == expected,
            (None, None) => true,
            _ => false,
        },
{
    match direct(bytes, 0, MAX_NESTING) {
        Some((object, _)) => Some(object),
        None => None,
    }
}

} // verus!
