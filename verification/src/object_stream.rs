//! Object streams: objects that stand together in one stream.

use vstd::prelude::*;

use crate::error::{Error, Result};
use crate::object::{named_entry, Dictionary, Entries, Object, Value};
use crate::parser::lexical::{after_white, skip_white, unsigned, unsigned_at};
use crate::parser::objects::{direct, direct_at, MAX_NESTING};
use crate::stream_filters::{plain_content, plain_within};

verus! {

/// An object's number and where it stands, with white space before and between them.
pub open spec fn pair_at(content: Seq<u8>, at: int) -> Option<(nat, nat, int)> {
    match unsigned_at(content, after_white(content, at), u32::MAX as nat) {
        Some((number, number_end)) => match unsigned_at(
            content,
            after_white(content, number_end),
            u32::MAX as nat,
        ) {
            Some((offset, end)) => Some((number, offset, end)),
            None => None,
        },
        None => None,
    }
}

/// The object with the number `number` among the first `left` pairs from `at` on, the last of
/// several, or `found` without one.
pub open spec fn member(
    content: Seq<u8>,
    first: nat,
    at: int,
    left: nat,
    number: u32,
    found: Option<Value>,
) -> Option<Value>
    decreases left,
{
    if left == 0 {
        found
    } else {
        match pair_at(content, at) {
            Some((id, offset, end)) => {
                let object = if id == number && first + offset <= content.len() {
                    match direct_at(content, (first + offset) as int, MAX_NESTING as nat) {
                        Some((object, _)) => Some(object),
                        None => found,
                    }
                } else {
                    found
                };
                member(content, first, end, (left - 1) as nat, number, object)
            },
            None => found,
        }
    }
}

/// A count or an offset that the dictionary of an object stream gives.
pub open spec fn count_in(dict: Entries, name: Seq<char>) -> nat {
    match named_entry(dict, name) {
        Some(Value::Integer(count)) => if 0 <= count <= u32::MAX {
            count as nat
        } else {
            0
        },
        _ => 0,
    }
}

/// What an object stream holds.
pub struct StreamMembers {
    pub content: Seq<u8>,
    pub first: nat,
    pub count: nat,
}

/// What the object stream with a dictionary and stored content holds, each filter giving no more
/// than `limit` bytes.
pub open spec fn members_of(dict: Entries, stored: Seq<u8>, limit: usize) -> std::result::Result<
    StreamMembers,
    Error,
> {
    match plain_within(dict, stored, limit) {
        Ok(content) => Ok(
            StreamMembers {
                content,
                first: count_in(dict, "First"@),
                count: count_in(dict, "N"@),
            },
        ),
        Err(error) => Err(error),
    }
}

impl StreamMembers {
    /// The object with the number `number`.
    pub open spec fn object(self, number: u32) -> Option<Value> {
        member(self.content, self.first, 0, self.count, number, None)
    }
}

/// The objects of an object stream, decoded.
pub struct ObjectStream {
    content: Vec<u8>,
    first: u32,
    count: u32,
}

impl View for ObjectStream {
    type V = StreamMembers;

    closed spec fn view(&self) -> StreamMembers {
        StreamMembers {
            content: self.content@,
            first: self.first as nat,
            count: self.count as nat,
        }
    }
}

fn count_of(dict: &Dictionary, name: &str) -> (r: u32)
    ensures
        r == count_in(dict@, name@),
{
    match dict.named(name) {
        Some(Object::Integer(count)) => if *count >= 0 && *count <= u32::MAX as i64 {
            *count as u32
        } else {
            0
        },
        _ => 0,
    }
}

impl ObjectStream {
    /// Decodes the object stream with the dictionary `dict` and the stored content `stored`, each
    /// filter giving no more than `limit` bytes.
    pub fn new_with_limit(dict: &Dictionary, stored: &[u8], limit: usize) -> (r: Result<Self>)
        ensures
            match r {
                Ok(stream) => members_of(dict@, stored@, limit) == Ok::<StreamMembers, Error>(
                    stream@,
                ),
                Err(error) => members_of(dict@, stored@, limit) == Err::<StreamMembers, Error>(
                    error,
                ),
            },
    {
        match plain_content(dict, stored, limit) {
            Ok(content) => Ok(
                ObjectStream {
                    content,
                    first: count_of(dict, "First"),
                    count: count_of(dict, "N"),
                },
            ),
            Err(error) => Err(error),
        }
    }

    /// The object with the number `number`.
    pub fn get(&self, number: u32) -> (r: Option<Object>)
        ensures
            match r {
                Some(object) => self@.object(number) == Some(object@),
                None => self@.object(number) is None,
            },
    {
        let content = self.content.as_slice();
        let ghost expected = self@.object(number);
        let mut found: Option<Object> = None;
        let ghost mut found_value: Option<Value> = None;
        let mut at: usize = 0;
        let mut left: u32 = self.count;
        while left > 0
            invariant
                content@ == self.content@,
                at <= content@.len(),
                expected == self@.object(number),
                expected == member(
                    content@,
                    self.first as nat,
                    at as int,
                    left as nat,
                    number,
                    found_value,
                ),
                match found {
                    Some(object) => found_value == Some(object@),
                    None => found_value is None,
                },
            decreases left,
        {
            let (id, id_end) = match unsigned(content, skip_white(content, at), u32::MAX as u64) {
                Some(read) => read,
                None => {
                    return found;
                },
            };
            let (offset, end) = match unsigned(
                content,
                skip_white(content, id_end),
                u32::MAX as u64,
            ) {
                Some(read) => read,
                None => {
                    return found;
                },
            };
            let start = self.first as u64 + offset;
            if id == number as u64 && start <= content.len() as u64 {
                if let Some((object, _)) = direct(content, start as usize, MAX_NESTING) {
                    proof {
                        found_value = Some(object@);
                    }
                    found = Some(object);
                }
            }
            at = end;
            left -= 1;
        }
        found
    }
}

} // verus!
