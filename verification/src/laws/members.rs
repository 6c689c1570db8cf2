//! The objects of object streams.

use vstd::prelude::*;

use crate::laws::numbers::{are_digits, count_of, lemma_unsigned};
use crate::object::{named_entry, Entries, Value};
use crate::object_stream::{member, members_of, pair_at, StreamMembers};
use crate::parser::lexical::after_white;
use crate::parser::objects::{direct_at, MAX_NESTING};
use crate::stream_filters::plain_within;

verus! {

/// A pair is an object's number and its offset, in digits, with white space before each.
pub proof fn lemma_pairs(content: Seq<u8>, at: int, number_end: int, end: int)
    requires
        after_white(content, at) < number_end,
        are_digits(content, after_white(content, at), number_end),
        after_white(content, number_end) < end,
        are_digits(content, after_white(content, number_end), end),
        count_of(content, after_white(content, at), number_end) <= 0xffff_ffff,
        count_of(content, after_white(content, number_end), end) <= 0xffff_ffff,
    ensures
        pair_at(content, at) == Some(
            (
                count_of(content, after_white(content, at), number_end) as nat,
                count_of(content, after_white(content, number_end), end) as nat,
                end,
            ),
        ),
{
    lemma_unsigned(content, after_white(content, at), number_end, u32::MAX as nat);
    lemma_unsigned(content, after_white(content, number_end), end, u32::MAX as nat);
}

/// Whether `pairs` stand at `places`, one behind the other.
pub open spec fn are_pairs(content: Seq<u8>, places: Seq<int>, pairs: Seq<(nat, nat)>) -> bool {
    &&& places.len() == pairs.len() + 1
    &&& places[0] == 0
    &&& forall|k: int|
        0 <= k < pairs.len() ==> pair_at(content, places[k]) == Some(
            ((#[trigger] pairs[k]).0, pairs[k].1, places[k + 1]),
        )
}

/// Whether the object of pair `k` can be read, and is `object`: it stands at its offset, counted from
/// `first` on.
pub open spec fn reads_as(
    content: Seq<u8>,
    first: nat,
    pairs: Seq<(nat, nat)>,
    k: int,
    object: Value,
) -> bool {
    &&& first + pairs[k].1 <= content.len()
    &&& direct_at(content, (first + pairs[k].1) as int, MAX_NESTING as nat) matches Some((read, _))
        && read == object
}

proof fn lemma_member_from(
    content: Seq<u8>,
    first: nat,
    places: Seq<int>,
    pairs: Seq<(nat, nat)>,
    number: u32,
    k: int,
    found: Option<Value>,
    at: int,
    object: Value,
)
    requires
        are_pairs(content, places, pairs),
        0 <= k <= pairs.len(),
        -1 <= at < pairs.len(),
        forall|j: int| at < j < pairs.len() ==> (#[trigger] pairs[j]).0 != number,
        at < k ==> found == Some(object) || (at == -1 && found is None),
        at >= k ==> pairs[at].0 == number && reads_as(content, first, pairs, at, object),
    ensures
        member(content, first, places[k], (pairs.len() - k) as nat, number, found) == if at >= k {
            Some(object)
        } else {
            found
        },
    decreases pairs.len() - k,
{
    if k < pairs.len() {
        assert(pair_at(content, places[k]) == Some((pairs[k].0, pairs[k].1, places[k + 1])));
        let next = if pairs[k].0 == number && first + pairs[k].1 <= content.len() {
            match direct_at(content, (first + pairs[k].1) as int, MAX_NESTING as nat) {
                Some((read, _)) => Some(read),
                None => found,
            }
        } else {
            found
        };
        if at < k {
            assert(pairs[k].0 != number);
        }
        if at == k {
            assert(next == Some(object));
            lemma_member_from(content, first, places, pairs, number, k + 1, next, at, object);
        } else {
            lemma_member_from(content, first, places, pairs, number, k + 1, next, at, object);
        }
    }
}

/// An object stream holds under each number the object at the offset that is listed behind it, the last
/// one if the number is listed more than once, and under any other number nothing.
pub proof fn lemma_members(
    members: StreamMembers,
    places: Seq<int>,
    pairs: Seq<(nat, nat)>,
    number: u32,
    at: int,
    object: Value,
)
    requires
        are_pairs(members.content, places, pairs),
        members.count == pairs.len(),
    ensures
        0 <= at < pairs.len() && pairs[at].0 == number && reads_as(
            members.content,
            members.first,
            pairs,
            at,
            object,
        ) && (forall|j: int| at < j < pairs.len() ==> (#[trigger] pairs[j]).0 != number)
            ==> members.object(number) == Some(object),
        (forall|j: int| 0 <= j < pairs.len() ==> (#[trigger] pairs[j]).0 != number)
            ==> members.object(number) is None,
{
    if 0 <= at < pairs.len() && pairs[at].0 == number && reads_as(
        members.content,
        members.first,
        pairs,
        at,
        object,
    ) && (forall|j: int| at < j < pairs.len() ==> (#[trigger] pairs[j]).0 != number) {
        lemma_member_from(
            members.content,
            members.first,
            places,
            pairs,
            number,
            0,
            None,
            at,
            object,
        );
    }
    if forall|j: int| 0 <= j < pairs.len() ==> (#[trigger] pairs[j]).0 != number {
        lemma_member_from(
            members.content,
            members.first,
            places,
            pairs,
            number,
            0,
            None,
            -1,
            object,
        );
    }
}

/// The objects of a stream are those of its plain content: as many as `/N` says, from `/First` on.
pub proof fn lemma_members_of(
    dict: Entries,
    stored: Seq<u8>,
    limit: usize,
    plain: Seq<u8>,
    first: i64,
    count: i64,
)
    requires
        plain_within(dict, stored, limit) == Ok::<Seq<u8>, crate::error::Error>(plain),
        named_entry(dict, "First"@) == Some(Value::Integer(first)),
        named_entry(dict, "N"@) == Some(Value::Integer(count)),
        0 <= first <= 0xffff_ffff,
        0 <= count <= 0xffff_ffff,
    ensures
        members_of(dict, stored, limit) matches Ok(members) && members.content == plain
            && members.first == first && members.count == count,
{
}

} // verus!
