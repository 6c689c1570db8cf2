//! What the chunks of a page's content come to: each content stream decoded, and a newline behind it.

use vstd::prelude::*;

use crate::document::{chased, DEREF_LIMIT};
use crate::error::{DecompressError, Error};
use crate::filters::flate::{
    full_run, inflate_run, inflate_start, lemma_full_run, settled, stepped, InflateState, STEP,
};
use crate::object::{Entries, ObjectId, Value};
use crate::page_content::{
    content_read, content_rest, counted, decoded_more, decoding_start, lemma_chunks_count,
    lemma_chunks_end, page_limit_exceeded, remaining, unfinished, ContentModel, DecodingModel, PageLimits, CHUNK,
};
use crate::stream_filters::{decoded_within, filter_names, inflates_alone};

verus! {

/// The smaller of two lengths.
pub open spec fn lesser(a: nat, b: nat) -> nat {
    if a < b {
        a
    } else {
        b
    }
}

/// Whether reading up to `left` bytes comes to an end.
pub open spec fn comes_to_an_end(state: InflateState, left: nat) -> bool {
    exists|steps: nat| settled(#[trigger] inflate_run(state, left, steps), left)
}

/// Whether a stream inflated as far as `state` gives `data` in its next `n` steps, whatever room each
/// of them has: every step gives the bytes that come next, the stream ends where they do, and reading
/// any number of bytes comes to an end.
pub open spec fn gives(state: InflateState, data: Seq<u8>, n: nat) -> bool
    decreases n,
{
    n == 0 || {
        &&& forall|left: nat| #[trigger] comes_to_an_end(state, left)
        &&& state.done ==> data.len() == 0
        &&& !state.done ==> forall|room: nat|
            0 < room <= STEP ==> {
                let (next, written) = #[trigger] stepped(state, room);
                &&& written.len() <= room
                &&& written.is_prefix_of(data)
                &&& gives(next, data.skip(written.len() as int), (n - 1) as nat)
            }
    }
}

/// Whether a stream inflated as far as `state` is a valid one, whose rest is `data`.
pub open spec fn inflates_to(state: InflateState, data: Seq<u8>) -> bool {
    forall|n: nat| #[trigger] gives(state, data, n)
}

/// A step of a valid stream gives what comes next.
proof fn lemma_step(state: InflateState, data: Seq<u8>, room: nat)
    requires
        inflates_to(state, data),
        !state.done,
        0 < room <= STEP,
    ensures
        ({
            let (next, written) = stepped(state, room);
            &&& written.len() <= room
            &&& written.len() <= data.len()
            &&& written == data.take(written.len() as int)
            &&& inflates_to(next, data.skip(written.len() as int))
        }),
{
    let (next, written) = stepped(state, room);
    assert(gives(state, data, 1));
    assert(written =~= data.take(written.len() as int));
    assert forall|n: nat| #[trigger] gives(next, data.skip(written.len() as int), n) by {
        assert(gives(state, data, n + 1));
    }
}

proof fn lemma_run_of_valid(state: InflateState, data: Seq<u8>, left: nat, steps: nat)
    requires
        inflates_to(state, data),
        settled(inflate_run(state, left, steps), left),
    ensures
        ({
            let (after, bytes) = inflate_run(state, left, steps);
            let count = lesser(left, data.len());
            &&& bytes == data.take(count as int)
            &&& inflates_to(after, data.skip(count as int))
            &&& count < left ==> after.done
        }),
    decreases steps,
{
    assert(gives(state, data, 1));
    if steps == 0 || state.done || left == 0 {
        let count = lesser(left, data.len());
        assert(count == 0);
        assert(data.take(0) =~= Seq::<u8>::empty());
        assert(data.skip(0) =~= data);
    } else {
        let room = lesser(left, STEP as nat);
        lemma_step(state, data, room);
        let (next, written) = stepped(state, room);
        let rest = data.skip(written.len() as int);
        let more = (left - written.len()) as nat;
        lemma_run_of_valid(next, rest, more, (steps - 1) as nat);
        let count = lesser(left, data.len());
        let then = lesser(more, rest.len());
        assert(count == written.len() + then);
        assert(data.take(count as int) =~= written + rest.take(then as int));
        assert(data.skip(count as int) =~= rest.skip(then as int));
    }
}

/// Reading up to `left` bytes of a valid stream gives its next bytes, and fewer than `left` only at
/// its end.
pub proof fn lemma_read_of_valid(state: InflateState, data: Seq<u8>, left: nat)
    requires
        inflates_to(state, data),
    ensures
        ({
            let (after, bytes) = full_run(state, left);
            let count = lesser(left, data.len());
            &&& bytes == data.take(count as int)
            &&& inflates_to(after, data.skip(count as int))
            &&& count < left ==> after.done
        }),
{
    assert(gives(state, data, 1));
    assert(comes_to_an_end(state, left));
    let steps = choose|steps: nat| settled(#[trigger] inflate_run(state, left, steps), left);
    lemma_full_run(state, left, steps);
    lemma_run_of_valid(state, data, left, steps);
}

/// What reading up to each of `sizes` bytes in turn gives.
pub open spec fn read_in_turn(state: InflateState, sizes: Seq<nat>) -> (InflateState, Seq<u8>)
    decreases sizes.len(),
{
    if sizes.len() == 0 {
        (state, Seq::empty())
    } else {
        let (before, bytes) = read_in_turn(state, sizes.drop_last());
        let (after, more) = full_run(before, sizes.last());
        (after, bytes + more)
    }
}

/// How many bytes `sizes` ask for together.
pub open spec fn sum(sizes: Seq<nat>) -> nat
    decreases sizes.len(),
{
    if sizes.len() == 0 {
        0
    } else {
        sum(sizes.drop_last()) + sizes.last()
    }
}

/// What is read of a valid stream does not depend on how many bytes are asked for at a time.
pub proof fn lemma_sizes_do_not_matter(state: InflateState, data: Seq<u8>, sizes: Seq<nat>)
    requires
        inflates_to(state, data),
    ensures
        read_in_turn(state, sizes).1 == data.take(lesser(sum(sizes), data.len()) as int),
        inflates_to(
            read_in_turn(state, sizes).0,
            data.skip(lesser(sum(sizes), data.len()) as int),
        ),
    decreases sizes.len(),
{
    if sizes.len() == 0 {
        assert(data.take(0) =~= Seq::<u8>::empty());
        assert(data.skip(0) =~= data);
    } else {
        let asked = lesser(sum(sizes.drop_last()), data.len());
        lemma_sizes_do_not_matter(state, data, sizes.drop_last());
        let before = read_in_turn(state, sizes.drop_last()).0;
        let rest = data.skip(asked as int);
        lemma_read_of_valid(before, rest, sizes.last());
        let then = lesser(sizes.last(), rest.len());
        let count = lesser(sum(sizes), data.len());
        assert(count == asked + then);
        assert(data.take(count as int) =~= data.take(asked as int) + rest.take(then as int));
        assert(data.skip(count as int) =~= rest.skip(then as int));
    }
}

/// Nothing is nothing, inflated.
pub proof fn lemma_empty_stream(input: Seq<u8>)
    requires
        input.len() == 0,
    ensures
        inflates_to(inflate_start(input), Seq::empty()),
{
    let state = inflate_start(input);
    assert forall|n: nat| #[trigger] gives(state, Seq::empty(), n) by {
        assert forall|left: nat| #[trigger] comes_to_an_end(state, left) by {
            assert(settled(inflate_run(state, left, 0), left));
        }
    }
}

/// Whether a content stream decoded as far as `decoding` has `data` left.
pub open spec fn decodes_to(decoding: DecodingModel, data: Seq<u8>) -> bool {
    match decoding {
        DecodingModel::Inflating(state) => inflates_to(state, data),
        DecodingModel::Decoded(rest) => rest == data,
    }
}

proof fn lemma_decoded_more(decoding: DecodingModel, data: Seq<u8>, wanted: nat)
    requires
        decodes_to(decoding, data),
    ensures
        ({
            let (after, bytes) = decoded_more(decoding, wanted);
            let count = lesser(wanted, data.len());
            &&& bytes == data.take(count as int)
            &&& decodes_to(after, data.skip(count as int))
        }),
{
    if let DecodingModel::Inflating(state) = decoding {
        lemma_read_of_valid(state, data, wanted);
    }
}

/// One content stream that decodes to `data` is read to its end, and gives `data` and a newline, if
/// and only if that is no more than the page may still decode to. Otherwise the page's bound is
/// reported.
pub proof fn lemma_stream_is_read_whole(
    objects: Map<ObjectId, Value>,
    limits: PageLimits,
    decoding: DecodingModel,
    data: Seq<u8>,
    len: usize,
)
    requires
        decodes_to(decoding, data),
    ensures
        ({
            let at = ContentModel { streams: Seq::empty(), current: Some(decoding), len };
            let (bytes, after, failure) = content_rest(objects, limits, at);
            if data.len() <= remaining(limits, len) {
                &&& failure is None
                &&& bytes == data.push(10u8)
                &&& after == counted(len, data.len() as int + 1)
            } else {
                failure == Some(page_limit_exceeded(limits))
            }
        }),
    decreases data.len(),
{
    let at = ContentModel { streams: Seq::empty(), current: Some(decoding), len };
    let left = remaining(limits, len);
    let wanted: nat = if left < CHUNK {
        (left + 1) as nat
    } else {
        CHUNK as nat
    };
    lemma_decoded_more(decoding, data, wanted);
    lemma_chunks_end(objects, limits, at);
    let (next, bytes) = decoded_more(decoding, wanted);
    let count = lesser(wanted, data.len());
    if count > left {
    } else if count == 0 {
        let end = ContentModel {
            streams: Seq::empty(),
            current: None,
            len: counted(len, 1),
        };
        lemma_chunks_end(objects, limits, end);
        assert(content_read(objects, limits, end) == (
            end,
            Seq::<u8>::empty(),
            Ok::<bool, Error>(false),
        ));
        assert(content_rest(objects, limits, end).0 =~= Seq::<u8>::empty());
        assert(seq![10u8] + Seq::<u8>::empty() =~= data.push(10u8));
    } else {
        let rest = data.skip(count as int);
        let then = counted(len, count as int);
        lemma_stream_is_read_whole(objects, limits, next, rest, then);
        assert(remaining(limits, then) == left - count);
        if rest.len() <= remaining(limits, then) {
            assert(data.take(count as int) + rest.push(10u8) =~= data.push(10u8));
        }
    }
}

/// Reading a chunk goes by the streams in front as long as they last.
proof fn lemma_chunk_in_front(
    objects: Map<ObjectId, Value>,
    limits: PageLimits,
    at: ContentModel,
    more: Seq<ObjectId>,
)
    ensures
        ({
            let both = ContentModel { streams: at.streams + more, ..at };
            let (after, chunk, outcome) = content_read(objects, limits, at);
            if outcome == Ok::<bool, Error>(false) {
                &&& content_read(objects, limits, both) == content_read(
                    objects,
                    limits,
                    ContentModel { streams: more, current: None, len: at.len },
                )
                &&& after.len == at.len
            } else {
                content_read(objects, limits, both) == (
                    ContentModel { streams: after.streams + more, ..after },
                    chunk,
                    outcome,
                )
            }
        }),
    decreases
            at.streams.len(),
            if at.current is None {
                1int
            } else {
                0int
            },
{
    let both = ContentModel { streams: at.streams + more, ..at };
    if at.current is None {
        if at.streams.len() == 0 {
            assert(at.streams + more =~= more);
        } else {
            let next = ContentModel { streams: at.streams.drop_first(), ..at };
            assert(both.streams[0] == at.streams[0]);
            assert(both.streams.drop_first() =~= next.streams + more);
            match chased(objects, at.streams[0], DEREF_LIMIT as nat) {
                Ok(Value::Stream(dict, content)) => match decoding_start(
                    dict,
                    content,
                    limits,
                    at.len,
                ) {
                    Ok(decoding) => {
                        lemma_chunk_in_front(
                            objects,
                            limits,
                            ContentModel { current: Some(decoding), ..next },
                            more,
                        );
                    },
                    Err(_) => {},
                },
                _ => {
                    lemma_chunk_in_front(objects, limits, next, more);
                },
            }
        }
    }
}

/// The content of a page is that of its first streams and then, if nothing went wrong with them, that
/// of the others.
pub proof fn lemma_streams_in_turn(
    objects: Map<ObjectId, Value>,
    limits: PageLimits,
    at: ContentModel,
    more: Seq<ObjectId>,
)
    ensures
        ({
            let both = ContentModel { streams: at.streams + more, ..at };
            let (front, len, failure) = content_rest(objects, limits, at);
            let (back, end, later) = content_rest(
                objects,
                limits,
                ContentModel { streams: more, current: None, len },
            );
            content_rest(objects, limits, both) == match failure {
                Some(_) => (front, len, failure),
                None => (front + back, end, later),
            }
        }),
    decreases unfinished(at), remaining(limits, at.len),
{
    let both = ContentModel { streams: at.streams + more, ..at };
    lemma_chunk_in_front(objects, limits, at, more);
    lemma_chunks_end(objects, limits, at);
    lemma_chunks_end(objects, limits, both);
    let (after, chunk, outcome) = content_read(objects, limits, at);
    match outcome {
        Ok(true) => {
            lemma_streams_in_turn(objects, limits, after, more);
            let (front, len, failure) = content_rest(objects, limits, after);
            let back = content_rest(
                objects,
                limits,
                ContentModel { streams: more, current: None, len },
            ).0;
            assert(chunk + (front + back) =~= (chunk + front) + back);
        },
        Ok(false) => {
            let then = ContentModel { streams: more, current: None, len: at.len };
            lemma_chunks_end(objects, limits, then);
            let back = content_rest(objects, limits, then).0;
            assert(Seq::<u8>::empty() + back =~= back);
        },
        Err(_) => {},
    }
}

/// Content depends on nothing but its streams.
pub proof fn lemma_same_streams(
    a: Map<ObjectId, Value>,
    b: Map<ObjectId, Value>,
    limits: PageLimits,
    at: ContentModel,
)
    requires
        forall|i: int|
            0 <= i < at.streams.len() ==> chased(a, #[trigger] at.streams[i], DEREF_LIMIT as nat)
                == chased(b, at.streams[i], DEREF_LIMIT as nat) || !(chased(
                a,
                at.streams[i],
                DEREF_LIMIT as nat,
            ) is Ok) && !(chased(b, at.streams[i], DEREF_LIMIT as nat) is Ok),
    ensures
        content_rest(a, limits, at) == content_rest(b, limits, at),
    decreases unfinished(at), remaining(limits, at.len),
{
    lemma_same_chunk(a, b, limits, at);
    lemma_chunks_end(a, limits, at);
    lemma_chunks_end(b, limits, at);
    let (after, _, more) = content_read(a, limits, at);
    if more == Ok::<bool, Error>(true) {
        lemma_same_streams(a, b, limits, after);
    }
}

proof fn lemma_same_chunk(
    a: Map<ObjectId, Value>,
    b: Map<ObjectId, Value>,
    limits: PageLimits,
    at: ContentModel,
)
    requires
        forall|i: int|
            0 <= i < at.streams.len() ==> chased(a, #[trigger] at.streams[i], DEREF_LIMIT as nat)
                == chased(b, at.streams[i], DEREF_LIMIT as nat) || !(chased(
                a,
                at.streams[i],
                DEREF_LIMIT as nat,
            ) is Ok) && !(chased(b, at.streams[i], DEREF_LIMIT as nat) is Ok),
    ensures
        content_read(a, limits, at) == content_read(b, limits, at),
        ({
            let after = content_read(a, limits, at).0;
            &&& after.streams.len() <= at.streams.len()
            &&& after.streams == at.streams.skip(at.streams.len() - after.streams.len())
        }),
    decreases
            at.streams.len(),
            if at.current is None {
                1int
            } else {
                0int
            },
{
    assert(at.streams.skip(0) =~= at.streams);
    if at.current is None && at.streams.len() > 0 {
        let rest = at.streams.drop_first();
        let next = ContentModel { streams: rest, ..at };
        assert forall|i: int| 0 <= i < rest.len() implies chased(
            a,
            #[trigger] rest[i],
            DEREF_LIMIT as nat,
        ) == chased(b, rest[i], DEREF_LIMIT as nat) || !(chased(a, rest[i], DEREF_LIMIT as nat)
            is Ok) && !(chased(b, rest[i], DEREF_LIMIT as nat) is Ok) by {
            assert(rest[i] == at.streams[i + 1]);
        }
        assert(rest.skip(0) =~= rest);
        assert(at.streams.skip(1) =~= rest);
        let after = content_read(a, limits, at).0;
        let started = match chased(a, at.streams[0], DEREF_LIMIT as nat) {
            Ok(Value::Stream(dict, content)) => match decoding_start(dict, content, limits, at.len) {
                Ok(decoding) => Some(ContentModel { current: Some(decoding), ..next }),
                Err(_) => None,
            },
            _ => Some(next),
        };
        if let Some(then) = started {
            lemma_same_chunk(a, b, limits, then);
            assert(rest.skip(rest.len() - after.streams.len()) =~= at.streams.skip(
                at.streams.len() - after.streams.len(),
            ));
        }
    }
}

/// Whether the content of a stream is `data`: what it inflates to or decodes to, or what is stored
/// where it has no filter or cannot be decoded.
pub open spec fn plain_content(dict: Entries, content: Seq<u8>, data: Seq<u8>) -> bool {
    if inflates_alone(dict) {
        inflates_to(inflate_start(content), data)
    } else if filter_names(dict) is None {
        data == content
    } else {
        ||| forall|limit: usize|
            data.len() <= limit ==> #[trigger] decoded_within(dict, content, limit) == Ok::<
                Seq<u8>,
                Error,
            >(data)
        ||| data == content && forall|limit: usize|
            match #[trigger] decoded_within(dict, content, limit) {
                Ok(_) => false,
                Err(Error::Decompress(DecompressError::MemoryLimitExceeded { .. })) => false,
                Err(_) => true,
            }
    }
}

/// Whether object `id` adds `part` to a page's content: what a stream decodes to and a newline, and
/// nothing when it is no stream.
pub open spec fn adds(objects: Map<ObjectId, Value>, id: ObjectId, part: Seq<u8>) -> bool {
    match chased(objects, id, DEREF_LIMIT as nat) {
        Ok(Value::Stream(dict, content)) => part.len() > 0 && part.last() == 10u8 && plain_content(
            dict,
            content,
            part.drop_last(),
        ),
        _ => part.len() == 0,
    }
}

/// One object adds its part to a page's content.
proof fn lemma_part(
    objects: Map<ObjectId, Value>,
    limits: PageLimits,
    id: ObjectId,
    part: Seq<u8>,
    len: usize,
)
    requires
        adds(objects, id, part),
        part.len() <= remaining(limits, len),
        part.len() <= limits.max_stream_size,
    ensures
        content_rest(
            objects,
            limits,
            ContentModel { streams: seq![id], current: None, len },
        ) == (part, counted(len, part.len() as int), None::<Error>),
{
    let at = ContentModel { streams: seq![id], current: None, len };
    let none: Seq<ObjectId> = Seq::empty();
    assert(at.streams.drop_first() =~= none);
    lemma_chunks_end(objects, limits, at);
    match chased(objects, id, DEREF_LIMIT as nat) {
        Ok(Value::Stream(dict, content)) => {
            let data = part.drop_last();
            let decoding = decoding_start(dict, content, limits, len)->Ok_0;
            assert(decoding_start(dict, content, limits, len) is Ok && decodes_to(decoding, data));
            lemma_stream_is_read_whole(objects, limits, decoding, data, len);
            let started = ContentModel { streams: none, current: Some(decoding), len };
            lemma_chunks_end(objects, limits, started);
            assert(content_read(objects, limits, at) == content_read(objects, limits, started));
            assert(content_rest(objects, limits, at) == content_rest(objects, limits, started));
            assert(data.push(10u8) =~= part);
        },
        _ => {
            let end = ContentModel { streams: none, current: None, len };
            assert(content_read(objects, limits, at) == content_read(objects, limits, end));
            assert(content_rest(objects, limits, at).0 =~= part);
        },
    }
}

/// The content of a page is what its content streams add to it, one behind the other, as long as that
/// is within the limits.
pub proof fn lemma_page_is_read_whole(
    objects: Map<ObjectId, Value>,
    limits: PageLimits,
    streams: Seq<ObjectId>,
    parts: Seq<Seq<u8>>,
    len: usize,
)
    requires
        streams.len() == parts.len(),
        forall|i: int|
            0 <= i < streams.len() ==> adds(objects, #[trigger] streams[i], parts[i]) && parts[i].len()
                <= limits.max_stream_size,
        parts.flatten().len() <= remaining(limits, len),
    ensures
        content_rest(objects, limits, ContentModel { streams, current: None, len }) == (
            parts.flatten(),
            counted(len, parts.flatten().len() as int),
            None::<Error>,
        ),
    decreases streams.len(),
{
    let at = ContentModel { streams, current: None, len };
    lemma_chunks_end(objects, limits, at);
    if streams.len() == 0 {
        assert(content_read(objects, limits, at) == (
            at,
            Seq::<u8>::empty(),
            Ok::<bool, Error>(false),
        ));
        assert(parts.flatten() =~= Seq::<u8>::empty());
    } else {
        let first = ContentModel { streams: seq![streams[0]], current: None, len };
        let rest = streams.drop_first();
        assert(first.streams + rest =~= streams);
        let others = parts.drop_first();
        assert(parts.flatten() == parts[0] + others.flatten());
        lemma_part(objects, limits, streams[0], parts[0], len);
        lemma_streams_in_turn(objects, limits, first, rest);
        let then = counted(len, parts[0].len() as int);
        assert forall|i: int| 0 <= i < rest.len() implies adds(
            objects,
            #[trigger] rest[i],
            others[i],
        ) && others[i].len() <= limits.max_stream_size by {
            assert(rest[i] == streams[i + 1]);
        }
        lemma_page_is_read_whole(objects, limits, rest, others, then);
    }
}

/// How far content has been read after `n` calls, and what they appended.
pub open spec fn after_calls(
    objects: Map<ObjectId, Value>,
    limits: PageLimits,
    at: ContentModel,
    n: nat,
) -> (ContentModel, Seq<u8>)
    decreases n,
{
    if n == 0 {
        (at, Seq::empty())
    } else {
        let (before, bytes) = after_calls(objects, limits, at, (n - 1) as nat);
        let (after, chunk, _) = content_read(objects, limits, before);
        (after, bytes + chunk)
    }
}

/// What the call behind the first `n` returns.
pub open spec fn call_after(
    objects: Map<ObjectId, Value>,
    limits: PageLimits,
    at: ContentModel,
    n: nat,
) -> std::result::Result<bool, Error> {
    content_read(objects, limits, after_calls(objects, limits, at, n).0).2
}

/// Whether `n` calls give chunks that come to `bytes`, and the call behind them returns `end`. Once
/// there is no more, no call returns anything else or appends anything.
pub open spec fn calls_give(
    objects: Map<ObjectId, Value>,
    limits: PageLimits,
    at: ContentModel,
    n: nat,
    bytes: Seq<u8>,
    end: std::result::Result<bool, Error>,
) -> bool {
    &&& forall|k: nat| k < n ==> #[trigger] call_after(objects, limits, at, k) == Ok::<bool, Error>(
        true,
    )
    &&& after_calls(objects, limits, at, n).1 == bytes
    &&& call_after(objects, limits, at, n) == end
    &&& end == Ok::<bool, Error>(false) ==> forall|m: nat|
        n <= m ==> #[trigger] call_after(objects, limits, at, m) == Ok::<bool, Error>(false)
            && after_calls(objects, limits, at, m).1 == bytes
}

proof fn lemma_first_call(
    objects: Map<ObjectId, Value>,
    limits: PageLimits,
    at: ContentModel,
    n: nat,
)
    ensures
        ({
            let (next, chunk, _) = content_read(objects, limits, at);
            let (after, bytes) = after_calls(objects, limits, next, n);
            after_calls(objects, limits, at, n + 1) == (after, chunk + bytes)
        }),
    decreases n,
{
    let (next, chunk, _) = content_read(objects, limits, at);
    if n == 0 {
        assert(after_calls(objects, limits, at, 0) == (at, Seq::<u8>::empty()));
        assert(after_calls(objects, limits, at, 1).1 =~= chunk + Seq::<u8>::empty());
    } else {
        lemma_first_call(objects, limits, at, (n - 1) as nat);
        let (before, bytes) = after_calls(objects, limits, next, (n - 1) as nat);
        let (_, last, _) = content_read(objects, limits, before);
        assert((chunk + bytes) + last =~= chunk + (bytes + last));
    }
}

proof fn lemma_calls_at_the_end(
    objects: Map<ObjectId, Value>,
    limits: PageLimits,
    at: ContentModel,
    m: nat,
)
    requires
        content_read(objects, limits, at).2 == Ok::<bool, Error>(false),
    ensures
        call_after(objects, limits, at, m) == Ok::<bool, Error>(false),
        after_calls(objects, limits, at, m).1 == Seq::<u8>::empty(),
        m > 0 ==> after_calls(objects, limits, at, m).0 == content_read(objects, limits, at).0,
    decreases m,
{
    lemma_chunks_count(objects, limits, at);
    if m > 0 {
        lemma_calls_at_the_end(objects, limits, at, (m - 1) as nat);
        assert(Seq::<u8>::empty() + Seq::<u8>::empty() =~= Seq::<u8>::empty());
    }
}

/// What the last call returns: that there is no more, or what went wrong.
pub open spec fn end_of(failure: Option<Error>) -> std::result::Result<bool, Error> {
    match failure {
        Some(error) => Err(error),
        None => Ok(false),
    }
}

/// Calling for chunks until there is no more, or until it fails, gives the rest of the content, and ends
/// as reading it does.
pub proof fn lemma_calls_come_to_an_end(
    objects: Map<ObjectId, Value>,
    limits: PageLimits,
    at: ContentModel,
)
    ensures
        exists|n: nat| #[trigger]
            calls_give(
                objects,
                limits,
                at,
                n,
                content_rest(objects, limits, at).0,
                end_of(content_rest(objects, limits, at).2),
            ),
    decreases unfinished(at), remaining(limits, at.len),
{
    lemma_chunks_end(objects, limits, at);
    let (rest, _, failure) = content_rest(objects, limits, at);
    let end = end_of(failure);
    let (next, chunk, more) = content_read(objects, limits, at);
    if more == Ok::<bool, Error>(true) {
        lemma_calls_come_to_an_end(objects, limits, next);
        let later = content_rest(objects, limits, next).0;
        let n = choose|n: nat| #[trigger] calls_give(objects, limits, next, n, later, end);
        lemma_first_call(objects, limits, at, n);
        assert forall|k: nat| k < n + 1 implies #[trigger] call_after(objects, limits, at, k)
            == Ok::<bool, Error>(true) by {
            if k > 0 {
                lemma_first_call(objects, limits, at, (k - 1) as nat);
                assert(call_after(objects, limits, next, (k - 1) as nat) == Ok::<bool, Error>(true));
            }
        }
        if end == Ok::<bool, Error>(false) {
            assert forall|m: nat| n + 1 <= m implies #[trigger] call_after(objects, limits, at, m)
                == Ok::<bool, Error>(false) && after_calls(objects, limits, at, m).1 == rest by {
                lemma_first_call(objects, limits, at, (m - 1) as nat);
                assert(call_after(objects, limits, next, (m - 1) as nat) == Ok::<bool, Error>(
                    false,
                ));
            }
        }
        assert(calls_give(objects, limits, at, n + 1, rest, end));
    } else {
        assert(after_calls(objects, limits, at, 0).1 =~= rest);
        if end == Ok::<bool, Error>(false) {
            assert forall|m: nat| 0 <= m implies #[trigger] call_after(objects, limits, at, m)
                == Ok::<bool, Error>(false) && after_calls(objects, limits, at, m).1 == rest by {
                lemma_calls_at_the_end(objects, limits, at, m);
            }
        }
        assert(calls_give(objects, limits, at, 0, rest, end));
    }
}

/// Called for until there is no more, the chunks of a page are what its content streams add to it, one
/// behind the other, as long as that is within the limits; further calls append nothing.
pub proof fn lemma_calls_give_the_page(
    objects: Map<ObjectId, Value>,
    limits: PageLimits,
    streams: Seq<ObjectId>,
    parts: Seq<Seq<u8>>,
)
    requires
        streams.len() == parts.len(),
        forall|i: int|
            0 <= i < streams.len() ==> adds(objects, #[trigger] streams[i], parts[i]) && parts[i].len()
                <= limits.max_stream_size,
        parts.flatten().len() <= limits.max_content_size,
    ensures
        exists|n: nat| #[trigger]
            calls_give(
                objects,
                limits,
                ContentModel { streams, current: None, len: 0 },
                n,
                parts.flatten(),
                Ok::<bool, Error>(false),
            ),
{
    lemma_page_is_read_whole(objects, limits, streams, parts, 0);
    lemma_calls_come_to_an_end(
        objects,
        limits,
        ContentModel { streams, current: None, len: 0 },
    );
}

/// Called for until there is no more or a call fails, the chunks of a page of one content stream, which
/// is not filtered or inflates alone, end well if and only if it decodes to no more than the page's
/// bound; otherwise the bound is reported.
pub proof fn lemma_calls_end_well_within_the_bound(
    objects: Map<ObjectId, Value>,
    limits: PageLimits,
    id: ObjectId,
    dict: Entries,
    content: Seq<u8>,
    data: Seq<u8>,
)
    requires
        chased(objects, id, DEREF_LIMIT as nat) == Ok::<Value, Error>(Value::Stream(dict, content)),
        inflates_alone(dict) || filter_names(dict) is None,
        plain_content(dict, content, data),
    ensures
        ({
            let at = ContentModel { streams: seq![id], current: None, len: 0 };
            if data.len() <= limits.max_content_size {
                exists|n: nat| #[trigger]
                    calls_give(objects, limits, at, n, data.push(10u8), Ok::<bool, Error>(false))
            } else {
                exists|n: nat, bytes: Seq<u8>| #[trigger]
                    calls_give(
                        objects,
                        limits,
                        at,
                        n,
                        bytes,
                        Err::<bool, Error>(page_limit_exceeded(limits)),
                    )
            }
        }),
{
    let at = ContentModel { streams: seq![id], current: None, len: 0 };
    let none: Seq<ObjectId> = Seq::empty();
    assert(at.streams.drop_first() =~= none);
    lemma_chunks_end(objects, limits, at);
    let decoding = decoding_start(dict, content, limits, 0)->Ok_0;
    lemma_stream_is_read_whole(objects, limits, decoding, data, 0);
    let started = ContentModel { streams: none, current: Some(decoding), len: 0 };
    lemma_chunks_end(objects, limits, started);
    assert(content_read(objects, limits, at) == content_read(objects, limits, started));
    assert(content_rest(objects, limits, at) == content_rest(objects, limits, started));
    lemma_calls_come_to_an_end(objects, limits, at);
    let rest = content_rest(objects, limits, at).0;
    if data.len() > limits.max_content_size {
        let end = Err::<bool, Error>(page_limit_exceeded(limits));
        let n = choose|n: nat| #[trigger] calls_give(objects, limits, at, n, rest, end);
        assert(calls_give(objects, limits, at, n, rest, end));
    }
}

} // verus!
