//! `/FlateDecode`, inflated a piece at a time.

use vstd::prelude::*;
use vstd::slice::slice_subrange;

verus! {

/// The most bytes one step of [`Inflater::read_into`] inflates.
pub const STEP: usize = 65_536;

/// `flate2::Decompress`, which holds how far a stream has been inflated.
#[verifier::external_type_specification]
#[verifier::external_body]
pub struct ExDecompress(flate2::Decompress);

/// What a step of inflating came to.
#[derive(Clone, Copy, Debug, PartialEq, Eq, Structural)]
pub enum InflateStatus {
    /// There may be more.
    More,
    /// The stream ended.
    End,
    /// The stream is faulty.
    Fault,
}

/// What `flate2::Decompress::new` returns.
pub uninterp spec fn fresh(zlib_header: bool) -> flate2::Decompress;

/// What `flate2::Decompress::total_in` returns.
pub uninterp spec fn total_in(decompress: flate2::Decompress) -> u64;

/// What `flate2::Decompress::total_out` returns.
pub uninterp spec fn total_out(decompress: flate2::Decompress) -> u64;

/// What `flate2::Decompress::decompress` makes of input and room for so many bytes: how far the
/// stream has been inflated after it, the bytes it wrote, and its status.
pub uninterp spec fn inflated(decompress: flate2::Decompress, input: Seq<u8>, room: nat) -> (
    flate2::Decompress,
    Seq<u8>,
    InflateStatus,
);

/// `flate2::Decompress::new` has taken no input and given no output.
pub assume_specification[ flate2::Decompress::new ](zlib_header: bool) -> (r: flate2::Decompress)
    ensures
        r == fresh(zlib_header),
        total_in(r) == 0,
        total_out(r) == 0,
;

/// `flate2::Decompress::total_in` counts the input taken so far.
pub assume_specification[ flate2::Decompress::total_in ](decompress: &flate2::Decompress) -> (r: u64)
    ensures
        r == total_in(*decompress),
;

/// `flate2::Decompress::total_out` counts the output given so far.
pub assume_specification[ flate2::Decompress::total_out ](decompress: &flate2::Decompress) -> (r:
    u64)
    ensures
        r == total_out(*decompress),
;

/// `flate2::Decompress::decompress` without flushing takes input from the front, no more than there
/// is, writes to the front of `output`, no more than fits, and counts both. What it does depends
/// on what it was given before, on the input, and on how much fits.
#[verifier::external_body]
fn decompress_into(
    decompress: &mut flate2::Decompress,
    input: &[u8],
    output: &mut Vec<u8>,
) -> (r: InflateStatus)
    requires
        total_in(*old(decompress)) + input@.len() <= u64::MAX,
        total_out(*old(decompress)) + old(output)@.len() <= u64::MAX,
    ensures
        ({
            let (after, written, status) = inflated(
                *old(decompress),
                input@,
                old(output)@.len(),
            );
            &&& *final(decompress) == after
            &&& r == status
            &&& written.len() <= old(output)@.len()
            &&& final(output)@ == written + old(output)@.skip(written.len() as int)
            &&& total_in(*old(decompress)) <= total_in(*final(decompress)) <= total_in(
                *old(decompress),
            ) + input@.len()
            &&& total_out(*final(decompress)) == total_out(*old(decompress)) + written.len()
        }),
{
    match decompress.decompress(input, output, flate2::FlushDecompress::None) {
        Ok(flate2::Status::Ok) => InflateStatus::More,
        Ok(flate2::Status::BufError) => InflateStatus::More,
        Ok(flate2::Status::StreamEnd) => InflateStatus::End,
        Err(_) => InflateStatus::Fault,
    }
}

/// How far a stream has been inflated.
pub struct InflateState {
    pub input: Seq<u8>,
    pub decompress: flate2::Decompress,
    /// Whether any byte has been inflated.
    pub produced: bool,
    /// Whether the stream is read as raw deflate.
    pub raw: bool,
    pub done: bool,
}

/// Where inflating `input` starts.
pub open spec fn inflate_start(input: Seq<u8>) -> InflateState {
    InflateState {
        input,
        decompress: fresh(true),
        produced: false,
        raw: false,
        done: input.len() == 0,
    }
}

/// What becomes of a faulty stream: one that yielded nothing is read again as raw deflate after its
/// two-byte header, and any other ends with what was inflated before the fault.
pub open spec fn fallen_back(state: InflateState) -> InflateState {
    if !state.produced && !state.raw && state.input.len() > 2 {
        InflateState {
            input: state.input.skip(2),
            decompress: fresh(false),
            raw: true,
            ..state
        }
    } else {
        InflateState { done: true, ..state }
    }
}

/// Whether more output could be too much to count.
pub open spec fn uncountable(decompress: flate2::Decompress) -> bool {
    total_out(decompress) > u64::MAX - STEP
}

/// One step of inflating, with room for so many bytes, and the bytes that it gives.
pub open spec fn stepped(state: InflateState, room: nat) -> (InflateState, Seq<u8>) {
    let consumed = total_in(state.decompress);
    let (after, written, status) = inflated(
        state.decompress,
        state.input.skip(consumed as int),
        room,
    );
    let next = InflateState {
        decompress: after,
        produced: state.produced || written.len() > 0,
        ..state
    };
    if uncountable(state.decompress) {
        (InflateState { done: true, ..state }, Seq::empty())
    } else {
        match status {
            InflateStatus::End => (InflateState { done: true, ..next }, written),
            // Out of input before the end of the stream.
            InflateStatus::More if written.len() == 0 && total_in(after) == consumed => (
                InflateState { done: true, ..next },
                written,
            ),
            InflateStatus::More => (next, written),
            InflateStatus::Fault => (fallen_back(next), written),
        }
    }
}

/// As many steps of inflating as asked for, as long as the stream goes on and `left` bytes have not
/// been given, and the bytes that they give.
pub open spec fn inflate_run(state: InflateState, left: nat, steps: nat) -> (
    InflateState,
    Seq<u8>,
)
    decreases steps,
{
    if steps == 0 || state.done || left == 0 {
        (state, Seq::empty())
    } else {
        let room = if left < STEP {
            left
        } else {
            STEP as nat
        };
        let (next, written) = stepped(state, room);
        let (last, rest) = inflate_run(next, (left - written.len()) as nat, (steps - 1) as nat);
        (last, written + rest)
    }
}

/// Whether a run of steps has come to the end of the stream or given all that was asked for.
pub open spec fn settled(run: (InflateState, Seq<u8>), left: nat) -> bool {
    run.0.done || run.1.len() == left
}

/// Steps after the end of a stream, or after all that was asked for, change nothing: however many
/// steps there are, reading comes to the same.
pub proof fn lemma_run_settles(state: InflateState, left: nat, steps: nat, more: nat)
    requires
        steps <= more,
        settled(inflate_run(state, left, steps), left),
    ensures
        inflate_run(state, left, more) == inflate_run(state, left, steps),
    decreases steps,
{
    if steps > 0 && !state.done && left > 0 {
        let room = if left < STEP {
            left
        } else {
            STEP as nat
        };
        let (next, written) = stepped(state, room);
        let (last, rest) = inflate_run(next, (left - written.len()) as nat, (steps - 1) as nat);
        let whole = written + rest;
        if !last.done {
            assert(whole.len() == left);
        }
        if written.len() <= left {
            lemma_run_settles(
                next,
                (left - written.len()) as nat,
                (steps - 1) as nat,
                (more - 1) as nat,
            );
        } else {
            lemma_done_stays(next, (left - written.len()) as nat, (steps - 1) as nat, (more - 1) as nat);
        }
    } else if steps == 0 {
        assert(state.done || left == 0);
    }
}

proof fn lemma_done_stays(state: InflateState, left: nat, steps: nat, more: nat)
    requires
        steps <= more,
        inflate_run(state, left, steps).0.done,
    ensures
        inflate_run(state, left, more) == inflate_run(state, left, steps),
    decreases steps,
{
    if steps > 0 && !state.done && left > 0 {
        let room = if left < STEP {
            left
        } else {
            STEP as nat
        };
        let (next, written) = stepped(state, room);
        lemma_done_stays(
            next,
            (left - written.len()) as nat,
            (steps - 1) as nat,
            (more - 1) as nat,
        );
    }
}

/// Inflating until the stream ends or `left` bytes have been given, and those bytes.
pub open spec fn full_run(state: InflateState, left: nat) -> (InflateState, Seq<u8>) {
    inflate_run(
        state,
        left,
        choose|steps: nat| settled(#[trigger] inflate_run(state, left, steps), left),
    )
}

/// A run that has settled is the full one.
pub proof fn lemma_full_run(state: InflateState, left: nat, steps: nat)
    requires
        settled(inflate_run(state, left, steps), left),
    ensures
        inflate_run(state, left, steps) == full_run(state, left),
{
    let chosen = choose|steps: nat| settled(#[trigger] inflate_run(state, left, steps), left);
    if steps <= chosen {
        lemma_run_settles(state, left, steps, chosen);
    } else {
        lemma_run_settles(state, left, chosen, steps);
    }
}

/// Inflates a `/FlateDecode` stream a piece at a time, so that its decoded bytes need not be held
/// at once.
///
/// Decoding is lenient. A stream that goes wrong keeps every byte before the fault, and a zlib
/// stream that yields nothing, such as one whose checksum encryption broke, is read again as raw
/// deflate after its two-byte header.
pub struct Inflater<'a> {
    input: &'a [u8],
    decompress: flate2::Decompress,
    produced: bool,
    raw: bool,
    done: bool,
}

impl View for Inflater<'_> {
    type V = InflateState;

    closed spec fn view(&self) -> InflateState {
        InflateState {
            input: self.input@,
            decompress: self.decompress,
            produced: self.produced,
            raw: self.raw,
            done: self.done,
        }
    }
}

impl<'a> Inflater<'a> {
    /// No more input has been taken than there is.
    pub open spec fn well_formed(&self) -> bool {
        total_in(self@.decompress) <= self@.input.len() <= usize::MAX
    }

    pub fn new(input: &'a [u8]) -> (r: Self)
        ensures
            r.well_formed(),
            r@ == inflate_start(input@),
    {
        Inflater {
            input,
            decompress: flate2::Decompress::new(true),
            produced: false,
            raw: false,
            done: input.len() == 0,
        }
    }

    /// Appends up to `max_len` inflated bytes to `output`, and returns how many it appended, which
    /// is fewer only at the end of the stream.
    pub fn read_into(&mut self, output: &mut Vec<u8>, max_len: usize) -> (r: usize)
        requires
            old(self).well_formed(),
        ensures
            final(self).well_formed(),
            ({
                let run = full_run(old(self)@, max_len as nat);
                &&& final(self)@ == run.0
                &&& final(output)@ == old(output)@ + run.1
                &&& r == run.1.len()
            }),
            r <= max_len,
            r < max_len ==> final(self)@.done,
    {
        let ghost before = self@;
        let ghost start = output@;
        let ghost mut steps: nat = 0;
        let ghost mut appended: Seq<u8> = Seq::empty();
        let mut count: usize = 0;
        assert(start + appended =~= start);
        proof {
            assert forall|n: nat|
                #![trigger inflate_run(before, max_len as nat, n)]
                inflate_run(before, max_len as nat, n).1 == appended + inflate_run(
                    self@,
                    max_len as nat,
                    n,
                ).1 by {
                assert(appended + inflate_run(self@, max_len as nat, n).1 =~= inflate_run(
                    self@,
                    max_len as nat,
                    n,
                ).1);
            }
        }
        while !self.done && count < max_len
            invariant
                self.well_formed(),
                count <= max_len,
                count == appended.len(),
                output@ == start + appended,
                forall|n: nat|
                    (#[trigger] inflate_run(self@, (max_len - count) as nat, n)).0 == inflate_run(
                        before,
                        max_len as nat,
                        steps + n,
                    ).0,
                forall|n: nat|
                    appended + (#[trigger] inflate_run(self@, (max_len - count) as nat, n)).1
                        == inflate_run(before, max_len as nat, steps + n).1,
            decreases
                    if self.raw {
                        0int
                    } else {
                        1int
                    },
                    (max_len - count) + (self.input@.len() - total_in(self.decompress)),
                    if self.done {
                        0int
                    } else {
                        1int
                    },
        {
            let left = max_len - count;
            let room = if left < STEP {
                left
            } else {
                STEP
            };
            let ghost earlier = self@;
            let ghost given = appended;
            let ghost taken = steps;
            let (next, written) = (Ghost(stepped(earlier, room as nat).0), Ghost(
                stepped(earlier, room as nat).1,
            ));
            let len = self.step(output, room);
            proof {
                appended = given + written@;
                steps = taken + 1;
                assert(output@ =~= start + appended);
                assert forall|n: nat|
                    (#[trigger] inflate_run(self@, (left - len) as nat, n)).0 == inflate_run(
                        before,
                        max_len as nat,
                        steps + n,
                    ).0 && appended + inflate_run(self@, (left - len) as nat, n).1 == inflate_run(
                    before,
                    max_len as nat,
                    steps + n,
                ).1 by {
                    let m: nat = n + 1;
                    let here = inflate_run(earlier, (max_len - count) as nat, m);
                    let rest = inflate_run(self@, (left - len) as nat, n);
                    assert(here == (rest.0, written@ + rest.1));
                    assert(here.0 == inflate_run(before, max_len as nat, taken + m).0);
                    assert(given + here.1 == inflate_run(before, max_len as nat, taken + m).1);
                    assert(taken + m == steps + n);
                    assert(given + (written@ + rest.1) =~= appended + rest.1);
                }
            }
            count += len;
        }
        proof {
            let none: nat = 0;
            let run = inflate_run(self@, (max_len - count) as nat, none);
            assert(run.0 == inflate_run(before, max_len as nat, steps + none).0);
            assert(appended + run.1 == inflate_run(before, max_len as nat, steps + none).1);
            assert(appended + run.1 =~= appended);
            lemma_full_run(before, max_len as nat, steps);
        }
        count
    }

    /// One step of inflating, with room for `room` bytes. Returns how many it appended.
    fn step(&mut self, output: &mut Vec<u8>, room: usize) -> (r: usize)
        requires
            old(self).well_formed(),
            !old(self)@.done,
            1 <= room <= STEP,
        ensures
            final(self).well_formed(),
            r <= room,
            ({
                let (next, written) = stepped(old(self)@, room as nat);
                &&& final(self)@ == next
                &&& final(output)@ == old(output)@ + written
                &&& r == written.len()
            }),
            final(self)@.raw == old(self)@.raw ==> final(self)@.input == old(self)@.input,
            final(self)@.raw == old(self)@.raw && !final(self)@.done ==> r + total_in(
                final(self)@.decompress,
            ) > total_in(old(self)@.decompress),
            final(self)@.raw == old(self)@.raw ==> total_in(final(self)@.decompress) >= total_in(
                old(self)@.decompress,
            ),
            old(self)@.raw ==> final(self)@.raw,
    {
        let ghost before = self@;
        if self.decompress.total_out() > u64::MAX - STEP as u64 {
            self.done = true;
            assert(output@ + Seq::<u8>::empty() =~= output@);
            return 0;
        }
        let consumed = self.decompress.total_in();
        let produced = self.decompress.total_out();
        let mut piece: Vec<u8> = Vec::new();
        piece.resize(room, 0);
        let input = slice_subrange(self.input, consumed as usize, self.input.len());
        assert(input@ =~= before.input.skip(consumed as int));
        let status = decompress_into(&mut self.decompress, input, &mut piece);
        let written = (self.decompress.total_out() - produced) as usize;
        piece.truncate(written);
        let ghost result = inflated(before.decompress, before.input.skip(consumed as int), room as nat);
        assert(piece@ =~= result.1);
        output.append(&mut piece);
        self.produced = self.produced || written > 0;
        match status {
            InflateStatus::End => {
                self.done = true;
            },
            InflateStatus::More => {
                // Out of input before the end of the stream.
                if written == 0 && self.decompress.total_in() == consumed {
                    self.done = true;
                }
            },
            InflateStatus::Fault => {
                self.fall_back();
            },
        }
        written
    }

    fn fall_back(&mut self)
        requires
            old(self).well_formed(),
        ensures
            final(self).well_formed(),
            final(self)@ == fallen_back(old(self)@),
    {
        if !self.produced && !self.raw && self.input.len() > 2 {
            let ghost before = self.input@;
            self.input = slice_subrange(self.input, 2, self.input.len());
            assert(self.input@ =~= before.skip(2));
            self.decompress = flate2::Decompress::new(false);
            self.raw = true;
        } else {
            self.done = true;
        }
    }
}

} // verus!
