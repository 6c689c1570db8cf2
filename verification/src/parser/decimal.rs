//! Real numbers written in decimal, read as the nearest binary32 number.

use vstd::arithmetic::power::{lemma_pow0, lemma_pow1, lemma_pow_adds, lemma_pow_positive, pow};
use vstd::arithmetic::power2::{lemma2_to64, lemma_pow2_pos, lemma_pow2_unfold, pow2};
use vstd::prelude::*;

use crate::natural::Natural;
use crate::number::{Real, INFINITY, SIGN};
use crate::parser::lexical::{
    after_digits, digits_worth, is_digit, is_negated, sign_len, skip_digits,
};

verus! {

/// What the number whose bits, without a sign, are `magnitude` is worth, in units of the smallest
/// number above zero. Infinity counts as the number that would come next.
pub open spec fn units(magnitude: int) -> int {
    let e = magnitude / 0x80_0000;
    let f = magnitude % 0x80_0000;
    if e == 0 {
        f
    } else {
        (0x80_0000 + f) * pow2((e - 1) as nat)
    }
}

/// Twice the value halfway between a number and the one before it, in units.
pub open spec fn midpoint(magnitude: int) -> int {
    units(magnitude - 1) + units(magnitude)
}

/// Whether `digits`, `places` of which are behind the point, are at least halfway from the number
/// before `magnitude` to it; just halfway is enough for an even one.
pub open spec fn reaches(digits: nat, places: nat, magnitude: int) -> bool {
    let half = midpoint(magnitude) * pow(10, places);
    let value = digits * pow2(150);
    half < value || (magnitude % 2 == 0 && half == value)
}

/// Whether `magnitude` is that of the number nearest to `digits`, `places` of which are behind the
/// point: the even one of two that are.
pub open spec fn is_nearest(digits: nat, places: nat, magnitude: int) -> bool {
    &&& 0 <= magnitude <= INFINITY
    &&& magnitude > 0 ==> reaches(digits, places, magnitude)
    &&& magnitude < INFINITY ==> !reaches(digits, places, magnitude + 1)
}

/// The magnitude of the number nearest to `digits`, `places` of which are behind the point.
pub open spec fn nearest_magnitude(digits: nat, places: nat) -> int {
    choose|magnitude: int| is_nearest(digits, places, magnitude)
}

proof fn lemma_units_grow(magnitude: int)
    requires
        0 <= magnitude < INFINITY,
    ensures
        0 <= units(magnitude) < units(magnitude + 1),
{
    let e = magnitude / 0x80_0000;
    let f = magnitude % 0x80_0000;
    let next = magnitude + 1;
    assert(magnitude == e * 0x80_0000 + f && 0 <= f < 0x80_0000);
    if e > 0 {
        lemma_pow2_pos((e - 1) as nat);
        let p = pow2((e - 1) as nat) as int;
        assert(units(magnitude) == (0x80_0000 + f) * p);
        if f < 0x7f_ffff {
            assert(next / 0x80_0000 == e && next % 0x80_0000 == f + 1);
            assert(units(next) == (0x80_0000 + f + 1) * p);
            assert(0 <= (0x80_0000 + f) * p < (0x80_0000 + f + 1) * p) by (nonlinear_arith)
                requires
                    p > 0,
                    f >= 0,
            ;
        } else {
            assert(next / 0x80_0000 == e + 1 && next % 0x80_0000 == 0);
            lemma_pow2_unfold(e as nat);
            assert(units(next) == 0x80_0000 * (2 * p));
            assert(0 <= (0x80_0000 + f) * p < 0x80_0000 * (2 * p)) by (nonlinear_arith)
                requires
                    p > 0,
                    0 <= f < 0x80_0000,
            ;
        }
    } else if f == 0x7f_ffff {
        assert(next / 0x80_0000 == 1 && next % 0x80_0000 == 0);
        lemma2_to64();
        assert(pow2(0) == 1);
        assert(units(next) == 0x80_0000);
    } else {
        assert(next / 0x80_0000 == 0 && next % 0x80_0000 == f + 1);
    }
}

proof fn lemma_midpoints_grow(a: int, b: int)
    requires
        1 <= a <= b <= INFINITY,
    ensures
        midpoint(a) <= midpoint(b),
        a < b ==> midpoint(a) < midpoint(b),
    decreases b - a,
{
    if a < b {
        lemma_midpoints_grow(a, b - 1);
        lemma_units_grow(b - 2);
        lemma_units_grow(b - 1);
    }
}

/// There is one nearest number.
proof fn lemma_nearest_is_one(digits: nat, places: nat, a: int, b: int)
    requires
        is_nearest(digits, places, a),
        is_nearest(digits, places, b),
    ensures
        a == b,
{
    if a < b {
        lemma_not_nearest(digits, places, a, b);
    } else if b < a {
        lemma_not_nearest(digits, places, b, a);
    }
}

proof fn lemma_not_nearest(digits: nat, places: nat, a: int, b: int)
    requires
        is_nearest(digits, places, a),
        a < b <= INFINITY,
    ensures
        !is_nearest(digits, places, b),
{
    lemma_midpoints_grow(a + 1, b);
    lemma_pow_positive(10, places);
    let p = pow(10, places);
    let low = midpoint(a + 1);
    let high = midpoint(b);
    assert(low * p <= high * p) by (nonlinear_arith)
        requires
            low <= high,
            p > 0,
    ;
    if a + 1 < b {
        assert(low * p < high * p) by (nonlinear_arith)
            requires
                low < high,
                p > 0,
        ;
    }
}

/// A factor and a number of doublings that give the midpoint before `magnitude`.
fn midpoint_parts(magnitude: u32) -> (r: (u32, u32))
    requires
        1 <= magnitude <= INFINITY,
    ensures
        r.0 * pow2(r.1 as nat) == midpoint(magnitude as int),
        r.1 < 256,
{
    let e = magnitude / 0x80_0000;
    let f = magnitude % 0x80_0000;
    let ghost m = magnitude as int;
    proof {
        lemma2_to64();
        assert(m / 0x80_0000 == e && m % 0x80_0000 == f);
    }
    if e == 0 {
        proof {
            assert((m - 1) / 0x80_0000 == 0 && (m - 1) % 0x80_0000 == f - 1);
            assert((2 * f - 1) * pow2(0) == 2 * f - 1);
        }
        (2 * f - 1, 0)
    } else if f > 0 {
        proof {
            assert((m - 1) / 0x80_0000 == e && (m - 1) % 0x80_0000 == f - 1);
            let p = pow2((e - 1) as nat) as int;
            assert((2 * (0x80_0000 + f) - 1) * p == (0x80_0000 + f - 1) * p + (0x80_0000 + f) * p)
                by (nonlinear_arith);
        }
        (2 * (0x80_0000 + f) - 1, e - 1)
    } else if e == 1 {
        proof {
            assert((m - 1) / 0x80_0000 == 0 && (m - 1) % 0x80_0000 == 0x7f_ffff);
            assert(units(m) == 0x80_0000 * pow2(0));
            assert(0xff_ffff * pow2(0) == 0xff_ffff);
        }
        (0xff_ffff, 0)
    } else {
        proof {
            assert((m - 1) / 0x80_0000 == e - 1 && (m - 1) % 0x80_0000 == 0x7f_ffff);
            lemma_pow2_unfold((e - 1) as nat);
            let p = pow2((e - 2) as nat) as int;
            assert(pow2((e - 1) as nat) == 2 * p);
            assert(0x1ff_ffff * p == (0x80_0000 + 0x7f_ffff) * p + 0x80_0000 * (2 * p))
                by (nonlinear_arith);
        }
        (0x1ff_ffff, e - 2)
    }
}

fn double(number: &mut Natural, times: u32)
    ensures
        final(number)@ == old(number)@ * pow2(times as nat),
{
    let ghost before = number@ as int;
    let mut i: u32 = 0;
    proof {
        lemma2_to64();
        assert(before * pow2(0) == before) by (nonlinear_arith)
            requires
                pow2(0) == 1,
        ;
    }
    while i < times
        invariant
            i <= times,
            number@ == before * pow2(i as nat),
        decreases times - i,
    {
        proof {
            lemma_pow2_unfold((i + 1) as nat);
            let p = pow2(i as nat) as int;
            assert(before * p * 2 == before * (2 * p)) by (nonlinear_arith);
        }
        number.scale(2, 0);
        i += 1;
    }
}

fn append_zeros(number: &mut Natural, count: usize)
    ensures
        final(number)@ == old(number)@ * pow(10, count as nat),
{
    let ghost before = number@ as int;
    let mut i: usize = 0;
    proof {
        lemma_pow0(10);
        assert(before * pow(10, 0) == before) by (nonlinear_arith)
            requires
                pow(10, 0) == 1,
        ;
    }
    while i < count
        invariant
            i <= count,
            number@ == before * pow(10, i as nat),
        decreases count - i,
    {
        proof {
            lemma_pow_adds(10, i as nat, 1);
            lemma_pow1(10);
            let p = pow(10, i as nat);
            assert(before * p * 10 == before * (p * 10)) by (nonlinear_arith);
        }
        number.scale(10, 0);
        i += 1;
    }
}

/// Whether a number, given 2^150-fold, is at least halfway to `magnitude`.
fn is_reached(value: &Natural, places: usize, magnitude: u32, Ghost(digits): Ghost<nat>) -> (r: bool)
    requires
        value@ == digits * pow2(150),
        1 <= magnitude <= INFINITY,
    ensures
        r == reaches(digits, places as nat, magnitude as int),
{
    let (factor, doublings) = midpoint_parts(magnitude);
    let mut half = Natural::zero();
    proof {
        assert(0 * 0 == 0) by (nonlinear_arith);
    }
    half.scale(0, factor);
    assert(half@ == factor);
    double(&mut half, doublings);
    append_zeros(&mut half, places);
    half.is_below(value) || (magnitude % 2 == 0 && !value.is_below(&half))
}

/// The magnitude of the number nearest to one that is given 2^150-fold.
fn nearest(value: &Natural, places: usize, Ghost(digits): Ghost<nat>) -> (r: u32)
    requires
        value@ == digits * pow2(150),
    ensures
        r == nearest_magnitude(digits, places as nat),
        r <= INFINITY,
{
    let mut low: u32 = 0;
    let mut high: u32 = INFINITY + 1;
    while high - low > 1
        invariant
            value@ == digits * pow2(150),
            low < high <= INFINITY + 1,
            low > 0 ==> reaches(digits, places as nat, low as int),
            high <= INFINITY ==> !reaches(digits, places as nat, high as int),
        decreases high - low,
    {
        let middle = low + (high - low) / 2;
        if is_reached(value, places, middle, Ghost(digits)) {
            low = middle;
        } else {
            high = middle;
        }
    }
    proof {
        assert(is_nearest(digits, places as nat, low as int));
        lemma_nearest_is_one(digits, places as nat, low as int, nearest_magnitude(digits, places as nat));
    }
    low
}

/// What the digits from `from` to `to` are worth behind others worth `start`.
pub open spec fn worth_behind(bytes: Seq<u8>, start: nat, from: int, to: int) -> nat
    decreases to - from,
{
    if from >= to {
        start
    } else {
        worth_behind(bytes, start, from, to - 1) * 10 + (bytes[to - 1] - 0x30) as nat
    }
}

/// A real number: a sign or none, digits with a point before, among, or behind them, and as its
/// value the nearest number that there is.
pub open spec fn real_at(bytes: Seq<u8>, at: int) -> Option<(Real, int)> {
    let from = at + sign_len(bytes, at);
    let point = after_digits(bytes, from);
    let to = after_digits(bytes, point + 1);
    if point < bytes.len() && bytes[point] == 0x2e && (point > from || to > point + 1) {
        let digits = worth_behind(bytes, digits_worth(bytes, from, point), point + 1, to);
        let magnitude = nearest_magnitude(digits, (to - point - 1) as nat);
        Some(
            (
                Real {
                    bits: if is_negated(bytes, at) {
                        (SIGN + magnitude) as u32
                    } else {
                        magnitude as u32
                    },
                },
                to,
            ),
        )
    } else {
        None
    }
}

fn append_digits(
    number: &mut Natural,
    bytes: &[u8],
    from: usize,
    to: usize,
    Ghost(start): Ghost<nat>,
)
    requires
        from <= to <= bytes@.len(),
        forall|i: int| from <= i < to ==> is_digit(#[trigger] bytes@[i]),
        old(number)@ == start,
    ensures
        final(number)@ == worth_behind(bytes@, start, from as int, to as int),
{
    let mut i: usize = from;
    while i < to
        invariant
            from <= i <= to <= bytes@.len(),
            forall|j: int| from <= j < to ==> is_digit(#[trigger] bytes@[j]),
            number@ == worth_behind(bytes@, start, from as int, i as int),
        decreases to - i,
    {
        number.scale(10, (bytes[i] - 0x30) as u32);
        i += 1;
    }
}

proof fn lemma_worth_behind_nothing(bytes: Seq<u8>, from: int, to: int)
    ensures
        worth_behind(bytes, 0, from, to) == digits_worth(bytes, from, to),
    decreases to - from,
{
    if from < to {
        lemma_worth_behind_nothing(bytes, from, to - 1);
    }
}

pub fn real_number(bytes: &[u8], at: usize) -> (r: Option<(Real, usize)>)
    requires
        at <= bytes@.len(),
    ensures
        match r {
            Some((value, end)) => real_at(bytes@, at as int) == Some((value, end as int)) && at < end
                <= bytes@.len(),
            None => real_at(bytes@, at as int) is None,
        },
{
    let negated = at < bytes.len() && bytes[at] == 0x2d;
    let from = if at < bytes.len() && (bytes[at] == 0x2b || bytes[at] == 0x2d) {
        at + 1
    } else {
        at
    };
    let point = skip_digits(bytes, from);
    if point >= bytes.len() || bytes[point] != 0x2e {
        return None;
    }
    let to = skip_digits(bytes, point + 1);
    if point == from && to == point + 1 {
        return None;
    }
    let mut value = Natural::zero();
    let ghost whole = digits_worth(bytes@, from as int, point as int);
    let ghost digits = worth_behind(bytes@, whole, point + 1, to as int);
    append_digits(&mut value, bytes, from, point, Ghost(0));
    proof {
        lemma_worth_behind_nothing(bytes@, from as int, point as int);
    }
    append_digits(&mut value, bytes, point + 1, to, Ghost(whole));
    double(&mut value, 150);
    let magnitude = nearest(&value, to - point - 1, Ghost(digits));
    let bits = if negated {
        SIGN + magnitude
    } else {
        magnitude
    };
    Some((Real { bits }, to))
}

} // verus!
