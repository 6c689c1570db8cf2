//! What written numbers are worth.

use vstd::arithmetic::power::{lemma_pow0, lemma_pow1, lemma_pow_adds, lemma_pow_positive, pow};
use vstd::arithmetic::power2::{lemma_pow2_adds, lemma_pow2_pos, lemma_pow2_unfold, pow2};
use vstd::prelude::*;

use crate::number::{
    lemma_top_bit, nearest, nearest_bits, rounded, top_bit, whole_part, Real, INFINITY,
};
use crate::parser::decimal::{
    is_nearest, midpoint, nearest_magnitude, reaches, real_at, units, worth_behind,
};
use crate::parser::lexical::{
    after_digits, after_space, digits_worth, integer_at, object_id_at, unsigned_at,
};

verus! {

/// Whether the bytes from `from` to `to` are digits, and all of them.
pub open spec fn are_digits(bytes: Seq<u8>, from: int, to: int) -> bool {
    &&& 0 <= from <= to <= bytes.len()
    &&& forall|p: int| from <= p < to ==> 0x30 <= #[trigger] bytes[p] <= 0x39
    &&& to < bytes.len() ==> !(0x30 <= bytes[to] <= 0x39)
}

/// What the digits from `from` to `to` count: each as many as the power of ten of its place.
pub open spec fn count_of(bytes: Seq<u8>, from: int, to: int) -> int
    decreases to - from,
{
    if from >= to {
        0
    } else {
        (bytes[from] - 0x30) * pow(10, (to - from - 1) as nat) + count_of(bytes, from + 1, to)
    }
}

/// Digits end where they do.
pub proof fn lemma_after_digits_at(bytes: Seq<u8>, from: int, to: int)
    requires
        are_digits(bytes, from, to),
    ensures
        after_digits(bytes, from) == to,
    decreases to - from,
{
    if from < to {
        assert(0x30 <= bytes[from] <= 0x39);
        lemma_after_digits_at(bytes, from + 1, to);
    }
}

proof fn lemma_worth_behind(bytes: Seq<u8>, start: nat, from: int, to: int)
    requires
        are_digits(bytes, from, to),
    ensures
        worth_behind(bytes, start, from, to) == start * pow(10, (to - from) as nat) + count_of(
            bytes,
            from,
            to,
        ),
    decreases to - from,
{
    lemma_pow0(10);
    if from < to {
        let d = bytes[from] - 0x30;
        assert(0x30 <= bytes[from] <= 0x39);
        lemma_shift(bytes, start, from, to);
        lemma_worth_behind(bytes, (start * 10 + d) as nat, from + 1, to);
        let p = pow(10, (to - from - 1) as nat);
        lemma_pow_adds(10, 1, (to - from - 1) as nat);
        lemma_pow1(10);
        assert((start * 10 + d) * p == start * (10 * p) + d * p) by (nonlinear_arith);
    }
}

proof fn lemma_shift(bytes: Seq<u8>, start: nat, from: int, to: int)
    requires
        from < to,
        0x30 <= bytes[from],
    ensures
        worth_behind(bytes, start, from, to) == worth_behind(
            bytes,
            (start * 10 + (bytes[from] - 0x30)) as nat,
            from + 1,
            to,
        ),
    decreases to - from,
{
    if from + 1 < to {
        lemma_shift(bytes, start, from, to - 1);
    } else {
        assert(worth_behind(bytes, start, from, from) == start);
    }
}

proof fn lemma_digits_worth(bytes: Seq<u8>, from: int, to: int)
    requires
        are_digits(bytes, from, to),
    ensures
        digits_worth(bytes, from, to) == count_of(bytes, from, to),
        count_of(bytes, from, to) >= 0,
{
    lemma_same_worth(bytes, from, to);
    lemma_worth_behind(bytes, 0, from, to);
    assert(0 * pow(10, (to - from) as nat) == 0) by (nonlinear_arith);
}

proof fn lemma_same_worth(bytes: Seq<u8>, from: int, to: int)
    ensures
        digits_worth(bytes, from, to) == worth_behind(bytes, 0, from, to),
    decreases to - from,
{
    if from < to {
        lemma_same_worth(bytes, from, to - 1);
    }
}

/// Whether digits, with a sign in front or none, start at `at`; `from` is where the first digit is.
pub open spec fn starts_number(bytes: Seq<u8>, at: int, from: int, negative: bool) -> bool {
    &&& 0 <= at < bytes.len()
    &&& if bytes[at] == 0x2d {
        from == at + 1 && negative
    } else if bytes[at] == 0x2b {
        from == at + 1 && !negative
    } else {
        from == at && !negative
    }
}

/// An integer is what its digits count, below 0 behind a minus sign, if an `i64` holds it; without a
/// digit there is none.
pub proof fn lemma_integers(bytes: Seq<u8>, at: int, from: int, to: int, negative: bool)
    requires
        starts_number(bytes, at, from, negative),
        are_digits(bytes, from, to),
    ensures
        ({
            let count = if negative {
                -count_of(bytes, from, to)
            } else {
                count_of(bytes, from, to)
            };
            if from < to && i64::MIN <= count <= i64::MAX {
                integer_at(bytes, at) == Some((count as i64, to))
            } else {
                integer_at(bytes, at) is None
            }
        }),
{
    lemma_after_digits_at(bytes, from, to);
    lemma_digits_worth(bytes, from, to);
}

/// A number without a sign is what its digits count, if that is no more than `most`.
pub proof fn lemma_unsigned(bytes: Seq<u8>, at: int, to: int, most: nat)
    requires
        are_digits(bytes, at, to),
        at < to,
    ensures
        if count_of(bytes, at, to) <= most {
            unsigned_at(bytes, at, most) == Some((count_of(bytes, at, to) as nat, to))
        } else {
            unsigned_at(bytes, at, most) is None
        },
{
    lemma_after_digits_at(bytes, at, to);
    lemma_digits_worth(bytes, at, to);
}

/// How far the number with the bits `magnitude` is from `digits`, `places` of them behind the point, in
/// units of the smallest number above zero and of the last place.
pub open spec fn distance(magnitude: int, digits: int, places: nat) -> int {
    let gap = scaled(magnitude) * pow(10, places) - digits * pow2(149);
    if gap < 0 {
        -gap
    } else {
        gap
    }
}

/// A real number is, of all that there are, the one nearest to what its digits count, with its sign, and of
/// two that are as near the even one.
pub proof fn lemma_reals(
    bytes: Seq<u8>,
    at: int,
    from: int,
    point: int,
    to: int,
    negative: bool,
    other: int,
)
    requires
        starts_number(bytes, at, from, negative),
        are_digits(bytes, from, point),
        point < bytes.len(),
        bytes[point] == 0x2e,
        are_digits(bytes, point + 1, to),
        from < point || point + 1 < to,
        0 <= other <= INFINITY,
    ensures
        ({
            let places = (to - point - 1) as nat;
            let digits = count_of(bytes, from, point) * pow(10, places) + count_of(
                bytes,
                point + 1,
                to,
            );
            real_at(bytes, at) matches Some((read, end)) && {
                &&& end == to
                &&& read.negative() == negative
                &&& 0 <= read.magnitude() <= INFINITY
                &&& distance(read.magnitude(), digits, places) <= distance(other, digits, places)
                &&& distance(read.magnitude(), digits, places) == distance(other, digits, places)
                    && other != read.magnitude() ==> read.magnitude() % 2 == 0
            }
        }),
{
    let places = (to - point - 1) as nat;
    lemma_after_digits_at(bytes, from, point);
    lemma_after_digits_at(bytes, point + 1, to);
    lemma_digits_worth(bytes, from, point);
    let whole = count_of(bytes, from, point) as nat;
    lemma_worth_behind(bytes, whole, point + 1, to);
    let digits = worth_behind(bytes, whole, point + 1, to);
    lemma_one_is_nearest(digits, places, 0);
    let magnitude = nearest_magnitude(digits, places);
    assert(is_nearest(digits, places, magnitude));
    lemma_nearest_is_least(digits, places, magnitude, other);
}

proof fn lemma_one_is_nearest(digits: nat, places: nat, from: int)
    requires
        0 <= from <= INFINITY,
        from > 0 ==> reaches(digits, places, from),
    ensures
        exists|magnitude: int| is_nearest(digits, places, magnitude),
    decreases INFINITY - from,
{
    if from == INFINITY || !reaches(digits, places, from + 1) {
        assert(is_nearest(digits, places, from));
    } else {
        lemma_one_is_nearest(digits, places, from + 1);
    }
}

/// The worth of numbers grows with their bits.
pub proof fn lemma_units_grow(low: int, high: int)
    requires
        0 <= low < high <= INFINITY,
    ensures
        0 <= scaled(low) < scaled(high),
        units(low) == scaled(low),
        units(high) == scaled(high),
    decreases high - low,
{
    let before = high - 1;
    lemma_units(before);
    let e = before / 0x80_0000;
    let f = before % 0x80_0000;
    assert(before == e * 0x80_0000 + f && 0 <= f < 0x80_0000);
    if e > 0 {
        let p = pow2((e - 1) as nat) as int;
        lemma_pow2_pos((e - 1) as nat);
        if f < 0x7f_ffff {
            assert(high / 0x80_0000 == e && high % 0x80_0000 == f + 1);
            assert(0 <= (0x80_0000 + f) * p < (0x80_0000 + f + 1) * p) by (nonlinear_arith)
                requires
                    p > 0,
                    f >= 0,
            ;
        } else {
            assert(high / 0x80_0000 == e + 1 && high % 0x80_0000 == 0);
            lemma_pow2_unfold(e as nat);
            assert(0 <= (0x80_0000 + f) * p < 0x80_0000 * (2 * p)) by (nonlinear_arith)
                requires
                    p > 0,
                    0 <= f < 0x80_0000,
            ;
            assert(units(high) == (0x80_0000 + 0) * pow2(e as nat));
        }
    } else if f == 0x7f_ffff {
        assert(high / 0x80_0000 == 1 && high % 0x80_0000 == 0);
        vstd::arithmetic::power2::lemma2_to64();
        assert(units(high) == 0x80_0000 * pow2(0));
    } else {
        assert(high / 0x80_0000 == 0 && high % 0x80_0000 == f + 1);
    }
    assert(0 <= units(before) < units(high));
    if low < before {
        lemma_units_grow(low, before);
    }
    lemma_units(low);
    lemma_units(high);
}

proof fn lemma_units(magnitude: int)
    requires
        0 <= magnitude,
    ensures
        units(magnitude) == scaled(magnitude),
{
    assert(magnitude / 0x80_0000 == 0 <==> magnitude < 0x80_0000);
}

proof fn lemma_nearest_is_least(digits: nat, places: nat, magnitude: int, other: int)
    requires
        is_nearest(digits, places, magnitude),
        0 <= other <= INFINITY,
    ensures
        distance(magnitude, digits as int, places) <= distance(other, digits as int, places),
        distance(magnitude, digits as int, places) == distance(other, digits as int, places) && other
            != magnitude ==> magnitude % 2 == 0,
{
    let p = pow(10, places);
    lemma_pow_positive(10, places);
    let v = digits * pow2(149);
    lemma_pow2_unfold(150);
    assert(digits * pow2(150) == 2 * v) by (nonlinear_arith)
        requires
            pow2(150) == 2 * pow2(149),
            v == digits * pow2(149),
    ;
    lemma_units(magnitude);
    lemma_units(other);
    let u = units(magnitude) * p;
    let o = units(other) * p;
    if other < magnitude {
        let b = units(magnitude - 1) * p;
        assert(midpoint(magnitude) * p == b + u) by (nonlinear_arith)
            requires
                b == units(magnitude - 1) * p,
                u == units(magnitude) * p,
                midpoint(magnitude) == units(magnitude - 1) + units(magnitude),
        ;
        lemma_units_grow(magnitude - 1, magnitude);
        if other < magnitude - 1 {
            lemma_units_grow(other, magnitude - 1);
        }
        assert(o <= b && b < u) by (nonlinear_arith)
            requires
                o == units(other) * p,
                b == units(magnitude - 1) * p,
                u == units(magnitude) * p,
                units(other) <= units(magnitude - 1) < units(magnitude),
                p > 0,
        ;
        assert(b + u <= 2 * v);
        assert(b + u == 2 * v ==> magnitude % 2 == 0);
    } else if other > magnitude {
        let n = units(magnitude + 1) * p;
        assert(midpoint(magnitude + 1) * p == u + n) by (nonlinear_arith)
            requires
                n == units(magnitude + 1) * p,
                u == units(magnitude) * p,
                midpoint(magnitude + 1) == units(magnitude) + units(magnitude + 1),
        ;
        lemma_units_grow(magnitude, magnitude + 1);
        if other > magnitude + 1 {
            lemma_units_grow(magnitude + 1, other);
        }
        assert(n <= o && u < n) by (nonlinear_arith)
            requires
                o == units(other) * p,
                n == units(magnitude + 1) * p,
                u == units(magnitude) * p,
                units(other) >= units(magnitude + 1) > units(magnitude),
                p > 0,
        ;
        assert(u + n >= 2 * v);
        assert(u + n == 2 * v ==> (magnitude + 1) % 2 != 0);
    }
}

/// An object's number and generation are digits with space behind each.
pub proof fn lemma_object_ids(
    bytes: Seq<u8>,
    at: int,
    number_end: int,
    next: int,
    end: int,
)
    requires
        are_digits(bytes, at, number_end),
        at < number_end,
        next == after_space(bytes, number_end),
        are_digits(bytes, next, end),
        next < end,
    ensures
        ({
            let number = count_of(bytes, at, number_end);
            let generation = count_of(bytes, next, end);
            if number <= 0xffff_ffff && generation <= 0xffff {
                object_id_at(bytes, at) == Some(
                    ((number as u32, generation as u16), after_space(bytes, end)),
                )
            } else {
                object_id_at(bytes, at) is None
            }
        }),
{
    lemma_after_digits_at(bytes, at, number_end);
    lemma_after_digits_at(bytes, next, end);
    lemma_digits_worth(bytes, at, number_end);
    lemma_digits_worth(bytes, next, end);
}

/// Numbers are in the order of what they are worth, those below 0 first.
pub proof fn lemma_order_of_reals(a: Real, b: Real)
    requires
        !a.not_a_number(),
        !b.not_a_number(),
    ensures
        a.below(b) <==> worth(a) < worth(b),
        a.at_least(b) <==> worth(a) >= worth(b),
        worth(a.least(b)) == if worth(a) <= worth(b) {
            worth(a)
        } else {
            worth(b)
        },
        worth(a.greatest(b)) == if worth(a) >= worth(b) {
            worth(a)
        } else {
            worth(b)
        },
{
    lemma_worth_of_rank(a, b);
    lemma_worth_of_rank(b, a);
}

/// What a number is worth, in units of the smallest one above zero.
pub open spec fn worth(number: Real) -> int {
    if number.bits >= 0x8000_0000 {
        -scaled(number.bits - 0x8000_0000)
    } else {
        scaled(number.bits as int)
    }
}

/// What a number with the bits `magnitude` and no sign is worth, in units of the smallest one above zero:
/// its fraction, 23 bits, with a bit in front of it and moved up by its exponent, unless that is 0.
pub open spec fn scaled(magnitude: int) -> int {
    if magnitude < 0x80_0000 {
        magnitude
    } else {
        (0x80_0000 + magnitude % 0x80_0000) * pow2((magnitude / 0x80_0000 - 1) as nat)
    }
}

proof fn lemma_worth_of_rank(a: Real, b: Real)
    requires
        !a.not_a_number(),
        !b.not_a_number(),
    ensures
        a.rank() < b.rank() ==> worth(a) < worth(b),
        a.rank() == b.rank() ==> worth(a) == worth(b),
{
    assert(scaled(0) == 0);
    let x = a.magnitude();
    let y = b.magnitude();
    if 0 < x {
        lemma_units_grow(0, x);
    }
    if 0 < y {
        lemma_units_grow(0, y);
    }
    if x < y {
        lemma_units_grow(x, y);
    } else if y < x {
        lemma_units_grow(y, x);
    }
}

/// A number rounded towards zero is the whole number next to it, as long as an `i64` holds it.
pub proof fn lemma_truncated(number: Real)
    requires
        !number.not_a_number(),
        -0x8000_0000_0000_0000 * pow2(149) < worth(number) < 0x8000_0000_0000_0000 * pow2(149),
    ensures
        worth(number) >= 0 ==> number.truncated() * pow2(149) <= worth(number) < (number.truncated()
            + 1) * pow2(149),
        worth(number) <= 0 ==> (number.truncated() - 1) * pow2(149) < worth(number)
            <= number.truncated() * pow2(149),
{
    let magnitude = number.magnitude();
    let whole = whole_part(magnitude);
    let unit = pow2(149) as int;
    let e = magnitude / 0x80_0000;
    let f = magnitude % 0x80_0000;
    let m = 0x80_0000 + f;
    lemma_pow2_pos(149);
    if e >= 150 {
        lemma_pow2_adds((e - 150) as nat, 149);
        let p = pow2((e - 150) as nat) as int;
        assert(scaled(magnitude) == whole * unit) by (nonlinear_arith)
            requires
                scaled(magnitude) == m * (p * unit),
                whole == m * p,
        ;
        assert(whole * unit < (whole + 1) * unit) by (nonlinear_arith)
            requires
                unit > 0,
        ;
    } else if e > 0 {
        lemma_pow2_adds((e - 1) as nat, (150 - e) as nat);
        lemma_pow2_pos((e - 1) as nat);
        lemma_pow2_pos((150 - e) as nat);
        let p = pow2((e - 1) as nat) as int;
        let q = pow2((150 - e) as nat) as int;
        assert(whole == m / q);
        assert(whole * (p * q) <= m * p < (whole + 1) * (p * q)) by (nonlinear_arith)
            requires
                whole == m / q,
                p > 0,
                q > 0,
        ;
    } else {
        assert(scaled(magnitude) == f);
        lemma_pow2_adds(24, 125);
        lemma_pow2_pos(125);
        vstd::arithmetic::power2::lemma2_to64();
        assert(f < unit) by (nonlinear_arith)
            requires
                f < 0x80_0000,
                unit == 0x100_0000 * pow2(125),
                pow2(125) > 0,
        ;
        assert(whole == 0);
    }
    let w = scaled(magnitude);
    assert(whole * unit <= w < (whole + 1) * unit);
    assert(whole < 0x8000_0000_0000_0000) by (nonlinear_arith)
        requires
            whole * unit <= w,
            w < 0x8000_0000_0000_0000 * unit,
            unit > 0,
    ;
    assert(0 <= whole) by (nonlinear_arith)
        requires
            0 <= w < (whole + 1) * unit,
            unit > 0,
    ;
    assert((-whole - 1) * unit == -((whole + 1) * unit) && (-whole) * unit == -(whole * unit))
        by (nonlinear_arith);
    if w == 0 {
        assert(whole == 0) by (nonlinear_arith)
            requires
                whole * unit <= 0,
                0 <= whole,
                unit > 0,
        ;
    }
}

/// An integer as a real is off by no more than one part in 2^24, and not at all up to 2^24.
pub proof fn lemma_integers_as_reals(i: i64)
    ensures
        !nearest(i as int).not_a_number(),
        -0x100_0000 <= i <= 0x100_0000 ==> worth(nearest(i as int)) == i * pow2(149),
        i >= 0 ==> -(i * pow2(149)) <= 0x100_0000 * (worth(nearest(i as int)) - i * pow2(149)) <= i
            * pow2(149),
        i <= 0 ==> i * pow2(149) <= 0x100_0000 * (worth(nearest(i as int)) - i * pow2(149)) <= -(i
            * pow2(149)),
{
    let n: nat = if i < 0 {
        (-i) as nat
    } else {
        i as nat
    };
    let unit = pow2(149) as int;
    assert((-i) * unit == -(i * unit)) by (nonlinear_arith);
    if n == 0 {
        assert(worth(nearest(i as int)) == 0);
        assert(0 * unit == 0);
    } else {
        lemma_nearest_bits(n);
        let bits = nearest_bits(n);
        assert(worth(nearest(i as int)) == if i < 0 {
            -scaled(bits as int)
        } else {
            scaled(bits as int)
        });
        assert(n * unit >= 0) by (nonlinear_arith)
            requires
                n >= 0,
                unit >= 0,
        ;
    }
}

proof fn lemma_nearest_bits(n: nat)
    requires
        0 < n <= 0x8000_0000_0000_0000,
    ensures
        0 <= nearest_bits(n) < INFINITY,
        n <= 0x100_0000 ==> scaled(nearest_bits(n) as int) == n * pow2(149),
        -(n * pow2(149)) <= 0x100_0000 * (scaled(nearest_bits(n) as int) - n * pow2(149)) <= n
            * pow2(149),
{
    let top = top_bit(n);
    let power = pow2(top) as int;
    let unit149 = pow2(149) as int;
    lemma_top_bit(n);
    lemma_pow2_pos(149);
    vstd::arithmetic::power2::lemma2_to64();
    vstd::arithmetic::power2::lemma2_to64_rest();
    assert(top <= 63) by {
        if top > 63 {
            vstd::arithmetic::power2::lemma_pow2_strictly_increases(63, top);
        }
    }
    assert(n * unit149 >= 0) by (nonlinear_arith)
        requires
            n >= 0,
            unit149 >= 0,
    ;
    if top <= 23 {
        let scale = pow2((23 - top) as nat) as int;
        lemma_pow2_pos((23 - top) as nat);
        lemma_pow2_adds(top, (23 - top) as nat);
        let m = n * scale;
        assert(0x80_0000 <= m < 0x100_0000) by (nonlinear_arith)
            requires
                m == n * scale,
                power * scale == 0x80_0000,
                power <= n < 2 * power,
                scale > 0,
        ;
        let bits = (top + 126) * 0x80_0000 + m;
        lemma_scaled(top as int, m);
        lemma_pow2_adds((23 - top) as nat, (top + 126) as nat);
        let q = pow2((top + 126) as nat) as int;
        assert(m * q == n * unit149) by (nonlinear_arith)
            requires
                m == n * scale,
                unit149 == scale * q,
        ;
    } else {
        let unit = pow2((top - 23) as nat) as int;
        lemma_pow2_pos((top - 23) as nat);
        lemma_pow2_adds((top - 23) as nat, 23);
        let quotient = n as int / unit;
        let rest = n as int % unit;
        assert(n == unit * quotient + rest && 0 <= rest < unit) by (nonlinear_arith)
            requires
                quotient == n as int / unit,
                rest == n as int % unit,
                unit > 0,
        ;
        assert(0x80_0000 <= quotient < 0x100_0000) by (nonlinear_arith)
            requires
                n == unit * quotient + rest,
                0 <= rest < unit,
                unit * 0x80_0000 == power,
                power <= n < 2 * power,
                unit > 0,
        ;
        let m = rounded(n, unit as nat) as int;
        lemma_scaled(top as int, m);
        let q = pow2((top + 126) as nat) as int;
        lemma_pow2_adds((top - 23) as nat, 149);
        lemma_pow2_pos((top + 126) as nat);
        let off = m * unit - n;
        assert((m == quotient ==> off == -rest) && (m == quotient + 1 ==> off == unit - rest))
            by (nonlinear_arith)
            requires
                off == m * unit - n,
                n == unit * quotient + rest,
        ;
        assert(-unit <= 2 * off <= unit);
        assert(m * q - n * unit149 == off * unit149) by (nonlinear_arith)
            requires
                q == unit * unit149,
                off == m * unit - n,
        ;
        assert(0x80_0000 * unit <= n);
        assert(-(n * unit149) <= 0x100_0000 * (off * unit149) <= n * unit149) by (nonlinear_arith)
            requires
                -unit <= 2 * off <= unit,
                0x80_0000 * unit <= n,
                unit149 > 0,
        ;
        if n <= 0x100_0000 {
            assert(power == 0x100_0000) by {
                if top > 24 {
                    vstd::arithmetic::power2::lemma_pow2_strictly_increases(24, top);
                }
            }
            assert(n == 0x100_0000 && rest == 0 && m == quotient) by (nonlinear_arith)
                requires
                    n == 0x100_0000,
                    rest == n as int % unit,
                    unit * 0x80_0000 == 0x100_0000,
                    rest == 0 ==> m == quotient,
            ;
            assert(off * unit149 == 0) by (nonlinear_arith)
                requires
                    off == 0,
            ;
        }
    }
}

proof fn lemma_scaled(top: int, m: int)
    requires
        0 <= top <= 63,
        0x80_0000 <= m <= 0x100_0000,
    ensures
        scaled((top + 126) * 0x80_0000 + m) == m * pow2((top + 126) as nat),
        0 <= (top + 126) * 0x80_0000 + m < INFINITY,
{
    let bits = (top + 126) * 0x80_0000 + m;
    if m < 0x100_0000 {
        assert(bits / 0x80_0000 == top + 127 && bits % 0x80_0000 == m - 0x80_0000);
    } else {
        assert(bits / 0x80_0000 == top + 128 && bits % 0x80_0000 == 0);
        lemma_pow2_unfold((top + 127) as nat);
    }
}

} // verus!
