//! Real numbers, held by the bits of their IEEE 754 binary32 encoding.

use vstd::arithmetic::power2::{lemma_pow2_pos, lemma_pow2_unfold, pow2};
use vstd::prelude::*;

verus! {

/// A real number: the bits of its binary32 encoding.
///
/// `==` compares values: both zeros are equal, and what is not a number equals nothing.
#[derive(Clone, Copy, Debug)]
pub struct Real {
    pub bits: u32,
}

/// The weight of the sign bit.
pub const SIGN: u32 = 0x8000_0000;

/// The bits of infinity; a larger magnitude is not a number.
pub const INFINITY: u32 = 0x7f80_0000;

impl Real {
    pub open spec fn negative(self) -> bool {
        self.bits >= SIGN
    }

    /// The bits without the sign, which order as the magnitudes do.
    pub open spec fn magnitude(self) -> int {
        if self.negative() {
            self.bits - SIGN
        } else {
            self.bits as int
        }
    }

    pub open spec fn not_a_number(self) -> bool {
        self.magnitude() > INFINITY
    }

    /// An integer that orders numbers as their values do; both zeros have rank 0.
    pub open spec fn rank(self) -> int {
        if self.negative() {
            -self.magnitude()
        } else {
            self.magnitude()
        }
    }

    /// Whether the value of `self` is below that of `other`. Nothing compares with what is not a
    /// number.
    pub open spec fn below(self, other: Real) -> bool {
        !self.not_a_number() && !other.not_a_number() && self.rank() < other.rank()
    }

    /// Whether the value of `self` is that of `other` or above it.
    pub open spec fn at_least(self, other: Real) -> bool {
        !self.not_a_number() && !other.not_a_number() && self.rank() >= other.rank()
    }

    /// The smaller of the two, or the one that is a number.
    pub open spec fn least(self, other: Real) -> Real {
        if self.not_a_number() {
            other
        } else if other.not_a_number() || self.rank() <= other.rank() {
            self
        } else {
            other
        }
    }

    /// The larger of the two, or the one that is a number.
    pub open spec fn greatest(self, other: Real) -> Real {
        if self.not_a_number() {
            other
        } else if other.not_a_number() || self.rank() >= other.rank() {
            self
        } else {
            other
        }
    }

    /// The value rounded towards zero, kept within what an `i64` holds, and 0 for what is not a
    /// number.
    pub open spec fn truncated(self) -> int {
        let whole = whole_part(self.magnitude());
        if self.not_a_number() {
            0
        } else if self.negative() {
            if whole > -(i64::MIN as int) {
                i64::MIN as int
            } else {
                -whole
            }
        } else if whole > i64::MAX {
            i64::MAX as int
        } else {
            whole
        }
    }
}

/// The whole part of the number whose bits, without a sign, are `magnitude`: with exponent field
/// `e` above 0 and fraction `f` it is worth `(2^23 + f) * 2^(e - 150)`, and with `e = 0` less than
/// 1. The exponent field of infinity puts it past every `i64`.
pub open spec fn whole_part(magnitude: int) -> int {
    let e = magnitude / 0x80_0000;
    let f = magnitude % 0x80_0000;
    if e >= 150 {
        (0x80_0000 + f) * pow2((e - 150) as nat)
    } else if e > 0 {
        (0x80_0000 + f) / pow2((150 - e) as nat) as int
    } else {
        0
    }
}

/// The exponent of the largest power of two that is at most `n`.
pub open spec fn top_bit(n: nat) -> nat
    decreases n,
{
    if n <= 1 {
        0
    } else {
        1 + top_bit(n / 2)
    }
}

/// `n / unit` rounded to the nearest whole number, a tie to the even one.
pub open spec fn rounded(n: nat, unit: nat) -> nat {
    let quotient = n / unit;
    let rest = n % unit;
    if 2 * rest > unit || (2 * rest == unit && quotient % 2 == 1) {
        quotient + 1
    } else {
        quotient
    }
}

/// The bits of the real nearest to `n`: 24 significant bits from the top one on, the exponent that
/// puts them in place, and a carry out of the rounding running over into the exponent.
pub open spec fn nearest_bits(n: nat) -> nat {
    let top = top_bit(n);
    if n == 0 {
        0
    } else if top <= 23 {
        (top + 126) * 0x80_0000 + n * pow2((23 - top) as nat)
    } else {
        (top + 126) * 0x80_0000 + rounded(n, pow2((top - 23) as nat))
    }
}

/// The real nearest to `i`, a tie going to the one with an even last bit.
pub open spec fn nearest(i: int) -> Real {
    if i < 0 {
        Real { bits: (SIGN + nearest_bits((-i) as nat)) as u32 }
    } else {
        Real { bits: nearest_bits(i as nat) as u32 }
    }
}

/// `n` lies between its top power of two and the next.
pub proof fn lemma_top_bit(n: nat)
    requires
        n > 0,
    ensures
        pow2(top_bit(n)) <= n < 2 * pow2(top_bit(n)),
    decreases n,
{
    if n <= 1 {
        vstd::arithmetic::power2::lemma2_to64();
    } else {
        lemma_top_bit(n / 2);
        lemma_pow2_unfold(top_bit(n));
    }
}

/// What lies between a power of two and the next has that power's exponent on top.
proof fn lemma_top_bit_unique(n: nat, top: nat)
    requires
        pow2(top) <= n < 2 * pow2(top),
    ensures
        top_bit(n) == top,
    decreases top,
{
    lemma_pow2_pos(top);
    if top == 0 {
        vstd::arithmetic::power2::lemma2_to64();
    } else {
        lemma_pow2_unfold(top);
        lemma_pow2_pos((top - 1) as nat);
        lemma_top_bit_unique(n / 2, (top - 1) as nat);
    }
}

/// 2 to the power of `exponent`.
fn power_of_two(exponent: u32) -> (r: u64)
    requires
        exponent < 64,
    ensures
        r == pow2(exponent as nat),
{
    let mut i: u32 = 0;
    let mut power: u64 = 1;
    proof {
        vstd::arithmetic::power2::lemma2_to64();
    }
    while i < exponent
        invariant
            i <= exponent < 64,
            power == pow2(i as nat),
        decreases exponent - i,
    {
        proof {
            lemma_pow2_unfold((i + 1) as nat);
            vstd::arithmetic::power2::lemma2_to64();
            vstd::arithmetic::power2::lemma2_to64_rest();
            if i + 1 < 63 {
                vstd::arithmetic::power2::lemma_pow2_strictly_increases((i + 1) as nat, 63);
            }
        }
        power = power * 2;
        i += 1;
    }
    power
}

/// The real nearest to `i`, a tie going to the one with an even last bit.
pub fn integer_as_real(i: i64) -> (r: Real)
    ensures
        r == nearest(i as int),
{
    let n: u64 = if i < 0 {
        (-(i as i128)) as u64
    } else {
        i as u64
    };
    if n == 0 {
        return Real { bits: 0 };
    }
    let mut top: u32 = 0;
    let mut power: u64 = 1;
    proof {
        vstd::arithmetic::power2::lemma2_to64();
        vstd::arithmetic::power2::lemma2_to64_rest();
    }
    while n / 2 >= power
        invariant
            top < 64,
            power == pow2(top as nat),
            power <= n,
            n <= 0x8000_0000_0000_0000,
        decreases 64 - top,
    {
        proof {
            lemma_pow2_unfold((top + 1) as nat);
            vstd::arithmetic::power2::lemma2_to64_rest();
            if top == 63 {
                assert(power == 0x8000_0000_0000_0000);
            }
        }
        power = power * 2;
        top += 1;
    }
    proof {
        lemma_top_bit_unique(n as nat, top as nat);
    }
    let significant: u64 = if top <= 23 {
        let scale = power_of_two(23 - top);
        proof {
            vstd::arithmetic::power2::lemma_pow2_adds(top as nat, (23 - top) as nat);
            vstd::arithmetic::power2::lemma2_to64();
            assert(n * scale < 2 * (power * scale)) by (nonlinear_arith)
                requires
                    n < 2 * power,
                    scale > 0,
            ;
            assert(n * scale >= power * scale) by (nonlinear_arith)
                requires
                    n >= power,
                    scale > 0,
            ;
        }
        n * scale
    } else {
        let unit = power_of_two(top - 23);
        let quotient = n / unit;
        let rest = n % unit;
        proof {
            vstd::arithmetic::power2::lemma_pow2_adds((top - 23) as nat, 23);
            vstd::arithmetic::power2::lemma2_to64();
            assert(quotient < 0x100_0000 && quotient >= 0x80_0000) by (nonlinear_arith)
                requires
                    quotient == n as int / unit as int,
                    unit * 0x80_0000 == power,
                    power <= n < 2 * power,
                    unit > 0,
            ;
        }
        if rest > unit - rest || (rest == unit - rest && quotient % 2 == 1) {
            quotient + 1
        } else {
            quotient
        }
    };
    let bits = (top + 126) * 0x80_0000 + significant as u32;
    if i < 0 {
        Real { bits: SIGN + bits }
    } else {
        Real { bits }
    }
}

impl Real {
    pub fn is_not_a_number(self) -> (r: bool)
        ensures
            r == self.not_a_number(),
    {
        self.bits % SIGN > INFINITY
    }

    fn order(self) -> (r: i64)
        ensures
            r == self.rank(),
    {
        if self.bits >= SIGN {
            -((self.bits - SIGN) as i64)
        } else {
            self.bits as i64
        }
    }

    /// Whether the value of `self` is that of `other` or above it.
    pub fn is_at_least(self, other: Real) -> (r: bool)
        ensures
            r == self.at_least(other),
    {
        !self.is_not_a_number() && !other.is_not_a_number() && self.order() >= other.order()
    }

    /// Whether the value of `self` is below that of `other`.
    pub fn is_below(self, other: Real) -> (r: bool)
        ensures
            r == self.below(other),
    {
        !self.is_not_a_number() && !other.is_not_a_number() && self.order() < other.order()
    }

    /// The smaller of the two, or the one that is a number.
    pub fn min(self, other: Real) -> (r: Real)
        ensures
            r == self.least(other),
    {
        if self.is_not_a_number() {
            other
        } else if other.is_not_a_number() || self.order() <= other.order() {
            self
        } else {
            other
        }
    }

    /// The larger of the two, or the one that is a number.
    pub fn max(self, other: Real) -> (r: Real)
        ensures
            r == self.greatest(other),
    {
        if self.is_not_a_number() {
            other
        } else if other.is_not_a_number() || self.order() >= other.order() {
            self
        } else {
            other
        }
    }

    /// The value rounded towards zero, kept within what an `i64` holds, and 0 for what is not a
    /// number.
    pub fn truncate(self) -> (r: i64)
        ensures
            r == self.truncated(),
    {
        if self.is_not_a_number() {
            return 0;
        }
        let negative = self.bits >= SIGN;
        let magnitude = self.bits % SIGN;
        let exponent = magnitude / 0x80_0000;
        let significant: u64 = (0x80_0000 + magnitude % 0x80_0000) as u64;
        assert(self.magnitude() == magnitude);
        if exponent >= 190 {
            proof {
                let over = (exponent - 150) as nat;
                vstd::arithmetic::power2::lemma_pow2_adds(40, (over - 40) as nat);
                lemma_pow2_pos((over - 40) as nat);
                vstd::arithmetic::power2::lemma2_to64_rest();
                vstd::arithmetic::power2::lemma2_to64();
                let p = pow2(over) as int;
                let q = pow2((over - 40) as nat) as int;
                assert(significant * p >= 0x8000_0000_0000_0000) by (nonlinear_arith)
                    requires
                        significant >= 0x80_0000,
                        p == 0x100_0000_0000 * q,
                        q >= 1,
                ;
            }
            return if negative {
                i64::MIN
            } else {
                i64::MAX
            };
        }
        let whole: u64 = if exponent >= 150 {
            let scale = power_of_two(exponent - 150);
            proof {
                vstd::arithmetic::power2::lemma2_to64();
                vstd::arithmetic::power2::lemma2_to64_rest();
                if exponent < 189 {
                    vstd::arithmetic::power2::lemma_pow2_strictly_increases(
                        (exponent - 150) as nat,
                        39,
                    );
                }
                assert(significant * scale < 0x8000_0000_0000_0000) by (nonlinear_arith)
                    requires
                        significant < 0x100_0000,
                        scale <= 0x80_0000_0000,
                ;
            }
            significant * scale
        } else if exponent >= 126 {
            proof {
                lemma_pow2_pos((150 - exponent) as nat);
            }
            significant / power_of_two(150 - exponent)
        } else {
            proof {
                if exponent > 0 {
                    vstd::arithmetic::power2::lemma2_to64();
                    vstd::arithmetic::power2::lemma_pow2_strictly_increases(
                        24,
                        (150 - exponent) as nat,
                    );
                    vstd::arithmetic::div_mod::lemma_basic_div(
                        significant as int,
                        pow2((150 - exponent) as nat) as int,
                    );
                }
            }
            0
        };
        if negative {
            -(whole as i64)
        } else {
            whole as i64
        }
    }
}

impl PartialEq for Real {
    fn eq(&self, other: &Real) -> (r: bool) {
        self.is_at_least(*other) && other.is_at_least(*self)
    }
}

impl vstd::std_specs::cmp::PartialEqSpecImpl for Real {
    open spec fn obeys_eq_spec() -> bool {
        true
    }

    open spec fn eq_spec(&self, other: &Real) -> bool {
        !self.not_a_number() && !other.not_a_number() && self.rank() == other.rank()
    }
}

} // verus!
