//! Natural numbers of any size.

use vstd::arithmetic::power::{lemma_pow0, lemma_pow_positive, pow};
use vstd::prelude::*;

verus! {

/// The base of the limbs.
pub const BASE: u64 = 0x1_0000_0000;

/// What limbs are worth, the least first.
pub open spec fn limbs_worth(limbs: Seq<u32>) -> nat
    decreases limbs.len(),
{
    if limbs.len() == 0 {
        0
    } else {
        let place = (limbs.len() - 1) as nat;
        (limbs_worth(limbs.drop_last()) + limbs.last() * pow(BASE as int, place)) as nat
    }
}

/// A natural number.
pub struct Natural {
    limbs: Vec<u32>,
}

impl View for Natural {
    type V = nat;

    closed spec fn view(&self) -> nat {
        limbs_worth(self.limbs@)
    }
}

proof fn lemma_place(place: nat)
    ensures
        pow(BASE as int, place) > 0,
        pow(BASE as int, place + 1) == pow(BASE as int, place) * BASE,
{
    lemma_pow_positive(BASE as int, place);
    vstd::arithmetic::power::lemma_pow_adds(BASE as int, place, 1);
    vstd::arithmetic::power::lemma_pow1(BASE as int);
}

proof fn lemma_limbs_push(limbs: Seq<u32>, limb: u32)
    ensures
        limbs_worth(limbs.push(limb)) == limbs_worth(limbs) + limb * pow(BASE as int, limbs.len()),
{
    assert(limbs.push(limb).drop_last() =~= limbs);
    lemma_place(limbs.len());
    assert(limb * pow(BASE as int, limbs.len()) >= 0) by (nonlinear_arith)
        requires
            limb >= 0,
            pow(BASE as int, limbs.len()) > 0,
    ;
}

impl Natural {
    pub fn zero() -> (r: Self)
        ensures
            r@ == 0,
    {
        Natural { limbs: Vec::new() }
    }

    /// Makes this number `factor` times what it was, and `more`.
    pub fn scale(&mut self, factor: u32, more: u32)
        ensures
            final(self)@ == old(self)@ * factor + more,
    {
        let ghost before = self.limbs@;
        let mut out: Vec<u32> = Vec::new();
        let mut carry: u32 = more;
        let mut i: usize = 0;
        proof {
            lemma_pow0(BASE as int);
            assert(limbs_worth(before.take(0)) == 0);
            assert(limbs_worth(out@) == 0);
            assert(0 * factor == 0) by (nonlinear_arith);
            assert(carry * pow(BASE as int, 0) == carry) by (nonlinear_arith)
                requires
                    pow(BASE as int, 0) == 1,
            ;
        }
        while i < self.limbs.len()
            invariant
                self.limbs@ == before,
                i <= before.len(),
                out@.len() == i,
                limbs_worth(out@) + carry * pow(BASE as int, i as nat) == limbs_worth(
                    before.take(i as int),
                ) * factor + more,
            decreases before.len() - i,
        {
            let limb = self.limbs[i];
            assert(limb * factor + carry <= 0xffff_ffff_ffff_ffff) by (nonlinear_arith)
                requires
                    limb <= 0xffff_ffff,
                    factor <= 0xffff_ffff,
                    carry <= 0xffff_ffff,
            ;
            assert(limb * factor >= 0) by (nonlinear_arith)
                requires
                    limb >= 0,
                    factor >= 0,
            ;
            let product: u64 = limb as u64 * factor as u64 + carry as u64;
            let low = (product % BASE) as u32;
            let high = (product / BASE) as u32;
            proof {
                let head = before.take(i as int);
                assert(before.take(i + 1) =~= head.push(limb));
                lemma_limbs_push(head, limb);
                lemma_limbs_push(out@, low);
                lemma_place(i as nat);
                let p = pow(BASE as int, i as nat);
                let x = limbs_worth(head) as int;
                let y = limbs_worth(out@) as int;
                assert(product == low + high * BASE);
                assert((y + low * p) + high * (p * BASE) == (x + limb * p) * factor + more)
                    by (nonlinear_arith)
                    requires
                        y + carry * p == x * factor + more,
                        low + high * BASE == limb * factor + carry,
                ;
            }
            out.push(low);
            carry = high;
            i += 1;
        }
        proof {
            assert(before.take(i as int) =~= before);
            lemma_limbs_push(out@, carry);
        }
        out.push(carry);
        self.limbs = out;
    }

    /// Whether this number is below `other`.
    pub fn is_below(&self, other: &Natural) -> (r: bool)
        ensures
            r == (self@ < other@),
    {
        let mut i = if self.limbs.len() >= other.limbs.len() {
            self.limbs.len()
        } else {
            other.limbs.len()
        };
        let ghost a = self.limbs@;
        let ghost b = other.limbs@;
        proof {
            lemma_padded(a, i as nat);
            lemma_padded(b, i as nat);
        }
        while i > 0
            invariant
                a == self.limbs@,
                b == other.limbs@,
                (self@ < other@) == (low_worth(a, i as nat) < low_worth(b, i as nat)),
            decreases i,
        {
            i -= 1;
            let x = if i < self.limbs.len() {
                self.limbs[i]
            } else {
                0
            };
            let y = if i < other.limbs.len() {
                other.limbs[i]
            } else {
                0
            };
            proof {
                lemma_low_worth(a, i as nat);
                lemma_low_worth(b, i as nat);
                lemma_place(i as nat);
                let p = pow(BASE as int, i as nat);
                let low_a = low_worth(a, i as nat) as int;
                let low_b = low_worth(b, i as nat) as int;
                if x < y {
                    assert(low_a + x * p < low_b + y * p) by (nonlinear_arith)
                        requires
                            0 <= low_a < p,
                            0 <= low_b,
                            x < y,
                    ;
                } else if x > y {
                    assert(low_a + x * p > low_b + y * p) by (nonlinear_arith)
                        requires
                            0 <= low_b < p,
                            0 <= low_a,
                            x > y,
                    ;
                }
            }
            if x != y {
                return x < y;
            }
        }
        false
    }
}

/// The limb at `i`, or 0 past the last.
pub open spec fn limb_at(limbs: Seq<u32>, i: int) -> u32 {
    if 0 <= i < limbs.len() {
        limbs[i]
    } else {
        0
    }
}

/// What the first `count` limbs are worth.
pub open spec fn low_worth(limbs: Seq<u32>, count: nat) -> nat
    decreases count,
{
    if count == 0 {
        0
    } else {
        let place = (count - 1) as nat;
        (low_worth(limbs, place) + limb_at(limbs, place as int) * pow(BASE as int, place)) as nat
    }
}

proof fn lemma_low_worth(limbs: Seq<u32>, count: nat)
    ensures
        low_worth(limbs, count) < pow(BASE as int, count),
        low_worth(limbs, count + 1) == low_worth(limbs, count) + limb_at(limbs, count as int) * pow(
            BASE as int,
            count,
        ),
    decreases count,
{
    lemma_place(count);
    let limb = limb_at(limbs, count as int) as int;
    assert(limb * pow(BASE as int, count) >= 0) by (nonlinear_arith)
        requires
            limb >= 0,
            pow(BASE as int, count) > 0,
    ;
    if count == 0 {
        lemma_pow0(BASE as int);
    } else {
        let place = (count - 1) as nat;
        lemma_low_worth(limbs, place);
        lemma_place(place);
        let p = pow(BASE as int, place);
        let low = low_worth(limbs, place) as int;
        let high = limb_at(limbs, place as int) as int;
        assert(low + high * p < p * BASE) by (nonlinear_arith)
            requires
                0 <= low < p,
                0 <= high < BASE,
                p > 0,
        ;
    }
}

proof fn lemma_padded(limbs: Seq<u32>, count: nat)
    requires
        limbs.len() <= count,
    ensures
        low_worth(limbs, count) == limbs_worth(limbs),
    decreases count,
{
    if count > 0 {
        let place = (count - 1) as nat;
        lemma_low_worth(limbs, place);
        if limbs.len() < count {
            lemma_padded(limbs, place);
            assert(limb_at(limbs, place as int) * pow(BASE as int, place) == 0) by (nonlinear_arith)
                requires
                    limb_at(limbs, place as int) == 0,
            ;
        } else {
            let head = limbs.drop_last();
            lemma_padded(head, place);
            lemma_same_low(limbs, head, place);
            assert(limbs =~= head.push(limbs.last()));
            lemma_limbs_push(head, limbs.last());
        }
    }
}

proof fn lemma_same_low(a: Seq<u32>, b: Seq<u32>, count: nat)
    requires
        forall|i: int| 0 <= i < count ==> limb_at(a, i) == limb_at(b, i),
    ensures
        low_worth(a, count) == low_worth(b, count),
    decreases count,
{
    if count > 0 {
        lemma_same_low(a, b, (count - 1) as nat);
        assert(limb_at(a, count - 1) == limb_at(b, count - 1));
    }
}

} // verus!
