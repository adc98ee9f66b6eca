//! Products of two 128-bit numbers, held exactly.
//!
//! Comparing two fractions of pixel areas, or two squared distances, needs
//! more room than `u128` has. A [`Wide`] holds such a value in two halves.

use vstd::prelude::*;

verus! {

/// Two to the power 64.
pub const LIMB: u128 = 0x1_0000_0000_0000_0000;

/// Two to the power 128, the weight of [`Wide::hi`].
pub open spec fn half_weight() -> int {
    0x1_0000_0000_0000_0000int * 0x1_0000_0000_0000_0000int
}

/// A number below two to the power 256, as `hi * 2^128 + lo`.
#[derive(Debug, Clone, Copy, PartialEq, Eq)]
pub struct Wide {
    pub hi: u128,
    pub lo: u128,
}

impl View for Wide {
    type V = int;

    open spec fn view(&self) -> int {
        self.hi * half_weight() + self.lo
    }
}

/// The schoolbook identity behind [`Wide::product`], one limb at a time.
proof fn lemma_schoolbook(a1: int, a0: int, b1: int, b0: int, l: int)
    ensures
        (a1 * l + a0) * (b1 * l + b0) == (a1 * b1) * (l * l) + (a0 * b1 + a1 * b0) * l + a0 * b0,
{
    let x = a1 * l + a0;
    assert(x * (b1 * l + b0) == x * (b1 * l) + x * b0) by (nonlinear_arith);
    assert(x * (b1 * l) == (a1 * b1) * (l * l) + (a0 * b1) * l) by (nonlinear_arith)
        requires
            x == a1 * l + a0,
    ;
    assert(x * b0 == (a1 * b0) * l + a0 * b0) by (nonlinear_arith)
        requires
            x == a1 * l + a0,
    ;
    assert((a0 * b1) * l + (a1 * b0) * l == (a0 * b1 + a1 * b0) * l) by (nonlinear_arith);
}

/// A product of two limbs leaves room for two more limbs.
proof fn lemma_limb_product(a: int, b: int)
    requires
        0 <= a < LIMB,
        0 <= b < LIMB,
    ensures
        0 <= a * b <= (LIMB - 1) * (LIMB - 1),
{
    assert(0 <= a * b <= (LIMB - 1) * (LIMB - 1)) by (nonlinear_arith)
        requires
            0 <= a < LIMB,
            0 <= b < LIMB,
    ;
}

impl Wide {
    /// The exact product of `a` and `b`.
    pub fn product(a: u128, b: u128) -> (r: Wide)
        ensures
            r@ == a * b,
    {
        let a1: u128 = a / LIMB;
        let a0: u128 = a % LIMB;
        let b1: u128 = b / LIMB;
        let b0: u128 = b % LIMB;
        proof {
            lemma_limb_product(a0 as int, b0 as int);
            lemma_limb_product(a0 as int, b1 as int);
            lemma_limb_product(a1 as int, b0 as int);
            lemma_limb_product(a1 as int, b1 as int);
        }
        let p00: u128 = a0 * b0;
        let p01: u128 = a0 * b1;
        let p10: u128 = a1 * b0;
        let p11: u128 = a1 * b1;
        let mid: u128 = p01 + p00 / LIMB;
        let low: u128 = p10 + mid % LIMB;
        let ghost top = p11 + mid / LIMB + low / LIMB;
        proof {
            // The two halves add up to the product, so the upper half fits.
            lemma_schoolbook(a1 as int, a0 as int, b1 as int, b0 as int, LIMB as int);
            let l = LIMB as int;
            assert(a == a1 * l + a0 && b == b1 * l + b0);
            assert(p01 + p10 == (mid - p00 / LIMB) + (low - mid % LIMB));
            assert((a0 * b1 + a1 * b0) * l == (p01 + p10) * l);
            assert((p01 + p10) * l + p00 == (mid / LIMB + low / LIMB) * (l * l) + (low % LIMB) * l
                + p00 % LIMB) by (nonlinear_arith)
                requires
                    l == LIMB,
                    p01 + p10 == (mid - p00 / LIMB) + (low - mid % LIMB),
            ;
            assert(a * b == top * (l * l) + ((low % LIMB) * l + p00 % LIMB)) by (nonlinear_arith)
                requires
                    a * b == (a1 * b1) * (l * l) + (a0 * b1 + a1 * b0) * l + a0 * b0,
                    (a0 * b1 + a1 * b0) * l == (p01 + p10) * l,
                    (p01 + p10) * l + p00 == (mid / LIMB + low / LIMB) * (l * l) + (low % LIMB) * l
                        + p00 % LIMB,
                    a0 * b0 == p00,
                    a1 * b1 == p11,
                    top == p11 + mid / LIMB + low / LIMB,
            ;
            assert(a * b < half_weight() * half_weight()) by (nonlinear_arith)
                requires
                    0 <= a < half_weight(),
                    0 <= b < half_weight(),
            ;
            assert(top < half_weight()) by (nonlinear_arith)
                requires
                    top * (l * l) <= a * b,
                    l * l == half_weight(),
                    a * b < half_weight() * half_weight(),
            ;
        }
        let hi: u128 = p11 + mid / LIMB + low / LIMB;
        let lo: u128 = (low % LIMB) * LIMB + p00 % LIMB;
        Wide { hi, lo }
    }

    /// The exact sum of two values.
    pub fn plus(self, other: Wide) -> (r: Wide)
        requires
            self@ + other@ < half_weight() * half_weight(),
        ensures
            r@ == self@ + other@,
    {
        let carry: bool = self.lo > u128::MAX - other.lo;
        let lo: u128 = if carry {
            (self.lo - (u128::MAX - other.lo)) - 1
        } else {
            self.lo + other.lo
        };
        let ghost up: int = if carry {
            1
        } else {
            0
        };
        assert(self.hi + other.hi + up < half_weight()) by (nonlinear_arith)
            requires
                self.hi * half_weight() + self.lo + (other.hi * half_weight() + other.lo)
                    < half_weight() * half_weight(),
                self.lo + other.lo == lo + up * half_weight(),
                0 <= lo,
        ;
        let hi: u128 = if carry {
            self.hi + other.hi + 1
        } else {
            self.hi + other.hi
        };
        assert(hi * half_weight() == self.hi * half_weight() + other.hi * half_weight() + up
            * half_weight()) by (nonlinear_arith)
            requires
                hi == self.hi + other.hi + up,
        ;
        Wide { hi, lo }
    }

    /// Whether `self` is strictly below `other`.
    pub fn less(&self, other: &Wide) -> (r: bool)
        ensures
            r == (self@ < other@),
    {
        assert(self.hi < other.hi ==> self@ < other@) by {
            lemma_high_half_decides(*self, *other);
        }
        assert(other.hi < self.hi ==> other@ < self@) by {
            lemma_high_half_decides(*other, *self);
        }
        self.hi < other.hi || (self.hi == other.hi && self.lo < other.lo)
    }
}

/// The upper halves decide a comparison whenever they differ.
proof fn lemma_high_half_decides(a: Wide, b: Wide)
    ensures
        a.hi < b.hi ==> a@ < b@,
{
    if a.hi < b.hi {
        assert(a.hi * half_weight() + half_weight() <= b.hi * half_weight()) by (nonlinear_arith)
            requires
                a.hi + 1 <= b.hi,
        ;
    }
}

} // verus!
