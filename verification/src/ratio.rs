//! Rational numbers for thresholds and probabilities.

use vstd::prelude::*;

verus! {

/// The rational number `num / den`, with a positive denominator.
#[derive(Debug, Clone, Copy, PartialEq, Eq, Structural)]
pub struct Ratio {
    num: i64,
    den: u64,
}

impl Ratio {
    /// The numerator.
    pub closed spec fn num(self) -> int {
        self.num as int
    }

    /// The denominator.
    pub closed spec fn den(self) -> int {
        self.den as int
    }

    #[verifier::type_invariant]
    spec fn has_denominator(self) -> bool {
        self.den > 0
    }

    /// The number `num / den`, or `None` when the denominator is zero.
    pub fn new(num: i64, den: u64) -> (r: Option<Self>)
        ensures
            r is Some <==> den > 0,
            r is Some ==> r->0.num() == num && r->0.den() == den,
    {
        if den > 0 {
            Some(Ratio { num, den })
        } else {
            None
        }
    }

    /// The fraction `num / den`.
    pub fn of(num: i64, den: u64) -> (r: Self)
        requires
            den > 0,
        ensures
            r.num() == num,
            r.den() == den,
    {
        Ratio { num, den }
    }

    pub fn numerator(&self) -> (r: i64)
        ensures
            r == self.num(),
    {
        self.num
    }

    pub fn denominator(&self) -> (r: u64)
        ensures
            r == self.den(),
            r > 0,
    {
        proof {
            use_type_invariant(*self);
        }
        self.den
    }
}

} // verus!
