//! A tiny deterministic random number generator (xorshift64*), for
//! reproducible noise in synthetic data.

use crate::ratio::Ratio;
use vstd::prelude::*;

verus! {

/// The state after one round.
pub open spec fn scrambled(x: u64) -> u64 {
    let a = x ^ (x << 13u64);
    let b = a ^ (a >> 7u64);
    b ^ (b << 17u64)
}

/// The multiplier that turns a state into an output.
pub const OUTPUT_FACTOR: u64 = 0x2545_F491_4F6C_DD1D;

/// Two to the power 64.
pub const WORD: u128 = 0x1_0000_0000_0000_0000;

/// The number of steps into which the unit interval is divided: two to the
/// power 53.
pub const UNIT_STEPS: u64 = 0x20_0000_0000_0000;

/// The output drawn from a state.
pub open spec fn output(x: u64) -> u64 {
    ((x * OUTPUT_FACTOR) % (WORD as int)) as u64
}

/// The steps of a point of the unit interval, drawn from a state.
pub open spec fn unit_point(x: u64) -> int {
    output(x) as int / 2048
}

/// The integer drawn from `[lo, hi]` for a point of the unit interval: `lo`
/// plus the whole part of the point's share of the range.
pub open spec fn drawn(point: int, lo: int, hi: int) -> int {
    let n = hi - lo + 1;
    if n >= 0 {
        lo + point * n / (UNIT_STEPS as int)
    } else {
        lo - point * (-n) / (UNIT_STEPS as int)
    }
}

/// The generator.
pub struct Rng(u64);

impl Rng {
    /// The state.
    pub closed spec fn state(&self) -> u64 {
        self.0
    }

    /// A zero state would yield zeros for ever.
    #[verifier::type_invariant]
    spec fn is_live(self) -> bool {
        self.0 != 0
    }

    pub fn new(seed: u64) -> (r: Self)
        ensures
            r.state() == (if seed == 0 {
                1
            } else {
                seed
            }),
    {
        if seed == 0 {
            Rng(1)
        } else {
            Rng(seed)
        }
    }

    /// The next 64 bits.
    pub fn next_u64(&mut self) -> (r: u64)
        ensures
            final(self).state() == scrambled(old(self).state()),
            r == output(final(self).state()),
    {
        proof {
            use_type_invariant(&*self);
            scrambling_keeps_a_state_live(self.0);
        }
        let mut x: u64 = self.0;
        x ^= x << 13u64;
        x ^= x >> 7u64;
        x ^= x << 17u64;
        self.0 = x;
        assert(0 <= x * OUTPUT_FACTOR < WORD * WORD) by (nonlinear_arith)
            requires
                0 <= x < WORD,
                0 <= OUTPUT_FACTOR < WORD,
        ;
        ((x as u128 * OUTPUT_FACTOR as u128) % WORD) as u64
    }

    /// A uniform point of the unit interval, in steps of one over
    /// [`UNIT_STEPS`].
    pub fn unit(&mut self) -> (r: u64)
        ensures
            final(self).state() == scrambled(old(self).state()),
            r == unit_point(final(self).state()),
            r < UNIT_STEPS,
    {
        self.next_u64() / 2048
    }

    /// A uniform integer of `[lo, hi]`, both inclusive.
    pub fn range_i64(&mut self, lo: i64, hi: i64) -> (r: i64)
        ensures
            final(self).state() == scrambled(old(self).state()),
            r == drawn(unit_point(final(self).state()), lo as int, hi as int),
            lo <= hi ==> lo <= r <= hi,
    {
        let point: u128 = self.unit() as u128;
        let n: i128 = hi as i128 - lo as i128 + 1;
        let span: u128 = if n >= 0 {
            n as u128
        } else {
            (-n) as u128
        };
        proof {
            lemma_share(point as int, span as int);
        }
        let share: i128 = (point * span / UNIT_STEPS as u128) as i128;
        if n >= 0 {
            (lo as i128 + share) as i64
        } else {
            (lo as i128 - share) as i64
        }
    }

    /// Whether an event of probability `p` happens.
    pub fn chance(&mut self, p: Ratio) -> (r: bool)
        ensures
            final(self).state() == scrambled(old(self).state()),
            r == (unit_point(final(self).state()) * p.den() < p.num() * UNIT_STEPS),
    {
        let point: u128 = self.unit() as u128;
        let num: i64 = p.numerator();
        let den: u64 = p.denominator();
        assert(0 <= point * den < 0x20_0000_0000_0000 * 0x1_0000_0000_0000_0000) by (nonlinear_arith)
            requires
                0 <= point < 0x20_0000_0000_0000,
                0 < den < 0x1_0000_0000_0000_0000,
        ;
        assert(num > 0 ==> 0 < num * UNIT_STEPS < WORD * WORD) by (nonlinear_arith)
            requires
                num < WORD,
                0 < UNIT_STEPS < WORD,
        ;
        assert(num <= 0 ==> num * UNIT_STEPS <= 0) by (nonlinear_arith);
        num > 0 && point * (den as u128) < (num as u128) * (UNIT_STEPS as u128)
    }
}

/// A share of a range is below the range.
proof fn lemma_share(point: int, span: int)
    requires
        0 <= point < UNIT_STEPS,
        0 <= span <= WORD,
    ensures
        0 <= point * span <= (UNIT_STEPS - 1) * span,
        point * span <= UNIT_STEPS * WORD,
        0 <= point * span / (UNIT_STEPS as int),
        span > 0 ==> point * span / (UNIT_STEPS as int) < span,
        span == 0 ==> point * span / (UNIT_STEPS as int) == 0,
{
    assert(0 <= point * span <= (UNIT_STEPS - 1) * span && point * span <= UNIT_STEPS * WORD)
        by (nonlinear_arith)
        requires
            0 <= point < UNIT_STEPS,
            0 <= span <= WORD,
    ;
    if span > 0 {
        assert((UNIT_STEPS - 1) * span < UNIT_STEPS * span) by (nonlinear_arith)
            requires
                span > 0,
        ;
        assert(point * span / (UNIT_STEPS as int) < span) by (nonlinear_arith)
            requires
                0 <= point * span < UNIT_STEPS * span,
        ;
    }
}

/// A live generator never reaches the dead state.
pub proof fn scrambling_keeps_a_state_live(x: u64)
    requires
        x != 0,
    ensures
        scrambled(x) != 0,
{
    let a = x ^ (x << 13u64);
    let b = a ^ (a >> 7u64);
    assert(x != 0 ==> x ^ (x << 13u64) != 0) by (bit_vector);
    assert(a != 0 ==> a ^ (a >> 7u64) != 0) by (bit_vector);
    assert(b != 0 ==> b ^ (b << 17u64) != 0) by (bit_vector);
}

/// A draw stays in its range, whatever the point.
pub proof fn draws_stay_in_range(point: int, lo: int, hi: int)
    requires
        0 <= point < UNIT_STEPS,
        lo <= hi <= lo + WORD - 1,
    ensures
        lo <= drawn(point, lo, hi) <= hi,
{
    lemma_share(point, hi - lo + 1);
}

/// One round of the generator, in arithmetic: the state is combined by
/// exclusive or with itself times two to the 13, then over two to the 7, then
/// times two to the 17, within 64 bits. The output is the state times a fixed
/// odd number, within 64 bits, and a point of the unit interval its upper 53
/// bits.
pub proof fn one_round_in_arithmetic(x: u64)
    ensures
        exists|a: u64, b: u64|
            {
                &&& #[trigger] (a ^ x) == (x * 8192) % 0x1_0000_0000_0000_0000
                &&& #[trigger] (b ^ a) == a / 128
                &&& (scrambled(x) ^ b) == (b * 131072) % 0x1_0000_0000_0000_0000
            },
        output(x) == (x * 0x2545_F491_4F6C_DD1D) % 0x1_0000_0000_0000_0000,
        unit_point(x) * 2048 <= output(x) < (unit_point(x) + 1) * 2048,
{
    let a = x ^ (x << 13u64);
    let b = a ^ (a >> 7u64);
    let c = b ^ (b << 17u64);
    assert(a ^ x == x << 13u64) by (bit_vector)
        requires
            a == x ^ (x << 13u64),
    ;
    assert(b ^ a == a >> 7u64) by (bit_vector)
        requires
            b == a ^ (a >> 7u64),
    ;
    assert(c ^ b == b << 17u64) by (bit_vector)
        requires
            c == b ^ (b << 17u64),
    ;
    assert((x << 13u64) as u128 == ((x as u128 * 8192u128) as u128) % 0x1_0000_0000_0000_0000u128)
        by (bit_vector);
    assert(a >> 7u64 == a / 128u64) by (bit_vector);
    assert((b << 17u64) as u128 == ((b as u128 * 131072u128) as u128) % 0x1_0000_0000_0000_0000u128)
        by (bit_vector);
    assert((a ^ x) == (x * 8192) % 0x1_0000_0000_0000_0000);
    assert((b ^ a) == a / 128);
}

/// A draw from `lo` up to `hi` takes the share of the range that the point is
/// of the unit interval, rounded down.
pub proof fn a_draw_is_the_share_of_its_range(point: int, lo: int, hi: int)
    requires
        0 <= point < 0x20_0000_0000_0000,
        lo <= hi,
    ensures
        ({
            let k = drawn(point, lo, hi) - lo;
            k * 0x20_0000_0000_0000 <= point * (hi - lo + 1) < (k + 1) * 0x20_0000_0000_0000
        }),
        point == 0 ==> drawn(point, lo, hi) == lo,
{
    let all = point * (hi - lo + 1);
    assert(all >= 0) by (nonlinear_arith)
        requires
            all == point * (hi - lo + 1),
            point >= 0,
            hi - lo + 1 > 0,
    ;
    assert(point == 0 ==> all == 0) by (nonlinear_arith)
        requires
            all == point * (hi - lo + 1),
    ;
}

/// A draw from an upside-down range goes down from its first number by the
/// share of what lies between the two.
pub proof fn a_draw_from_an_empty_range_goes_down(point: int, lo: int, hi: int)
    requires
        0 <= point < 0x20_0000_0000_0000,
        hi < lo,
    ensures
        ({
            let k = lo - drawn(point, lo, hi);
            k * 0x20_0000_0000_0000 <= point * (lo - hi - 1) < (k + 1) * 0x20_0000_0000_0000
        }),
{
    let all = point * (lo - hi - 1);
    assert(all >= 0) by (nonlinear_arith)
        requires
            all == point * (lo - hi - 1),
            point >= 0,
            lo - hi - 1 >= 0,
    ;
    if hi == lo - 1 {
        assert(point * (hi - lo + 1) == 0) by (nonlinear_arith)
            requires
                hi - lo + 1 == 0,
        ;
        assert(all == 0) by (nonlinear_arith)
            requires
                all == point * (lo - hi - 1),
                lo - hi - 1 == 0,
        ;
    }
}

} // verus!
