//! Boxes, confidence scores, detections and track states.
//!
//! The types are independent of any wire format: a consumer maps its own
//! detector output to [`Detection`] at its boundary, and maps [`TrackState`]
//! back.

use vstd::arithmetic::power2::{lemma_pow2_pos, lemma_pow2_strictly_increases, lemma_pow2_unfold, pow2};
use vstd::prelude::*;

verus! {

/// Whether a number can be held in an `i64`.
pub open spec fn fits_i64(v: int) -> bool {
    i64::MIN <= v <= i64::MAX
}

/// The larger of two numbers.
pub open spec fn larger(a: int, b: int) -> int {
    if a >= b {
        a
    } else {
        b
    }
}

/// The smaller of two numbers.
pub open spec fn smaller(a: int, b: int) -> int {
    if a <= b {
        a
    } else {
        b
    }
}

/// The larger of two coordinates.
pub fn max_i64(a: i64, b: i64) -> (r: i64)
    ensures
        r == larger(a as int, b as int),
{
    if a >= b {
        a
    } else {
        b
    }
}

/// The smaller of two coordinates.
pub fn min_i64(a: i64, b: i64) -> (r: i64)
    ensures
        r == smaller(a as int, b as int),
{
    if a <= b {
        a
    } else {
        b
    }
}

/// An axis-aligned pixel box: columns `x1..x2`, rows `y1..y2`.
///
/// A meaningful box has `x1 < x2` and `y1 < y2`. The type does not enforce
/// that; degenerate boxes are rejected where it matters, by
/// [`crate::seed::SeedBox`].
#[derive(Debug, Clone, Copy, PartialEq, Eq, Hash, Structural)]
pub struct BBox {
    pub x1: i64,
    pub y1: i64,
    pub x2: i64,
    pub y2: i64,
}

impl BBox {
    /// The horizontal extent, negative for a reversed box.
    pub open spec fn w(self) -> int {
        self.x2 - self.x1
    }

    /// The vertical extent, negative for a reversed box.
    pub open spec fn h(self) -> int {
        self.y2 - self.y1
    }

    /// The number of pixels inside.
    pub open spec fn pixels(self) -> int {
        larger(self.w(), 0) * larger(self.h(), 0)
    }

    pub fn new(x1: i64, y1: i64, x2: i64, y2: i64) -> (r: Self)
        ensures
            r == (BBox { x1, y1, x2, y2 }),
    {
        BBox { x1, y1, x2, y2 }
    }

    pub fn width(&self) -> (r: i64)
        requires
            fits_i64(self.w()),
        ensures
            r == self.w(),
    {
        self.x2 - self.x1
    }

    pub fn height(&self) -> (r: i64)
        requires
            fits_i64(self.h()),
        ensures
            r == self.h(),
    {
        self.y2 - self.y1
    }

    /// The centre in half-pixels, so that it is always a whole number.
    pub fn centre(&self) -> (r: (i128, i128))
        ensures
            r.0 == self.x1 + self.x2,
            r.1 == self.y1 + self.y2,
    {
        (self.x1 as i128 + self.x2 as i128, self.y1 as i128 + self.y2 as i128)
    }

    /// The number of pixels inside, zero for a degenerate or reversed box.
    pub fn area(&self) -> (r: i64)
        requires
            fits_i64(self.w()),
            fits_i64(self.h()),
            fits_i64(self.pixels()),
        ensures
            r == self.pixels(),
    {
        max_i64(self.width(), 0) * max_i64(self.height(), 0)
    }
}

/// The bit pattern of the single-precision number one.
pub const ONE_BITS: u32 = 0x3F80_0000;

/// The bit pattern of the single-precision negative zero, which is also the
/// lowest pattern whose sign bit is set.
pub const SIGN_BITS: u32 = 0x8000_0000;

/// The bit pattern of the single-precision infinity. The patterns above it,
/// up to [`SIGN_BITS`], are not numbers.
pub const INFINITY_BITS: u32 = 0x7F80_0000;

/// The weight of the exponent field in a bit pattern.
pub const FRACTION_SPAN: u32 = 0x80_0000;

/// The value of a non-negative finite single-precision bit pattern, in units
/// of two to the power -149, the smallest step of the format.
pub open spec fn score_steps(bits: u32) -> nat {
    let exponent = (bits / FRACTION_SPAN) as nat;
    let fraction = (bits % FRACTION_SPAN) as nat;
    if exponent == 0 {
        fraction
    } else {
        (FRACTION_SPAN as nat + fraction) * pow2((exponent - 1) as nat)
    }
}

/// The score that a single-precision bit pattern stands for once it is
/// limited to the range from zero to one: everything with the sign bit set
/// and everything that is not a number counts as zero.
pub open spec fn limited_score(bits: u32) -> u32 {
    if bits >= SIGN_BITS || bits > INFINITY_BITS {
        0
    } else if bits > ONE_BITS {
        ONE_BITS
    } else {
        bits
    }
}

/// Non-negative finite bit patterns are ordered as the numbers they encode.
pub proof fn score_order_is_bit_order(a: u32, b: u32)
    requires
        a < INFINITY_BITS,
        b < INFINITY_BITS,
    ensures
        a < b <==> score_steps(a) < score_steps(b),
        a == b <==> score_steps(a) == score_steps(b),
{
    if a < b {
        lemma_score_steps_increase(a, b);
    } else if b < a {
        lemma_score_steps_increase(b, a);
    }
}

/// One direction of [`score_order_is_bit_order`].
proof fn lemma_score_steps_increase(a: u32, b: u32)
    requires
        a < b < INFINITY_BITS,
    ensures
        score_steps(a) < score_steps(b),
{
    let span = FRACTION_SPAN as int;
    let (ea, fa) = ((a / FRACTION_SPAN) as int, (a % FRACTION_SPAN) as int);
    let (eb, fb) = ((b / FRACTION_SPAN) as int, (b % FRACTION_SPAN) as int);
    if eb > 0 {
        let scale = pow2((eb - 1) as nat) as int;
        lemma_pow2_pos((eb - 1) as nat);
        if ea == eb {
            assert((span + fa) * scale < (span + fb) * scale) by (nonlinear_arith)
                requires
                    fa < fb,
                    scale > 0,
            ;
        } else {
            assert(span * scale <= (span + fb) * scale) by (nonlinear_arith)
                requires
                    fb >= 0,
                    scale > 0,
            ;
            if ea == 0 {
                assert(span <= span * scale) by (nonlinear_arith)
                    requires
                        scale >= 1,
                        span > 0,
                ;
            } else {
                let below = pow2((ea - 1) as nat) as int;
                lemma_pow2_pos((ea - 1) as nat);
                lemma_pow2_unfold(ea as nat);
                if ea < eb - 1 {
                    lemma_pow2_strictly_increases(ea as nat, (eb - 1) as nat);
                }
                assert((span + fa) * below < span * scale) by (nonlinear_arith)
                    requires
                        0 <= fa < span,
                        below > 0,
                        2 * below <= scale,
                ;
            }
        }
    }
}

/// A confidence score from zero to one.
///
/// The score is carried as the bit pattern of a single-precision number.
/// On this range the order of the patterns is the order of the scores (see
/// [`score_order_is_bit_order`]), so no floating-point arithmetic is needed
/// to compare two of them.
#[derive(Debug, Clone, Copy, PartialEq, Eq, Structural)]
pub struct Confidence {
    bits: u32,
}

impl Confidence {
    /// The bit pattern of the score.
    pub closed spec fn bits(self) -> u32 {
        self.bits
    }

    /// The score with this bit pattern.
    pub closed spec fn of_bits(bits: u32) -> Self {
        Confidence { bits }
    }

    /// A score is its bit pattern, and nothing more.
    pub proof fn score_is_its_bits(bits: u32, c: Self)
        ensures
            Self::of_bits(bits).bits() == bits,
            Self::of_bits(c.bits()) == c,
    {
    }

    #[verifier::type_invariant]
    spec fn in_range(self) -> bool {
        self.bits <= ONE_BITS
    }

    /// The score with this bit pattern, or `None` when it lies outside the
    /// range from zero to one. Negative zero is zero.
    pub fn new(bits: u32) -> (r: Option<Self>)
        ensures
            r is Some <==> bits <= ONE_BITS || bits == SIGN_BITS,
            bits <= ONE_BITS ==> r->0.bits() == bits,
            bits == SIGN_BITS ==> r->0.bits() == 0,
            r is Some <==> bits <= 0x3F80_0000 || bits == 0x8000_0000,
    {
        if bits <= ONE_BITS {
            Some(Confidence { bits })
        } else if bits == SIGN_BITS {
            Some(Confidence { bits: 0 })
        } else {
            None
        }
    }

    /// The score with this bit pattern, limited to the range from zero to
    /// one rather than rejected.
    pub fn clamp(bits: u32) -> (r: Self)
        ensures
            r.bits() == limited_score(bits),
            r.bits() <= ONE_BITS,
    {
        if bits >= SIGN_BITS || bits > INFINITY_BITS {
            Confidence { bits: 0 }
        } else if bits > ONE_BITS {
            Confidence { bits: ONE_BITS }
        } else {
            Confidence { bits }
        }
    }

    /// The lowest score.
    pub fn zero() -> (r: Self)
        ensures
            r == Self::of_bits(0),
            r.bits() == 0,
    {
        Confidence { bits: 0 }
    }

    /// The bit pattern of the score.
    pub fn value(&self) -> (r: u32)
        ensures
            r == self.bits(),
            r <= ONE_BITS,
    {
        proof {
            use_type_invariant(*self);
        }
        self.bits
    }
}

/// One detector observation.
///
/// It carries no class label, so that acquisition and association cannot
/// depend on one. `id` is an opaque handle by which a caller maps a track
/// back to its own richer record; nothing here looks at it.
#[derive(Debug, Clone, Copy, PartialEq, Eq)]
pub struct Detection {
    pub bbox: BBox,
    pub confidence: Confidence,
    pub id: u64,
}

/// A locked track's box, carried on through a `Lost` tick so that a consumer
/// never sees a blanked box.
#[derive(Debug, Clone, Copy, PartialEq, Eq)]
pub struct HeldTrack {
    pub bbox: BBox,
    pub confidence: Confidence,
    /// The [`Detection::id`] that produced or refreshed this box, or `None`
    /// for a pure tracker step or a forced lock.
    pub source_detection_id: Option<u64>,
}

/// The outcome of one tick.
#[derive(Debug, Clone, Copy, PartialEq, Eq)]
pub enum TrackState {
    /// No target is locked.
    Idle,
    /// Locked; the box is this tick's fresh estimate.
    Locked(HeldTrack),
    /// Was locked, without a fresh box this tick. The box is the last known
    /// one, never a fabricated current one. A lost track ages out to `Idle`
    /// when it is not refreshed in time.
    Lost(HeldTrack),
}

/// The pixels of a box: as many as its columns times its rows, and none in a
/// degenerate or reversed box.
pub proof fn pixels_are_columns_times_rows(b: BBox)
    ensures
        b.x1 < b.x2 && b.y1 < b.y2 ==> b.pixels() == (b.x2 - b.x1) * (b.y2 - b.y1) && b.pixels()
            > 0,
        b.x1 >= b.x2 || b.y1 >= b.y2 ==> b.pixels() == 0,
        b.w() == b.x2 - b.x1,
        b.h() == b.y2 - b.y1,
{
    let (w, h) = (larger(b.w(), 0), larger(b.h(), 0));
    assert(w * h >= 0 && (w > 0 && h > 0 ==> w * h > 0) && (w == 0 || h == 0 ==> w * h == 0))
        by (nonlinear_arith)
        requires
            w >= 0,
            h >= 0,
    ;
}

/// Limiting a score: one that is in range stays, a larger one becomes one,
/// and a negative one, or none at all, becomes zero.
pub proof fn limited_scores_are_in_range(bits: u32)
    ensures
        bits <= 0x3F80_0000 ==> limited_score(bits) == bits,
        0x3F80_0000 < bits <= 0x7F80_0000 ==> limited_score(bits) == 0x3F80_0000,
        0x7F80_0000 < bits ==> limited_score(bits) == 0,
{
}

} // verus!
