//! Tracker-seedability gates.
//!
//! A correlation-filter tracker fails hard when asked to seed a box that is
//! too small, too elongated, or cut to a sliver by the frame edge. A
//! [`SeedBox`] is a box that passed those gates, so a nomination that would
//! crash a backend never reaches [`crate::tracker::Tracker::reinit`].
//!
//! Two independent checks both bear load:
//! 1. the requested extent and aspect, which have nothing to do with the
//!    frame;
//! 2. the extent left in the frame, measured against the requested size: a
//!    correlation tracker scales its template from the box as requested and
//!    then crops, so a fixed minimum would let through boxes that are mostly
//!    outside.

use crate::text::{decimal, push_decimal, push_text};
use crate::types::{fits_i64, larger, max_i64, min_i64, smaller, BBox};
use vstd::prelude::*;

verus! {

/// The dimensions of a frame, in pixels.
#[derive(Debug, Clone, Copy, PartialEq, Eq, Structural)]
pub struct FrameDims {
    pub width: i64,
    pub height: i64,
}

/// The smallest requested extent, per axis, that can be seeded at all.
pub const MIN_SEEDABLE_REQUEST_PX: i64 = 3;

/// The largest requested aspect ratio, long side over short side.
pub const MAX_SEEDABLE_ASPECT: i64 = 20;

/// The extent that has to be left in the frame for a requested extent:
/// three pixels and a seventh of the request, rounded up, but never more
/// than the request itself and never less than two.
pub open spec fn needed_extent(requested: int) -> int {
    larger(2, smaller(requested, 3 + (requested + 6) / 7))
}

/// The requested extent is large enough on both axes.
pub open spec fn extent_ok(b: BBox) -> bool {
    b.w() >= MIN_SEEDABLE_REQUEST_PX && b.h() >= MIN_SEEDABLE_REQUEST_PX
}

/// The requested box is not too elongated.
pub open spec fn aspect_ok(b: BBox) -> bool {
    larger(b.w(), b.h()) <= MAX_SEEDABLE_ASPECT * smaller(b.w(), b.h())
}

/// The horizontal extent left after clipping to the frame.
pub open spec fn in_frame_w(b: BBox, frame: FrameDims) -> int {
    smaller(b.x2 as int, frame.width as int) - larger(b.x1 as int, 0)
}

/// The vertical extent left after clipping to the frame.
pub open spec fn in_frame_h(b: BBox, frame: FrameDims) -> int {
    smaller(b.y2 as int, frame.height as int) - larger(b.y1 as int, 0)
}

/// Enough of the box is left in the frame on both axes.
pub open spec fn in_frame_ok(b: BBox, frame: FrameDims) -> bool {
    in_frame_w(b, frame) >= needed_extent(b.w()) && in_frame_h(b, frame) >= needed_extent(b.h())
}

/// A tracker working on this frame can seed a template from the box.
pub open spec fn seedable(b: BBox, frame: FrameDims) -> bool {
    extent_ok(b) && aspect_ok(b) && in_frame_ok(b, frame)
}

/// Every number that [`SeedBox::new`] may report about the box is an `i64`.
pub open spec fn seed_numbers_fit(b: BBox, frame: FrameDims) -> bool {
    &&& fits_i64(b.w())
    &&& fits_i64(b.h())
    &&& extent_ok(b) && aspect_ok(b) ==> fits_i64(in_frame_w(b, frame)) && fits_i64(
        in_frame_h(b, frame),
    )
}

/// Why a box cannot be seeded.
#[derive(Debug, Clone, Copy, PartialEq, Eq)]
pub enum SeedError {
    /// The requested extent is below the minimum.
    ExtentTooSmall { box_: BBox, req_w: i64, req_h: i64, min: i64 },
    /// The requested aspect ratio is above the maximum.
    AspectTooExtreme { box_: BBox, max_aspect: i64 },
    /// Too little of the box is left in the frame.
    InFrameExtentTooSmall {
        box_: BBox,
        in_w: i64,
        in_h: i64,
        need_w: i64,
        need_h: i64,
        req_w: i64,
        req_h: i64,
        frame_w: i64,
        frame_h: i64,
    },
}

/// The error that names the first gate that the box fails.
pub open spec fn seed_error(b: BBox, frame: FrameDims) -> SeedError {
    if !extent_ok(b) {
        SeedError::ExtentTooSmall {
            box_: b,
            req_w: b.w() as i64,
            req_h: b.h() as i64,
            min: MIN_SEEDABLE_REQUEST_PX,
        }
    } else if !aspect_ok(b) {
        SeedError::AspectTooExtreme { box_: b, max_aspect: MAX_SEEDABLE_ASPECT }
    } else {
        SeedError::InFrameExtentTooSmall {
            box_: b,
            in_w: in_frame_w(b, frame) as i64,
            in_h: in_frame_h(b, frame) as i64,
            need_w: needed_extent(b.w()) as i64,
            need_h: needed_extent(b.h()) as i64,
            req_w: b.w() as i64,
            req_h: b.h() as i64,
            frame_w: frame.width,
            frame_h: frame.height,
        }
    }
}

/// The in-frame extent needed to seed a `requested`-pixel extent.
pub fn min_in_frame_extent(requested: i128) -> (r: i128)
    requires
        requested < i128::MAX - 6,
    ensures
        r == needed_extent(requested as int),
{
    if requested <= 2 {
        2
    } else {
        let fit: i128 = 3 + (requested + 6) / 7;
        if requested < fit {
            requested
        } else {
            fit
        }
    }
}

/// A box that a correlation tracker can seed a template from. It is the only
/// thing that [`crate::tracker::Tracker::reinit`] accepts.
#[derive(Debug, Clone, Copy, PartialEq, Eq, Structural)]
pub struct SeedBox(BBox);

impl SeedBox {
    /// The box itself.
    pub closed spec fn bbox(self) -> BBox {
        self.0
    }

    #[verifier::type_invariant]
    spec fn passed_the_request_gates(self) -> bool {
        extent_ok(self.0) && aspect_ok(self.0)
    }

    /// The requested extent is large enough and not too elongated.
    fn request_ok(b: BBox) -> (r: bool)
        ensures
            r == (extent_ok(b) && aspect_ok(b)),
    {
        let w: i128 = b.x2 as i128 - b.x1 as i128;
        let h: i128 = b.y2 as i128 - b.y1 as i128;
        let min: i128 = MIN_SEEDABLE_REQUEST_PX as i128;
        let aspect: i128 = MAX_SEEDABLE_ASPECT as i128;
        w >= min && h >= min && (if w >= h {
            w <= aspect * h
        } else {
            h <= aspect * w
        })
    }

    /// The box as a seed for a tracker on this frame, or `None` when it does
    /// not pass the gates.
    pub fn gate(b: BBox, frame: FrameDims) -> (r: Option<Self>)
        ensures
            r is Some <==> seedable(b, frame),
            r is Some ==> r->0.bbox() == b,
    {
        if !Self::request_ok(b) {
            return None;
        }
        let in_w: i128 = min_i64(b.x2, frame.width) as i128 - max_i64(b.x1, 0) as i128;
        let in_h: i128 = min_i64(b.y2, frame.height) as i128 - max_i64(b.y1, 0) as i128;
        let need_w: i128 = min_in_frame_extent(b.x2 as i128 - b.x1 as i128);
        let need_h: i128 = min_in_frame_extent(b.y2 as i128 - b.y1 as i128);
        if in_w < need_w || in_h < need_h {
            None
        } else {
            Some(SeedBox(b))
        }
    }

    /// The box as a seed for a tracker on this frame. The gates are tried in
    /// order (requested extent, requested aspect, in-frame extent), and the
    /// error names the first one that fails.
    pub fn new(b: BBox, frame: FrameDims) -> (r: Result<Self, SeedError>)
        requires
            seed_numbers_fit(b, frame),
        ensures
            r is Ok <==> seedable(b, frame),
            r is Ok ==> r->Ok_0.bbox() == b,
            r is Err ==> r->Err_0 == seed_error(b, frame),
    {
        let (req_w, req_h): (i64, i64) = (b.width(), b.height());
        if req_w < MIN_SEEDABLE_REQUEST_PX || req_h < MIN_SEEDABLE_REQUEST_PX {
            return Err(
                SeedError::ExtentTooSmall { box_: b, req_w, req_h, min: MIN_SEEDABLE_REQUEST_PX },
            );
        }
        if !Self::request_ok(b) {
            return Err(
                SeedError::AspectTooExtreme { box_: b, max_aspect: MAX_SEEDABLE_ASPECT },
            );
        }
        let in_w: i64 = min_i64(b.x2, frame.width) - max_i64(b.x1, 0);
        let in_h: i64 = min_i64(b.y2, frame.height) - max_i64(b.y1, 0);
        let need_w: i64 = min_in_frame_extent(req_w as i128) as i64;
        let need_h: i64 = min_in_frame_extent(req_h as i128) as i64;
        if in_w < need_w || in_h < need_h {
            return Err(
                SeedError::InFrameExtentTooSmall {
                    box_: b,
                    in_w,
                    in_h,
                    need_w,
                    need_h,
                    req_w,
                    req_h,
                    frame_w: frame.width,
                    frame_h: frame.height,
                },
            );
        }
        Ok(SeedBox(b))
    }

    /// The box itself.
    pub fn get(&self) -> (r: BBox)
        ensures
            r == self.bbox(),
            extent_ok(r),
            aspect_ok(r),
    {
        proof {
            use_type_invariant(*self);
        }
        self.0
    }
}

/// The complaint about a command box without a positive extent.
pub open spec fn degenerate_text(b: BBox) -> Seq<char> {
    "degenerate box (width="@ + decimal(b.w()) + ", height="@ + decimal(b.h()) + ")"@
}

/// The complaint about a command box that leaves the frame.
pub open spec fn outside_text(frame: FrameDims) -> Seq<char> {
    "box outside "@ + decimal(frame.width as int) + "x"@ + decimal(frame.height as int)
        + " frame bounds"@
}

/// Why a command to lock onto `b` is unusable, or `None` when it is fine.
///
/// This is the check of untrusted input: a box beyond the frame is a command
/// error. It comes before the check of what a tracker can seed, which
/// [`SeedBox::new`] makes of the same box.
pub fn force_lock_box_error(b: BBox, frame: FrameDims) -> (r: Option<String>)
    ensures
        r is None <==> 0 <= b.x1 < b.x2 <= frame.width && 0 <= b.y1 < b.y2 <= frame.height,
        b.w() <= 0 || b.h() <= 0 ==> r->0@ == degenerate_text(b),
        r is Some && b.w() > 0 && b.h() > 0 ==> r->0@ == outside_text(frame),
        b.x2 <= b.x1 || b.y2 <= b.y1 ==> r is Some && r->0@ == "degenerate box (width="@ + decimal(
            b.x2 - b.x1,
        ) + ", height="@ + decimal(b.y2 - b.y1) + ")"@,
        r is Some && b.x1 < b.x2 && b.y1 < b.y2 ==> r->0@ == "box outside "@ + decimal(
            frame.width as int,
        ) + "x"@ + decimal(frame.height as int) + " frame bounds"@,
{
    if b.x2 <= b.x1 || b.y2 <= b.y1 {
        let mut out = String::new();
        push_text(&mut out, "degenerate box (width=");
        push_decimal(&mut out, b.x2 as i128 - b.x1 as i128);
        push_text(&mut out, ", height=");
        push_decimal(&mut out, b.y2 as i128 - b.y1 as i128);
        push_text(&mut out, ")");
        assert(out@ == degenerate_text(b));
        return Some(out);
    }
    if b.x1 < 0 || b.y1 < 0 || b.x2 > frame.width || b.y2 > frame.height {
        let mut out = String::new();
        push_text(&mut out, "box outside ");
        push_decimal(&mut out, frame.width as i128);
        push_text(&mut out, "x");
        push_decimal(&mut out, frame.height as i128);
        push_text(&mut out, " frame bounds");
        assert(out@ == outside_text(frame));
        return Some(out);
    }
    None
}

/// A box inside the frame passes the in-frame gate: only its own shape can
/// keep it from being seeded.
pub proof fn inside_the_frame_only_the_shape_counts(b: BBox, frame: FrameDims)
    requires
        0 <= b.x1,
        0 <= b.y1,
        b.x2 <= frame.width,
        b.y2 <= frame.height,
    ensures
        seedable(b, frame) <==> extent_ok(b) && aspect_ok(b),
{
}

/// A box that is entirely outside of the frame cannot be seeded.
pub proof fn outside_the_frame_nothing_seeds(b: BBox, frame: FrameDims)
    requires
        b.x2 <= 0 || b.y2 <= 0 || b.x1 >= frame.width || b.y1 >= frame.height,
    ensures
        !seedable(b, frame),
{
}

/// A larger frame seeds every box that a smaller one does.
pub proof fn a_larger_frame_seeds_no_less(b: BBox, small: FrameDims, large: FrameDims)
    requires
        seedable(b, small),
        small.width <= large.width,
        small.height <= large.height,
    ensures
        seedable(b, large),
{
}

/// The needed in-frame extent can always be met by an extent that is itself
/// large enough to be requested.
pub proof fn the_needed_extent_can_be_met(requested: int)
    requires
        requested >= MIN_SEEDABLE_REQUEST_PX,
    ensures
        2 <= needed_extent(requested) <= requested,
{
}

/// Which boxes a tracker can seed, in coordinates: those of at least three
/// pixels per axis, no more than twenty times as long as wide, of which enough
/// is in the frame on either axis. Enough is two pixels at least, and the
/// whole extent or three pixels and a seventh of it.
pub proof fn seedable_in_coordinates(b: BBox, frame: FrameDims)
    ensures
        seedable(b, frame) <==> {
            let (w, h) = (b.x2 - b.x1, b.y2 - b.y1);
            let left = if b.x1 > 0 {
                b.x1 as int
            } else {
                0
            };
            let top = if b.y1 > 0 {
                b.y1 as int
            } else {
                0
            };
            let right = if b.x2 < frame.width {
                b.x2
            } else {
                frame.width
            };
            let bottom = if b.y2 < frame.height {
                b.y2
            } else {
                frame.height
            };
            &&& w >= 3 && h >= 3
            &&& w <= 20 * h && h <= 20 * w
            &&& right - left >= 2 && (right - left >= w || 7 * (right - left - 3) >= w)
            &&& bottom - top >= 2 && (bottom - top >= h || 7 * (bottom - top - 3) >= h)
        },
{
}

/// The extent that has to be left is the least that is enough: two pixels at
/// least, and the whole request or three pixels and a seventh of it.
pub proof fn the_needed_extent_is_the_least_that_is_enough(requested: int, left: int)
    ensures
        left >= needed_extent(requested) <==> left >= 2 && (left >= requested || 7 * (left - 3)
            >= requested),
{
}

/// What is said of a box that cannot be seeded: the first of extent, aspect
/// and extent in the frame that is to blame, with the numbers that show it.
pub proof fn the_first_failed_gate_is_named(b: BBox, frame: FrameDims)
    requires
        !seedable(b, frame),
        seed_numbers_fit(b, frame),
    ensures
        ({
            let (w, h) = (b.x2 - b.x1, b.y2 - b.y1);
            let e = seed_error(b, frame);
            let small = w < 3 || h < 3;
            let long = w > 20 * h || h > 20 * w;
            &&& small ==> e == (SeedError::ExtentTooSmall {
                box_: b,
                req_w: w as i64,
                req_h: h as i64,
                min: 3,
            })
            &&& !small && long ==> e == (SeedError::AspectTooExtreme { box_: b, max_aspect: 20 })
            &&& !small && !long ==> {
                &&& e is InFrameExtentTooSmall
                &&& e->InFrameExtentTooSmall_box_ == b
                &&& e->in_w == (if b.x2 < frame.width {
                    b.x2
                } else {
                    frame.width
                }) - (if b.x1 > 0 {
                    b.x1 as int
                } else {
                    0
                })
                &&& e->in_h == (if b.y2 < frame.height {
                    b.y2
                } else {
                    frame.height
                }) - (if b.y1 > 0 {
                    b.y1 as int
                } else {
                    0
                })
                &&& e->InFrameExtentTooSmall_req_w == w
                &&& e->InFrameExtentTooSmall_req_h == h
                &&& e->need_w == needed_extent(w)
                &&& e->need_h == needed_extent(h)
                &&& e->frame_w == frame.width
                &&& e->frame_h == frame.height
            }
        }),
{
}

} // verus!
