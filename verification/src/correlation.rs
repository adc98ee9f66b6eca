//! The pixel rectangles of correlation-filter backends.
//!
//! Such a backend takes its seed, and gives its result, as a rectangle of
//! 32-bit numbers: a corner and an extent. This module converts between
//! those and boxes; linking a backend is the caller's part.

use crate::seed::SeedBox;
use crate::types::{fits_i64, BBox};
use vstd::prelude::*;

verus! {

/// A rectangle: its top left corner and its extents.
#[derive(Debug, Clone, Copy, PartialEq, Eq, Structural)]
pub struct PixelRect {
    pub x: i32,
    pub y: i32,
    pub width: i32,
    pub height: i32,
}

/// Whether a number can be held in an `i32`.
pub open spec fn fits_i32(v: int) -> bool {
    i32::MIN <= v <= i32::MAX
}

/// The rectangle has the corner and the extents of the box.
pub open spec fn outlines(r: PixelRect, b: BBox) -> bool {
    &&& r.x == b.x1
    &&& r.y == b.y1
    &&& r.width == b.w()
    &&& r.height == b.h()
}

/// The corner and the extents of the box are 32-bit numbers.
pub open spec fn has_small_numbers(b: BBox) -> bool {
    fits_i32(b.x1 as int) && fits_i32(b.y1 as int) && fits_i32(b.w()) && fits_i32(b.h())
}

/// The rectangle to seed a backend with. Numbers beyond 32 bits lose their
/// upper bits, as they do in a cast.
pub fn seed_rect(seed: &SeedBox) -> (r: PixelRect)
    requires
        fits_i64(seed.bbox().w()),
        fits_i64(seed.bbox().h()),
    ensures
        r.x == seed.bbox().x1 as i32,
        r.y == seed.bbox().y1 as i32,
        r.width == seed.bbox().w() as i32,
        r.height == seed.bbox().h() as i32,
        has_small_numbers(seed.bbox()) ==> outlines(r, seed.bbox()),
{
    let b: BBox = seed.get();
    PixelRect {
        x: #[verifier::truncate] (b.x1 as i32),
        y: #[verifier::truncate] (b.y1 as i32),
        width: #[verifier::truncate] (b.width() as i32),
        height: #[verifier::truncate] (b.height() as i32),
    }
}

/// The box that a backend reports when it was stepped: the rectangle it
/// filled in, or `None` when it did not find the target.
pub fn stepped_box(found: bool, rect: PixelRect) -> (r: Option<BBox>)
    ensures
        r is Some <==> found,
        found ==> outlines(rect, r->0),
        found ==> r->0.x1 == rect.x && r->0.y1 == rect.y && r->0.x2 == rect.x + rect.width
            && r->0.y2 == rect.y + rect.height,
{
    if !found {
        return None;
    }
    let (x, y): (i64, i64) = (rect.x as i64, rect.y as i64);
    Some(BBox::new(x, y, x + rect.width as i64, y + rect.height as i64))
}

/// A backend that reports the rectangle it was seeded with reports the box
/// of the seed.
pub proof fn a_seed_comes_back(b: BBox, rect: PixelRect, reported: BBox)
    requires
        has_small_numbers(b),
        outlines(rect, b),
        outlines(rect, reported),
    ensures
        reported == b,
{
}

/// A rectangle that outlines a box has its upper left corner, its columns and
/// its rows.
pub proof fn outlines_in_coordinates(r: PixelRect, b: BBox)
    ensures
        outlines(r, b) <==> r.x == b.x1 && r.y == b.y1 && r.x + r.width == b.x2 && r.y + r.height
            == b.y2,
{
}

} // verus!
