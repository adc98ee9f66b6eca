//! A reference [`Tracker`]: grayscale template matching by the sum of
//! absolute differences, over a bounded window around the last position.
//!
//! It is meant for tests, demos and the evaluation harness, and has no
//! system dependencies. A deployment should plug in a correlation-filter or
//! learned tracker instead.

use crate::seed::{extent_ok, SeedBox};
use crate::tracker::{FrameView, Tracker, TrackerError};
use crate::types::{larger, BBox};
use vstd::arithmetic::div_mod::lemma_fundamental_div_mod_converse;
use vstd::prelude::*;

verus! {

/// How far from its last position, per axis, a target is searched for. It
/// bounds the cost of an update, and how fast a target can move before it is
/// lost.
pub const SEARCH_MARGIN_PX: i64 = 24;

/// The number of positions searched per axis.
pub const SEARCH_SPAN: i64 = 49;

/// The number of positions searched in all.
pub const SEARCH_POSITIONS: i64 = 2401;

/// The mean absolute difference per pixel, on a scale of 0 to 255, above
/// which the best match is not taken for the target.
pub const MAX_MEAN_SAD: u128 = 40;

/// The gray value of one pixel of a frame, zero outside of it.
pub open spec fn luma(frame: FrameView<'_>, x: int, y: int) -> u8 {
    if 0 <= x < frame.width && 0 <= y < frame.height {
        let i = (y * frame.width + x) * frame.channels;
        let p = frame.pixels@;
        if frame.channels >= 3 {
            ((p[i] * 299 + p[i + 1] * 587 + p[i + 2] * 114) / 1000) as u8
        } else {
            p[i]
        }
    } else {
        0
    }
}

/// The gray values inside a box, row by row.
pub open spec fn gray_patch(frame: FrameView<'_>, roi: BBox) -> Seq<u8> {
    Seq::new(
        roi.pixels() as nat,
        |i: int| luma(frame, roi.x1 + i % roi.w(), roi.y1 + i / roi.w()),
    )
}

/// The sum of absolute differences of the first `n` entries.
pub open spec fn abs_diff_sum(a: Seq<u8>, b: Seq<u8>, n: int) -> int
    decreases n,
{
    if n <= 0 {
        0
    } else {
        abs_diff_sum(a, b, n - 1) + (if a[n - 1] >= b[n - 1] {
            a[n - 1] - b[n - 1]
        } else {
            b[n - 1] - a[n - 1]
        })
    }
}

/// What the tracker holds on to: the gray values that it was seeded with,
/// and the box where it last saw them.
pub struct Target {
    pub gray: Seq<u8>,
    pub bbox: BBox,
}

/// The horizontal shift of search position `k`. Positions run from the top
/// left of the window, row by row.
pub open spec fn shift_x(k: int) -> int {
    k % (SEARCH_SPAN as int) - SEARCH_MARGIN_PX
}

/// The vertical shift of search position `k`.
pub open spec fn shift_y(k: int) -> int {
    k / (SEARCH_SPAN as int) - SEARCH_MARGIN_PX
}

/// The box at search position `k` lies inside the frame.
pub open spec fn searched(b: BBox, frame: FrameView<'_>, k: int) -> bool {
    &&& 0 <= k < SEARCH_POSITIONS
    &&& 0 <= b.x1 + shift_x(k)
    &&& 0 <= b.y1 + shift_y(k)
    &&& b.x2 + shift_x(k) <= frame.width
    &&& b.y2 + shift_y(k) <= frame.height
}

/// The box at search position `k`.
pub open spec fn shifted(b: BBox, k: int) -> BBox {
    BBox {
        x1: (b.x1 + shift_x(k)) as i64,
        y1: (b.y1 + shift_y(k)) as i64,
        x2: (b.x2 + shift_x(k)) as i64,
        y2: (b.y2 + shift_y(k)) as i64,
    }
}

/// The sum of absolute differences at search position `k`.
pub open spec fn sad_at(t: Target, frame: FrameView<'_>, k: int) -> int {
    abs_diff_sum(gray_patch(frame, shifted(t.bbox, k)), t.gray, t.gray.len() as int)
}

/// The match at search position `k` is good enough to be the target.
pub open spec fn accepted(t: Target, frame: FrameView<'_>, k: int) -> bool {
    sad_at(t, frame, k) <= MAX_MEAN_SAD * t.gray.len()
}

/// Position `k` matches best among the searched positions below `n`, and is
/// the first to do so.
pub open spec fn best_below(t: Target, frame: FrameView<'_>, n: int, k: int) -> bool {
    &&& searched(t.bbox, frame, k)
    &&& k < n
    &&& forall|j: int|
        j < n && #[trigger] searched(t.bbox, frame, j) ==> sad_at(t, frame, k) <= sad_at(
            t,
            frame,
            j,
        ) && (j < k ==> sad_at(t, frame, k) < sad_at(t, frame, j))
}

/// Position `k` matches best of all, and is the first to do so.
pub open spec fn best_position(t: Target, frame: FrameView<'_>, k: int) -> bool {
    best_below(t, frame, SEARCH_POSITIONS as int, k)
}

/// The outcome of searching a frame: the best match if it is good enough.
pub open spec fn found(t: Target, frame: FrameView<'_>, r: Option<BBox>) -> bool {
    match r {
        Some(b) => exists|k: int|
            #[trigger] best_position(t, frame, k) && accepted(t, frame, k) && b == shifted(
                t.bbox,
                k,
            ),
        None => forall|k: int| #[trigger]
            searched(t.bbox, frame, k) ==> !accepted(t, frame, k),
    }
}

/// A pixel inside the frame has its bytes inside the buffer.
proof fn lemma_pixel_in_buffer(x: int, y: int, w: int, h: int, ch: int)
    requires
        0 <= x < w,
        0 <= y < h,
        ch >= 1,
    ensures
        0 <= y * w <= y * w + x < w * h,
        0 <= (y * w + x) * ch,
        (y * w + x) * ch + ch <= w * h * ch,
        w * h <= w * h * ch,
{
    assert(0 <= y * w && y * w + x + 1 <= w * h) by (nonlinear_arith)
        requires
            0 <= x < w,
            0 <= y < h,
    ;
    let (a, b) = (y * w + x, w * h);
    assert(a * ch + ch <= b * ch && 0 <= a * ch && b <= b * ch) by (nonlinear_arith)
        requires
            0 <= a,
            a + 1 <= b,
            ch >= 1,
    ;
}

/// The number of pixels of a box is not negative.
proof fn lemma_pixels_are_counted(b: BBox)
    ensures
        b.pixels() >= 0,
{
    assert(larger(b.w(), 0) * larger(b.h(), 0) >= 0) by (nonlinear_arith)
        requires
            larger(b.w(), 0) >= 0,
            larger(b.h(), 0) >= 0,
    ;
}

/// The gray values of the region `roi` of a frame, row by row, with zero for
/// pixels outside of the frame.
pub fn to_gray(pixels: &[u8], width: u32, height: u32, channels: u32, roi: BBox) -> (out: Vec<u8>)
    requires
        (FrameView { pixels, width, height, channels }).wf(),
    ensures
        out@ == gray_patch((FrameView { pixels, width, height, channels }), roi),
        out@.len() == roi.pixels(),
{
    proof {
        lemma_pixels_are_counted(roi);
    }
    let ghost frame = FrameView { pixels, width, height, channels };
    let ghost cols = larger(roi.w(), 0);
    let mut out: Vec<u8> = Vec::new();
    let mut y: i64 = roi.y1;
    if roi.x2 <= roi.x1 || roi.y2 <= roi.y1 {
        assert(roi.pixels() == 0) by (nonlinear_arith)
            requires
                larger(roi.w(), 0) == 0 || larger(roi.h(), 0) == 0,
                roi.pixels() == larger(roi.w(), 0) * larger(roi.h(), 0),
        ;
        assert(out@ == gray_patch(frame, roi));
        return out;
    }
    assert(0 * cols == 0) by (nonlinear_arith);
    while y < roi.y2
        invariant
            frame == (FrameView { pixels, width, height, channels }),
            frame.wf(),
            cols == roi.w(),
            cols > 0,
            roi.y1 <= y <= roi.y2,
            out@.len() == (y - roi.y1) * cols,
            forall|i: int|
                0 <= i < out@.len() ==> out@[i] == luma(
                    frame,
                    roi.x1 + i % cols,
                    roi.y1 + i / cols,
                ),
        decreases roi.y2 - y,
    {
        let mut x: i64 = roi.x1;
        while x < roi.x2
            invariant
                frame == (FrameView { pixels, width, height, channels }),
                frame.wf(),
                cols == roi.w(),
                cols > 0,
                roi.y1 <= y < roi.y2,
                roi.x1 <= x <= roi.x2,
                out@.len() == (y - roi.y1) * cols + (x - roi.x1),
                forall|i: int|
                    0 <= i < out@.len() ==> out@[i] == luma(
                        frame,
                        roi.x1 + i % cols,
                        roi.y1 + i / cols,
                    ),
            decreases roi.x2 - x,
        {
            proof {
                lemma_fundamental_div_mod_converse(
                    out@.len() as int,
                    cols,
                    y - roi.y1,
                    x - roi.x1,
                );
            }
            if x < 0 || y < 0 || x >= width as i64 || y >= height as i64 {
                out.push(0);
            } else {
                proof {
                    lemma_pixel_in_buffer(
                        x as int,
                        y as int,
                        width as int,
                        height as int,
                        channels as int,
                    );
                }
                let i: usize = ((y * (width as i64) + x) * (channels as i64)) as usize;
                if channels >= 3 {
                    let (r, g, b): (u32, u32, u32) = (
                        pixels[i] as u32,
                        pixels[i + 1] as u32,
                        pixels[i + 2] as u32,
                    );
                    out.push(((r * 299 + g * 587 + b * 114) / 1000) as u8);
                } else {
                    out.push(pixels[i]);
                }
            }
            x += 1;
        }
        assert((y - roi.y1) * cols + cols == (y + 1 - roi.y1) * cols) by (nonlinear_arith);
        y += 1;
    }
    assert(larger(roi.h(), 0) * cols == cols * larger(roi.h(), 0)) by (nonlinear_arith);
    assert(out@ == gray_patch(frame, roi));
    out
}

/// The sum of absolute differences of two equally long patches.
fn sad(a: &Vec<u8>, b: &Vec<u8>) -> (r: u128)
    requires
        a@.len() == b@.len(),
    ensures
        r == abs_diff_sum(a@, b@, b@.len() as int),
{
    let mut sum: u128 = 0;
    let mut i: usize = 0;
    while i < a.len()
        invariant
            i <= a@.len(),
            a@.len() == b@.len(),
            sum == abs_diff_sum(a@, b@, i as int),
            sum <= 255 * i,
        decreases a@.len() - i,
    {
        let d: u8 = if a[i] >= b[i] {
            a[i] - b[i]
        } else {
            b[i] - a[i]
        };
        sum += d as u128;
        i += 1;
    }
    sum
}

/// The gray template and the box where it was last seen.
struct Template {
    gray: Vec<u8>,
    bbox: BBox,
}

/// A template-matching tracker on gray values.
pub struct SimpleTracker {
    template: Option<Template>,
}

impl SimpleTracker {
    /// The target, if there is one.
    pub closed spec fn target(&self) -> Option<Target> {
        match self.template {
            Some(t) => Some(Target { gray: t.gray@, bbox: t.bbox }),
            None => None,
        }
    }

    /// The template has the size of the box.
    #[verifier::type_invariant]
    spec fn template_fills_box(self) -> bool {
        self.template is Some ==> extent_ok(self.template->0.bbox)
            && self.template->0.gray@.len() == self.template->0.bbox.pixels()
    }

    pub fn new() -> (r: Self)
        ensures
            r.target() is None,
            !r.active(),
    {
        SimpleTracker { template: None }
    }
}

impl Default for SimpleTracker {
    fn default() -> (r: Self)
        ensures
            r.target() is None,
            !r.active(),
    {
        SimpleTracker::new()
    }
}

impl Tracker for SimpleTracker {
    open spec fn active(&self) -> bool {
        self.target() is Some
    }

    open spec fn may_reinit(
        &self,
        frame: FrameView<'_>,
        seed: SeedBox,
        post: &Self,
        outcome: Result<(), TrackerError>,
    ) -> bool {
        &&& outcome is Ok
        &&& post.target() == Some(
            Target { gray: gray_patch(frame, seed.bbox()), bbox: seed.bbox() },
        )
    }

    open spec fn may_update(
        &self,
        frame: FrameView<'_>,
        post: &Self,
        outcome: Result<Option<BBox>, TrackerError>,
    ) -> bool {
        &&& outcome is Ok
        &&& match self.target() {
            None => outcome->Ok_0 is None && post.target() is None,
            Some(t) => {
                &&& found(t, frame, outcome->Ok_0)
                &&& post.target() == Some(
                    match outcome->Ok_0 {
                        Some(b) => Target { gray: t.gray, bbox: b },
                        None => t,
                    },
                )
            },
        }
    }

    open spec fn may_reset(&self, post: &Self) -> bool {
        post.target() is None
    }

    fn is_active(&self) -> (r: bool) {
        self.template.is_some()
    }

    fn reinit(&mut self, frame: FrameView<'_>, seed: SeedBox) -> (r: Result<(), TrackerError>) {
        let b: BBox = seed.get();
        let gray: Vec<u8> = to_gray(frame.pixels, frame.width, frame.height, frame.channels, b);
        *self = SimpleTracker { template: Some(Template { gray, bbox: b }) };
        Ok(())
    }

    fn update(&mut self, frame: FrameView<'_>) -> (r: Result<Option<BBox>, TrackerError>) {
        proof {
            use_type_invariant(&*self);
        }
        let found_box: Option<BBox> = match &self.template {
            None => None,
            Some(t) => search(&t.gray, t.bbox, frame),
        };
        if let Some(b) = found_box {
            let mut held: SimpleTracker = SimpleTracker::new();
            core::mem::swap(&mut held, self);
            if let Some(t) = held.template {
                *self = SimpleTracker { template: Some(Template { gray: t.gray, bbox: b }) };
            }
        }
        Ok(found_box)
    }

    fn reset(&mut self) {
        *self = SimpleTracker { template: None };
    }
}

/// Searches the window around `cur` for the template.
fn search(gray: &Vec<u8>, cur: BBox, frame: FrameView<'_>) -> (r: Option<BBox>)
    requires
        frame.wf(),
        extent_ok(cur),
        gray@.len() == cur.pixels(),
    ensures
        found(Target { gray: gray@, bbox: cur }, frame, r),
        r is Some ==> r->0.w() == cur.w() && r->0.h() == cur.h(),
{
    let ghost t = Target { gray: gray@, bbox: cur };
    let (fw, fh): (i128, i128) = (frame.width as i128, frame.height as i128);
    let mut best: Option<(BBox, u128)> = None;
    let ghost mut best_k: int = 0;
    let mut k: i64 = 0;
    while k < SEARCH_POSITIONS
        invariant
            0 <= k <= SEARCH_POSITIONS,
            frame.wf(),
            fw == frame.width,
            fh == frame.height,
            extent_ok(cur),
            gray@.len() == cur.pixels(),
            t == (Target { gray: gray@, bbox: cur }),
            best is None ==> forall|j: int| j < k ==> !#[trigger] searched(cur, frame, j),
            best is Some ==> best_below(t, frame, k as int, best_k) && (best->0).0 == shifted(
                cur,
                best_k,
            ) && (best->0).1 == sad_at(t, frame, best_k),
        decreases SEARCH_POSITIONS - k,
    {
        let dx: i128 = (k % SEARCH_SPAN - SEARCH_MARGIN_PX) as i128;
        let dy: i128 = (k / SEARCH_SPAN - SEARCH_MARGIN_PX) as i128;
        let (x1, y1): (i128, i128) = (cur.x1 as i128 + dx, cur.y1 as i128 + dy);
        let (x2, y2): (i128, i128) = (cur.x2 as i128 + dx, cur.y2 as i128 + dy);
        if 0 <= x1 && 0 <= y1 && x2 <= fw && y2 <= fh {
            let candidate: BBox = BBox::new(x1 as i64, y1 as i64, x2 as i64, y2 as i64);
            assert(candidate == shifted(cur, k as int));
            let patch: Vec<u8> = to_gray(
                frame.pixels,
                frame.width,
                frame.height,
                frame.channels,
                candidate,
            );
            let score: u128 = sad(&patch, gray);
            let better: bool = match best {
                None => true,
                Some((_, least)) => score < least,
            };
            if better {
                best = Some((candidate, score));
                proof {
                    best_k = k as int;
                }
            }
        }
        k += 1;
    }
    match best {
        Some((b, score)) => {
            assert(best_position(t, frame, best_k));
            if score <= MAX_MEAN_SAD * (gray.len() as u128) {
                Some(b)
            } else {
                None
            }
        },
        None => None,
    }
}

/// A patch differs from itself by nothing, and patches that differ by
/// nothing are the same.
pub proof fn differences_tell_patches_apart(a: Seq<u8>, b: Seq<u8>, n: int)
    requires
        0 <= n <= a.len(),
        n <= b.len(),
    ensures
        abs_diff_sum(a, b, n) >= 0,
        abs_diff_sum(a, b, n) == 0 <==> a.take(n) == b.take(n),
    decreases n,
{
    if n > 0 {
        differences_tell_patches_apart(a, b, n - 1);
        assert(a.take(n) == a.take(n - 1).push(a[n - 1]));
        assert(b.take(n) == b.take(n - 1).push(b[n - 1]));
        if a.take(n) == b.take(n) {
            assert(a.take(n)[n - 1] == b.take(n)[n - 1]);
            assert(a.take(n - 1) == a.take(n).take(n - 1));
            assert(b.take(n - 1) == b.take(n).take(n - 1));
        }
    } else {
        assert(a.take(0) == b.take(0));
    }
}

/// Searching a frame has one outcome.
pub proof fn search_is_unique(t: Target, frame: FrameView<'_>, r: Option<BBox>, s: Option<BBox>)
    requires
        found(t, frame, r),
        found(t, frame, s),
    ensures
        r == s,
{
    if r is Some {
        let i = choose|i: int| #[trigger]
            best_position(t, frame, i) && accepted(t, frame, i) && r->0 == shifted(t.bbox, i);
        assert(searched(t.bbox, frame, i));
        if s is Some {
            let j = choose|j: int| #[trigger]
                best_position(t, frame, j) && accepted(t, frame, j) && s->0 == shifted(t.bbox, j);
            assert(searched(t.bbox, frame, j));
            assert(i == j);
        }
    } else if s is Some {
        let j = choose|j: int| #[trigger]
            best_position(t, frame, j) && accepted(t, frame, j) && s->0 == shifted(t.bbox, j);
        assert(searched(t.bbox, frame, j));
    }
}

/// A target that is found is inside the frame, has kept its size, and has
/// moved no further than the search margin.
pub proof fn a_found_box_is_near(t: Target, frame: FrameView<'_>, r: Option<BBox>)
    requires
        t.bbox.x1 <= t.bbox.x2,
        t.bbox.y1 <= t.bbox.y2,
        found(t, frame, r),
        r is Some,
    ensures
        0 <= r->0.x1,
        0 <= r->0.y1,
        r->0.x2 <= frame.width,
        r->0.y2 <= frame.height,
        r->0.w() == t.bbox.w(),
        r->0.h() == t.bbox.h(),
        -SEARCH_MARGIN_PX <= r->0.x1 - t.bbox.x1 <= SEARCH_MARGIN_PX,
        -SEARCH_MARGIN_PX <= r->0.y1 - t.bbox.y1 <= SEARCH_MARGIN_PX,
{
    let k = choose|k: int| #[trigger]
        best_position(t, frame, k) && accepted(t, frame, k) && r->0 == shifted(t.bbox, k);
    assert(searched(t.bbox, frame, k));
}

/// A target that shows up unchanged within the search margin is found, at a
/// place that looks exactly like it.
pub proof fn an_unchanged_target_is_found(
    t: Target,
    frame: FrameView<'_>,
    k: int,
    r: Option<BBox>,
)
    requires
        searched(t.bbox, frame, k),
        gray_patch(frame, shifted(t.bbox, k)) == t.gray,
        t.bbox.x1 <= t.bbox.x2,
        t.bbox.y1 <= t.bbox.y2,
        t.gray.len() == t.bbox.pixels(),
        found(t, frame, r),
    ensures
        r is Some,
        gray_patch(frame, r->0) == t.gray,
{
    let n = t.gray.len() as int;
    differences_tell_patches_apart(t.gray, t.gray, n);
    assert(sad_at(t, frame, k) == 0);
    assert(accepted(t, frame, k));
    let best = choose|best: int| #[trigger]
        best_position(t, frame, best) && accepted(t, frame, best) && r->0 == shifted(
            t.bbox,
            best,
        );
    let patch = gray_patch(frame, r->0);
    lemma_pixels_are_counted(t.bbox);
    assert(searched(t.bbox, frame, best));
    assert(r->0.w() == t.bbox.w() && r->0.h() == t.bbox.h());
    assert(patch.len() == n);
    assert(sad_at(t, frame, best) <= sad_at(t, frame, k));
    differences_tell_patches_apart(patch, t.gray, n);
    assert(patch.take(n) == patch);
    assert(t.gray.take(n) == t.gray);
}

/// A tracker that was seeded inside a frame still finds its target when the
/// very same frame comes again.
pub proof fn a_still_target_is_kept(
    before: SimpleTracker,
    frame: FrameView<'_>,
    seed: SeedBox,
    seeded: SimpleTracker,
    seed_outcome: Result<(), TrackerError>,
    after: SimpleTracker,
    outcome: Result<Option<BBox>, TrackerError>,
)
    requires
        before.may_reinit(frame, seed, &seeded, seed_outcome),
        seeded.may_update(frame, &after, outcome),
        0 <= seed.bbox().x1 <= seed.bbox().x2 <= frame.width,
        0 <= seed.bbox().y1 <= seed.bbox().y2 <= frame.height,
    ensures
        outcome is Ok,
        outcome->Ok_0 is Some,
        gray_patch(frame, outcome->Ok_0->0) == gray_patch(frame, seed.bbox()),
{
    let b = seed.bbox();
    let t = Target { gray: gray_patch(frame, b), bbox: b };
    let middle: int = 1200;
    lemma_pixels_are_counted(b);
    assert(shift_x(middle) == 0 && shift_y(middle) == 0);
    assert(shifted(b, middle) == b);
    assert(searched(b, frame, middle));
    an_unchanged_target_is_found(t, frame, middle, outcome->Ok_0);
}

/// A patch holds one gray value per pixel of its box, row by row. The gray
/// value of a colour pixel is its red, green and blue in the shares 299, 587
/// and 114 of a thousand, that of any other pixel its first byte, and zero
/// outside of the frame.
pub proof fn a_patch_holds_the_gray_values(frame: FrameView<'_>, roi: BBox, x: int, y: int)
    requires
        roi.x1 <= x < roi.x2,
        roi.y1 <= y < roi.y2,
    ensures
        ({
            let patch = gray_patch(frame, roi);
            let i = (y - roi.y1) * (roi.x2 - roi.x1) + (x - roi.x1);
            let at = (y * frame.width + x) * frame.channels;
            let inside = 0 <= x < frame.width && 0 <= y < frame.height;
            &&& patch.len() == (roi.x2 - roi.x1) * (roi.y2 - roi.y1)
            &&& 0 <= i < patch.len()
            &&& !inside ==> patch[i] == 0
            &&& inside && frame.channels < 3 ==> patch[i] == frame.pixels@[at]
            &&& inside && frame.channels >= 3 ==> patch[i] == (299 * frame.pixels@[at] + 587
                * frame.pixels@[at + 1] + 114 * frame.pixels@[at + 2]) / 1000
        }),
{
    let (w, h) = (roi.w(), roi.h());
    let (row, col) = (y - roi.y1, x - roi.x1);
    let i = row * w + col;
    assert(0 <= row * w && row * w + col < w * h && w * h >= 0) by (nonlinear_arith)
        requires
            0 <= row < h,
            0 <= col < w,
    ;
    lemma_fundamental_div_mod_converse(i, w, row, col);
}

/// Every pixel counts by its own difference, and by nothing else: when one
/// value changes, the sum changes by what the difference there does.
pub proof fn each_pixel_counts_by_its_difference(a: Seq<u8>, b: Seq<u8>, n: int, i: int, v: u8)
    requires
        0 <= i < n <= a.len(),
        n <= b.len(),
    ensures
        ({
            let before = if a[i] >= b[i] {
                a[i] - b[i]
            } else {
                b[i] - a[i]
            };
            let after = if v >= b[i] {
                v - b[i]
            } else {
                b[i] - v
            };
            abs_diff_sum(a.update(i, v), b, n) - abs_diff_sum(a, b, n) == after - before
        }),
    decreases n,
{
    let c = a.update(i, v);
    if i < n - 1 {
        each_pixel_counts_by_its_difference(a, b, n - 1, i, v);
        assert(c[n - 1] == a[n - 1]);
    } else {
        lemma_prefix_decides(a, c, b, n - 1);
    }
}

/// Values behind the first `n` do not count.
proof fn lemma_prefix_decides(a: Seq<u8>, c: Seq<u8>, b: Seq<u8>, n: int)
    requires
        0 <= n <= a.len(),
        n <= c.len(),
        forall|j: int| 0 <= j < n ==> a[j] == #[trigger] c[j],
    ensures
        abs_diff_sum(a, b, n) == abs_diff_sum(c, b, n),
    decreases n,
{
    if n > 0 {
        lemma_prefix_decides(a, c, b, n - 1);
    }
}

/// The search, in coordinates: for every place that is at most 24 pixels
/// away per axis and inside the frame, what is found matches at least as well
/// as that place does, and nothing is given up as long as the place differs
/// by no more than 40 per pixel. Among places that match alike, the upper one
/// is taken, and on the same row the left one.
pub proof fn the_best_place_in_the_window_is_found(
    t: Target,
    frame: FrameView<'_>,
    r: Option<BBox>,
    dx: int,
    dy: int,
    place: BBox,
)
    requires
        found(t, frame, r),
        t.bbox.x1 <= t.bbox.x2,
        t.bbox.y1 <= t.bbox.y2,
        -24 <= dx <= 24,
        -24 <= dy <= 24,
        place.x1 == t.bbox.x1 + dx,
        place.y1 == t.bbox.y1 + dy,
        place.x2 == t.bbox.x2 + dx,
        place.y2 == t.bbox.y2 + dy,
        0 <= place.x1,
        0 <= place.y1,
        place.x2 <= frame.width,
        place.y2 <= frame.height,
    ensures
        ({
            let n = t.gray.len() as int;
            let here = abs_diff_sum(gray_patch(frame, place), t.gray, n);
            &&& here <= 40 * n ==> r is Some
            &&& r is Some ==> {
                let there = abs_diff_sum(gray_patch(frame, r->0), t.gray, n);
                &&& there <= here
                &&& there <= 40 * n
                &&& there == here ==> r->0.y1 < place.y1 || (r->0.y1 == place.y1 && r->0.x1
                    <= place.x1)
                &&& -24 <= r->0.x1 - t.bbox.x1 <= 24
                &&& -24 <= r->0.y1 - t.bbox.y1 <= 24
                &&& r->0.x2 - r->0.x1 == t.bbox.x2 - t.bbox.x1
                &&& r->0.y2 - r->0.y1 == t.bbox.y2 - t.bbox.y1
                &&& 0 <= r->0.x1 && r->0.x2 <= frame.width
                &&& 0 <= r->0.y1 && r->0.y2 <= frame.height
            }
        }),
{
    let j = (dy + 24) * 49 + (dx + 24);
    lemma_fundamental_div_mod_converse(j, 49, dy + 24, dx + 24);
    assert(shift_x(j) == dx && shift_y(j) == dy);
    assert(shifted(t.bbox, j) == place);
    assert(searched(t.bbox, frame, j));
    assert(sad_at(t, frame, j) == abs_diff_sum(
        gray_patch(frame, place),
        t.gray,
        t.gray.len() as int,
    ));
    if r is Some {
        let k = choose|k: int| #[trigger]
            best_position(t, frame, k) && accepted(t, frame, k) && r->0 == shifted(t.bbox, k);
        assert(searched(t.bbox, frame, k));
        assert(sad_at(t, frame, k) <= sad_at(t, frame, j));
        assert(k == 49 * (k / 49) + k % 49);
        if sad_at(t, frame, k) == sad_at(t, frame, j) {
            assert(k <= j);
        }
    } else {
        assert(!accepted(t, frame, j));
    }
}

/// What is found has the size of the target, is inside the frame, at most 24
/// pixels away per axis, and differs by no more than 40 per pixel.
pub proof fn what_is_found_is_close_enough(t: Target, frame: FrameView<'_>, r: Option<BBox>)
    requires
        found(t, frame, r),
        t.bbox.x1 <= t.bbox.x2,
        t.bbox.y1 <= t.bbox.y2,
        r is Some,
    ensures
        abs_diff_sum(gray_patch(frame, r->0), t.gray, t.gray.len() as int) <= 40 * t.gray.len(),
        r->0.x2 - r->0.x1 == t.bbox.x2 - t.bbox.x1,
        r->0.y2 - r->0.y1 == t.bbox.y2 - t.bbox.y1,
        -24 <= r->0.x1 - t.bbox.x1 <= 24,
        -24 <= r->0.y1 - t.bbox.y1 <= 24,
        0 <= r->0.x1,
        0 <= r->0.y1,
        r->0.x2 <= frame.width,
        r->0.y2 <= frame.height,
{
    let k = choose|k: int| #[trigger]
        best_position(t, frame, k) && accepted(t, frame, k) && r->0 == shifted(t.bbox, k);
    assert(searched(t.bbox, frame, k));
}

/// A tracker remembers the gray values inside the box that it was seeded
/// with, and the box. Seeding never fails.
pub proof fn a_seed_is_remembered(
    before: SimpleTracker,
    frame: FrameView<'_>,
    seed: SeedBox,
    after: SimpleTracker,
    outcome: Result<(), TrackerError>,
)
    requires
        before.may_reinit(frame, seed, &after, outcome),
    ensures
        outcome is Ok,
        after.target() is Some,
        after.target()->0.bbox == seed.bbox(),
        after.target()->0.gray == gray_patch(frame, seed.bbox()),
{
}

/// A step keeps the gray values that the tracker was seeded with, and moves
/// its box to where the target is found. A target that is not found stays
/// where it was last seen, and can be found again. Without a target nothing
/// is found. A step never fails.
pub proof fn a_step_moves_the_box_alone(
    before: SimpleTracker,
    frame: FrameView<'_>,
    after: SimpleTracker,
    outcome: Result<Option<BBox>, TrackerError>,
)
    requires
        before.may_update(frame, &after, outcome),
    ensures
        outcome is Ok,
        before.target() is None ==> outcome->Ok_0 is None && after.target() is None,
        before.target() is Some ==> after.target() is Some && after.target()->0.gray
            == before.target()->0.gray && after.target()->0.bbox == (match outcome->Ok_0 {
            Some(b) => b,
            None => before.target()->0.bbox,
        }) && found(before.target()->0, frame, outcome->Ok_0),
{
}

/// A target that moves is followed. A tracker that was seeded in one picture
/// finds its target in the next, wherever it shows up unchanged inside the
/// frame and at most 24 pixels away per axis: what it reports looks exactly
/// like the seed, and where the target shows up only once, is that very place.
pub proof fn a_moved_target_is_followed(
    before: SimpleTracker,
    first: FrameView<'_>,
    seed: SeedBox,
    seeded: SimpleTracker,
    seed_outcome: Result<(), TrackerError>,
    second: FrameView<'_>,
    after: SimpleTracker,
    outcome: Result<Option<BBox>, TrackerError>,
    dx: int,
    dy: int,
)
    requires
        before.may_reinit(first, seed, &seeded, seed_outcome),
        seeded.may_update(second, &after, outcome),
        seed.bbox().x1 < seed.bbox().x2,
        seed.bbox().y1 < seed.bbox().y2,
        -24 <= dx <= 24,
        -24 <= dy <= 24,
        0 <= seed.bbox().x1 + dx,
        0 <= seed.bbox().y1 + dy,
        seed.bbox().x2 + dx <= second.width,
        seed.bbox().y2 + dy <= second.height,
        forall|x: int, y: int|
            seed.bbox().x1 <= x < seed.bbox().x2 && seed.bbox().y1 <= y < seed.bbox().y2
                ==> #[trigger] luma(second, x + dx, y + dy) == luma(first, x, y),
    ensures
        outcome is Ok,
        outcome->Ok_0 is Some,
        gray_patch(second, outcome->Ok_0->0) == gray_patch(first, seed.bbox()),
        after.target()->0.bbox == outcome->Ok_0->0,
        (forall|b: BBox|
            #![trigger gray_patch(second, b)]
            gray_patch(second, b) == gray_patch(first, seed.bbox()) && b.w() == seed.bbox().w()
                && b.h() == seed.bbox().h() ==> b.x1 == seed.bbox().x1 + dx && b.y1
                == seed.bbox().y1 + dy) ==> outcome->Ok_0->0.x1 == seed.bbox().x1 + dx
            && outcome->Ok_0->0.y1 == seed.bbox().y1 + dy,
{
    let b = seed.bbox();
    let r = outcome->Ok_0;
    let t = Target { gray: gray_patch(first, b), bbox: b };
    let place = BBox {
        x1: (b.x1 + dx) as i64,
        y1: (b.y1 + dy) as i64,
        x2: (b.x2 + dx) as i64,
        y2: (b.y2 + dy) as i64,
    };
    let n = t.gray.len() as int;
    let patch = gray_patch(second, place);
    lemma_pixels_are_counted(b);
    assert(place.w() == b.w() && place.h() == b.h());
    assert(patch =~= t.gray) by {
        assert forall|i: int| 0 <= i < n implies patch[i] == t.gray[i] by {
            let (w, h) = (b.w(), b.h());
            let (col, row) = (i % w, i / w);
            assert(0 <= col < w && 0 <= row < h) by (nonlinear_arith)
                requires
                    0 <= i < w * h,
                    w > 0,
                    col == i % w,
                    row == i / w,
            ;
            assert(luma(second, b.x1 + col + dx, b.y1 + row + dy) == luma(
                first,
                b.x1 + col,
                b.y1 + row,
            ));
            assert(place.x1 + col == b.x1 + col + dx);
            assert(place.y1 + row == b.y1 + row + dy);
        }
    }
    the_best_place_in_the_window_is_found(t, second, r, dx, dy, place);
    differences_tell_patches_apart(patch, t.gray, n);
    assert(patch.take(n) == t.gray.take(n));
    let got = gray_patch(second, r->0);
    assert(r->0.w() == b.w() && r->0.h() == b.h());
    assert(got.len() == n);
    differences_tell_patches_apart(got, t.gray, n);
    assert(got.take(n) == got);
    assert(t.gray.take(n) == t.gray);
}

/// A step of a tracker with a target, in coordinates: for every place that is
/// at most 24 pixels away per axis and inside the frame, the step gives a box
/// that matches at least as well, and it gives one whenever the place differs
/// by no more than 40 per pixel. In particular, when the place looks exactly
/// like the target, so does the box that the step gives.
pub proof fn a_step_gives_the_best_place(
    before: SimpleTracker,
    frame: FrameView<'_>,
    after: SimpleTracker,
    outcome: Result<Option<BBox>, TrackerError>,
    dx: int,
    dy: int,
    place: BBox,
)
    requires
        before.may_update(frame, &after, outcome),
        before.target() is Some,
        before.target()->0.bbox.x1 <= before.target()->0.bbox.x2,
        before.target()->0.bbox.y1 <= before.target()->0.bbox.y2,
        before.target()->0.gray.len() == before.target()->0.bbox.pixels(),
        -24 <= dx <= 24,
        -24 <= dy <= 24,
        place.x1 == before.target()->0.bbox.x1 + dx,
        place.y1 == before.target()->0.bbox.y1 + dy,
        place.x2 == before.target()->0.bbox.x2 + dx,
        place.y2 == before.target()->0.bbox.y2 + dy,
        0 <= place.x1,
        0 <= place.y1,
        place.x2 <= frame.width,
        place.y2 <= frame.height,
    ensures
        outcome is Ok,
        ({
            let (t, r) = (before.target()->0, outcome->Ok_0);
            let n = t.gray.len() as int;
            let here = abs_diff_sum(gray_patch(frame, place), t.gray, n);
            &&& here <= 40 * n ==> r is Some
            &&& r is Some ==> abs_diff_sum(gray_patch(frame, r->0), t.gray, n) <= here
            &&& gray_patch(frame, place) == t.gray ==> r is Some && gray_patch(frame, r->0)
                == t.gray
        }),
{
    let (t, r) = (before.target()->0, outcome->Ok_0);
    let n = t.gray.len() as int;
    the_best_place_in_the_window_is_found(t, frame, r, dx, dy, place);
    if gray_patch(frame, place) == t.gray {
        differences_tell_patches_apart(t.gray, t.gray, n);
        let got = gray_patch(frame, r->0);
        lemma_pixels_are_counted(t.bbox);
        assert(r->0.w() == t.bbox.w() && r->0.h() == t.bbox.h());
        assert(got.len() == n);
        differences_tell_patches_apart(got, t.gray, n);
        assert(got.take(n) == got);
        assert(t.gray.take(n) == t.gray);
    }
}

} // verus!
