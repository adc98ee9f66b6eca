//! Acquisition (central policy, two-batch confirmation) and refresh (overlap
//! association).
//!
//! A single detector batch is noisy and never locks a track on its own: only
//! two consecutive batches that agree spatially confirm a lock. Together
//! with [`Detection`] carrying no label, this keeps a one-frame false
//! positive from stealing the lock.
//!
//! Distances are measured in half-pixels, in which the centre of every box
//! is a whole number, and overlaps are exact fractions.

use crate::ratio::Ratio;
use crate::types::{larger, max_i64, min_i64, smaller, BBox, Confidence, Detection};
use crate::wide::{half_weight, Wide};
use vstd::prelude::*;

verus! {

/// The box that two boxes have in common, reversed where they do not meet.
pub open spec fn common(a: BBox, b: BBox) -> BBox {
    BBox {
        x1: larger(a.x1 as int, b.x1 as int) as i64,
        y1: larger(a.y1 as int, b.y1 as int) as i64,
        x2: smaller(a.x2 as int, b.x2 as int) as i64,
        y2: smaller(a.y2 as int, b.y2 as int) as i64,
    }
}

/// The number of pixels in both boxes.
pub open spec fn shared_pixels(a: BBox, b: BBox) -> int {
    common(a, b).pixels()
}

/// The number of pixels in either box.
pub open spec fn covered_pixels(a: BBox, b: BBox) -> int {
    a.pixels() + b.pixels() - shared_pixels(a, b)
}

/// The numerator of the overlap of two boxes.
pub open spec fn iou_num(a: BBox, b: BBox) -> int {
    shared_pixels(a, b)
}

/// The denominator of the overlap of two boxes. Boxes without a common pixel
/// overlap by zero, written as `0 / 1`.
pub open spec fn iou_den(a: BBox, b: BBox) -> int {
    if shared_pixels(a, b) == 0 {
        1
    } else {
        covered_pixels(a, b)
    }
}

/// An intersection-over-union, as the exact fraction `shared / covered`.
#[derive(Debug, Clone, Copy, PartialEq, Eq)]
pub struct Iou {
    pub shared: u128,
    pub covered: u128,
}

impl Iou {
    /// The fraction of two boxes.
    pub open spec fn of_boxes(self, a: BBox, b: BBox) -> bool {
        self.shared == iou_num(a, b) && self.covered == iou_den(a, b)
    }

    /// Whether the overlap is at or above `threshold`.
    pub fn at_least(&self, threshold: Ratio) -> (r: bool)
        ensures
            r == (self.shared * threshold.den() >= threshold.num() * self.covered),
    {
        let num: i64 = threshold.numerator();
        let den: u64 = threshold.denominator();
        if num <= 0 {
            assert(self.shared * den >= 0 >= num * self.covered) by (nonlinear_arith)
                requires
                    num <= 0,
                    den > 0,
            ;
            return true;
        }
        !Wide::product(self.shared, den as u128).less(&Wide::product(num as u128, self.covered))
    }

    /// Whether the overlap is strictly above `other`.
    pub fn exceeds(&self, other: &Iou) -> (r: bool)
        ensures
            r == (self.shared * other.covered > other.shared * self.covered),
    {
        Wide::product(other.shared, self.covered).less(&Wide::product(self.shared, other.covered))
    }
}

/// Two overlapping boxes cover no more than their common bounding box.
proof fn lemma_cover_bound(wa: int, ha: int, wb: int, hb: int, wi: int, hi: int, span: int)
    requires
        0 < wi <= wa,
        wi <= wb,
        0 < hi <= ha,
        hi <= hb,
        wa + wb - wi <= span,
        ha + hb - hi <= span,
    ensures
        wi * hi <= wb * hb,
        wi * hi <= wa * ha,
        wa * ha + wb * hb - wi * hi <= span * span,
        0 < wi * hi,
        0 < wa * ha,
        0 < wb * hb,
{
    assert(wi * hi <= wb * hb && wi * hi <= wa * ha && 0 < wi * hi) by (nonlinear_arith)
        requires
            0 < wi <= wa,
            wi <= wb,
            0 < hi <= ha,
            hi <= hb,
    ;
    let (p, q, r, s) = (wa - wi, wb - wi, ha - hi, hb - hi);
    assert(wa * ha == wi * hi + wi * r + p * hi + p * r) by (nonlinear_arith)
        requires
            wa == wi + p,
            ha == hi + r,
    ;
    assert(wb * hb == wi * hi + wi * s + q * hi + q * s) by (nonlinear_arith)
        requires
            wb == wi + q,
            hb == hi + s,
    ;
    assert((wi + p + q) * (hi + r + s) == wi * hi + wi * r + wi * s + p * hi + p * r + p * s + q
        * hi + q * r + q * s) by (nonlinear_arith);
    assert(p * s >= 0 && q * r >= 0) by (nonlinear_arith)
        requires
            p >= 0,
            q >= 0,
            r >= 0,
            s >= 0,
    ;
    assert((wi + p + q) * (hi + r + s) <= span * span) by (nonlinear_arith)
        requires
            0 < wi + p + q <= span,
            0 < hi + r + s <= span,
    ;
}

/// The extent between two coordinates.
fn gap(lo: i64, hi: i64) -> (r: u128)
    requires
        lo <= hi,
    ensures
        r == hi - lo,
        r <= u64::MAX,
{
    (hi as i128 - lo as i128) as u128
}

/// The intersection-over-union of two boxes.
pub fn iou(a: BBox, b: BBox) -> (r: Iou)
    ensures
        r.of_boxes(a, b),
        r.shared == iou_num(a, b),
        r.covered == iou_den(a, b),
        r.shared <= r.covered,
        r.covered > 0,
{
    let (ix1, iy1): (i64, i64) = (max_i64(a.x1, b.x1), max_i64(a.y1, b.y1));
    let (ix2, iy2): (i64, i64) = (min_i64(a.x2, b.x2), min_i64(a.y2, b.y2));
    if ix2 <= ix1 || iy2 <= iy1 {
        assert(shared_pixels(a, b) == 0) by (nonlinear_arith)
            requires
                larger(common(a, b).w(), 0) == 0 || larger(common(a, b).h(), 0) == 0,
                shared_pixels(a, b) == larger(common(a, b).w(), 0) * larger(common(a, b).h(), 0),
        ;
        return Iou { shared: 0, covered: 1 };
    }
    let (wi, hi): (u128, u128) = (gap(ix1, ix2), gap(iy1, iy2));
    let (wa, ha): (u128, u128) = (gap(a.x1, a.x2), gap(a.y1, a.y2));
    let (wb, hb): (u128, u128) = (gap(b.x1, b.x2), gap(b.y1, b.y2));
    proof {
        lemma_cover_bound(
            wa as int,
            ha as int,
            wb as int,
            hb as int,
            wi as int,
            hi as int,
            u64::MAX as int,
        );
    }
    let shared: u128 = wi * hi;
    let area_a: u128 = wa * ha;
    let area_b: u128 = wb * hb;
    Iou { shared, covered: area_a + (area_b - shared) }
}

/// The squared distance between the centre of a box and a point, everything
/// in half-pixels.
pub open spec fn sq_dist(b: BBox, cx: int, cy: int) -> int {
    (b.x1 + b.x2 - cx) * (b.x1 + b.x2 - cx) + (b.y1 + b.y2 - cy) * (b.y1 + b.y2 - cy)
}

/// A squared distance in half-pixels is within a limit given in pixels.
pub open spec fn within(sq: int, limit: Ratio) -> bool {
    limit.num() >= 0 && sq * (limit.den() * limit.den()) <= (2 * limit.num()) * (2 * limit.num())
}

/// The square of a difference of two doubled coordinates.
fn square_of_gap(a: i128, b: i128) -> (r: Wide)
    requires
        -0x2_0000_0000_0000_0000 <= a <= 0x2_0000_0000_0000_0000,
        -0x2_0000_0000_0000_0000 <= b <= 0x2_0000_0000_0000_0000,
    ensures
        r@ == (a - b) * (a - b),
        0 <= r@ < 0x8_0000_0000_0000_0000 * 0x8_0000_0000_0000_0000,
{
    let d: u128 = if a >= b {
        (a - b) as u128
    } else {
        (b - a) as u128
    };
    assert(d * d == (a - b) * (a - b)) by (nonlinear_arith)
        requires
            d == a - b || d == b - a,
    ;
    assert(0 <= d * d < 0x8_0000_0000_0000_0000 * 0x8_0000_0000_0000_0000) by (nonlinear_arith)
        requires
            0 <= d < 0x8_0000_0000_0000_0000,
    ;
    Wide::product(d, d)
}

/// The squared distance between the centre of `b` and a point, everything in
/// half-pixels.
pub fn sq_dist_to(b: BBox, cx: i128, cy: i128) -> (r: Wide)
    requires
        -0x2_0000_0000_0000_0000 <= cx <= 0x2_0000_0000_0000_0000,
        -0x2_0000_0000_0000_0000 <= cy <= 0x2_0000_0000_0000_0000,
    ensures
        r@ == sq_dist(b, cx as int, cy as int),
{
    let (bx, by): (i128, i128) = b.centre();
    square_of_gap(bx, cx).plus(square_of_gap(by, cy))
}

/// Whether a squared distance in half-pixels is within `limit` pixels.
fn is_within(sq: &Wide, limit: Ratio) -> (r: bool)
    requires
        sq@ >= 0,
    ensures
        r == within(sq@, limit),
{
    let num: i64 = limit.numerator();
    let den: u64 = limit.denominator();
    if num < 0 {
        return false;
    }
    let twice: u128 = 2 * (num as u128);
    let d: u128 = den as u128;
    assert(0 <= twice * twice <= u128::MAX) by (nonlinear_arith)
        requires
            0 <= twice <= 0xFFFF_FFFF_FFFF_FFFE,
    ;
    assert(0 < d * d <= u128::MAX) by (nonlinear_arith)
        requires
            0 < d <= 0xFFFF_FFFF_FFFF_FFFF,
    ;
    let most: u128 = (twice * twice) / (d * d);
    proof {
        let (s, t, u) = (sq@, (twice * twice) as int, (d * d) as int);
        // s * u <= t exactly when s is at most the whole part of t / u.
        assert(s * u <= t <==> s <= t / u) by (nonlinear_arith)
            requires
                u > 0,
        ;
        if sq.hi > 0 {
            assert(sq.hi * half_weight() >= half_weight()) by (nonlinear_arith)
                requires
                    sq.hi >= 1,
            ;
        }
    }
    sq.hi == 0 && sq.lo <= most
}

/// A detection is confident enough.
pub open spec fn qualifies(d: Detection, min_conf: Confidence) -> bool {
    d.confidence.bits() >= min_conf.bits()
}

/// Whether a detection is confident enough.
fn is_qualifying(d: &Detection, min_conf: Confidence) -> (r: bool)
    ensures
        r == qualifies(*d, min_conf),
{
    d.confidence.value() >= min_conf.value()
}

/// Entry `i` is the best of the eligible entries, and the first among
/// equals.
pub open spec fn first_best(
    dets: Seq<Detection>,
    eligible: spec_fn(Detection) -> bool,
    better: spec_fn(Detection, Detection) -> bool,
    i: int,
) -> bool {
    &&& 0 <= i < dets.len()
    &&& eligible(dets[i])
    &&& forall|j: int|
        #![trigger dets[j]]
        0 <= j < dets.len() && eligible(dets[j]) ==> !better(dets[j], dets[i]) && (j < i ==> better(
            dets[i],
            dets[j],
        ))
}

/// Entry `i` is the best of the eligible entries, and the last among equals.
pub open spec fn last_best(
    dets: Seq<Detection>,
    eligible: spec_fn(Detection) -> bool,
    better: spec_fn(Detection, Detection) -> bool,
    i: int,
) -> bool {
    &&& 0 <= i < dets.len()
    &&& eligible(dets[i])
    &&& forall|j: int|
        #![trigger dets[j]]
        0 <= j < dets.len() && eligible(dets[j]) ==> !better(dets[j], dets[i]) && (i < j ==> better(
            dets[i],
            dets[j],
        ))
}

/// No entry is eligible.
pub open spec fn none_eligible(dets: Seq<Detection>, eligible: spec_fn(Detection) -> bool) -> bool {
    forall|j: int| 0 <= j < dets.len() ==> !eligible(#[trigger] dets[j])
}

/// `r` is the first best eligible entry, or `None` when there is none.
pub open spec fn picks_first(
    dets: Seq<Detection>,
    eligible: spec_fn(Detection) -> bool,
    better: spec_fn(Detection, Detection) -> bool,
    r: Option<Detection>,
) -> bool {
    match r {
        Some(d) => exists|i: int| #[trigger] first_best(dets, eligible, better, i) && d == dets[i],
        None => none_eligible(dets, eligible),
    }
}

/// `r` is the last best eligible entry, or `None` when there is none.
pub open spec fn picks_last(
    dets: Seq<Detection>,
    eligible: spec_fn(Detection) -> bool,
    better: spec_fn(Detection, Detection) -> bool,
    r: Option<Detection>,
) -> bool {
    match r {
        Some(d) => exists|i: int| #[trigger] last_best(dets, eligible, better, i) && d == dets[i],
        None => none_eligible(dets, eligible),
    }
}

/// Confident enough to be nominated.
pub open spec fn nominable(min_conf: Confidence) -> spec_fn(Detection) -> bool {
    |d: Detection| qualifies(d, min_conf)
}

/// Confident enough, and within `gate_px` of the box `prev`.
pub open spec fn agreeing(prev: BBox, min_conf: Confidence, gate_px: Ratio) -> spec_fn(
    Detection,
) -> bool {
    |d: Detection|
        qualifies(d, min_conf) && within(
            sq_dist(d.bbox, prev.x1 + prev.x2, prev.y1 + prev.y2),
            gate_px,
        )
}

/// Closer to a point, given in half-pixels.
pub open spec fn closer(cx: int, cy: int) -> spec_fn(Detection, Detection) -> bool {
    |d: Detection, e: Detection| sq_dist(d.bbox, cx, cy) < sq_dist(e.bbox, cx, cy)
}

/// Confident enough, and overlapping `current` by at least the threshold.
pub open spec fn associable(current: BBox, min_conf: Confidence, threshold: Ratio) -> spec_fn(
    Detection,
) -> bool {
    |d: Detection|
        qualifies(d, min_conf) && iou_num(current, d.bbox) * threshold.den() >= threshold.num()
            * iou_den(current, d.bbox)
}

/// Overlapping `current` by more.
pub open spec fn overlaps_more(current: BBox) -> spec_fn(Detection, Detection) -> bool {
    |d: Detection, e: Detection|
        iou_num(current, d.bbox) * iou_den(current, e.bbox) > iou_num(current, e.bbox) * iou_den(
            current,
            d.bbox,
        )
}

/// The central policy: the first most central detection that is confident
/// enough. The centre of the frame, in half-pixels, is its size.
pub open spec fn central_choice(
    dets: Seq<Detection>,
    frame_w: int,
    frame_h: int,
    min_conf: Confidence,
    r: Option<Detection>,
) -> bool {
    picks_first(dets, nominable(min_conf), closer(frame_w, frame_h), r)
}

/// The detection that agrees best with an earlier candidate.
pub open spec fn agreeing_choice(
    prev: BBox,
    dets: Seq<Detection>,
    min_conf: Confidence,
    gate_px: Ratio,
    r: Option<Detection>,
) -> bool {
    picks_first(
        dets,
        agreeing(prev, min_conf, gate_px),
        closer(prev.x1 + prev.x2, prev.y1 + prev.y2),
        r,
    )
}

/// The association: the last detection that overlaps the current box most.
pub open spec fn associated_choice(
    current: BBox,
    dets: Seq<Detection>,
    min_conf: Confidence,
    threshold: Ratio,
    r: Option<Detection>,
) -> bool {
    picks_last(dets, associable(current, min_conf, threshold), overlaps_more(current), r)
}

/// The most central detection (box centre closest to the frame centre) among
/// those with a confidence of at least `min_conf`, the first of them among
/// equals, or `None` when none qualifies.
pub fn select_central(
    detections: &[Detection],
    frame_w: i64,
    frame_h: i64,
    min_conf: Confidence,
) -> (r: Option<Detection>)
    ensures
        central_choice(detections@, frame_w as int, frame_h as int, min_conf, r),
{
    let (cx, cy): (i128, i128) = (frame_w as i128, frame_h as i128);
    let ghost (eligible, better) = (nominable(min_conf), closer(cx as int, cy as int));
    let mut best: Option<(usize, Wide)> = None;
    let mut i: usize = 0;
    while i < detections.len()
        invariant
            i <= detections.len(),
            cx == frame_w,
            cy == frame_h,
            eligible == nominable(min_conf),
            better == closer(cx as int, cy as int),
            best is None ==> none_eligible(detections@.take(i as int), eligible),
            best is Some ==> (best->0).0 < i && first_best(
                detections@.take(i as int),
                eligible,
                better,
                (best->0).0 as int,
            ) && (best->0).1@ == sq_dist(
                detections@[(best->0).0 as int].bbox,
                cx as int,
                cy as int,
            ),
        decreases detections.len() - i,
    {
        let ghost before = detections@.take(i as int);
        let ghost after = detections@.take(i + 1);
        assert(after == before.push(detections@[i as int]));
        if is_qualifying(&detections[i], min_conf) {
            let dist: Wide = sq_dist_to(detections[i].bbox, cx, cy);
            match best {
                None => {
                    best = Some((i, dist));
                },
                Some((_, least)) => {
                    if dist.less(&least) {
                        best = Some((i, dist));
                    }
                },
            }
        }
        i += 1;
    }
    assert(detections@.take(detections.len() as int) == detections@);
    match best {
        Some((k, _)) => Some(detections[k]),
        None => None,
    }
}

/// The detection nearest to `prev` among those that qualify and lie within
/// `gate_px` of it, the first of them among equals.
fn nearest_agreeing(
    prev: BBox,
    detections: &[Detection],
    min_conf: Confidence,
    gate_px: Ratio,
) -> (r: Option<Detection>)
    ensures
        agreeing_choice(prev, detections@, min_conf, gate_px, r),
{
    let (px, py): (i128, i128) = prev.centre();
    let ghost (eligible, better) = (
        agreeing(prev, min_conf, gate_px),
        closer(px as int, py as int),
    );
    let mut best: Option<(usize, Wide)> = None;
    let mut i: usize = 0;
    while i < detections.len()
        invariant
            i <= detections.len(),
            px == prev.x1 + prev.x2,
            py == prev.y1 + prev.y2,
            eligible == agreeing(prev, min_conf, gate_px),
            better == closer(px as int, py as int),
            best is None ==> none_eligible(detections@.take(i as int), eligible),
            best is Some ==> (best->0).0 < i && first_best(
                detections@.take(i as int),
                eligible,
                better,
                (best->0).0 as int,
            ) && (best->0).1@ == sq_dist(
                detections@[(best->0).0 as int].bbox,
                px as int,
                py as int,
            ),
        decreases detections.len() - i,
    {
        let ghost before = detections@.take(i as int);
        let ghost after = detections@.take(i + 1);
        assert(after == before.push(detections@[i as int]));
        let dist: Wide = sq_dist_to(detections[i].bbox, px, py);
        if is_qualifying(&detections[i], min_conf) && is_within(&dist, gate_px) {
            match best {
                None => {
                    best = Some((i, dist));
                },
                Some((_, least)) => {
                    if dist.less(&least) {
                        best = Some((i, dist));
                    }
                },
            }
        }
        i += 1;
    }
    assert(detections@.take(detections.len() as int) == detections@);
    match best {
        Some((k, _)) => Some(detections[k]),
        None => None,
    }
}

/// One batch of the two-batch confirmation. The result holds what is
/// confirmed and the candidate to carry into the next batch:
///
/// * With an earlier candidate and a qualifying detection within `gate_px`
///   of it, the nearest such detection is confirmed and no candidate is
///   carried on.
/// * Otherwise nothing is confirmed, and this batch's central nomination, if
///   any, becomes the candidate.
pub fn confirm_central(
    prev_candidate: Option<Detection>,
    detections: &[Detection],
    frame_w: i64,
    frame_h: i64,
    min_conf: Confidence,
    gate_px: Ratio,
) -> (r: (Option<Detection>, Option<Detection>))
    ensures
        confirmation(
            prev_candidate,
            detections@,
            frame_w as int,
            frame_h as int,
            min_conf,
            gate_px,
            r.0,
            r.1,
        ),
{
    if let Some(prev) = prev_candidate {
        let near = nearest_agreeing(prev.bbox, detections, min_conf, gate_px);
        if near.is_some() {
            return (near, None);
        }
    }
    (None, select_central(detections, frame_w, frame_h, min_conf))
}

/// What [`confirm_central`] confirms and carries on.
pub open spec fn confirmation(
    prev_candidate: Option<Detection>,
    dets: Seq<Detection>,
    frame_w: int,
    frame_h: int,
    min_conf: Confidence,
    gate_px: Ratio,
    confirmed: Option<Detection>,
    next: Option<Detection>,
) -> bool {
    if prev_candidate is Some && !none_eligible(
        dets,
        agreeing(prev_candidate->0.bbox, min_conf, gate_px),
    ) {
        confirmed is Some && next is None && agreeing_choice(
            prev_candidate->0.bbox,
            dets,
            min_conf,
            gate_px,
            confirmed,
        )
    } else {
        confirmed is None && central_choice(dets, frame_w, frame_h, min_conf, next)
    }
}

/// The denominator of an overlap is positive.
pub proof fn overlap_is_a_fraction(a: BBox, b: BBox)
    ensures
        0 <= iou_num(a, b) <= iou_den(a, b),
        0 < iou_den(a, b),
{
    let c = common(a, b);
    if c.w() > 0 && c.h() > 0 {
        lemma_cover_bound(
            a.w(),
            a.h(),
            b.w(),
            b.h(),
            c.w(),
            c.h(),
            larger(a.w() + b.w() - c.w(), a.h() + b.h() - c.h()),
        );
    } else {
        assert(c.pixels() == 0) by (nonlinear_arith)
            requires
                larger(c.w(), 0) == 0 || larger(c.h(), 0) == 0,
                c.pixels() == larger(c.w(), 0) * larger(c.h(), 0),
        ;
    }
}

/// An entry that overlaps at least as much as the best so far overlaps at
/// least as much as every entry so far.
proof fn lemma_overlap_stays_best(
    current: BBox,
    dets: Seq<Detection>,
    eligible: spec_fn(Detection) -> bool,
    k: int,
    d: Detection,
)
    requires
        last_best(dets, eligible, overlaps_more(current), k),
        !overlaps_more(current)(dets[k], d),
    ensures
        forall|j: int|
            0 <= j < dets.len() && eligible(dets[j]) ==> !overlaps_more(current)(
                #[trigger] dets[j],
                d,
            ),
{
    assert forall|j: int| 0 <= j < dets.len() && eligible(dets[j]) implies !overlaps_more(current)(
        #[trigger] dets[j],
        d,
    ) by {
        overlap_is_a_fraction(current, dets[j].bbox);
        overlap_is_a_fraction(current, dets[k].bbox);
        overlap_is_a_fraction(current, d.bbox);
        let (nj, dj) = (iou_num(current, dets[j].bbox), iou_den(current, dets[j].bbox));
        let (nk, dk) = (iou_num(current, dets[k].bbox), iou_den(current, dets[k].bbox));
        let (nd, dd) = (iou_num(current, d.bbox), iou_den(current, d.bbox));
        lemma_fraction_order(nj, dj, nk, dk, nd, dd);
    }
}

/// The order of fractions is transitive.
proof fn lemma_fraction_order(nj: int, dj: int, nk: int, dk: int, nd: int, dd: int)
    requires
        dj > 0,
        dk > 0,
        dd > 0,
        nj * dk <= nk * dj,
        nk * dd <= nd * dk,
    ensures
        nj * dd <= nd * dj,
{
    assert((nj * dk) * dd <= (nk * dj) * dd) by (nonlinear_arith)
        requires
            nj * dk <= nk * dj,
            dd > 0,
    ;
    assert((nk * dd) * dj <= (nd * dk) * dj) by (nonlinear_arith)
        requires
            nk * dd <= nd * dk,
            dj > 0,
    ;
    assert((nk * dj) * dd == (nk * dd) * dj) by (nonlinear_arith);
    assert((nj * dd) * dk == (nj * dk) * dd) by (nonlinear_arith);
    assert((nd * dj) * dk == (nd * dk) * dj) by (nonlinear_arith);
    assert(nj * dd <= nd * dj) by (nonlinear_arith)
        requires
            (nj * dd) * dk <= (nd * dj) * dk,
            dk > 0,
    ;
}

/// The qualifying detection with the highest overlap against `current_box`,
/// provided that the overlap is at or above `iou_threshold`, the last of
/// them among equals, or `None` when nothing matches.
pub fn match_detection(
    current_box: BBox,
    detections: &[Detection],
    min_conf: Confidence,
    iou_threshold: Ratio,
) -> (r: Option<Detection>)
    ensures
        associated_choice(current_box, detections@, min_conf, iou_threshold, r),
{
    let ghost (eligible, better) = (
        associable(current_box, min_conf, iou_threshold),
        overlaps_more(current_box),
    );
    let mut best: Option<(usize, Iou)> = None;
    let mut i: usize = 0;
    while i < detections.len()
        invariant
            i <= detections.len(),
            eligible == associable(current_box, min_conf, iou_threshold),
            better == overlaps_more(current_box),
            best is None ==> none_eligible(detections@.take(i as int), eligible),
            best is Some ==> (best->0).0 < i && last_best(
                detections@.take(i as int),
                eligible,
                better,
                (best->0).0 as int,
            ) && (best->0).1.of_boxes(current_box, detections@[(best->0).0 as int].bbox),
        decreases detections.len() - i,
    {
        let ghost before = detections@.take(i as int);
        let ghost after = detections@.take(i + 1);
        assert(after == before.push(detections@[i as int]));
        let overlap: Iou = iou(current_box, detections[i].bbox);
        if is_qualifying(&detections[i], min_conf) && overlap.at_least(iou_threshold) {
            match best {
                None => {
                    best = Some((i, overlap));
                },
                Some((k, most)) => {
                    if !most.exceeds(&overlap) {
                        proof {
                            lemma_overlap_stays_best(
                                current_box,
                                before,
                                eligible,
                                k as int,
                                detections@[i as int],
                            );
                        }
                        best = Some((i, overlap));
                    }
                },
            }
        }
        i += 1;
    }
    assert(detections@.take(detections.len() as int) == detections@);
    match best {
        Some((k, _)) => Some(detections[k]),
        None => None,
    }
}

/// The overlap of two boxes does not depend on their order.
pub proof fn overlap_is_symmetric(a: BBox, b: BBox)
    ensures
        iou_num(a, b) == iou_num(b, a),
        iou_den(a, b) == iou_den(b, a),
{
    assert(common(a, b) == common(b, a));
}

/// A box that is not degenerate overlaps itself fully.
pub proof fn overlap_with_itself_is_full(b: BBox)
    requires
        b.w() > 0,
        b.h() > 0,
    ensures
        iou_num(b, b) == iou_den(b, b),
        iou_num(b, b) == b.pixels(),
{
    assert(common(b, b) == b);
    assert(b.pixels() > 0) by (nonlinear_arith)
        requires
            b.pixels() == larger(b.w(), 0) * larger(b.h(), 0),
            larger(b.w(), 0) > 0,
            larger(b.h(), 0) > 0,
    ;
}

/// Boxes overlap exactly when they have a pixel in common.
pub proof fn overlap_means_common_pixels(a: BBox, b: BBox)
    ensures
        iou_num(a, b) > 0 <==> exists|x: int, y: int| #[trigger]
            contains_pixel(a, x, y) && contains_pixel(b, x, y),
{
    let c = common(a, b);
    if c.w() > 0 && c.h() > 0 {
        assert(c.pixels() > 0) by (nonlinear_arith)
            requires
                c.pixels() == larger(c.w(), 0) * larger(c.h(), 0),
                larger(c.w(), 0) > 0,
                larger(c.h(), 0) > 0,
        ;
        assert(contains_pixel(a, c.x1 as int, c.y1 as int) && contains_pixel(
            b,
            c.x1 as int,
            c.y1 as int,
        ));
    } else {
        assert(c.pixels() == 0) by (nonlinear_arith)
            requires
                larger(c.w(), 0) == 0 || larger(c.h(), 0) == 0,
                c.pixels() == larger(c.w(), 0) * larger(c.h(), 0),
        ;
    }
}

/// A pixel is inside a box.
pub open spec fn contains_pixel(b: BBox, x: int, y: int) -> bool {
    b.x1 <= x < b.x2 && b.y1 <= y < b.y2
}

/// A batch determines the first best entry.
pub proof fn first_choice_is_unique(
    dets: Seq<Detection>,
    eligible: spec_fn(Detection) -> bool,
    better: spec_fn(Detection, Detection) -> bool,
    r: Option<Detection>,
    s: Option<Detection>,
)
    requires
        picks_first(dets, eligible, better, r),
        picks_first(dets, eligible, better, s),
    ensures
        r == s,
{
    if r is Some && s is Some {
        let i = choose|i: int| #[trigger] first_best(dets, eligible, better, i) && r->0 == dets[i];
        let j = choose|j: int| #[trigger] first_best(dets, eligible, better, j) && s->0 == dets[j];
        assert(eligible(dets[i]) && eligible(dets[j]));
        assert(i == j);
    }
}

/// A batch determines the last best entry.
pub proof fn last_choice_is_unique(
    dets: Seq<Detection>,
    eligible: spec_fn(Detection) -> bool,
    better: spec_fn(Detection, Detection) -> bool,
    r: Option<Detection>,
    s: Option<Detection>,
)
    requires
        picks_last(dets, eligible, better, r),
        picks_last(dets, eligible, better, s),
    ensures
        r == s,
{
    if r is Some && s is Some {
        let i = choose|i: int| #[trigger] last_best(dets, eligible, better, i) && r->0 == dets[i];
        let j = choose|j: int| #[trigger] last_best(dets, eligible, better, j) && s->0 == dets[j];
        assert(eligible(dets[i]) && eligible(dets[j]));
        assert(i == j);
    }
}

/// One batch alone never confirms.
pub proof fn one_batch_never_confirms(
    dets: Seq<Detection>,
    frame_w: int,
    frame_h: int,
    min_conf: Confidence,
    gate_px: Ratio,
    confirmed: Option<Detection>,
    next: Option<Detection>,
)
    requires
        confirmation(None, dets, frame_w, frame_h, min_conf, gate_px, confirmed, next),
    ensures
        confirmed is None,
{
}

/// What is confirmed comes from this batch, is confident enough, lies within
/// `gate_px` of an earlier candidate, and is the nearest to it that does.
pub proof fn confirmation_takes_two_agreeing_batches(
    prev_candidate: Option<Detection>,
    dets: Seq<Detection>,
    frame_w: int,
    frame_h: int,
    min_conf: Confidence,
    gate_px: Ratio,
    confirmed: Option<Detection>,
    next: Option<Detection>,
)
    requires
        confirmation(prev_candidate, dets, frame_w, frame_h, min_conf, gate_px, confirmed, next),
        confirmed is Some,
    ensures
        prev_candidate is Some,
        next is None,
        dets.contains(confirmed->0),
        ({
            let prev = prev_candidate->0.bbox;
            let (cx, cy) = (prev.x1 + prev.x2, prev.y1 + prev.y2);
            &&& agreeing(prev, min_conf, gate_px)(confirmed->0)
            &&& forall|j: int|
                0 <= j < dets.len() && agreeing(prev, min_conf, gate_px)(#[trigger] dets[j])
                    ==> sq_dist(confirmed->0.bbox, cx, cy) <= sq_dist(dets[j].bbox, cx, cy)
        }),
{
    let prev = prev_candidate->0.bbox;
    let (cx, cy) = (prev.x1 + prev.x2, prev.y1 + prev.y2);
    let (eligible, better) = (agreeing(prev, min_conf, gate_px), closer(cx, cy));
    let i = choose|i: int| #[trigger]
        first_best(dets, eligible, better, i) && confirmed->0 == dets[i];
    assert(dets[i] == confirmed->0);
    assert forall|j: int| 0 <= j < dets.len() && eligible(#[trigger] dets[j]) implies sq_dist(
        confirmed->0.bbox,
        cx,
        cy,
    ) <= sq_dist(dets[j].bbox, cx, cy) by {
        assert(!better(dets[j], dets[i]));
    }
}

/// An empty batch confirms nothing and drops the candidate.
pub proof fn empty_batch_drops_the_candidate(
    prev_candidate: Option<Detection>,
    frame_w: int,
    frame_h: int,
    min_conf: Confidence,
    gate_px: Ratio,
    confirmed: Option<Detection>,
    next: Option<Detection>,
)
    requires
        confirmation(
            prev_candidate,
            Seq::empty(),
            frame_w,
            frame_h,
            min_conf,
            gate_px,
            confirmed,
            next,
        ),
    ensures
        confirmed is None,
        next is None,
{
}

/// The outcome of a batch is determined.
pub proof fn confirmation_is_unique(
    prev_candidate: Option<Detection>,
    dets: Seq<Detection>,
    frame_w: int,
    frame_h: int,
    min_conf: Confidence,
    gate_px: Ratio,
    confirmed: Option<Detection>,
    next: Option<Detection>,
    other_confirmed: Option<Detection>,
    other_next: Option<Detection>,
)
    requires
        confirmation(prev_candidate, dets, frame_w, frame_h, min_conf, gate_px, confirmed, next),
        confirmation(
            prev_candidate,
            dets,
            frame_w,
            frame_h,
            min_conf,
            gate_px,
            other_confirmed,
            other_next,
        ),
    ensures
        confirmed == other_confirmed,
        next == other_next,
{
    if confirmed is Some {
        let prev = prev_candidate->0.bbox;
        first_choice_is_unique(
            dets,
            agreeing(prev, min_conf, gate_px),
            closer(prev.x1 + prev.x2, prev.y1 + prev.y2),
            confirmed,
            other_confirmed,
        );
    } else {
        first_choice_is_unique(dets, nominable(min_conf), closer(frame_w, frame_h), next, other_next);
    }
}

/// Two batches differ in the ids of their detections at most.
pub open spec fn renumbered(dets: Seq<Detection>, others: Seq<Detection>) -> bool {
    &&& dets.len() == others.len()
    &&& forall|i: int|
        #![trigger dets[i]]
        #![trigger others[i]]
        0 <= i < dets.len() ==> dets[i].bbox == others[i].bbox && dets[i].confidence
            == others[i].confidence
}

/// Ids are opaque: every choice among detections falls on the same entry,
/// however they are numbered.
pub proof fn ids_do_not_matter(
    dets: Seq<Detection>,
    others: Seq<Detection>,
    frame_w: int,
    frame_h: int,
    prev: BBox,
    current: BBox,
    min_conf: Confidence,
    gate_px: Ratio,
    threshold: Ratio,
    i: int,
)
    requires
        renumbered(dets, others),
    ensures
        first_best(dets, nominable(min_conf), closer(frame_w, frame_h), i) <==> first_best(
            others,
            nominable(min_conf),
            closer(frame_w, frame_h),
            i,
        ),
        first_best(
            dets,
            agreeing(prev, min_conf, gate_px),
            closer(prev.x1 + prev.x2, prev.y1 + prev.y2),
            i,
        ) <==> first_best(
            others,
            agreeing(prev, min_conf, gate_px),
            closer(prev.x1 + prev.x2, prev.y1 + prev.y2),
            i,
        ),
        last_best(
            dets,
            associable(current, min_conf, threshold),
            overlaps_more(current),
            i,
        ) <==> last_best(
            others,
            associable(current, min_conf, threshold),
            overlaps_more(current),
            i,
        ),
{
}

/// The overlap of two boxes, in their coordinates: boxes that meet share the
/// pixels between the inner edges, and cover the pixels of both, the shared
/// ones counted once. Boxes that do not meet overlap by nothing.
pub proof fn overlap_counts_shared_and_covered_pixels(a: BBox, b: BBox)
    ensures
        a.x1 < a.x2 && b.x1 < b.x2 && a.y1 < a.y2 && b.y1 < b.y2 && a.x1 < b.x2 && b.x1 < a.x2
            && a.y1 < b.y2 && b.y1 < a.y2 ==> {
            let left = if a.x1 > b.x1 {
                a.x1
            } else {
                b.x1
            };
            let right = if a.x2 < b.x2 {
                a.x2
            } else {
                b.x2
            };
            let top = if a.y1 > b.y1 {
                a.y1
            } else {
                b.y1
            };
            let bottom = if a.y2 < b.y2 {
                a.y2
            } else {
                b.y2
            };
            &&& iou_num(a, b) == (right - left) * (bottom - top)
            &&& iou_num(a, b) > 0
            &&& iou_den(a, b) + iou_num(a, b) == (a.x2 - a.x1) * (a.y2 - a.y1) + (b.x2 - b.x1) * (
            b.y2 - b.y1)
        },
        !(a.x1 < a.x2 && b.x1 < b.x2 && a.y1 < a.y2 && b.y1 < b.y2 && a.x1 < b.x2 && b.x1 < a.x2
            && a.y1 < b.y2 && b.y1 < a.y2) ==> iou_num(a, b) == 0 && iou_den(a, b) == 1,
{
    let c = common(a, b);
    if c.w() > 0 && c.h() > 0 {
        assert(c.w() * c.h() > 0) by (nonlinear_arith)
            requires
                c.w() > 0,
                c.h() > 0,
        ;
    } else {
        assert(c.pixels() == 0) by (nonlinear_arith)
            requires
                larger(c.w(), 0) == 0 || larger(c.h(), 0) == 0,
                c.pixels() == larger(c.w(), 0) * larger(c.h(), 0),
        ;
    }
}

/// Only equal boxes overlap fully.
pub proof fn only_equal_boxes_overlap_fully(a: BBox, b: BBox)
    ensures
        iou_num(a, b) == iou_den(a, b) <==> a == b && a.x1 < a.x2 && a.y1 < a.y2,
{
    overlap_counts_shared_and_covered_pixels(a, b);
    let c = common(a, b);
    if iou_num(a, b) > 0 {
        assert(c.w() > 0 && c.h() > 0);
        let (wi, hi) = (c.w(), c.h());
        let (wa, ha, wb, hb) = (a.w(), a.h(), b.w(), b.h());
        assert(wi * hi <= wa * hi && wa * hi <= wa * ha && (wi < wa ==> wi * hi < wa * hi) && (hi
            < ha ==> wa * hi < wa * ha)) by (nonlinear_arith)
            requires
                0 < wi <= wa,
                0 < hi <= ha,
        ;
        assert(wi * hi <= wb * hi && wb * hi <= wb * hb && (wi < wb ==> wi * hi < wb * hi) && (hi
            < hb ==> wb * hi < wb * hb)) by (nonlinear_arith)
            requires
                0 < wi <= wb,
                0 < hi <= hb,
        ;
    }
}

/// The central policy, in coordinates. What is chosen is an entry of the
/// batch that is confident enough, and no entry that is confident enough has
/// its centre closer to the centre of the frame, or as close and earlier.
/// Nothing is chosen only when no entry is confident enough.
pub proof fn the_most_central_detection_is_chosen(
    dets: Seq<Detection>,
    frame_w: int,
    frame_h: int,
    min_conf: Confidence,
    r: Option<Detection>,
)
    requires
        central_choice(dets, frame_w, frame_h, min_conf, r),
    ensures
        r is None <==> forall|j: int|
            0 <= j < dets.len() ==> (#[trigger] dets[j]).confidence.bits() < min_conf.bits(),
        r is Some ==> r->0.confidence.bits() >= min_conf.bits() && exists|i: int|
            0 <= i < dets.len() && #[trigger] dets[i] == r->0 && forall|j: int|
                0 <= j < dets.len() && (#[trigger] dets[j]).confidence.bits() >= min_conf.bits()
                    ==> {
                    let (b, c) = (r->0.bbox, dets[j].bbox);
                    let (bx, by) = (b.x1 + b.x2 - frame_w, b.y1 + b.y2 - frame_h);
                    let (cx, cy) = (c.x1 + c.x2 - frame_w, c.y1 + c.y2 - frame_h);
                    &&& bx * bx + by * by <= cx * cx + cy * cy
                    &&& j < i ==> bx * bx + by * by < cx * cx + cy * cy
                },
{
    let (eligible, better) = (nominable(min_conf), closer(frame_w, frame_h));
    if r is Some {
        let i = choose|i: int| #[trigger] first_best(dets, eligible, better, i) && r->0 == dets[i];
        assert(0 <= i < dets.len() && dets[i] == r->0);
        assert(dets[i].confidence.bits() >= min_conf.bits());
        assert forall|j: int|
            0 <= j < dets.len() && (#[trigger] dets[j]).confidence.bits()
                >= min_conf.bits() implies ({
            let (b, c) = (r->0.bbox, dets[j].bbox);
            let (bx, by) = (b.x1 + b.x2 - frame_w, b.y1 + b.y2 - frame_h);
            let (cx, cy) = (c.x1 + c.x2 - frame_w, c.y1 + c.y2 - frame_h);
            &&& bx * bx + by * by <= cx * cx + cy * cy
            &&& j < i ==> bx * bx + by * by < cx * cx + cy * cy
        }) by {
            assert(eligible(dets[j]));
        }
    } else {
        assert forall|j: int| 0 <= j < dets.len() implies (#[trigger] dets[j]).confidence.bits()
            < min_conf.bits() by {
            assert(!eligible(dets[j]));
        }
    }
}

/// A detection in the very centre of the frame is not passed over for one
/// whose centre is elsewhere.
pub proof fn a_centred_detection_wins(
    dets: Seq<Detection>,
    frame_w: int,
    frame_h: int,
    min_conf: Confidence,
    r: Option<Detection>,
    k: int,
)
    requires
        central_choice(dets, frame_w, frame_h, min_conf, r),
        0 <= k < dets.len(),
        dets[k].confidence.bits() >= min_conf.bits(),
        dets[k].bbox.x1 + dets[k].bbox.x2 == frame_w,
        dets[k].bbox.y1 + dets[k].bbox.y2 == frame_h,
    ensures
        r is Some,
        r->0.bbox.x1 + r->0.bbox.x2 == frame_w,
        r->0.bbox.y1 + r->0.bbox.y2 == frame_h,
{
    the_most_central_detection_is_chosen(dets, frame_w, frame_h, min_conf, r);
    let b = r->0.bbox;
    let (bx, by) = (b.x1 + b.x2 - frame_w, b.y1 + b.y2 - frame_h);
    let c = dets[k].bbox;
    let (cx, cy) = (c.x1 + c.x2 - frame_w, c.y1 + c.y2 - frame_h);
    assert(cx * cx + cy * cy == 0) by (nonlinear_arith)
        requires
            cx == 0,
            cy == 0,
    ;
    assert(bx * bx + by * by <= cx * cx + cy * cy);
    assert(bx == 0 && by == 0) by (nonlinear_arith)
        requires
            bx * bx + by * by <= 0,
    ;
}

/// The confirmation, in coordinates. It takes an earlier candidate and an
/// entry of this batch that is confident enough and whose centre is no more
/// than `gate_px` away from that of the candidate; then the nearest such entry
/// is confirmed, the first of them among equals, and no candidate is carried
/// on. In every other case nothing is confirmed, and the most central entry is
/// carried on.
pub proof fn confirmation_in_coordinates(
    prev_candidate: Option<Detection>,
    dets: Seq<Detection>,
    frame_w: int,
    frame_h: int,
    min_conf: Confidence,
    gate_px: Ratio,
    confirmed: Option<Detection>,
    next: Option<Detection>,
)
    requires
        confirmation(prev_candidate, dets, frame_w, frame_h, min_conf, gate_px, confirmed, next),
    ensures
        confirmed is Some <==> prev_candidate is Some && exists|j: int|
            0 <= j < dets.len() && (#[trigger] dets[j]).confidence.bits() >= min_conf.bits()
                && ({
                let (p, c) = (prev_candidate->0.bbox, dets[j].bbox);
                let (dx, dy) = (c.x1 + c.x2 - (p.x1 + p.x2), c.y1 + c.y2 - (p.y1 + p.y2));
                let (n, m) = (gate_px.num(), gate_px.den());
                n >= 0 && (dx * dx + dy * dy) * (m * m) <= 4 * (n * n)
            }),
        confirmed is Some ==> next is None && exists|i: int|
            0 <= i < dets.len() && #[trigger] dets[i] == confirmed->0 && dets[i].confidence.bits()
                >= min_conf.bits() && ({
                let (p, c) = (prev_candidate->0.bbox, dets[i].bbox);
                let (dx, dy) = (c.x1 + c.x2 - (p.x1 + p.x2), c.y1 + c.y2 - (p.y1 + p.y2));
                let (n, m) = (gate_px.num(), gate_px.den());
                n >= 0 && (dx * dx + dy * dy) * (m * m) <= 4 * (n * n)
            }) && forall|j: int|
                0 <= j < dets.len() && (#[trigger] dets[j]).confidence.bits() >= min_conf.bits()
                    && ({
                let (p, c) = (prev_candidate->0.bbox, dets[j].bbox);
                let (dx, dy) = (c.x1 + c.x2 - (p.x1 + p.x2), c.y1 + c.y2 - (p.y1 + p.y2));
                let (n, m) = (gate_px.num(), gate_px.den());
                n >= 0 && (dx * dx + dy * dy) * (m * m) <= 4 * (n * n)
            }) ==> {
                    let (p, b, c) = (prev_candidate->0.bbox, dets[i].bbox, dets[j].bbox);
                    let (bx, by) = (b.x1 + b.x2 - (p.x1 + p.x2), b.y1 + b.y2 - (p.y1 + p.y2));
                    let (cx, cy) = (c.x1 + c.x2 - (p.x1 + p.x2), c.y1 + c.y2 - (p.y1 + p.y2));
                    &&& bx * bx + by * by <= cx * cx + cy * cy
                    &&& j < i ==> bx * bx + by * by < cx * cx + cy * cy
                },
        confirmed is None ==> central_choice(dets, frame_w, frame_h, min_conf, next),
{
    if prev_candidate is Some {
        let p = prev_candidate->0.bbox;
        let (eligible, better) = (
            agreeing(p, min_conf, gate_px),
            closer(p.x1 + p.x2, p.y1 + p.y2),
        );
        assert forall|d: Detection| #[trigger]
            eligible(d) <==> d.confidence.bits() >= min_conf.bits() && ({
                let (p, c) = (prev_candidate->0.bbox, d.bbox);
                let (dx, dy) = (c.x1 + c.x2 - (p.x1 + p.x2), c.y1 + c.y2 - (p.y1 + p.y2));
                let (n, m) = (gate_px.num(), gate_px.den());
                n >= 0 && (dx * dx + dy * dy) * (m * m) <= 4 * (n * n)
            }) by {
            let n = gate_px.num();
            assert((2 * n) * (2 * n) == 4 * (n * n)) by (nonlinear_arith);
        }
        if none_eligible(dets, eligible) {
            assert forall|j: int| 0 <= j < dets.len() implies !((
            #[trigger] dets[j]).confidence.bits() >= min_conf.bits() && ({
                let (p, c) = (prev_candidate->0.bbox, dets[j].bbox);
                let (dx, dy) = (c.x1 + c.x2 - (p.x1 + p.x2), c.y1 + c.y2 - (p.y1 + p.y2));
                let (n, m) = (gate_px.num(), gate_px.den());
                n >= 0 && (dx * dx + dy * dy) * (m * m) <= 4 * (n * n)
            })) by {
                assert(!eligible(dets[j]));
            }
        } else {
            let i = choose|i: int| #[trigger]
                first_best(dets, eligible, better, i) && confirmed->0 == dets[i];
            assert(eligible(dets[i]));
            assert(0 <= i < dets.len() && dets[i] == confirmed->0);
            assert forall|j: int|
                0 <= j < dets.len() && (#[trigger] dets[j]).confidence.bits() >= min_conf.bits()
                    && ({
                let (p, c) = (prev_candidate->0.bbox, dets[j].bbox);
                let (dx, dy) = (c.x1 + c.x2 - (p.x1 + p.x2), c.y1 + c.y2 - (p.y1 + p.y2));
                let (n, m) = (gate_px.num(), gate_px.den());
                n >= 0 && (dx * dx + dy * dy) * (m * m) <= 4 * (n * n)
            }) implies ({
                let (b, c) = (dets[i].bbox, dets[j].bbox);
                let (bx, by) = (b.x1 + b.x2 - (p.x1 + p.x2), b.y1 + b.y2 - (p.y1 + p.y2));
                let (cx, cy) = (c.x1 + c.x2 - (p.x1 + p.x2), c.y1 + c.y2 - (p.y1 + p.y2));
                &&& bx * bx + by * by <= cx * cx + cy * cy
                &&& j < i ==> bx * bx + by * by < cx * cx + cy * cy
            }) by {
                assert(eligible(dets[j]));
            }
        }
    }
}

/// The association, in shared and covered pixels. What is chosen is an entry
/// of the batch that is confident enough and overlaps the current box by at
/// least the threshold, and no such entry overlaps it by more, or by as much
/// and later. Nothing is chosen only when there is no such entry.
pub proof fn the_best_overlap_is_associated(
    current: BBox,
    dets: Seq<Detection>,
    min_conf: Confidence,
    threshold: Ratio,
    r: Option<Detection>,
)
    requires
        associated_choice(current, dets, min_conf, threshold, r),
    ensures
        r is None <==> forall|j: int|
            0 <= j < dets.len() && (#[trigger] dets[j]).confidence.bits() >= min_conf.bits()
                ==> iou_num(current, dets[j].bbox) * threshold.den() < threshold.num() * iou_den(
                current,
                dets[j].bbox,
            ),
        r is Some ==> exists|i: int|
            0 <= i < dets.len() && #[trigger] dets[i] == r->0 && dets[i].confidence.bits()
                >= min_conf.bits() && iou_num(current, dets[i].bbox) * threshold.den()
                >= threshold.num() * iou_den(current, dets[i].bbox) && forall|j: int|
                0 <= j < dets.len() && (#[trigger] dets[j]).confidence.bits() >= min_conf.bits()
                    && iou_num(current, dets[j].bbox) * threshold.den() >= threshold.num()
                    * iou_den(current, dets[j].bbox) ==> {
                    let (n, d) = (iou_num(current, dets[i].bbox), iou_den(current, dets[i].bbox));
                    let (m, e) = (iou_num(current, dets[j].bbox), iou_den(current, dets[j].bbox));
                    &&& m * d <= n * e
                    &&& j > i ==> m * d < n * e
                },
{
    let (eligible, better) = (associable(current, min_conf, threshold), overlaps_more(current));
    if r is Some {
        let i = choose|i: int| #[trigger] last_best(dets, eligible, better, i) && r->0 == dets[i];
        assert(eligible(dets[i]));
        assert(0 <= i < dets.len() && dets[i] == r->0);
        assert forall|j: int|
            0 <= j < dets.len() && (#[trigger] dets[j]).confidence.bits() >= min_conf.bits()
                && iou_num(current, dets[j].bbox) * threshold.den() >= threshold.num() * iou_den(
                current,
                dets[j].bbox,
            ) implies ({
            let (n, d) = (iou_num(current, dets[i].bbox), iou_den(current, dets[i].bbox));
            let (m, e) = (iou_num(current, dets[j].bbox), iou_den(current, dets[j].bbox));
            &&& m * d <= n * e
            &&& j > i ==> m * d < n * e
        }) by {
            assert(eligible(dets[j]));
            assert(!better(dets[j], dets[i]));
            assert(i < j ==> better(dets[i], dets[j]));
        }
    } else {
        assert forall|j: int|
            0 <= j < dets.len() && (#[trigger] dets[j]).confidence.bits()
                >= min_conf.bits() implies iou_num(current, dets[j].bbox) * threshold.den()
            < threshold.num() * iou_den(current, dets[j].bbox) by {
            assert(!eligible(dets[j]));
        }
    }
}

/// A small box inside a larger one overlaps it by the share of its pixels,
/// however much smaller it is.
pub proof fn a_box_inside_another_overlaps_by_its_share(inner: BBox, outer: BBox)
    requires
        outer.x1 <= inner.x1 < inner.x2 <= outer.x2,
        outer.y1 <= inner.y1 < inner.y2 <= outer.y2,
    ensures
        iou_num(outer, inner) == (inner.x2 - inner.x1) * (inner.y2 - inner.y1),
        iou_den(outer, inner) == (outer.x2 - outer.x1) * (outer.y2 - outer.y1),
        iou_num(inner, outer) == iou_num(outer, inner),
        iou_den(inner, outer) == iou_den(outer, inner),
{
    overlap_counts_shared_and_covered_pixels(outer, inner);
    overlap_counts_shared_and_covered_pixels(inner, outer);
}

/// The two parts of an overlap are numbers of 128 bits.
pub proof fn overlaps_fit_in_128_bits(a: BBox, b: BBox)
    ensures
        0 <= iou_num(a, b) <= u128::MAX,
        0 < iou_den(a, b) <= u128::MAX,
{
    overlap_is_a_fraction(a, b);
    overlap_counts_shared_and_covered_pixels(a, b);
    let c = common(a, b);
    if c.w() > 0 && c.h() > 0 {
        lemma_cover_bound(a.w(), a.h(), b.w(), b.h(), c.w(), c.h(), u64::MAX as int);
    }
}

} // verus!
