use tracking::acquisition::{sq_dist_to, Iou};
use tracking::ratio::Ratio;
use tracking::{
    confirm_central, iou, is_stale, match_detection, select_central, BBox, Confidence, Detection,
};

fn conf(v: f32) -> Confidence {
    Confidence::new(v.to_bits()).unwrap()
}

fn det(x1: i64, y1: i64, x2: i64, y2: i64, c: f32) -> Detection {
    Detection { bbox: BBox::new(x1, y1, x2, y2), confidence: conf(c), id: 0 }
}

fn numbered(x1: i64, y1: i64, x2: i64, y2: i64, c: f32, id: u64) -> Detection {
    Detection { id, ..det(x1, y1, x2, y2, c) }
}

fn px(n: i64) -> Ratio {
    Ratio::new(n, 1).unwrap()
}

fn three_tenths() -> Ratio {
    Ratio::new(3, 10).unwrap()
}

fn value(i: Iou) -> f64 {
    i.shared as f64 / i.covered as f64
}

#[test]
fn iou_of_identical_boxes_is_one() {
    let b = BBox::new(0, 0, 10, 10);
    assert!((value(iou(b, b)) - 1.0).abs() < 1e-9);
}

#[test]
fn iou_of_disjoint_boxes_is_zero() {
    assert_eq!(value(iou(BBox::new(0, 0, 10, 10), BBox::new(100, 100, 110, 110))), 0.0);
}

#[test]
fn iou_is_the_shared_over_the_covered_pixels() {
    let i = iou(BBox::new(0, 0, 10, 10), BBox::new(5, 5, 15, 15));
    assert_eq!(i, Iou { shared: 25, covered: 175 });
    assert_eq!(iou(BBox::new(5, 5, 15, 15), BBox::new(0, 0, 10, 10)), i);
    // A reversed box has no pixels.
    assert_eq!(iou(BBox::new(10, 10, 0, 0), BBox::new(0, 0, 10, 10)), Iou { shared: 0, covered: 1 });
    // Touching boxes share none.
    assert_eq!(iou(BBox::new(0, 0, 10, 10), BBox::new(10, 0, 20, 10)).shared, 0);
}

#[test]
fn iou_of_extreme_boxes_is_exact() {
    let all = BBox::new(i64::MIN, i64::MIN, i64::MAX, i64::MAX);
    let side = u64::MAX as u128;
    assert_eq!(iou(all, all), Iou { shared: side * side, covered: side * side });
}

#[test]
fn iou_is_compared_exactly() {
    let third = Iou { shared: 1, covered: 3 };
    assert!(third.at_least(Ratio::new(1, 3).unwrap()));
    assert!(third.at_least(Ratio::new(333, 1000).unwrap()));
    assert!(!third.at_least(Ratio::new(334, 1000).unwrap()));
    assert!(third.at_least(Ratio::new(-1, 2).unwrap()));
    assert!(Iou { shared: 2, covered: 5 }.exceeds(&third));
    assert!(!third.exceeds(&third));
    let side = u64::MAX as u128;
    let full = Iou { shared: side * side, covered: side * side };
    let almost = Iou { shared: side * side - 1, covered: side * side };
    assert!(full.exceeds(&almost));
    assert!(!almost.exceeds(&full));
}

#[test]
fn distances_are_in_half_pixels() {
    // Centre (5, 5) against the point (8, 9): three and four pixels off.
    let d = sq_dist_to(BBox::new(0, 0, 10, 10), 16, 18);
    assert_eq!((d.hi, d.lo), (0, 100));
}

#[test]
fn select_central_picks_the_most_central_qualifying_detection() {
    let dets = vec![det(0, 0, 20, 20, 0.5), det(90, 90, 110, 110, 0.5)];
    let picked = select_central(&dets, 100, 100, conf(0.3)).unwrap();
    assert_eq!(picked.bbox, BBox::new(0, 0, 20, 20));
}

#[test]
fn select_central_excludes_below_confidence_floor() {
    let dets = vec![det(90, 90, 110, 110, 0.1)];
    assert!(select_central(&dets, 100, 100, conf(0.3)).is_none());
}

#[test]
fn select_central_takes_the_first_among_equals() {
    let dets = vec![
        numbered(0, 0, 2, 2, 0.1, 6),
        numbered(40, 50, 40, 50, 0.5, 7),
        numbered(60, 50, 60, 50, 0.9, 8),
    ];
    assert_eq!(select_central(&dets, 100, 100, conf(0.3)).unwrap().id, 7);
}

#[test]
fn select_central_lets_the_floor_itself_pass() {
    let dets = vec![det(0, 0, 20, 20, 0.3)];
    assert!(select_central(&dets, 100, 100, conf(0.3)).is_some());
    assert!(select_central(&[], 100, 100, conf(0.0)).is_none());
}

#[test]
fn select_central_compares_far_corners_exactly() {
    let far = det(i64::MAX - 1, i64::MAX, i64::MAX, i64::MAX, 0.5);
    let farther = det(i64::MAX, i64::MAX, i64::MAX, i64::MAX, 0.5);
    let picked = select_central(&[farther, far], 0, 0, conf(0.1)).unwrap();
    assert_eq!(picked.bbox, far.bbox);
}

#[test]
fn confirm_central_never_confirms_on_a_single_batch() {
    let dets = vec![det(90, 90, 110, 110, 0.5)];
    let (confirmed, candidate) = confirm_central(None, &dets, 100, 100, conf(0.3), px(20));
    assert!(confirmed.is_none());
    assert!(candidate.is_some());
}

#[test]
fn confirm_central_confirms_when_two_batches_agree() {
    let min_conf = conf(0.3);
    let batch1 = vec![det(90, 90, 110, 110, 0.5)];
    let (confirmed1, candidate) = confirm_central(None, &batch1, 100, 100, min_conf, px(20));
    assert!(confirmed1.is_none());
    let batch2 = vec![det(92, 92, 112, 112, 0.5)];
    let (confirmed2, next) = confirm_central(candidate, &batch2, 100, 100, min_conf, px(20));
    assert!(confirmed2.is_some());
    assert_eq!(confirmed2, Some(batch2[0]));
    assert!(next.is_none());
}

#[test]
fn confirm_central_does_not_confirm_when_batches_disagree() {
    let min_conf = conf(0.3);
    let batch1 = vec![det(0, 0, 20, 20, 0.5)];
    let (_, candidate) = confirm_central(None, &batch1, 100, 100, min_conf, px(5));
    let batch2 = vec![det(80, 80, 100, 100, 0.5)];
    let (confirmed2, next) = confirm_central(candidate, &batch2, 100, 100, min_conf, px(5));
    assert!(confirmed2.is_none());
    assert!(next.is_some());
}

#[test]
fn confirm_central_includes_the_edge_of_the_gate() {
    let prev = Some(det(0, 0, 10, 10, 0.5));
    // Three and four pixels off: a distance of five.
    let batch = vec![det(3, 4, 13, 14, 0.5)];
    assert!(confirm_central(prev, &batch, 100, 100, conf(0.3), px(5)).0.is_some());
    let gate = Ratio::new(49, 10).unwrap();
    assert!(confirm_central(prev, &batch, 100, 100, conf(0.3), gate).0.is_none());
    // A negative gate lets nothing through, not even the same place.
    assert!(confirm_central(prev, &[prev.unwrap()], 100, 100, conf(0.3), px(-1)).0.is_none());
    assert!(confirm_central(prev, &[prev.unwrap()], 100, 100, conf(0.3), px(0)).0.is_some());
}

#[test]
fn confirm_central_takes_the_nearest_of_the_agreeing() {
    let prev = Some(det(0, 0, 10, 10, 0.5));
    let batch = vec![
        numbered(6, 0, 16, 10, 0.9, 1),
        numbered(2, 0, 12, 10, 0.2, 2),
        numbered(3, 0, 13, 10, 0.5, 3),
        numbered(-3, 0, 7, 10, 0.5, 4),
    ];
    let (confirmed, next) = confirm_central(prev, &batch, 1000, 1000, conf(0.3), px(20));
    assert_eq!(confirmed.unwrap().id, 3);
    assert!(next.is_none());
}

#[test]
fn an_empty_batch_drops_the_candidate() {
    let prev = Some(det(0, 0, 10, 10, 0.5));
    assert_eq!(confirm_central(prev, &[], 100, 100, conf(0.3), px(20)), (None, None));
}

#[test]
fn match_detection_picks_highest_iou_above_threshold() {
    let current = BBox::new(0, 0, 10, 10);
    let dets = vec![det(0, 0, 9, 9, 0.9), det(1, 1, 11, 11, 0.9)];
    let matched = match_detection(current, &dets, conf(0.3), three_tenths()).unwrap();
    assert!(value(iou(current, matched.bbox)) >= 0.3);
    assert_eq!(matched.bbox, BBox::new(0, 0, 9, 9));
}

#[test]
fn match_detection_returns_none_below_iou_threshold() {
    let current = BBox::new(0, 0, 10, 10);
    let dets = vec![det(200, 200, 210, 210, 0.9)];
    assert!(match_detection(current, &dets, conf(0.3), three_tenths()).is_none());
}

#[test]
fn match_detection_takes_the_last_among_equals() {
    let current = BBox::new(0, 0, 10, 10);
    let dets = vec![
        numbered(1, 0, 11, 10, 0.9, 1),
        numbered(0, 1, 10, 11, 0.9, 2),
        numbered(0, 0, 10, 10, 0.1, 3),
    ];
    assert_eq!(match_detection(current, &dets, conf(0.3), three_tenths()).unwrap().id, 2);
}

#[test]
fn match_detection_lets_the_threshold_itself_pass() {
    // Three shared pixels of ten.
    let current = BBox::new(0, 0, 10, 1);
    let dets = vec![det(0, 0, 3, 1, 0.9)];
    assert!(match_detection(current, &dets, conf(0.3), three_tenths()).is_some());
    let more = Ratio::new(301, 1000).unwrap();
    assert!(match_detection(current, &dets, conf(0.3), more).is_none());
}

#[test]
fn ids_do_not_influence_a_choice() {
    let a = [numbered(0, 0, 20, 20, 0.5, 1), numbered(5, 5, 25, 25, 0.5, 2)];
    let b = [numbered(0, 0, 20, 20, 0.5, 9), numbered(5, 5, 25, 25, 0.5, 3)];
    let (p, q) = (
        select_central(&a, 100, 100, conf(0.3)).unwrap(),
        select_central(&b, 100, 100, conf(0.3)).unwrap(),
    );
    assert_eq!((p.bbox, p.id, q.bbox, q.id), (a[1].bbox, 2, b[1].bbox, 3));
}

#[test]
fn is_stale_true_past_max_age() {
    assert!(is_stale(0, 10_000_000_000, 5_000_000_000));
}

#[test]
fn is_stale_false_within_max_age() {
    assert!(!is_stale(0, 4_000_000_000, 5_000_000_000));
}

#[test]
fn is_stale_at_its_limits() {
    assert!(!is_stale(0, 5, 5));
    assert!(is_stale(0, 6, 5));
    assert!(is_stale(i64::MIN, i64::MAX, i64::MAX));
    assert!(!is_stale(i64::MAX, i64::MIN, -1));
}

#[test]
fn an_overlap_is_at_most_one() {
    let boxes = [
        BBox::new(0, 0, 10, 10),
        BBox::new(5, 5, 15, 15),
        BBox::new(2, 2, 4, 4),
        BBox::new(9, 9, 3, 3),
        BBox::new(0, 0, 0, 0),
    ];
    for a in boxes {
        for b in boxes {
            let i = iou(a, b);
            assert!(i.covered > 0 && i.shared <= i.covered, "{a:?} {b:?}");
        }
    }
}
