use tracking::ratio::Ratio;
use tracking::rng::{Rng, UNIT_STEPS};
use tracking::synthetic::{
    blank_frame, distractor_crossing, draw_square, occlusion_and_sparse_detections, straight_line,
    HEIGHT, WIDTH,
};
use tracking::BBox;

#[test]
fn the_generator_is_xorshift_with_a_multiplier() {
    let mut rng = Rng::new(1);
    assert_eq!(rng.next_u64(), 13473309256371520605);
    assert_eq!(rng.next_u64(), 205591708820793437);
    assert_eq!(rng.next_u64(), 18309282447448061861);
    let mut zero = Rng::new(0);
    assert_eq!(zero.next_u64(), 13473309256371520605);
}

#[test]
fn points_of_the_unit_interval_are_the_upper_bits() {
    let mut rng = Rng::new(1);
    assert_eq!(rng.unit(), 6578764285337656);
    assert_eq!(rng.unit(), 100386576572653);
    for _ in 0..1000 {
        assert!(rng.unit() < UNIT_STEPS);
    }
}

#[test]
fn ranges_are_inclusive() {
    let mut rng = Rng::new(1);
    let drawn: Vec<i64> = (0..4).map(|_| rng.range_i64(-2, 2)).collect();
    assert_eq!(drawn, vec![1, -2, 2, 2]);
    let mut seen = [false; 5];
    for _ in 0..200 {
        let v = rng.range_i64(-2, 2);
        assert!((-2..=2).contains(&v));
        seen[(v + 2) as usize] = true;
    }
    assert_eq!(seen, [true; 5]);
    assert_eq!(rng.range_i64(7, 7), 7);
    let v = rng.range_i64(i64::MIN, i64::MAX);
    assert!((i64::MIN..=i64::MAX).contains(&v));
}

#[test]
fn chances_compare_the_point_with_the_probability() {
    // The first point is about 0.7304.
    assert!(Rng::new(1).chance(Ratio::new(74, 100).unwrap()));
    assert!(!Rng::new(1).chance(Ratio::new(73, 100).unwrap()));
    assert!(!Rng::new(1).chance(Ratio::new(0, 1).unwrap()));
    assert!(!Rng::new(1).chance(Ratio::new(-1, 1).unwrap()));
    assert!(Rng::new(1).chance(Ratio::new(1, 1).unwrap()));
}

#[test]
fn squares_are_drawn_inside_the_frame() {
    let mut buf = blank_frame();
    assert_eq!(buf.len(), (WIDTH * HEIGHT * 3) as usize);
    draw_square(&mut buf, BBox::new(-5, -5, 2, 1), (1, 2, 3));
    assert_eq!(&buf[0..9], &[1, 2, 3, 1, 2, 3, 25, 25, 25]);
    assert!(buf[9..].iter().all(|b| *b == 25));
    draw_square(&mut buf, BBox::new(319, 239, 400, 400), (7, 8, 9));
    let n = buf.len();
    assert_eq!(&buf[n - 6..], &[25, 25, 25, 7, 8, 9]);
}

#[test]
fn a_straight_line_moves_two_pixels_per_tick() {
    let seq = straight_line(90, 1);
    assert_eq!((seq.name, seq.width, seq.height), ("straight_line", 320, 240));
    assert_eq!((seq.len(), seq.is_empty()), (90, false));
    assert_eq!(seq.target_gt[0].bbox, BBox::new(66, 106, 94, 134));
    assert_eq!(seq.target_gt[1].bbox, BBox::new(68, 106, 96, 134));
    assert!(seq.target_gt.iter().all(|g| g.visible));
    assert!(seq.distractor_gt.iter().all(|g| g.is_none()));
    // One point for the miss, then one per coordinate: -2, 2, 2, 1.
    let batch = seq.detections[0].as_ref().unwrap();
    assert_eq!(batch.len(), 1);
    assert_eq!(batch[0].bbox, BBox::new(64, 108, 96, 135));
    assert_eq!(batch[0].id, 0);
    assert_eq!(f32::from_bits(batch[0].confidence.value()), 0.85);
    assert!(seq.detections.iter().enumerate().all(|(t, d)| d.as_ref().unwrap()[0].id == t as u64));
    // The path wraps after 120 ticks.
    let long = straight_line(121, 1);
    assert_eq!(long.target_gt[120].bbox, long.target_gt[0].bbox);
}

#[test]
fn frames_show_the_target() {
    let seq = straight_line(1, 1);
    let view = seq.frame_view(0);
    assert_eq!((view.width, view.height, view.channels), (320, 240, 3));
    let at = |x: usize, y: usize| view.pixels[(y * 320 + x) * 3];
    assert_eq!((at(66, 106), at(93, 133)), (230, 230));
    assert_eq!((at(65, 106), at(94, 133), at(66, 105), at(66, 134)), (25, 25, 25, 25));
}

#[test]
fn an_occlusion_hides_the_target_for_a_sixth() {
    let seq = occlusion_and_sparse_detections(90, 2);
    for t in 0..90 {
        assert_eq!(seq.target_gt[t].visible, !(30..45).contains(&t), "tick {t}");
        assert_eq!(seq.detections[t].is_some(), t % 3 == 0, "tick {t}");
    }
    // Hidden: nothing drawn, and an empty batch where the detector ran.
    assert!(seq.frames[30].iter().all(|b| *b == 25));
    assert_eq!(seq.detections[30].as_ref().unwrap().len(), 0);
    let misses = (0..90)
        .step_by(3)
        .filter(|t| seq.target_gt[*t].visible && seq.detections[*t].as_ref().unwrap().is_empty())
        .count();
    assert!(misses < 10);
}

#[test]
fn a_distractor_crosses_the_other_way() {
    let seq = distractor_crossing(90, 3);
    let decoy = |t: usize| seq.distractor_gt[t].unwrap().bbox;
    assert_eq!(seq.target_gt[0].bbox, BBox::new(66, 66, 94, 94));
    assert_eq!(decoy(0), BBox::new(266, 72, 294, 100));
    assert_eq!(decoy(1), BBox::new(264, 72, 292, 100));
    let batch = seq.detections[0].as_ref().unwrap();
    assert_eq!((batch.len(), batch[0].id, batch[1].id), (2, 0, 1));
    assert_eq!(batch[1].bbox, decoy(0));
    // Where the two meet, the distractor is drawn on top.
    let t = 50;
    assert_eq!((seq.target_gt[t].bbox.x1, decoy(t).x1), (166, 166));
    let i = (80 * 320 + 180) * 3;
    assert_eq!(seq.frames[t][i], 215);
}

#[test]
fn generation_is_deterministic() {
    let (p, q) = (occlusion_and_sparse_detections(60, 5), occlusion_and_sparse_detections(60, 5));
    assert_eq!(p.frames, q.frames);
    assert_eq!(p.target_gt, q.target_gt);
    assert_eq!(p.detections, q.detections);
    assert_ne!(straight_line(30, 1).detections, straight_line(30, 2).detections);
    assert!(straight_line(0, 1).is_empty());
}

#[test]
fn a_live_generator_never_dies() {
    for seed in [1u64, 2, 0x8000_0000_0000_0000, u64::MAX] {
        let mut rng = Rng::new(seed);
        for _ in 0..1000 {
            assert_ne!(rng.next_u64(), 0);
        }
    }
}
