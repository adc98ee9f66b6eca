use tracking::seed::{force_lock_box_error, min_in_frame_extent, FrameDims, SeedBox, SeedError};
use tracking::types::BBox;

const FRAME: FrameDims = FrameDims { width: 200, height: 200 };

#[test]
fn a_1px_extent_never_seeds() {
    let err = SeedBox::new(BBox::new(10, 10, 11, 10), FRAME).unwrap_err();
    assert!(matches!(err, SeedError::ExtentTooSmall { .. }));
}

#[test]
fn a_zero_in_frame_extent_is_rejected() {
    let err = SeedBox::new(BBox::new(-50, 10, -40, 20), FRAME).unwrap_err();
    assert!(matches!(err, SeedError::InFrameExtentTooSmall { .. }) || matches!(err, SeedError::ExtentTooSmall { .. }));
}

#[test]
fn a_20x20_box_clipped_to_4_in_frame_px_hard_fails() {
    let b = BBox::new(-16, 10, 4, 30); // requested 20x20, in-frame 4x20
    let err = SeedBox::new(b, FRAME).unwrap_err();
    assert!(matches!(err, SeedError::InFrameExtentTooSmall { .. }));
}

#[test]
fn a_healthy_interior_box_seeds() {
    assert!(SeedBox::new(BBox::new(50, 50, 100, 100), FRAME).is_ok());
}

#[test]
fn an_overhanging_but_adequately_sized_box_seeds() {
    assert!(SeedBox::new(BBox::new(180, 50, 220, 90), FRAME).is_ok());
}

#[test]
fn extreme_aspect_ratio_is_rejected_even_fully_in_frame() {
    let err = SeedBox::new(BBox::new(50, 50, 53, 190), FRAME).unwrap_err(); // 3x140
    assert!(matches!(err, SeedError::AspectTooExtreme { .. }));
}

#[test]
fn a_3px_box_seeds_via_the_min_clamp() {
    assert!(SeedBox::new(BBox::new(50, 50, 53, 72), FRAME).is_ok());
}

#[test]
fn force_lock_rejects_degenerate_box() {
    assert!(force_lock_box_error(BBox::new(10, 10, 10, 20), FRAME).is_some());
}

#[test]
fn force_lock_rejects_out_of_frame_box() {
    assert!(force_lock_box_error(BBox::new(10, 10, 250, 50), FRAME).is_some());
}

#[test]
fn force_lock_accepts_a_valid_in_frame_box() {
    assert!(force_lock_box_error(BBox::new(10, 10, 50, 50), FRAME).is_none());
}

#[test]
fn seed_errors_carry_the_numbers() {
    assert_eq!(
        SeedBox::new(BBox::new(10, 10, 12, 40), FRAME),
        Err(SeedError::ExtentTooSmall { box_: BBox::new(10, 10, 12, 40), req_w: 2, req_h: 30, min: 3 })
    );
    assert_eq!(
        SeedBox::new(BBox::new(50, 50, 53, 111), FRAME),
        Err(SeedError::AspectTooExtreme { box_: BBox::new(50, 50, 53, 111), max_aspect: 20 })
    );
    assert_eq!(
        SeedBox::new(BBox::new(-16, 10, 4, 30), FRAME),
        Err(SeedError::InFrameExtentTooSmall {
            box_: BBox::new(-16, 10, 4, 30),
            in_w: 4,
            in_h: 20,
            need_w: 6,
            need_h: 6,
            req_w: 20,
            req_h: 20,
            frame_w: 200,
            frame_h: 200,
        })
    );
}

#[test]
fn the_gates_are_tried_in_order() {
    // Too small, too elongated and outside at once: the extent comes first.
    let err = SeedBox::new(BBox::new(-500, 0, -499, 100), FRAME).unwrap_err();
    assert!(matches!(err, SeedError::ExtentTooSmall { .. }));
    // Too elongated and outside: the aspect comes first.
    let err = SeedBox::new(BBox::new(-500, 0, -497, 100), FRAME).unwrap_err();
    assert!(matches!(err, SeedError::AspectTooExtreme { .. }));
}

#[test]
fn an_aspect_of_exactly_twenty_seeds() {
    assert!(SeedBox::new(BBox::new(50, 50, 53, 110), FRAME).is_ok());
}

#[test]
fn the_silent_gate_agrees_with_the_errors() {
    for b in [
        BBox::new(10, 10, 11, 10),
        BBox::new(-16, 10, 4, 30),
        BBox::new(50, 50, 100, 100),
        BBox::new(180, 50, 220, 90),
        BBox::new(50, 50, 53, 190),
        BBox::new(50, 50, 53, 72),
    ] {
        assert_eq!(SeedBox::gate(b, FRAME), SeedBox::new(b, FRAME).ok());
    }
    assert_eq!(SeedBox::gate(BBox::new(50, 50, 100, 100), FRAME).unwrap().get(), BBox::new(50, 50, 100, 100));
}

#[test]
fn the_needed_extent_is_three_and_a_seventh() {
    assert_eq!(min_in_frame_extent(1), 2);
    assert_eq!(min_in_frame_extent(3), 3);
    assert_eq!(min_in_frame_extent(4), 4);
    assert_eq!(min_in_frame_extent(7), 4);
    assert_eq!(min_in_frame_extent(8), 5);
    assert_eq!(min_in_frame_extent(20), 6);
    assert_eq!(min_in_frame_extent(700), 103);
}

#[test]
fn a_box_that_fills_a_huge_frame_is_not_an_overflow() {
    let frame = FrameDims { width: i64::MAX, height: i64::MAX };
    assert!(SeedBox::gate(BBox::new(i64::MIN, i64::MIN, i64::MAX, i64::MAX), frame).is_some());
}

#[test]
fn force_lock_complaints_are_in_words() {
    assert_eq!(
        force_lock_box_error(BBox::new(10, 10, 10, 20), FRAME).unwrap(),
        "degenerate box (width=0, height=10)"
    );
    assert_eq!(
        force_lock_box_error(BBox::new(10, 30, 20, 5), FRAME).unwrap(),
        "degenerate box (width=10, height=-25)"
    );
    assert_eq!(
        force_lock_box_error(BBox::new(10, 10, 250, 50), FRAME).unwrap(),
        "box outside 200x200 frame bounds"
    );
    assert_eq!(
        force_lock_box_error(BBox::new(-1, 10, 50, 50), FRAME).unwrap(),
        "box outside 200x200 frame bounds"
    );
    assert!(force_lock_box_error(BBox::new(0, 0, 200, 200), FRAME).is_none());
}

#[test]
fn a_larger_frame_seeds_what_a_smaller_one_does() {
    let b = BBox::new(180, 50, 220, 90);
    let sizes = [183, 188, 189, 200, 300];
    let seeds: Vec<bool> = sizes
        .iter()
        .map(|w| SeedBox::gate(b, FrameDims { width: *w, height: 200 }).is_some())
        .collect();
    // Nine of the forty columns have to be left.
    assert_eq!(seeds, vec![false, false, true, true, true]);
}

#[test]
fn nothing_outside_the_frame_seeds() {
    for b in [
        BBox::new(-40, 10, 0, 50),
        BBox::new(200, 10, 240, 50),
        BBox::new(10, -40, 50, 0),
        BBox::new(10, 200, 50, 240),
    ] {
        assert!(SeedBox::gate(b, FRAME).is_none(), "{b:?}");
    }
}
