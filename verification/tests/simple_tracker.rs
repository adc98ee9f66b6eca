use tracking::seed::{FrameDims, SeedBox};
use tracking::simple_tracker::{to_gray, SimpleTracker};
use tracking::tracker::{FrameView, Tracker};
use tracking::types::BBox;

/// A flat background with a distinct bright square, movable by `offset`.
fn synthetic_frame(width: u32, height: u32, offset: i64) -> Vec<u8> {
    let mut buf = vec![30u8; (width * height * 3) as usize];
    let (x0, y0) = (40 + offset, 40);
    for y in y0..(y0 + 30).min(height as i64) {
        for x in x0..(x0 + 30).min(width as i64) {
            if x < 0 || y < 0 {
                continue;
            }
            let i = ((y * width as i64 + x) * 3) as usize;
            buf[i] = 230;
            buf[i + 1] = 230;
            buf[i + 2] = 230;
        }
    }
    buf
}

fn view(pixels: &[u8], w: u32, h: u32) -> FrameView<'_> {
    FrameView { pixels, width: w, height: h, channels: 3 }
}

fn seed(b: BBox, w: u32, h: u32) -> SeedBox {
    SeedBox::new(b, FrameDims { width: w as i64, height: h as i64 }).unwrap()
}

#[test]
fn simple_tracker_is_active_false_until_reinit() {
    assert!(!SimpleTracker::new().is_active());
}

#[test]
fn tracks_a_target_that_moves_a_few_pixels_per_frame() {
    let (w, h) = (200u32, 200u32);
    let mut t = SimpleTracker::new();
    let f0 = synthetic_frame(w, h, 0);
    t.reinit(view(&f0, w, h), seed(BBox::new(40, 40, 70, 70), w, h)).unwrap();

    for step in 1..=5 {
        let f = synthetic_frame(w, h, step * 3);
        let got = t.update(view(&f, w, h)).unwrap();
        assert!(got.is_some(), "tracker lost the target at step {step}");
        assert_eq!(got.unwrap(), BBox::new(40 + 3 * step, 40, 70 + 3 * step, 70));
    }
}

#[test]
fn simple_tracker_update_before_reinit_returns_none_not_an_error() {
    let (w, h) = (64u32, 64u32);
    let pixels = synthetic_frame(w, h, 0);
    let mut t = SimpleTracker::new();
    assert_eq!(t.update(view(&pixels, w, h)).unwrap(), None);
}

#[test]
fn simple_tracker_reset_deactivates_the_tracker() {
    let (w, h) = (200u32, 200u32);
    let f0 = synthetic_frame(w, h, 0);
    let mut t = SimpleTracker::new();
    t.reinit(view(&f0, w, h), seed(BBox::new(40, 40, 70, 70), w, h)).unwrap();
    assert!(t.is_active());
    t.reset();
    assert!(!t.is_active());
}

#[test]
fn a_default_tracker_has_no_target() {
    assert!(!SimpleTracker::default().is_active());
}

#[test]
fn gray_values_are_weighted() {
    let pixels = [255u8, 0, 0, 0, 255, 0, 0, 0, 255, 10, 20, 30];
    assert_eq!(to_gray(&pixels, 2, 2, 3, BBox::new(0, 0, 2, 2)), vec![76, 149, 29, 18]);
    // A single channel is taken as it is.
    assert_eq!(to_gray(&[1, 2, 3, 4], 2, 2, 1, BBox::new(0, 0, 2, 2)), vec![1, 2, 3, 4]);
    // Two channels: the first one.
    assert_eq!(to_gray(&[1, 2, 3, 4], 2, 1, 2, BBox::new(0, 0, 2, 1)), vec![1, 3]);
    // A fourth channel is left out.
    assert_eq!(to_gray(&[10, 20, 30, 99], 1, 1, 4, BBox::new(0, 0, 1, 1)), vec![18]);
}

#[test]
fn pixels_outside_the_frame_are_black() {
    let pixels = [9u8, 8, 7, 6];
    assert_eq!(
        to_gray(&pixels, 2, 2, 1, BBox::new(-1, 1, 3, 3)),
        vec![0, 7, 6, 0, 0, 0, 0, 0]
    );
    assert_eq!(to_gray(&pixels, 2, 2, 1, BBox::new(1, 1, 0, 0)), Vec::<u8>::new());
}

#[test]
fn a_still_target_stays_where_it_is() {
    let (w, h) = (200u32, 200u32);
    let f = synthetic_frame(w, h, 0);
    let mut t = SimpleTracker::new();
    t.reinit(view(&f, w, h), seed(BBox::new(30, 35, 75, 80), w, h)).unwrap();
    assert_eq!(t.update(view(&f, w, h)).unwrap(), Some(BBox::new(30, 35, 75, 80)));
}

#[test]
fn a_target_is_found_within_the_search_margin_only() {
    let (w, h) = (200u32, 200u32);
    let f0 = synthetic_frame(w, h, 0);
    let mut t = SimpleTracker::new();
    t.reinit(view(&f0, w, h), seed(BBox::new(40, 40, 70, 70), w, h)).unwrap();
    let edge = synthetic_frame(w, h, 24);
    assert_eq!(t.update(view(&edge, w, h)).unwrap(), Some(BBox::new(64, 40, 94, 70)));

    let mut t = SimpleTracker::new();
    t.reinit(view(&f0, w, h), seed(BBox::new(40, 40, 70, 70), w, h)).unwrap();
    let beyond = synthetic_frame(w, h, 60);
    assert_eq!(t.update(view(&beyond, w, h)).unwrap(), None);
    // The target is still held, at its last place.
    assert!(t.is_active());
    assert_eq!(t.update(view(&f0, w, h)).unwrap(), Some(BBox::new(40, 40, 70, 70)));
}

#[test]
fn the_first_of_equal_matches_is_taken() {
    // A flat frame matches everywhere: the search starts at the top left.
    let flat = vec![100u8; 200 * 200 * 3];
    let mut t = SimpleTracker::new();
    t.reinit(view(&flat, 200, 200), seed(BBox::new(100, 100, 130, 130), 200, 200)).unwrap();
    assert_eq!(t.update(view(&flat, 200, 200)).unwrap(), Some(BBox::new(76, 76, 106, 106)));
    assert_eq!(t.update(view(&flat, 200, 200)).unwrap(), Some(BBox::new(52, 52, 82, 82)));
    let mut t = SimpleTracker::new();
    t.reinit(view(&flat, 200, 200), seed(BBox::new(10, 5, 40, 35), 200, 200)).unwrap();
    assert_eq!(t.update(view(&flat, 200, 200)).unwrap(), Some(BBox::new(0, 0, 30, 30)));
}

#[test]
fn a_mean_difference_of_forty_is_still_the_target() {
    let start = vec![100u8; 60 * 60 * 3];
    for (level, found) in [(140u8, true), (141, false), (60, true), (59, false)] {
        let mut t = SimpleTracker::new();
        t.reinit(view(&start, 60, 60), seed(BBox::new(10, 10, 40, 40), 60, 60)).unwrap();
        let next = vec![level; 60 * 60 * 3];
        assert_eq!(t.update(view(&next, 60, 60)).unwrap().is_some(), found, "level {level}");
    }
}

#[test]
fn a_box_larger_than_the_frame_is_never_found() {
    let pixels = vec![50u8; 30 * 30 * 3];
    let frame = view(&pixels, 30, 30);
    let mut t = SimpleTracker::new();
    t.reinit(frame, seed(BBox::new(-5, -5, 35, 35), 30, 30)).unwrap();
    assert_eq!(t.update(frame).unwrap(), None);
}
