use tracking::correlation::{seed_rect, stepped_box, PixelRect};
use tracking::{BBox, FrameDims, SeedBox};

#[test]
fn a_seed_becomes_a_corner_and_extents() {
    let frame = FrameDims { width: 200, height: 200 };
    let seed = SeedBox::new(BBox::new(35, 40, 85, 80), frame).unwrap();
    assert_eq!(seed_rect(&seed), PixelRect { x: 35, y: 40, width: 50, height: 40 });
}

#[test]
fn numbers_beyond_thirty_two_bits_lose_their_upper_bits() {
    let frame = FrameDims { width: i64::MAX, height: 200 };
    let b = BBox::new(0x1_0000_0005, 10, 0x1_0000_0025, 30);
    let seed = SeedBox::new(b, frame).unwrap();
    assert_eq!(seed_rect(&seed), PixelRect { x: 5, y: 10, width: 32, height: 20 });
}

#[test]
fn a_found_rectangle_becomes_a_box() {
    let rect = PixelRect { x: -5, y: 7, width: 20, height: 30 };
    assert_eq!(stepped_box(true, rect), Some(BBox::new(-5, 7, 15, 37)));
    assert_eq!(stepped_box(false, rect), None);
    let far = PixelRect { x: i32::MAX, y: 0, width: i32::MAX, height: 1 };
    assert_eq!(stepped_box(true, far), Some(BBox::new(2147483647, 0, 4294967294, 1)));
}

#[test]
fn a_seed_comes_back_as_its_box() {
    let frame = FrameDims { width: 200, height: 200 };
    let b = BBox::new(-3, 40, 85, 80);
    let seed = SeedBox::new(b, frame).unwrap();
    assert_eq!(stepped_box(true, seed_rect(&seed)), Some(b));
}
