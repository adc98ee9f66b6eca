use std::io::Cursor;

use tracking::footage::{build_sequence, RealSeqError};
use tracking::frames::{
    frame_format, is_extracted_frame_filename, is_palette_ragged, is_stale_frame, select_frames,
    FrameError, FrameFormat, FrameStack, RgbFrame,
};
use tracking::harness::run;
use tracking::metrics::score;
use tracking::Config;

fn encode(img: &image::RgbImage, format: image::ImageFormat) -> Vec<u8> {
    let mut out = Vec::new();
    img.write_to(&mut Cursor::new(&mut out), format).unwrap();
    out
}

fn png(w: u32, h: u32, rgb: [u8; 3]) -> Vec<u8> {
    encode(&image::RgbImage::from_pixel(w, h, image::Rgb(rgb)), image::ImageFormat::Png)
}

/// The pixels of a JPEG file.
fn jpeg_frame(bytes: &[u8]) -> Result<RgbFrame, image::ImageError> {
    let rgb = image::load_from_memory_with_format(bytes, image::ImageFormat::Jpeg)?.to_rgb8();
    let (width, height) = (rgb.width(), rgb.height());
    Ok(RgbFrame { pixels: rgb.into_raw(), width, height })
}

/// The checksum of a PNG chunk.
fn crc(bytes: &[u8]) -> u32 {
    let mut c = u32::MAX;
    for b in bytes {
        c ^= *b as u32;
        for _ in 0..8 {
            c = if c & 1 == 1 { 0xEDB8_8320 ^ (c >> 1) } else { c >> 1 };
        }
    }
    !c
}

/// A PNG chunk of this type.
fn chunk(kind: &[u8; 4], data: &[u8]) -> Vec<u8> {
    let body = [&kind[..], data].concat();
    let mut out = (data.len() as u32).to_be_bytes().to_vec();
    out.extend(&body);
    out.extend(crc(&body).to_be_bytes());
    out
}

/// A zlib stream that holds these bytes uncompressed.
fn stored(data: &[u8]) -> Vec<u8> {
    let n = data.len() as u16;
    let (mut a, mut b) = (1u32, 0u32);
    for d in data {
        a = (a + *d as u32) % 65521;
        b = (b + a) % 65521;
    }
    let mut out = vec![0x78, 0x01, 1];
    out.extend(n.to_le_bytes());
    out.extend((!n).to_le_bytes());
    out.extend(data);
    out.extend((b << 16 | a).to_be_bytes());
    out
}

/// A PNG file of two pixels, with the chunks `between` after its header.
fn two_pixels(colour_type: u8, between: &[u8], row: &[u8]) -> Vec<u8> {
    let scanline = [&[0], row].concat();
    [
        &[137, 80, 78, 71, 13, 10, 26, 10][..],
        &chunk(b"IHDR", &[0, 0, 0, 2, 0, 0, 0, 1, 8, colour_type, 0, 0, 0]),
        between,
        &chunk(b"IDAT", &stored(&scanline)),
        &chunk(b"IEND", &[]),
    ]
    .concat()
}

/// Loads a directory that is given as names and contents.
fn load(files: &[(&str, Vec<u8>)]) -> Result<(Vec<Vec<u8>>, u32, u32), FrameError> {
    let names: Vec<Vec<u8>> = files.iter().map(|(n, _)| n.as_bytes().to_vec()).collect();
    let mut stack = FrameStack::new();
    for i in select_frames(&names) {
        let bytes = &files[i].1;
        match frame_format(&names[i]).unwrap() {
            FrameFormat::Png => stack.add_png(bytes)?,
            FrameFormat::Jpeg => {
                let frame = jpeg_frame(bytes).map_err(FrameError::Decode)?;
                assert!(frame.is_packed());
                stack.push(frame).map_err(FrameError::Sequence)?
            }
        }
    }
    stack.finish().map_err(FrameError::Sequence)
}

#[test]
fn palette_indices_are_looked_up() {
    // Other chunks may stand before the palette.
    let between = [chunk(b"tEXt", b"PLTE\0IDAT"), chunk(b"PLTE", &[1, 2, 3, 4, 5, 6])].concat();
    let file = two_pixels(3, &between, &[1, 0]);
    assert!(!is_palette_ragged(&file));
    let (frames, w, h) = load(&[("a.png", file)]).unwrap();
    assert_eq!((w, h), (2, 1));
    assert_eq!(frames[0], vec![4, 5, 6, 1, 2, 3]);
}

#[test]
fn a_ragged_palette_is_refused() {
    for n in [1usize, 2, 4, 5, 7, 766, 767, 769] {
        let file = two_pixels(3, &chunk(b"PLTE", &vec![9; n]), &[0, 0]);
        assert!(is_palette_ragged(&file), "{n}");
        let mut stack = FrameStack::new();
        assert!(matches!(stack.add_png(&file), Err(FrameError::RaggedPalette)), "{n}");
        assert_eq!(stack.finish(), Err(RealSeqError::EmptyFrameDir));
    }
    // It does not matter what stands before it.
    let between = [chunk(b"tEXt", b"a\0b"), chunk(b"PLTE", &[1, 2, 3, 4])].concat();
    let file = two_pixels(3, &between, &[0, 0]);
    assert!(is_palette_ragged(&file));
    assert!(matches!(load(&[("a.png", file)]), Err(FrameError::RaggedPalette)));
}

#[test]
fn the_first_palette_before_the_data_counts() {
    // A palette in a true-colour file is a suggestion, whatever its length.
    let file = two_pixels(2, &chunk(b"PLTE", &[9; 4]), &[1, 2, 3, 4, 5, 6]);
    assert!(!is_palette_ragged(&file));
    assert_eq!(load(&[("a.png", file)]).unwrap().0[0], vec![1, 2, 3, 4, 5, 6]);
    // A second one makes the file undecodable.
    let twice = [chunk(b"PLTE", &[1, 2, 3]), chunk(b"PLTE", &[9; 4])].concat();
    let file = two_pixels(3, &twice, &[0, 0]);
    assert!(!is_palette_ragged(&file));
    assert!(matches!(load(&[("a.png", file)]), Err(FrameError::Decode(_))));
    // So does none at all.
    let file = two_pixels(3, &[], &[0, 0]);
    assert!(!is_palette_ragged(&file));
    assert!(matches!(load(&[("a.png", file)]), Err(FrameError::Decode(_))));
    // One after the data is not used.
    let mut late = two_pixels(3, &chunk(b"PLTE", &[7, 8, 9]), &[0, 0]);
    late.truncate(late.len() - 12);
    late.extend(chunk(b"PLTE", &[9; 4]));
    assert!(!is_palette_ragged(&late));
    assert_eq!(load(&[("a.png", late)]).unwrap().0[0], vec![7, 8, 9, 7, 8, 9]);
    // A length beyond the end of the file ends the search.
    let mut cut = two_pixels(3, &chunk(b"tEXt", b"a\0b"), &[0, 0]);
    cut[33..37].copy_from_slice(&u32::MAX.to_be_bytes());
    assert!(!is_palette_ragged(&cut));
    assert!(matches!(load(&[("a.png", cut)]), Err(FrameError::Decode(_))));
    assert!(!is_palette_ragged(&[]));
}

#[test]
fn packed_frames_hold_three_bytes_per_pixel() {
    let frame = |n: usize, width, height| RgbFrame { pixels: vec![0; n], width, height };
    assert!(frame(18, 2, 3).is_packed());
    assert!(!frame(17, 2, 3).is_packed());
    assert!(!frame(19, 2, 3).is_packed());
    assert!(frame(0, 0, 5).is_packed());
    assert!(!frame(0, u32::MAX, u32::MAX).is_packed());
}

#[test]
fn is_extracted_frame_filename_matches_only_our_own_naming() {
    assert!(is_extracted_frame_filename("frame_000000.png"));
    assert!(is_extracted_frame_filename("frame_123456.png"));
    assert!(!is_extracted_frame_filename("sample.mp4"));
    assert!(!is_extracted_frame_filename("ground_truth.csv"));
    assert!(!is_extracted_frame_filename("README.md"));
    assert!(!is_extracted_frame_filename("frame_00000.png")); // 5 digits
    assert!(!is_extracted_frame_filename("frame_0000000.png")); // 7 digits
    assert!(!is_extracted_frame_filename("frame_00000a.png")); // non-digit
    assert!(!is_extracted_frame_filename("Frame_000000.png")); // case
    assert!(!is_extracted_frame_filename("frame_000000.jpg")); // wrong ext
}

#[test]
fn only_stale_frames_are_removed() {
    assert!(is_stale_frame(Some("frame_000001.png"), true));
    assert!(!is_stale_frame(Some("frame_000001.png"), false)); // a directory
    assert!(!is_stale_frame(Some("sample.mp4"), true));
    assert!(!is_stale_frame(None, true));
    // Digits of other scripts are no digits here.
    assert!(!is_stale_frame(Some("frame_00000\u{661}.png"), true));
}

#[test]
fn the_extension_decides_the_format() {
    let format = |n: &str| frame_format(&n.as_bytes().to_vec());
    assert_eq!(format("a.png"), Some(FrameFormat::Png));
    assert_eq!(format("A.PnG"), Some(FrameFormat::Png));
    assert_eq!(format("a.jpg"), Some(FrameFormat::Jpeg));
    assert_eq!(format("a.b.JPEG"), Some(FrameFormat::Jpeg));
    assert_eq!(format("..png"), Some(FrameFormat::Png));
    for other in [".png", "png", "a.gif", "a.png.txt", "apng", "", ".jpeg", "a.jpe"] {
        assert_eq!(format(other), None, "{other}");
    }
}

#[test]
fn frames_are_sorted_by_name() {
    let names: Vec<Vec<u8>> = ["b.png", "ground_truth.csv", "a.png", "B.jpg", "a.pngx", "aa.png"]
        .iter()
        .map(|n| n.as_bytes().to_vec())
        .collect();
    assert_eq!(select_frames(&names), vec![3, 2, 5, 0]);
    assert_eq!(select_frames(&Vec::new()), Vec::<usize>::new());
}

#[test]
fn extracted_frames_are_selected_in_order() {
    let numbers = [12u32, 3, 100000, 99999, 7];
    let names: Vec<Vec<u8>> =
        numbers.iter().map(|n| format!("frame_{n:06}.png").into_bytes()).collect();
    let order: Vec<u32> = select_frames(&names).iter().map(|i| numbers[*i]).collect();
    assert_eq!(order, vec![3, 7, 12, 99999, 100000]);
}

#[test]
fn load_image_sequence_rejects_empty_directory() {
    let err = load(&[]).unwrap_err();
    assert!(matches!(err, FrameError::Sequence(RealSeqError::EmptyFrameDir)));
    // Files that are no images do not count.
    let err = load(&[("notes.txt", vec![1, 2, 3])]).unwrap_err();
    assert!(matches!(err, FrameError::Sequence(RealSeqError::EmptyFrameDir)));
}

#[test]
fn load_image_sequence_round_trips_real_png_files() {
    let (frames, w, h) = load(&[
        ("frame_000001.png", png(4, 3, [40, 50, 60])),
        ("frame_000000.png", png(4, 3, [10, 20, 30])),
        // A non-image file must be ignored, not crash the loader.
        ("ground_truth.csv", b"0,0,0,0,1,1\n".to_vec()),
    ])
    .unwrap();
    assert_eq!((w, h), (4, 3));
    assert_eq!(frames.len(), 2);
    assert_eq!(&frames[0][0..3], &[10, 20, 30]);
    assert_eq!(&frames[1][0..3], &[40, 50, 60]);
    assert_eq!(frames[0].len(), 36);
}

#[test]
fn load_image_sequence_rejects_mixed_resolutions() {
    let err = load(&[
        ("frame_000000.png", png(4, 3, [1, 2, 3])),
        ("frame_000001.png", png(5, 3, [1, 2, 3])),
    ])
    .unwrap_err();
    assert!(matches!(err, FrameError::Sequence(RealSeqError::SizeMismatch { .. })));
    match err {
        FrameError::Sequence(e) => assert_eq!(
            e,
            RealSeqError::SizeMismatch {
                index: 1,
                actual_w: 5,
                actual_h: 3,
                expected_w: 4,
                expected_h: 3
            }
        ),
        other => panic!("expected a size mismatch, got {other:?}"),
    }
}

#[test]
fn other_colour_models_are_turned_into_rgb() {
    let gray = image::GrayImage::from_pixel(2, 1, image::Luma([77]));
    let mut bytes = Vec::new();
    gray.write_to(&mut Cursor::new(&mut bytes), image::ImageFormat::Png).unwrap();
    let (frames, w, h) = load(&[("a.png", bytes)]).unwrap();
    assert_eq!((w, h), (2, 1));
    assert_eq!(frames[0], vec![77; 6]);
}

#[test]
fn decoded_jpeg_files_are_frames() {
    let img = image::RgbImage::from_pixel(8, 8, image::Rgb([200, 200, 200]));
    let (frames, w, h) = load(&[("a.jpg", encode(&img, image::ImageFormat::Jpeg))]).unwrap();
    assert_eq!((w, h), (8, 8));
    assert_eq!(frames[0].len(), 192);
    assert!(frames[0].iter().all(|b| (195..=205).contains(b)));
}

#[test]
fn a_file_that_is_no_image_is_a_decoding_error() {
    let err = load(&[("a.png", b"not an image".to_vec())]).unwrap_err();
    assert!(matches!(err, FrameError::Decode(_)));
    // The extension decides, not the contents.
    let img = image::RgbImage::from_pixel(8, 8, image::Rgb([1, 2, 3]));
    let err = load(&[("a.png", encode(&img, image::ImageFormat::Jpeg))]).unwrap_err();
    assert!(matches!(err, FrameError::Decode(_)));
}

#[test]
fn a_refused_frame_leaves_the_stack_alone() {
    let mut stack = FrameStack::new();
    let frame = |w: u32, h: u32| RgbFrame { pixels: vec![9; (w * h * 3) as usize], width: w, height: h };
    assert_eq!(stack.push(frame(2, 2)), Ok(()));
    assert!(stack.push(frame(2, 3)).is_err());
    assert!(stack.add_png(b"junk").is_err());
    assert!(stack.add_png(&png(3, 2, [1, 2, 3])).is_err());
    assert_eq!(stack.push(frame(2, 2)), Ok(()));
    let (frames, w, h) = stack.finish().unwrap();
    assert_eq!((frames.len(), w, h), (2, 2, 2));
}

#[test]
fn load_sequence_end_to_end_real_frames_through_tracking_session() {
    // Encoded frames, decoded, annotated, run and scored: a target that
    // moves in a straight line should be locked and stay locked.
    const N: usize = 20;
    let mut gt_lines = vec!["frame,track_id,x1,y1,x2,y2".to_string()];
    let mut files = Vec::new();
    for t in 0..N {
        // A textured background, so that there is something to match.
        let mut img = image::RgbImage::new(64, 48);
        for (x, y, px) in img.enumerate_pixels_mut() {
            *px = image::Rgb([(x * 3) as u8, (y * 5) as u8, ((x + y) * 2) as u8]);
        }
        let x1 = 5 + t as i64;
        let (y1, x2, y2) = (10i64, x1 + 8, 18i64);
        for yy in y1..y2 {
            for xx in x1..x2 {
                img.put_pixel(xx as u32, yy as u32, image::Rgb([250, 250, 250]));
            }
        }
        files.push((format!("frame_{t:06}.png"), encode(&img, image::ImageFormat::Png)));
        gt_lines.push(format!("{t},0,{x1},{y1},{x2},{y2}"));
    }
    let named: Vec<(&str, Vec<u8>)> = files.iter().map(|(n, b)| (n.as_str(), b.clone())).collect();
    let (frames, w, h) = load(&named).unwrap();
    let seq = build_sequence("e2e", frames, w, h, &gt_lines.join("\n")).unwrap();
    assert_eq!(seq.frames.len(), N);

    let states = run(&seq, Config::default());
    let report = score(&seq, &states);
    let (hits, ticks) = report.success_rate();
    assert!(
        hits as f64 / ticks as f64 > 0.8,
        "expected a straight-line target to be tracked reliably, got {report:?}"
    );
}
