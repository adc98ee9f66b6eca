use tracking::footage::{build_sequence, parse_ground_truth, GtRow, RealSeqError};
use tracking::BBox;

/// The line number, text and reason of the complaint about a file.
fn complaint(csv: &str) -> (usize, String, String) {
    match parse_ground_truth(csv) {
        Err(RealSeqError::BadGroundTruthLine { line_no, raw, reason }) => (line_no, raw, reason),
        other => panic!("expected BadGroundTruthLine, got {other:?}"),
    }
}

fn reason(csv: &str) -> String {
    complaint(csv).2
}

#[test]
fn parse_ground_truth_basic() {
    let csv = "frame,track_id,x1,y1,x2,y2\n0,0,10,10,20,20\n1,0,12,10,22,20\n1,1,100,100,110,110\n";
    let rows = parse_ground_truth(csv).unwrap();
    assert_eq!(rows.len(), 3);
    assert_eq!(rows[0].frame, 0);
    assert_eq!(rows[0].track_id, 0);
    assert_eq!(rows[0].bbox, BBox::new(10, 10, 20, 20));
    assert_eq!(rows[2].track_id, 1);
}

#[test]
fn parse_ground_truth_ignores_blank_and_comment_lines() {
    let csv = "# comment\n\n0,0,1,2,3,4\n";
    let rows = parse_ground_truth(csv).unwrap();
    assert_eq!(rows.len(), 1);
}

#[test]
fn parse_ground_truth_rejects_malformed_row() {
    let csv = "0,0,1,2,3\n"; // missing a field
    let err = parse_ground_truth(csv).unwrap_err();
    assert!(matches!(err, RealSeqError::BadGroundTruthLine { .. }));
}

#[test]
fn parse_ground_truth_only_tolerates_header_before_first_data_row() {
    // A malformed frame field on a later line must be an error, not a header
    // that is dropped without a word.
    let csv = "frame,track_id,x1,y1,x2,y2\n0,0,1,2,3,4\nnot_a_frame,0,1,2,3,4\n";
    let err = parse_ground_truth(csv).unwrap_err();
    match err {
        RealSeqError::BadGroundTruthLine { line_no, .. } => assert_eq!(line_no, 3),
        other => panic!("expected BadGroundTruthLine, got {other:?}"),
    }
}

#[test]
fn parse_ground_truth_rejects_negative_track_id_cleanly() {
    // Must be a normal parse error, not a wraparound to a huge u64.
    let csv = "0,-1,1,2,3,4\n";
    let err = parse_ground_truth(csv).unwrap_err();
    assert!(matches!(err, RealSeqError::BadGroundTruthLine { .. }));
}

#[test]
fn parse_ground_truth_rejects_degenerate_and_reversed_boxes() {
    for csv in ["0,0,10,10,10,20\n", "0,0,10,10,20,10\n", "0,0,20,10,10,20\n"] {
        let err = parse_ground_truth(csv).unwrap_err();
        assert!(
            matches!(err, RealSeqError::BadGroundTruthLine { .. }),
            "csv {csv:?} should have been rejected"
        );
    }
}

#[test]
fn parse_ground_truth_rejects_out_of_bound_coordinates_instead_of_overflowing() {
    let csv = format!("0,0,{},0,{},1\n", i64::MIN, i64::MAX);
    let err = parse_ground_truth(&csv).unwrap_err();
    assert!(matches!(err, RealSeqError::BadGroundTruthLine { .. }));
}

#[test]
fn several_headers_are_tolerated_before_data() {
    let csv = "title\nframe,track_id\n ,x\n+3, 0 ,1,2,3,4";
    let rows = parse_ground_truth(csv).unwrap();
    assert_eq!(rows, vec![GtRow { frame: 3, track_id: 0, bbox: BBox::new(1, 2, 3, 4) }]);
}

#[test]
fn a_negative_frame_number_is_an_error_and_no_header() {
    assert_eq!(
        complaint("-1,0,1,2,3,4\n0,0,1,2,3,4\n"),
        (
            1,
            "-1,0,1,2,3,4".to_string(),
            "field 0 (frame) not a non-negative integer: invalid digit found in string".to_string()
        )
    );
    assert_eq!(
        reason("0,0,1,2,3,4\n-1,0,1,2,3,4\n"),
        "field 0 (frame) not a non-negative integer: \"-1\""
    );
    // Numbers that are too large or too small are numbers still.
    assert_eq!(
        reason("99999999999999999999,0,1,2,3,4\n"),
        "field 0 (frame) not a non-negative integer: number too large to fit in target type"
    );
    assert_eq!(
        reason("-99999999999999999999,0,1,2,3,4\n"),
        "field 0 (frame) not a non-negative integer: invalid digit found in string"
    );
    // Nothing that can be read as an integer.
    assert_eq!(parse_ground_truth("1.5,0,1,2,3,4\n-,0\n--1,0\n").unwrap(), vec![]);
}

#[test]
fn white_space_around_fields_and_lines_does_not_matter() {
    let csv = "\u{feff}frame\n  0 ,\t1,\u{a0}1 , 2,3\u{3000},4 \r\n\r\n   # note\r\n\u{2003}7,0,-1,-2,3,4";
    let rows = parse_ground_truth(csv).unwrap();
    assert_eq!(rows.len(), 2);
    assert_eq!(rows[0], GtRow { frame: 0, track_id: 1, bbox: BBox::new(1, 2, 3, 4) });
    assert_eq!(rows[1], GtRow { frame: 7, track_id: 0, bbox: BBox::new(-1, -2, 3, 4) });
}

#[test]
fn an_empty_file_has_no_rows() {
    assert_eq!(parse_ground_truth("").unwrap(), vec![]);
    assert_eq!(parse_ground_truth("\n\n#\n").unwrap(), vec![]);
}

#[test]
fn complaints_name_the_line() {
    let (line_no, raw, _) = complaint("# one\n\n  0,0,1,2,3  \n0,0,1,2,3,4\n");
    assert_eq!(line_no, 3);
    assert_eq!(raw, "0,0,1,2,3");
}

#[test]
fn only_the_first_line_at_fault_is_named() {
    assert_eq!(complaint("0,0,1,2,3,4\n0,x,1,2,3,4\n0,0\n").0, 2);
}

#[test]
fn complaints_say_what_is_wrong() {
    assert_eq!(
        reason("0,0,1,2,3\n"),
        "expected 6 comma-separated fields (frame,track_id,x1,y1,x2,y2), got 5"
    );
    assert_eq!(
        reason("0,0,1,2,3,4,\n"),
        "expected 6 comma-separated fields (frame,track_id,x1,y1,x2,y2), got 7"
    );
    assert_eq!(
        reason("0,-1,1,2,3,4\n"),
        "field 1 (track_id) not a non-negative integer: invalid digit found in string"
    );
    assert_eq!(
        reason("0,,1,2,3,4\n"),
        "field 1 (track_id) not a non-negative integer: cannot parse integer from empty string"
    );
    assert_eq!(
        reason("0,18446744073709551616,1,2,3,4\n"),
        "field 1 (track_id) not a non-negative integer: number too large to fit in target type"
    );
    assert_eq!(
        reason("0,0,a,2,3,4\n"),
        "field 2 (x1) not an integer: invalid digit found in string"
    );
    assert_eq!(
        reason("0,0,1,-,3,4\n"),
        "field 3 (y1) not an integer: invalid digit found in string"
    );
    assert_eq!(
        reason("0,0,1,2,9223372036854775808,4\n"),
        "field 4 (x2) not an integer: number too large to fit in target type"
    );
    assert_eq!(
        reason("0,0,1,2,3,-9223372036854775809\n"),
        "field 5 (y2) not an integer: number too small to fit in target type"
    );
    assert_eq!(
        reason("0,0,1,2,1000001,4\n"),
        "field 4 (x2) = 1000001 is outside the sane range +/-1000000"
    );
    assert_eq!(
        reason("0,0,-1000001,2,3,4\n"),
        "field 2 (x1) = -1000001 is outside the sane range +/-1000000"
    );
    assert_eq!(
        reason("0,0,20,10,10,20\n"),
        "box (20,10,10,20) is degenerate or reversed \u{2014} need x1<x2 and y1<y2"
    );
    assert_eq!(
        reason("0,0,1,2,3,4\na\tb\"c,0\n"),
        "field 0 (frame) not a non-negative integer: \"a\\tb\\\"c\""
    );
}

#[test]
fn coordinates_at_the_bound_are_read() {
    let rows = parse_ground_truth("0,18446744073709551615,-1000000,-1000000,1000000,1000000").unwrap();
    assert_eq!(rows[0].track_id, u64::MAX);
    assert_eq!(rows[0].bbox.area(), 4_000_000_000_000);
}

#[test]
fn build_sequence_marks_missing_frames_not_visible() {
    // 3 tiny 2x2 frames, target present on frames 0 and 2 only.
    let frames = vec![vec![0u8; 2 * 2 * 3]; 3];
    let gt = "frame,track_id,x1,y1,x2,y2\n0,0,0,0,1,1\n2,0,0,0,1,1\n";
    let seq = build_sequence("t", frames, 2, 2, gt).unwrap();
    assert_eq!(seq.target_gt.len(), 3);
    assert!(seq.target_gt[0].visible);
    assert!(!seq.target_gt[1].visible);
    assert!(seq.target_gt[2].visible);
    // Detections mirror ground truth as a perfect-detector stand-in.
    assert_eq!(seq.detections[0].as_ref().unwrap().len(), 1);
    assert_eq!(seq.detections[1].as_ref().unwrap().len(), 0);
    assert_eq!(seq.target_gt[1].bbox, BBox::new(0, 0, 0, 0));
    let last = seq.detections[2].as_ref().unwrap()[0];
    assert_eq!((last.bbox, last.id), (BBox::new(0, 0, 1, 1), 1));
    assert_eq!(f32::from_bits(last.confidence.value()), 1.0);
}

#[test]
fn build_sequence_rejects_unsupported_track_id() {
    let frames = vec![vec![0u8; 2 * 2 * 3]];
    let gt = "0,2,0,0,1,1\n"; // track_id 2 is not target(0) or distractor(1)
    let err = build_sequence("t", frames, 2, 2, gt).unwrap_err();
    assert!(matches!(err, RealSeqError::UnsupportedTrackId(2)));
}

#[test]
fn build_sequence_rejects_frame_out_of_range() {
    let frames = vec![vec![0u8; 2 * 2 * 3]]; // 1 frame
    let gt = "5,0,0,0,1,1\n";
    let err = build_sequence("t", frames, 2, 2, gt).unwrap_err();
    assert!(matches!(err, RealSeqError::FrameOutOfRange { frame: 5, num_frames: 1 }));
}

#[test]
fn build_sequence_rejects_ground_truth_with_no_target_rows() {
    let frames = vec![vec![0u8; 2 * 2 * 3]];
    let gt = "0,1,0,0,1,1\n"; // track_id 1 (distractor) only, no target
    let err = build_sequence("t", frames, 2, 2, gt).unwrap_err();
    assert!(matches!(err, RealSeqError::TargetNeverVisible));
}

#[test]
fn build_sequence_last_write_wins_on_duplicate_rows() {
    let frames = vec![vec![0u8; 2 * 2 * 3]];
    let gt = "0,0,0,0,1,1\n0,0,0,0,2,2\n";
    let seq = build_sequence("t", frames, 2, 2, gt).unwrap();
    assert_eq!(seq.target_gt[0].bbox, BBox::new(0, 0, 2, 2));
}

#[test]
fn build_sequence_reports_the_first_row_at_fault() {
    let build = |gt: &str| build_sequence("t", vec![vec![0u8; 12]], 2, 2, gt).unwrap_err();
    // The frame is looked at before the track.
    assert_eq!(
        build("9,7,0,0,1,1\n"),
        RealSeqError::FrameOutOfRange { frame: 9, num_frames: 1 }
    );
    assert_eq!(build("0,7,0,0,1,1\n9,0,0,0,1,1\n"), RealSeqError::UnsupportedTrackId(7));
    // A line at fault comes before any row at fault.
    assert!(matches!(
        build("0,7,0,0,1,1\n0,0,0,0\n"),
        RealSeqError::BadGroundTruthLine { line_no: 2, .. }
    ));
    assert_eq!(build(""), RealSeqError::TargetNeverVisible);
}

#[test]
fn build_sequence_keeps_the_distractor_apart() {
    let frames = vec![vec![1u8; 12], vec![2u8; 12]];
    let gt = "0,0,0,0,1,1\n1,1,1,1,2,2\n";
    let seq = build_sequence("pair", frames, 2, 2, gt).unwrap();
    assert_eq!((seq.name, seq.width, seq.height), ("pair", 2, 2));
    assert_eq!(seq.frames, vec![vec![1u8; 12], vec![2u8; 12]]);
    assert!(seq.distractor_gt[0].is_none());
    let decoy = seq.distractor_gt[1].unwrap();
    assert_eq!((decoy.bbox, decoy.visible), (BBox::new(1, 1, 2, 2), true));
    // The distractor is no detection.
    assert_eq!(seq.detections[1].as_ref().unwrap().len(), 0);
}

#[test]
fn a_built_sequence_always_shows_its_target() {
    let frames = vec![vec![0u8; 12]; 4];
    let seq = build_sequence("t", frames, 2, 2, "3,0,0,0,1,1\n").unwrap();
    assert_eq!(seq.target_gt.iter().filter(|g| g.visible).count(), 1);
}
