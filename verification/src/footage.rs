//! Sequences from real frames and a ground-truth annotation.
//!
//! # Ground-truth format
//!
//! Plain text, one row per annotated box: `frame,track_id,x1,y1,x2,y2`.
//! Blank lines and lines that start with `#` are ignored. Lines whose first
//! field cannot be read as an integer are tolerated as headers before the
//! first data row, and are errors after it. A negative frame number, or one
//! that is too large, is an integer, and an error wherever it stands.
//!
//! Track 0 is the target, track 1 an optional distractor; any other track is
//! an error. A frame without a row for the target is one where it is not
//! visible. A second row for the same frame and track replaces the first. A
//! file without any row for the target is an error: a run on it would score
//! a full success for nothing.
//!
//! # Detections
//!
//! The target's own box stands in for a perfect detector on every frame
//! where it is visible, and an empty batch on every other. That isolates
//! tracking from detector quality.

use crate::metrics::{visible_count, visible_ticks_are_counted, visible_ticks_by_number};
use crate::seed::{seed_numbers_fit, FrameDims};
use crate::synthetic::{batch_view, GroundTruth, Sequence};
use crate::text::{
    chars_of, decimal, decimal_nat, int_error_words, integer, natural, pieces, push_decimal,
    push_text, quote, quoted, read_i64, read_u64, read_usize, separators_part_the_pieces, split,
    text_of, texts, trim, trimmed, trimming_takes_white_space_off_the_ends,
    what_is_read_is_made_of_digits, written_numbers_are_digits, written_numbers_are_read_back,
    IntError,
};
use crate::types::{fits_i64, BBox, Confidence, Detection, ONE_BITS};
use vstd::prelude::*;

verus! {

/// One row of a ground-truth file.
#[derive(Debug, Clone, Copy, PartialEq, Eq)]
pub struct GtRow {
    pub frame: usize,
    pub track_id: u64,
    pub bbox: BBox,
}

/// The bound on coordinates. It is generous for any frame, and tight enough
/// that the extents and the area of a box cannot overflow.
pub const COORD_BOUND: i64 = 1_000_000;

/// The number of fields of a row.
pub const NUM_FIELDS: usize = 6;

/// What is wrong with a line.
#[derive(Debug, Clone, PartialEq, Eq)]
pub enum LineFault {
    /// The first field is not a frame number, after data was seen.
    Frame { field: Vec<char> },
    /// The first field is an integer but not a frame number, before data was
    /// seen.
    FrameNumber { error: IntError },
    /// The number of fields is wrong.
    FieldCount { count: usize },
    /// The second field is not a track id.
    TrackId { error: IntError },
    /// A field is not a coordinate.
    Coordinate { index: usize, error: IntError },
    /// A coordinate is beyond the bound.
    OutOfRange { index: usize, value: i64 },
    /// The box has no positive extent.
    Degenerate { bbox: BBox },
}

/// A fault as a value.
pub enum FaultView {
    Frame { field: Seq<char> },
    FrameNumber { error: IntError },
    FieldCount { count: int },
    TrackId { error: IntError },
    Coordinate { index: int, error: IntError },
    OutOfRange { index: int, value: int },
    Degenerate { bbox: BBox },
}

impl View for LineFault {
    type V = FaultView;

    open spec fn view(&self) -> FaultView {
        match self {
            LineFault::Frame { field } => FaultView::Frame { field: field@ },
            LineFault::FrameNumber { error } => FaultView::FrameNumber { error: *error },
            LineFault::FieldCount { count } => FaultView::FieldCount { count: *count as int },
            LineFault::TrackId { error } => FaultView::TrackId { error: *error },
            LineFault::Coordinate { index, error } => FaultView::Coordinate {
                index: *index as int,
                error: *error,
            },
            LineFault::OutOfRange { index, value } => FaultView::OutOfRange {
                index: *index as int,
                value: *value as int,
            },
            LineFault::Degenerate { bbox } => FaultView::Degenerate { bbox: *bbox },
        }
    }
}

/// What a line holds.
pub enum LineView {
    /// Nothing: it is blank, a comment or a header.
    Skip,
    /// A row.
    Row { row: GtRow },
    /// Something else.
    Fault { fault: FaultView },
}

/// The name of a coordinate field.
pub open spec fn coord_name(index: int) -> Seq<char> {
    if index == 2 {
        "x1"@
    } else if index == 3 {
        "y1"@
    } else if index == 4 {
        "x2"@
    } else {
        "y2"@
    }
}

/// The coordinate in a field, or the fault.
pub open spec fn coordinate(fields: Seq<Seq<char>>, index: int) -> Result<int, FaultView> {
    match integer(fields[index]) {
        Err(error) => Err(FaultView::Coordinate { index, error }),
        Ok(value) => if -COORD_BOUND <= value <= COORD_BOUND {
            Ok(value)
        } else {
            Err(FaultView::OutOfRange { index, value })
        },
    }
}

/// The box in the last four fields, or the first fault among them.
pub open spec fn box_of(fields: Seq<Seq<char>>) -> Result<BBox, FaultView> {
    match (coordinate(fields, 2), coordinate(fields, 3), coordinate(fields, 4), coordinate(
        fields,
        5,
    )) {
        (Err(f), _, _, _) => Err(f),
        (_, Err(f), _, _) => Err(f),
        (_, _, Err(f), _) => Err(f),
        (_, _, _, Err(f)) => Err(f),
        (Ok(x1), Ok(y1), Ok(x2), Ok(y2)) => {
            let bbox = BBox { x1: x1 as i64, y1: y1 as i64, x2: x2 as i64, y2: y2 as i64 };
            if x1 < x2 && y1 < y2 {
                Ok(bbox)
            } else {
                Err(FaultView::Degenerate { bbox })
            }
        },
    }
}

/// The fields of a line, each without white space around it.
pub open spec fn fields_of(line: Seq<char>) -> Seq<Seq<char>> {
    pieces(line, ',').map_values(|p: Seq<char>| trimmed(p))
}

/// A blank line or a comment.
pub open spec fn is_idle_line(line: Seq<char>) -> bool {
    line.len() == 0 || line[0] == '#'
}

/// The frame number in the first field of a line, or why there is none.
pub open spec fn frame_number(line: Seq<char>) -> Result<int, IntError> {
    natural(fields_of(line)[0], usize::MAX as int)
}

/// The frame number that a line starts with, if any.
pub open spec fn frame_of(line: Seq<char>) -> Option<int> {
    match frame_number(line) {
        Ok(v) => Some(v),
        Err(_) => None,
    }
}

/// A line that can be a header: reading its first field as an integer ends at
/// something that is not a digit, or finds nothing at all. A number that is
/// too large or too small is no header.
pub open spec fn is_header(line: Seq<char>) -> bool {
    match integer(fields_of(line)[0]) {
        Err(e) => e is Empty || e is InvalidDigit,
        Ok(_) => false,
    }
}

/// A line that carries data: not idle, and with a frame number.
pub open spec fn is_data_line(line: Seq<char>) -> bool {
    !is_idle_line(line) && frame_of(line) is Some
}

/// What a data line holds.
pub open spec fn data_of(line: Seq<char>) -> Result<GtRow, FaultView> {
    let fields = fields_of(line);
    if fields.len() != NUM_FIELDS {
        Err(FaultView::FieldCount { count: fields.len() as int })
    } else {
        match natural(fields[1], u64::MAX as int) {
            Err(error) => Err(FaultView::TrackId { error }),
            Ok(id) => match box_of(fields) {
                Err(f) => Err(f),
                Ok(bbox) => Ok(
                    GtRow { frame: frame_of(line)->0 as usize, track_id: id as u64, bbox },
                ),
            },
        }
    }
}

/// What a line holds. `seen_data` says whether a data line came before.
pub open spec fn reading(line: Seq<char>, seen_data: bool) -> LineView {
    if is_idle_line(line) {
        LineView::Skip
    } else if frame_of(line) is None {
        if seen_data {
            LineView::Fault { fault: FaultView::Frame { field: fields_of(line)[0] } }
        } else if is_header(line) {
            LineView::Skip
        } else {
            LineView::Fault { fault: FaultView::FrameNumber { error: frame_number(line)->Err_0 } }
        }
    } else {
        match data_of(line) {
            Ok(row) => LineView::Row { row },
            Err(fault) => LineView::Fault { fault },
        }
    }
}

/// The lines of a file, each without white space around it.
pub open spec fn lines_of(file: Seq<char>) -> Seq<Seq<char>> {
    pieces(file, '\n').map_values(|p: Seq<char>| trimmed(p))
}

/// There is a data line among the first `n`.
pub open spec fn data_seen(lines: Seq<Seq<char>>, n: int) -> bool {
    exists|j: int| 0 <= j < n && is_data_line(#[trigger] lines[j])
}

/// What line `i` holds.
pub open spec fn reading_at(lines: Seq<Seq<char>>, i: int) -> LineView {
    reading(lines[i], data_seen(lines, i))
}

/// The rows of the first `n` lines.
pub open spec fn rows_of(lines: Seq<Seq<char>>, n: int) -> Seq<GtRow>
    decreases n,
{
    if n <= 0 {
        Seq::empty()
    } else {
        match reading_at(lines, n - 1) {
            LineView::Row { row } => rows_of(lines, n - 1).push(row),
            _ => rows_of(lines, n - 1),
        }
    }
}

/// None of the first `n` lines is at fault.
pub open spec fn lines_ok(lines: Seq<Seq<char>>, n: int) -> bool {
    forall|j: int| 0 <= j < n ==> !(#[trigger] reading_at(lines, j) is Fault)
}

/// Line `i` is the first at fault, and this is its fault.
pub open spec fn first_fault(lines: Seq<Seq<char>>, i: int, fault: FaultView) -> bool {
    &&& 0 <= i < lines.len()
    &&& lines_ok(lines, i)
    &&& reading_at(lines, i) == (LineView::Fault { fault })
}

/// The words for a fault.
pub open spec fn fault_words(f: FaultView) -> Seq<char> {
    match f {
        FaultView::Frame { field } => "field 0 (frame) not a non-negative integer: "@ + quoted(
            field,
        ),
        FaultView::FrameNumber { error } => "field 0 (frame) not a non-negative integer: "@
            + int_error_words(error),
        FaultView::FieldCount { count } =>
        "expected 6 comma-separated fields (frame,track_id,x1,y1,x2,y2), got "@ + decimal(count),
        FaultView::TrackId { error } => "field 1 (track_id) not a non-negative integer: "@
            + int_error_words(error),
        FaultView::Coordinate { index, error } => "field "@ + decimal(index) + " ("@ + coord_name(
            index,
        ) + ") not an integer: "@ + int_error_words(error),
        FaultView::OutOfRange { index, value } => "field "@ + decimal(index) + " ("@ + coord_name(
            index,
        ) + ") = "@ + decimal(value) + " is outside the sane range +/-1000000"@,
        FaultView::Degenerate { bbox } => "box ("@ + decimal(bbox.x1 as int) + ","@ + decimal(
            bbox.y1 as int,
        ) + ","@ + decimal(bbox.x2 as int) + ","@ + decimal(bbox.y2 as int)
            + ") is degenerate or reversed — need x1<x2 and y1<y2"@,
    }
}

/// Why no sequence can be made.
#[derive(Debug, Clone, PartialEq, Eq)]
pub enum RealSeqError {
    /// There is no frame at all.
    EmptyFrameDir,
    /// A frame has another size than the first one.
    SizeMismatch { index: usize, actual_w: u32, actual_h: u32, expected_w: u32, expected_h: u32 },
    /// A line of the ground truth is at fault.
    BadGroundTruthLine { line_no: usize, raw: String, reason: String },
    /// The ground truth has a track that is neither target nor distractor.
    UnsupportedTrackId(u64),
    /// The ground truth speaks of a frame that does not exist.
    FrameOutOfRange { frame: usize, num_frames: usize },
    /// The ground truth has no row for the target.
    TargetNeverVisible,
}

impl LineFault {
    /// The fault in words.
    pub fn words(&self) -> (r: String)
        ensures
            r@ == fault_words(self@),
    {
        let mut out = String::new();
        match self {
            LineFault::Frame { field } => {
                push_text(&mut out, "field 0 (frame) not a non-negative integer: ");
                let text: String = text_of(field);
                let escaped: String = quote(text.as_str());
                push_text(&mut out, escaped.as_str());
            },
            LineFault::FrameNumber { error } => {
                push_text(&mut out, "field 0 (frame) not a non-negative integer: ");
                push_text(&mut out, error.words());
            },
            LineFault::FieldCount { count } => {
                push_text(
                    &mut out,
                    "expected 6 comma-separated fields (frame,track_id,x1,y1,x2,y2), got ",
                );
                push_decimal(&mut out, *count as i128);
            },
            LineFault::TrackId { error } => {
                push_text(&mut out, "field 1 (track_id) not a non-negative integer: ");
                push_text(&mut out, error.words());
            },
            LineFault::Coordinate { index, error } => {
                push_text(&mut out, "field ");
                push_decimal(&mut out, *index as i128);
                push_text(&mut out, " (");
                push_text(&mut out, coordinate_name(*index));
                push_text(&mut out, ") not an integer: ");
                push_text(&mut out, error.words());
            },
            LineFault::OutOfRange { index, value } => {
                push_text(&mut out, "field ");
                push_decimal(&mut out, *index as i128);
                push_text(&mut out, " (");
                push_text(&mut out, coordinate_name(*index));
                push_text(&mut out, ") = ");
                push_decimal(&mut out, *value as i128);
                push_text(&mut out, " is outside the sane range +/-1000000");
            },
            LineFault::Degenerate { bbox } => {
                push_text(&mut out, "box (");
                push_decimal(&mut out, bbox.x1 as i128);
                push_text(&mut out, ",");
                push_decimal(&mut out, bbox.y1 as i128);
                push_text(&mut out, ",");
                push_decimal(&mut out, bbox.x2 as i128);
                push_text(&mut out, ",");
                push_decimal(&mut out, bbox.y2 as i128);
                push_text(&mut out, ") is degenerate or reversed — need x1<x2 and y1<y2");
            },
        }
        assert(out@ == fault_words(self@));
        out
    }
}

/// The name of a coordinate field.
fn coordinate_name(index: usize) -> (r: &'static str)
    ensures
        r@ == coord_name(index as int),
{
    if index == 2 {
        "x1"
    } else if index == 3 {
        "y1"
    } else if index == 4 {
        "x2"
    } else {
        "y2"
    }
}

/// Reads a coordinate field.
fn read_coordinate(fields: &Vec<Vec<char>>, index: usize) -> (r: Result<i64, LineFault>)
    requires
        index < fields@.len(),
    ensures
        (match r {
            Ok(v) => Ok(v as int),
            Err(f) => Err(f@),
        }) == coordinate(texts(fields@), index as int),
        r is Ok ==> -COORD_BOUND <= r->Ok_0 <= COORD_BOUND,
{
    match read_i64(&fields[index]) {
        Err(error) => Err(LineFault::Coordinate { index, error }),
        Ok(value) => if value < -COORD_BOUND || value > COORD_BOUND {
            Err(LineFault::OutOfRange { index, value })
        } else {
            Ok(value)
        },
    }
}

/// Reads the box in the last four fields.
fn read_box(fields: &Vec<Vec<char>>) -> (r: Result<BBox, LineFault>)
    requires
        fields@.len() == NUM_FIELDS,
    ensures
        (match r {
            Ok(b) => Ok(b),
            Err(f) => Err(f@),
        }) == box_of(texts(fields@)),
{
    let x1: i64 = match read_coordinate(fields, 2) {
        Ok(v) => v,
        Err(f) => return Err(f),
    };
    let y1: i64 = match read_coordinate(fields, 3) {
        Ok(v) => v,
        Err(f) => return Err(f),
    };
    let x2: i64 = match read_coordinate(fields, 4) {
        Ok(v) => v,
        Err(f) => return Err(f),
    };
    let y2: i64 = match read_coordinate(fields, 5) {
        Ok(v) => v,
        Err(f) => return Err(f),
    };
    let bbox: BBox = BBox::new(x1, y1, x2, y2);
    if x1 >= x2 || y1 >= y2 {
        Err(LineFault::Degenerate { bbox })
    } else {
        Ok(bbox)
    }
}

/// Splits text at a separator and trims every piece.
fn split_and_trim(s: &Vec<char>, sep: char) -> (r: Vec<Vec<char>>)
    ensures
        texts(r@) == pieces(s@, sep).map_values(|p: Seq<char>| trimmed(p)),
        r@.len() >= 1,
{
    let raw: Vec<Vec<char>> = split(s, sep);
    let ghost all = pieces(s@, sep);
    let mut out: Vec<Vec<char>> = Vec::new();
    let mut i: usize = 0;
    while i < raw.len()
        invariant
            i <= raw@.len(),
            texts(raw@) == all,
            out@.len() == i,
            forall|j: int| 0 <= j < i ==> (#[trigger] out@[j])@ == trimmed(all[j]),
        decreases raw@.len() - i,
    {
        assert(all[i as int] == raw@[i as int]@);
        out.push(trim(&raw[i]));
        i += 1;
    }
    assert(texts(out@) == all.map_values(|p: Seq<char>| trimmed(p)));
    out
}

/// What a line holds: nothing, a row, or a fault.
pub fn read_line(line: &Vec<char>, seen_data: bool) -> (r: Result<Option<GtRow>, LineFault>)
    ensures
        (match r {
            Ok(None) => LineView::Skip,
            Ok(Some(row)) => LineView::Row { row },
            Err(f) => LineView::Fault { fault: f@ },
        }) == reading(line@, seen_data),
        r matches Ok(Some(_)) ==> is_data_line(line@),
        is_data_line(line@) ==> !(r matches Ok(None)),
{
    if line.len() == 0 || line[0] == '#' {
        return Ok(None);
    }
    let mut fields: Vec<Vec<char>> = split_and_trim(line, ',');
    let frame: usize = match read_usize(&fields[0]) {
        Ok(v) => v,
        Err(error) => {
            if seen_data {
                return Err(LineFault::Frame { field: fields.swap_remove(0) });
            }
            return match read_i64(&fields[0]) {
                Err(IntError::Empty) | Err(IntError::InvalidDigit) => Ok(None),
                _ => Err(LineFault::FrameNumber { error }),
            };
        },
    };
    if fields.len() != NUM_FIELDS {
        return Err(LineFault::FieldCount { count: fields.len() });
    }
    let track_id: u64 = match read_u64(&fields[1]) {
        Ok(v) => v,
        Err(error) => return Err(LineFault::TrackId { error }),
    };
    match read_box(&fields) {
        Err(f) => Err(f),
        Ok(bbox) => Ok(Some(GtRow { frame, track_id, bbox })),
    }
}

/// The outcome of reading a ground-truth file: its rows, or the first fault.
/// The line number counts from one.
pub open spec fn is_parse(file: Seq<char>, r: Result<Vec<GtRow>, RealSeqError>) -> bool {
    let lines = lines_of(file);
    match r {
        Ok(rows) => lines_ok(lines, lines.len() as int) && rows@ == rows_of(
            lines,
            lines.len() as int,
        ),
        Err(e) => is_bad_line(lines, e),
    }
}

/// The error names the first line at fault, and says what is wrong with it.
pub open spec fn is_bad_line(lines: Seq<Seq<char>>, e: RealSeqError) -> bool {
    match e {
        RealSeqError::BadGroundTruthLine { line_no, raw, reason } => exists|i: int, fault: FaultView|
            {
                &&& #[trigger] first_fault(lines, i, fault)
                &&& line_no == i + 1
                &&& raw@ == lines[i]
                &&& reason@ == fault_words(fault)
            },
        _ => false,
    }
}

/// Reads a ground-truth file.
pub fn parse_ground_truth(text: &str) -> (r: Result<Vec<GtRow>, RealSeqError>)
    ensures
        is_parse(text@, r),
{
    let chars: Vec<char> = chars_of(text);
    let lines: Vec<Vec<char>> = split_and_trim(&chars, '\n');
    let ghost all = lines_of(text@);
    assert(texts(lines@) == all);
    let mut rows: Vec<GtRow> = Vec::new();
    let mut seen_data: bool = false;
    let mut i: usize = 0;
    while i < lines.len()
        invariant
            i <= lines@.len(),
            texts(lines@) == all,
            all == lines_of(text@),
            seen_data == data_seen(all, i as int),
            lines_ok(all, i as int),
            rows@ == rows_of(all, i as int),
        decreases lines@.len() - i,
    {
        assert(all[i as int] == lines@[i as int]@);
        match read_line(&lines[i], seen_data) {
            Err(fault) => {
                let reason: String = fault.words();
                let raw: String = text_of(&lines[i]);
                assert(first_fault(all, i as int, fault@));
                return Err(RealSeqError::BadGroundTruthLine { line_no: i + 1, raw, reason });
            },
            Ok(None) => {
                assert(!is_data_line(all[i as int]));
                proof {
                    lemma_data_seen_step(all, i as int);
                }
            },
            Ok(Some(row)) => {
                seen_data = true;
                rows.push(row);
                proof {
                    lemma_data_seen_step(all, i as int);
                }
            },
        }
        i += 1;
    }
    Ok(rows)
}

/// Whether data was seen, one line further.
proof fn lemma_data_seen_step(lines: Seq<Seq<char>>, i: int)
    requires
        0 <= i < lines.len(),
    ensures
        data_seen(lines, i + 1) == (data_seen(lines, i) || is_data_line(lines[i])),
{
    if data_seen(lines, i) {
        let j = choose|j: int| 0 <= j < i && is_data_line(#[trigger] lines[j]);
        assert(0 <= j < i + 1 && is_data_line(lines[j]));
    }
    if is_data_line(lines[i]) {
        assert(0 <= i < i + 1 && is_data_line(lines[i]));
    }
    if data_seen(lines, i + 1) {
        let j = choose|j: int| 0 <= j < i + 1 && is_data_line(#[trigger] lines[j]);
        if j < i {
            assert(0 <= j < i && is_data_line(lines[j]));
        }
    }
}

/// The track of the target.
pub const TARGET_TRACK: u64 = 0;

/// The track of the distractor.
pub const DISTRACTOR_TRACK: u64 = 1;

/// What is wrong with a row, in a sequence of `num_frames` frames.
pub open spec fn row_error(row: GtRow, num_frames: usize) -> Option<RealSeqError> {
    if row.frame >= num_frames {
        Some(RealSeqError::FrameOutOfRange { frame: row.frame, num_frames })
    } else if row.track_id > DISTRACTOR_TRACK {
        Some(RealSeqError::UnsupportedTrackId(row.track_id))
    } else {
        None
    }
}

/// None of the first `k` rows is at fault.
pub open spec fn rows_ok(rows: Seq<GtRow>, num_frames: usize, k: int) -> bool {
    forall|j: int| 0 <= j < k ==> row_error(#[trigger] rows[j], num_frames) is None
}

/// The target has a row among the first `k`.
pub open spec fn has_target(rows: Seq<GtRow>, k: int) -> bool {
    exists|j: int| 0 <= j < k && (#[trigger] rows[j]).track_id == TARGET_TRACK
}

/// The box of a track at frame `t`, according to the first `k` rows. Later
/// rows win.
pub open spec fn last_box(rows: Seq<GtRow>, k: int, track_id: u64, t: int) -> Option<BBox>
    decreases k,
{
    if k <= 0 {
        None
    } else if rows[k - 1].track_id == track_id && rows[k - 1].frame == t {
        Some(rows[k - 1].bbox)
    } else {
        last_box(rows, k - 1, track_id, t)
    }
}

/// The box of a track at frame `t`.
pub open spec fn box_at(rows: Seq<GtRow>, track_id: u64, t: int) -> Option<BBox> {
    last_box(rows, rows.len() as int, track_id, t)
}

/// The number of frames before `t` on which the target is visible.
pub open spec fn sightings(rows: Seq<GtRow>, t: int) -> int
    decreases t,
{
    if t <= 0 {
        0
    } else {
        sightings(rows, t - 1) + (if box_at(rows, TARGET_TRACK, t - 1) is Some {
            1int
        } else {
            0
        })
    }
}

/// The ground truth of the target at frame `t`.
pub open spec fn target_truth(rows: Seq<GtRow>, t: int) -> GroundTruth {
    match box_at(rows, TARGET_TRACK, t) {
        Some(bbox) => GroundTruth { bbox, visible: true },
        None => GroundTruth { bbox: BBox { x1: 0, y1: 0, x2: 0, y2: 0 }, visible: false },
    }
}

/// The ground truth of the distractor at frame `t`.
pub open spec fn distractor_truth(rows: Seq<GtRow>, t: int) -> Option<GroundTruth> {
    match box_at(rows, DISTRACTOR_TRACK, t) {
        Some(bbox) => Some(GroundTruth { bbox, visible: true }),
        None => None,
    }
}

/// The detector output at frame `t`: the target itself, fully confident and
/// numbered in order, or an empty batch.
pub open spec fn perfect_batch(rows: Seq<GtRow>, t: int) -> Seq<Detection> {
    match box_at(rows, TARGET_TRACK, t) {
        Some(bbox) => seq![
            Detection {
                bbox,
                confidence: Confidence::of_bits(ONE_BITS),
                id: sightings(rows, t) as u64,
            },
        ],
        None => Seq::empty(),
    }
}

/// The sequence that these rows describe, as far as the first `m` frames.
pub open spec fn annotates(q: Sequence, rows: Seq<GtRow>, m: int) -> bool {
    &&& q.target_gt@.len() == m
    &&& q.distractor_gt@.len() == m
    &&& q.detections@.len() == m
    &&& forall|t: int|
        #![trigger q.target_gt@[t]]
        0 <= t < m ==> q.target_gt@[t] == target_truth(rows, t)
    &&& forall|t: int|
        #![trigger q.distractor_gt@[t]]
        0 <= t < m ==> q.distractor_gt@[t] == distractor_truth(rows, t)
    &&& forall|t: int|
        #![trigger q.detections@[t]]
        0 <= t < m ==> batch_view(q.detections@[t]) == Some(perfect_batch(rows, t))
}

/// The outcome for the rows of a file: the sequence, the error of the first
/// row at fault, or the complaint that there is no target.
pub open spec fn is_sequence(
    name: Seq<char>,
    frames: Vec<Vec<u8>>,
    width: u32,
    height: u32,
    rows: Seq<GtRow>,
    r: Result<Sequence, RealSeqError>,
) -> bool {
    let n = frames.len();
    match r {
        Ok(q) => {
            &&& rows_ok(rows, n, rows.len() as int)
            &&& has_target(rows, rows.len() as int)
            &&& q.name@ == name
            &&& q.width == width
            &&& q.height == height
            &&& q.frames == frames
            &&& annotates(q, rows, n as int)
        },
        Err(RealSeqError::TargetNeverVisible) => rows_ok(rows, n, rows.len() as int)
            && !has_target(rows, rows.len() as int),
        Err(e) => exists|i: int|
            {
                &&& 0 <= i < rows.len()
                &&& rows_ok(rows, n, i)
                &&& row_error(#[trigger] rows[i], n) == Some(e)
            },
    }
}

/// The boxes of a track per frame, according to the rows so far.
spec fn collects(boxes: Seq<Option<BBox>>, rows: Seq<GtRow>, k: int, track_id: u64) -> bool {
    forall|t: int|
        0 <= t < boxes.len() ==> #[trigger] boxes[t] == last_box(rows, k, track_id, t)
}

/// A list of `n` missing boxes.
fn no_boxes(n: usize) -> (r: Vec<Option<BBox>>)
    ensures
        r@.len() == n,
        forall|t: int| 0 <= t < n ==> (#[trigger] r@[t]) is None,
{
    let mut out: Vec<Option<BBox>> = Vec::new();
    let mut i: usize = 0;
    while i < n
        invariant
            i <= n,
            out@.len() == i,
            forall|t: int| 0 <= t < i ==> (#[trigger] out@[t]) is None,
        decreases n - i,
    {
        out.push(None);
        i += 1;
    }
    out
}

/// Makes a sequence of loaded frames and the rows of their ground truth.
/// `name` is a label for the report.
pub fn assemble_sequence(
    name: &'static str,
    frames: Vec<Vec<u8>>,
    width: u32,
    height: u32,
    rows: &Vec<GtRow>,
) -> (r: Result<Sequence, RealSeqError>)
    ensures
        is_sequence(name@, frames, width, height, rows@, r),
{
    let num_frames: usize = frames.len();
    let mut target: Vec<Option<BBox>> = no_boxes(num_frames);
    let mut distractor: Vec<Option<BBox>> = no_boxes(num_frames);
    let mut any_target: bool = false;
    let mut k: usize = 0;
    while k < rows.len()
        invariant
            k <= rows@.len(),
            target@.len() == num_frames,
            distractor@.len() == num_frames,
            num_frames == frames@.len(),
            rows_ok(rows@, num_frames, k as int),
            any_target == has_target(rows@, k as int),
            collects(target@, rows@, k as int, TARGET_TRACK),
            collects(distractor@, rows@, k as int, DISTRACTOR_TRACK),
        decreases rows@.len() - k,
    {
        let row: GtRow = rows[k];
        let ghost seen = has_target(rows@, k as int);
        if row.frame >= num_frames {
            let e = RealSeqError::FrameOutOfRange { frame: row.frame, num_frames };
            assert(row_error(rows@[k as int], num_frames) == Some(e));
            return Err(e);
        }
        if row.track_id == TARGET_TRACK {
            target.set(row.frame, Some(row.bbox));
            any_target = true;
        } else if row.track_id == DISTRACTOR_TRACK {
            distractor.set(row.frame, Some(row.bbox));
        } else {
            let e = RealSeqError::UnsupportedTrackId(row.track_id);
            assert(row_error(rows@[k as int], num_frames) == Some(e));
            return Err(e);
        }
        k += 1;
        proof {
            let last = k - 1;
            assert(has_target(rows@, k as int) == (seen || rows@[last].track_id == TARGET_TRACK))
                by {
                if seen {
                    let j = choose|j: int|
                        0 <= j < last && (#[trigger] rows@[j]).track_id == TARGET_TRACK;
                    assert(0 <= j < k && rows@[j].track_id == TARGET_TRACK);
                }
                if has_target(rows@, k as int) && rows@[last].track_id != TARGET_TRACK {
                    let j = choose|j: int|
                        0 <= j < k && (#[trigger] rows@[j]).track_id == TARGET_TRACK;
                    assert(0 <= j < last && rows@[j].track_id == TARGET_TRACK);
                }
            }
        }
    }
    if !any_target {
        return Err(RealSeqError::TargetNeverVisible);
    }
    let mut q: Sequence = Sequence {
        name,
        width,
        height,
        frames,
        target_gt: Vec::new(),
        distractor_gt: Vec::new(),
        detections: Vec::new(),
    };
    let mut next_id: u64 = 0;
    let mut t: usize = 0;
    while t < num_frames
        invariant
            t <= num_frames,
            target@.len() == num_frames,
            distractor@.len() == num_frames,
            num_frames == frames@.len(),
            collects(target@, rows@, rows@.len() as int, TARGET_TRACK),
            collects(distractor@, rows@, rows@.len() as int, DISTRACTOR_TRACK),
            q.name@ == name@,
            q.width == width,
            q.height == height,
            q.frames == frames,
            annotates(q, rows@, t as int),
            next_id == sightings(rows@, t as int),
            next_id <= t,
        decreases num_frames - t,
    {
        assert(target@[t as int] == box_at(rows@, TARGET_TRACK, t as int));
        assert(distractor@[t as int] == box_at(rows@, DISTRACTOR_TRACK, t as int));
        let mut batch: Vec<Detection> = Vec::new();
        let truth: GroundTruth = match target[t] {
            Some(bbox) => {
                let confidence: Confidence = Confidence::clamp(ONE_BITS);
                proof {
                    Confidence::score_is_its_bits(ONE_BITS, confidence);
                }
                batch.push(Detection { bbox, confidence, id: next_id });
                next_id += 1;
                GroundTruth { bbox, visible: true }
            },
            None => GroundTruth { bbox: BBox::new(0, 0, 0, 0), visible: false },
        };
        assert(batch@ == perfect_batch(rows@, t as int));
        let decoy: Option<GroundTruth> = match distractor[t] {
            Some(bbox) => Some(GroundTruth { bbox, visible: true }),
            None => None,
        };
        q.target_gt.push(truth);
        q.detections.push(Some(batch));
        q.distractor_gt.push(decoy);
        t += 1;
    }
    Ok(q)
}

/// The outcome for a ground-truth file: what its rows lead to, or the first
/// line at fault.
pub open spec fn is_built(
    name: Seq<char>,
    frames: Vec<Vec<u8>>,
    width: u32,
    height: u32,
    file: Seq<char>,
    r: Result<Sequence, RealSeqError>,
) -> bool {
    let lines = lines_of(file);
    if lines_ok(lines, lines.len() as int) {
        is_sequence(name, frames, width, height, rows_of(lines, lines.len() as int), r)
    } else {
        r is Err && is_bad_line(lines, r->Err_0)
    }
}

/// Makes a sequence of loaded frames and the text of their ground truth.
pub fn build_sequence(
    name: &'static str,
    frames: Vec<Vec<u8>>,
    width: u32,
    height: u32,
    gt_csv: &str,
) -> (r: Result<Sequence, RealSeqError>)
    ensures
        is_built(name@, frames, width, height, gt_csv@, r),
{
    match parse_ground_truth(gt_csv) {
        Ok(rows) => assemble_sequence(name, frames, width, height, &rows),
        Err(e) => {
            proof {
                let lines = lines_of(gt_csv@);
                if lines_ok(lines, lines.len() as int) {
                    lemma_bad_line_is_at_fault(lines, e);
                }
            }
            Err(e)
        },
    }
}

/// A line that is reported is at fault.
proof fn lemma_bad_line_is_at_fault(lines: Seq<Seq<char>>, e: RealSeqError)
    requires
        is_bad_line(lines, e),
    ensures
        !lines_ok(lines, lines.len() as int),
{
    let line_no = e->line_no;
    let (i, fault) = choose|i: int, fault: FaultView|
        #[trigger] first_fault(lines, i, fault) && line_no == i + 1;
    assert(reading_at(lines, i) is Fault);
}

/// A row whose coordinates are within the bound and in order.
pub open spec fn is_sane_row(row: GtRow) -> bool {
    let b = row.bbox;
    &&& -COORD_BOUND <= b.x1 < b.x2 <= COORD_BOUND
    &&& -COORD_BOUND <= b.y1 < b.y2 <= COORD_BOUND
}

/// Every row that is read has a box within the bound and of positive extent.
pub proof fn rows_are_sane(lines: Seq<Seq<char>>, n: int)
    ensures
        forall|k: int|
            0 <= k < rows_of(lines, n).len() ==> is_sane_row(#[trigger] rows_of(lines, n)[k]),
    decreases n,
{
    if n > 0 {
        rows_are_sane(lines, n - 1);
        let before = rows_of(lines, n - 1);
        assert forall|k: int| 0 <= k < rows_of(lines, n).len() implies is_sane_row(
            #[trigger] rows_of(lines, n)[k],
        ) by {
            if k < before.len() {
                assert(rows_of(lines, n)[k] == before[k]);
            }
        }
    }
}

/// The arithmetic on the box of a sane row cannot overflow: its extents, its
/// area, and all that the seedability gates compute of it on any frame.
pub proof fn sane_rows_cannot_overflow(row: GtRow, width: u32, height: u32)
    requires
        is_sane_row(row),
    ensures
        fits_i64(row.bbox.w()),
        fits_i64(row.bbox.h()),
        0 < row.bbox.pixels(),
        fits_i64(row.bbox.pixels()),
        seed_numbers_fit(row.bbox, FrameDims { width: width as i64, height: height as i64 }),
{
    let (w, h) = (row.bbox.w(), row.bbox.h());
    assert(0 < w * h <= 4_000_000_000_000) by (nonlinear_arith)
        requires
            0 < w <= 2_000_000,
            0 < h <= 2_000_000,
    ;
}

/// A row decides the box of its track on its frame, whatever came before it,
/// and no other.
pub proof fn the_last_row_wins(rows: Seq<GtRow>, row: GtRow, track_id: u64, t: int)
    ensures
        box_at(rows.push(row), row.track_id, row.frame as int) == Some(row.bbox),
        track_id != row.track_id || t != row.frame ==> box_at(rows.push(row), track_id, t)
            == box_at(rows, track_id, t),
{
    let more = rows.push(row);
    lemma_earlier_rows(rows, row, rows.len() as int, track_id, t);
    assert(more[more.len() - 1] == row);
}

/// A row at the end does not change what the rows before it say.
proof fn lemma_earlier_rows(rows: Seq<GtRow>, row: GtRow, k: int, track_id: u64, t: int)
    requires
        0 <= k <= rows.len(),
    ensures
        last_box(rows.push(row), k, track_id, t) == last_box(rows, k, track_id, t),
    decreases k,
{
    if k > 0 {
        lemma_earlier_rows(rows, row, k - 1, track_id, t);
        assert(rows.push(row)[k - 1] == rows[k - 1]);
    }
}

/// A track with a row for a frame has a box on it.
proof fn lemma_row_gives_box(rows: Seq<GtRow>, k: int, j: int)
    requires
        0 <= j < k <= rows.len(),
    ensures
        last_box(rows, k, rows[j].track_id, rows[j].frame as int) is Some,
    decreases k,
{
    if j < k - 1 {
        lemma_row_gives_box(rows, k - 1, j);
    }
}

/// The target is visible somewhere in every sequence that is made, so a
/// success rate of it is never a rate of nothing.
pub proof fn the_target_is_visible_somewhere(
    name: Seq<char>,
    frames: Vec<Vec<u8>>,
    width: u32,
    height: u32,
    rows: Seq<GtRow>,
    q: Sequence,
)
    requires
        is_sequence(name, frames, width, height, rows, Ok(q)),
    ensures
        exists|t: int| 0 <= t < q.target_gt@.len() && (#[trigger] q.target_gt@[t]).visible,
        visible_count(q.target_gt@, q.target_gt@.len() as int) > 0,
{
    let j = choose|j: int| 0 <= j < rows.len() && (#[trigger] rows[j]).track_id == TARGET_TRACK;
    let t = rows[j].frame as int;
    assert(row_error(rows[j], frames.len()) is None);
    lemma_row_gives_box(rows, rows.len() as int, j);
    assert(q.target_gt@[t] == target_truth(rows, t));
    assert(q.target_gt@[t].visible);
    visible_ticks_are_counted(q.target_gt@, q.target_gt@.len() as int, t);
}

/// The detector of a sequence that is made is perfect: on every frame it
/// reports the target and nothing else where that is visible, and an empty
/// batch where it is not.
pub proof fn detections_mirror_the_target(
    name: Seq<char>,
    frames: Vec<Vec<u8>>,
    width: u32,
    height: u32,
    rows: Seq<GtRow>,
    q: Sequence,
    t: int,
)
    requires
        is_sequence(name, frames, width, height, rows, Ok(q)),
        0 <= t < q.ticks(),
    ensures
        batch_view(q.detections@[t]) is Some,
        q.target_gt@[t].visible ==> {
            let batch = batch_view(q.detections@[t])->0;
            batch.len() == 1 && batch[0].bbox == q.target_gt@[t].bbox && batch[0].confidence
                == Confidence::of_bits(ONE_BITS)
        },
        !q.target_gt@[t].visible ==> batch_view(q.detections@[t])->0.len() == 0,
{
    assert(q.target_gt@[t] == target_truth(rows, t));
    assert(batch_view(q.detections@[t]) == Some(perfect_batch(rows, t)));
}

/// A sequence that is made of whole frames can be run and scored.
pub proof fn built_sequences_are_complete(
    name: Seq<char>,
    frames: Vec<Vec<u8>>,
    width: u32,
    height: u32,
    rows: Seq<GtRow>,
    q: Sequence,
)
    requires
        is_sequence(name, frames, width, height, rows, Ok(q)),
        width * height * 3 <= i64::MAX,
        forall|t: int|
            0 <= t < frames@.len() ==> width * height * 3 <= (#[trigger] frames@[t])@.len(),
    ensures
        q.wf(),
        q.ticks() == frames@.len(),
{
}

/// Blank lines and comments do not matter: without one, a file has the same
/// rows, and is at fault just when it was before.
pub proof fn idle_lines_do_not_matter(lines: Seq<Seq<char>>, k: int)
    requires
        0 <= k < lines.len(),
        is_idle_line(lines[k]),
    ensures
        rows_of(lines.remove(k), lines.len() - 1) == rows_of(lines, lines.len() as int),
        lines_ok(lines.remove(k), lines.len() - 1) <==> lines_ok(lines, lines.len() as int),
{
    let less = lines.remove(k);
    lemma_without_idle_line(lines, k, less.len() as int);
    assert forall|j: int| 0 <= j < less.len() implies #[trigger] reading_at(less, j)
        == reading_at(lines, skipping(k, j)) by {
        lemma_same_reading(lines, k, j);
    }
    if lines_ok(less, less.len() as int) {
        assert forall|j: int| 0 <= j < lines.len() implies !(#[trigger] reading_at(
            lines,
            j,
        ) is Fault) by {
            if j < k {
                assert(reading_at(less, j) == reading_at(lines, skipping(k, j)));
            } else if j > k {
                assert(reading_at(less, j - 1) == reading_at(lines, skipping(k, j - 1)));
            }
        }
    }
}

/// The index, in the whole file, of line `j` of the file without line `k`.
spec fn skipping(k: int, j: int) -> int {
    if j < k {
        j
    } else {
        j + 1
    }
}

/// Without an idle line, every other line reads the same.
proof fn lemma_same_reading(lines: Seq<Seq<char>>, k: int, j: int)
    requires
        0 <= k < lines.len(),
        is_idle_line(lines[k]),
        0 <= j < lines.len() - 1,
    ensures
        reading_at(lines.remove(k), j) == reading_at(lines, skipping(k, j)),
{
    let less = lines.remove(k);
    let at = skipping(k, j);
    assert(less[j] == lines[at]);
    if data_seen(less, j) {
        let i = choose|i: int| 0 <= i < j && is_data_line(#[trigger] less[i]);
        assert(less[i] == lines[skipping(k, i)]);
        assert(is_data_line(lines[skipping(k, i)]));
    }
    if data_seen(lines, at) {
        let i = choose|i: int| 0 <= i < at && is_data_line(#[trigger] lines[i]);
        assert(i != k);
        let below = if i < k {
            i
        } else {
            i - 1
        };
        assert(less[below] == lines[i]);
        assert(is_data_line(less[below]));
    }
}

/// Without an idle line, the rows stay the same.
proof fn lemma_without_idle_line(lines: Seq<Seq<char>>, k: int, n: int)
    requires
        0 <= k < lines.len(),
        is_idle_line(lines[k]),
        0 <= n <= lines.len() - 1,
    ensures
        n <= k ==> rows_of(lines.remove(k), n) == rows_of(lines, n),
        n >= k ==> rows_of(lines.remove(k), n) == rows_of(lines, n + 1),
    decreases n,
{
    if n > 0 {
        lemma_without_idle_line(lines, k, n - 1);
        lemma_same_reading(lines, k, n - 1);
    }
    if n == k {
        assert(reading_at(lines, k) is Skip);
        assert(rows_of(lines, k + 1) == rows_of(lines, k));
    } else if n > k {
        assert(reading_at(lines.remove(k), n - 1) == reading_at(lines, n));
        assert(rows_of(lines, n + 1) == (match reading_at(lines, n) {
            LineView::Row { row } => rows_of(lines, n).push(row),
            _ => rows_of(lines, n),
        }));
    }
}

/// The last row of a track for a frame is the one that counts, and there is a
/// box just when there is such a row.
proof fn lemma_last_row_counts(rows: Seq<GtRow>, k: int, track_id: u64, t: int)
    requires
        0 <= k <= rows.len(),
    ensures
        last_box(rows, k, track_id, t) is Some <==> exists|j: int|
            0 <= j < k && (#[trigger] rows[j]).track_id == track_id && rows[j].frame == t,
        forall|j: int|
            0 <= j < k && (#[trigger] rows[j]).track_id == track_id && rows[j].frame == t && (
            forall|i: int|
                j < i < k ==> !((#[trigger] rows[i]).track_id == track_id && rows[i].frame == t))
                ==> last_box(rows, k, track_id, t) == Some(rows[j].bbox),
    decreases k,
{
    if k > 0 {
        lemma_last_row_counts(rows, k - 1, track_id, t);
        if rows[k - 1].track_id == track_id && rows[k - 1].frame == t {
            assert forall|j: int|
                0 <= j < k && (#[trigger] rows[j]).track_id == track_id && rows[j].frame == t && (
                forall|i: int|
                    j < i < k ==> !((#[trigger] rows[i]).track_id == track_id && rows[i].frame
                        == t)) implies last_box(rows, k, track_id, t) == Some(rows[j].bbox) by {
                assert(j == k - 1);
            }
        } else {
            assert(last_box(rows, k, track_id, t) == last_box(rows, k - 1, track_id, t));
            if exists|j: int|
                0 <= j < k && (#[trigger] rows[j]).track_id == track_id && rows[j].frame == t {
                let j = choose|j: int|
                    0 <= j < k && (#[trigger] rows[j]).track_id == track_id && rows[j].frame == t;
                assert(0 <= j < k - 1 && rows[j].track_id == track_id);
            }
        }
    }
}

/// A sequence that is made has the frames it was given, under their name and
/// size, and says something about each of them.
pub proof fn made_sequences_keep_their_frames(
    name: Seq<char>,
    frames: Vec<Vec<u8>>,
    width: u32,
    height: u32,
    rows: Seq<GtRow>,
    q: Sequence,
)
    requires
        is_sequence(name, frames, width, height, rows, Ok(q)),
    ensures
        q.name@ == name,
        q.width == width,
        q.height == height,
        q.frames == frames,
        q.target_gt@.len() == frames@.len(),
        q.distractor_gt@.len() == frames@.len(),
        q.detections@.len() == frames@.len(),
{
}

/// The distractor of a sequence that is made, on every frame: it is there
/// exactly when there is a row of track 1 for the frame, whatever there is for
/// the target, and then it is visible with the box of the last such row.
pub proof fn the_distractor_is_where_its_rows_say(
    name: Seq<char>,
    frames: Vec<Vec<u8>>,
    width: u32,
    height: u32,
    rows: Seq<GtRow>,
    q: Sequence,
    t: int,
)
    requires
        is_sequence(name, frames, width, height, rows, Ok(q)),
        0 <= t < frames@.len(),
    ensures
        q.distractor_gt@[t] is Some <==> exists|j: int|
            0 <= j < rows.len() && (#[trigger] rows[j]).track_id == 1 && rows[j].frame == t,
        forall|j: int|
            0 <= j < rows.len() && (#[trigger] rows[j]).track_id == 1 && rows[j].frame == t && (
            forall|i: int|
                j < i < rows.len() ==> !((#[trigger] rows[i]).track_id == 1 && rows[i].frame == t))
                ==> q.distractor_gt@[t] == Some(GroundTruth { bbox: rows[j].bbox, visible: true }),
{
    lemma_last_row_counts(rows, rows.len() as int, 1, t);
    assert(q.distractor_gt@[t] == distractor_truth(rows, t));
}

/// The target of a sequence that is made, on every frame: it is visible
/// exactly when there is a row of track 0 for the frame, with the box of the
/// last such row, whatever there is for the distractor. A perfect detector
/// reports that box and nothing else, with full confidence, numbered by the
/// frames before on which the target is visible. Where it is not visible, the
/// detector runs and reports nothing.
pub proof fn the_target_is_where_its_rows_say(
    name: Seq<char>,
    frames: Vec<Vec<u8>>,
    width: u32,
    height: u32,
    rows: Seq<GtRow>,
    q: Sequence,
    t: int,
)
    requires
        is_sequence(name, frames, width, height, rows, Ok(q)),
        0 <= t < frames@.len(),
    ensures
        q.target_gt@[t].visible <==> exists|j: int|
            0 <= j < rows.len() && (#[trigger] rows[j]).track_id == 0 && rows[j].frame == t,
        forall|j: int|
            0 <= j < rows.len() && (#[trigger] rows[j]).track_id == 0 && rows[j].frame == t && (
            forall|i: int|
                j < i < rows.len() ==> !((#[trigger] rows[i]).track_id == 0 && rows[i].frame == t))
                ==> q.target_gt@[t].bbox == rows[j].bbox,
        !q.target_gt@[t].visible ==> q.target_gt@[t].bbox == (BBox { x1: 0, y1: 0, x2: 0, y2: 0 }),
        q.detections@[t] is Some,
        !q.target_gt@[t].visible ==> q.detections@[t]->0@.len() == 0,
        q.target_gt@[t].visible ==> {
            let batch = q.detections@[t]->0@;
            &&& batch.len() == 1
            &&& batch[0].bbox == q.target_gt@[t].bbox
            &&& batch[0].confidence.bits() == 0x3F80_0000
            &&& batch[0].id == Set::new(|u: int| 0 <= u < t && q.target_gt@[u].visible).len()
        },
{
    lemma_last_row_counts(rows, rows.len() as int, 0, t);
    assert(q.target_gt@[t] == target_truth(rows, t));
    assert(batch_view(q.detections@[t]) == Some(perfect_batch(rows, t)));
    Confidence::score_is_its_bits(ONE_BITS, Confidence::of_bits(ONE_BITS));
    lemma_sightings_by_number(rows, q, t);
    visible_ticks_by_number(q.target_gt@, t);
}

/// The sightings are the visible frames.
proof fn lemma_sightings_by_number(rows: Seq<GtRow>, q: Sequence, t: int)
    requires
        forall|u: int|
            #![trigger q.target_gt@[u]]
            0 <= u < t ==> q.target_gt@[u] == target_truth(rows, u),
        0 <= t,
    ensures
        sightings(rows, t) == visible_count(q.target_gt@, t),
        0 <= sightings(rows, t) <= t,
    decreases t,
{
    if t > 0 {
        lemma_sightings_by_number(rows, q, t - 1);
        assert(q.target_gt@[t - 1] == target_truth(rows, t - 1));
    }
}

/// When a sequence is made, and what is said otherwise. It takes rows that
/// are all for a frame that exists and for track 0 or 1, and one at least for
/// track 0. The first row that is not is named: by its frame and the number of
/// frames, or else by its track. Rows without one for track 0 have no target.
pub proof fn when_a_sequence_is_made(
    name: Seq<char>,
    frames: Vec<Vec<u8>>,
    width: u32,
    height: u32,
    rows: Seq<GtRow>,
    r: Result<Sequence, RealSeqError>,
)
    requires
        is_sequence(name, frames, width, height, rows, r),
    ensures
        ({
            let n = frames@.len();
            let all_good = forall|j: int|
                0 <= j < rows.len() ==> (#[trigger] rows[j]).frame < n && rows[j].track_id <= 1;
            let some_target = exists|j: int|
                0 <= j < rows.len() && (#[trigger] rows[j]).track_id == 0;
            &&& r is Ok <==> all_good && some_target
            &&& r == Err::<Sequence, RealSeqError>(RealSeqError::TargetNeverVisible) <==> all_good
                && !some_target
            &&& !all_good ==> exists|i: int|
                {
                    &&& 0 <= i < rows.len()
                    &&& forall|j: int|
                        0 <= j < i ==> (#[trigger] rows[j]).frame < n && rows[j].track_id <= 1
                    &&& (#[trigger] rows[i]).frame >= n || rows[i].track_id > 1
                    &&& rows[i].frame >= n ==> r == Err::<Sequence, RealSeqError>(
                        RealSeqError::FrameOutOfRange {
                            frame: rows[i].frame,
                            num_frames: n as usize,
                        },
                    )
                    &&& rows[i].frame < n ==> r == Err::<Sequence, RealSeqError>(
                        RealSeqError::UnsupportedTrackId(rows[i].track_id),
                    )
                }
        }),
{
    let n = frames.len();
    assert forall|j: int| 0 <= j < rows.len() implies (row_error(#[trigger] rows[j], n) is None
        <==> rows[j].frame < n && rows[j].track_id <= 1) by {}
    if r is Err && !(r->Err_0 is TargetNeverVisible) {
        let e = r->Err_0;
        let i = choose|i: int|
            {
                &&& 0 <= i < rows.len()
                &&& rows_ok(rows, n, i)
                &&& row_error(#[trigger] rows[i], n) == Some(e)
            };
        assert(row_error(rows[i], n) is Some);
        assert forall|j: int| 0 <= j < i implies (#[trigger] rows[j]).frame < n && rows[j].track_id
            <= 1 by {
            assert(row_error(rows[j], n) is None);
        }
        assert(!(rows[i].frame < n && rows[i].track_id <= 1));
    } else {
        assert forall|j: int| 0 <= j < rows.len() implies (#[trigger] rows[j]).frame < n
            && rows[j].track_id <= 1 by {
            assert(row_error(rows[j], n) is None);
        }
        if r is Ok {
            let j = choose|j: int|
                0 <= j < rows.len() && (#[trigger] rows[j]).track_id == TARGET_TRACK;
            assert(rows[j].track_id == 0);
        }
    }
}

/// A file is turned into a sequence by its rows alone. A file that cannot be
/// read is complained about at the same line, in the same words, as when it is
/// read by itself.
pub proof fn a_file_counts_by_its_rows(
    name: Seq<char>,
    frames: Vec<Vec<u8>>,
    width: u32,
    height: u32,
    file: Seq<char>,
    r: Result<Sequence, RealSeqError>,
    parsed: Result<Vec<GtRow>, RealSeqError>,
)
    requires
        is_built(name, frames, width, height, file, r),
        is_parse(file, parsed),
    ensures
        parsed is Ok ==> is_sequence(name, frames, width, height, parsed->Ok_0@, r),
        parsed is Err ==> r is Err && parsed->Err_0 is BadGroundTruthLine
            && r->Err_0 is BadGroundTruthLine && r->Err_0->line_no == parsed->Err_0->line_no
            && r->Err_0->raw@ == parsed->Err_0->raw@ && r->Err_0->reason@
            == parsed->Err_0->reason@,
{
    let lines = lines_of(file);
    if parsed is Err {
        let (e, f) = (parsed->Err_0, r->Err_0);
        lemma_bad_line_is_at_fault(lines, e);
        let (line_no, other_no) = (e->line_no, f->line_no);
        let (raw, reason) = (e->raw, e->reason);
        let (other_raw, other_reason) = (f->raw, f->reason);
        let (i, x) = choose|i: int, x: FaultView|
            {
                &&& #[trigger] first_fault(lines, i, x)
                &&& line_no == i + 1
                &&& raw@ == lines[i]
                &&& reason@ == fault_words(x)
            };
        let (j, y) = choose|j: int, y: FaultView|
            {
                &&& #[trigger] first_fault(lines, j, y)
                &&& other_no == j + 1
                &&& other_raw@ == lines[j]
                &&& other_reason@ == fault_words(y)
            };
        assert(reading_at(lines, i) is Fault && reading_at(lines, j) is Fault);
        assert(i == j);
    }
}

/// What a line holds, by its fields. Blank lines and comments hold nothing. A
/// line holds a row exactly when it has six fields: a frame number, a track
/// number, and four coordinates of at most a million in either direction that
/// make a box of positive extent. The row is made of just those.
pub proof fn a_row_is_its_six_fields(line: Seq<char>, seen_data: bool)
    ensures
        ({
            let f = fields_of(line);
            let idle = line.len() == 0 || line[0] == '#';
            let (frame, track) = (
                natural(f[0], usize::MAX as int),
                natural(f[1], u64::MAX as int),
            );
            let (x1, y1) = (integer(f[2]), integer(f[3]));
            let (x2, y2) = (integer(f[4]), integer(f[5]));
            &&& idle ==> reading(line, seen_data) is Skip
            &&& reading(line, seen_data) is Row <==> {
                &&& !idle
                &&& f.len() == 6
                &&& frame is Ok && track is Ok && x1 is Ok && y1 is Ok && x2 is Ok && y2 is Ok
                &&& -1_000_000 <= x1->Ok_0 < x2->Ok_0 <= 1_000_000
                &&& -1_000_000 <= y1->Ok_0 < y2->Ok_0 <= 1_000_000
            }
            &&& reading(line, seen_data) is Row ==> {
                let row = reading(line, seen_data)->row;
                &&& row.frame == frame->Ok_0
                &&& row.track_id == track->Ok_0
                &&& row.bbox.x1 == x1->Ok_0
                &&& row.bbox.y1 == y1->Ok_0
                &&& row.bbox.x2 == x2->Ok_0
                &&& row.bbox.y2 == y2->Ok_0
            }
            &&& reading(line, seen_data) is Skip <==> idle || (!seen_data && match integer(f[0]) {
                Err(e) => e is Empty || e is InvalidDigit,
                Ok(_) => false,
            } && frame is Err)
        }),
{
    let f = fields_of(line);
    lemma_naturals_are_bounded(f[0], usize::MAX as int);
    lemma_naturals_are_bounded(f[1], u64::MAX as int);
}

/// What is read as a number is not negative, and at most the most.
proof fn lemma_naturals_are_bounded(s: Seq<char>, most: int)
    requires
        most >= 0,
    ensures
        natural(s, most) is Ok ==> 0 <= natural(s, most)->Ok_0 <= most,
{
    what_is_read_is_made_of_digits(s, most, IntError::TooLarge);
    what_is_read_is_made_of_digits(s.drop_first(), most, IntError::TooLarge);
}

/// What is wrong with a line that starts with a frame number, by its fields:
/// first their number, then the track, then the coordinates in order, each by
/// its notation and then by its size, and at last the extent of the box.
pub proof fn the_first_bad_field_is_named(line: Seq<char>, seen_data: bool)
    requires
        line.len() > 0,
        line[0] != '#',
        natural(fields_of(line)[0], usize::MAX as int) is Ok,
    ensures
        ({
            let f = fields_of(line);
            let fault = reading(line, seen_data)->fault;
            let good = |i: int|
                integer(f[i]) is Ok && -1_000_000 <= integer(f[i])->Ok_0 <= 1_000_000;
            let track = natural(f[1], u64::MAX as int);
            let bad = |i: int|
                reading(line, seen_data) is Fault && match integer(f[i]) {
                    Err(error) => fault == (FaultView::Coordinate { index: i, error }),
                    Ok(value) => fault == (FaultView::OutOfRange { index: i, value }),
                };
            &&& f.len() != 6 ==> reading(line, seen_data) is Fault && fault
                == (FaultView::FieldCount { count: f.len() as int })
            &&& f.len() == 6 && track is Err ==> reading(line, seen_data) is Fault && fault
                == (FaultView::TrackId { error: track->Err_0 })
            &&& f.len() == 6 && track is Ok ==> {
                &&& !good(2) ==> bad(2)
                &&& good(2) && !good(3) ==> bad(3)
                &&& good(2) && good(3) && !good(4) ==> bad(4)
                &&& good(2) && good(3) && good(4) && !good(5) ==> bad(5)
                &&& good(2) && good(3) && good(4) && good(5) && !(integer(f[2])->Ok_0 < integer(
                    f[4],
                )->Ok_0 && integer(f[3])->Ok_0 < integer(f[5])->Ok_0) ==> reading(
                    line,
                    seen_data,
                ) is Fault && fault is Degenerate && fault->bbox.x1 == integer(f[2])->Ok_0
                    && fault->bbox.y1 == integer(f[3])->Ok_0 && fault->bbox.x2 == integer(
                    f[4],
                )->Ok_0 && fault->bbox.y2 == integer(f[5])->Ok_0
            }
        }),
{
}

/// A line that does not start with a frame number is at fault once a line
/// before it did, or when it starts with an integer all the same.
pub proof fn a_line_without_frame_number(line: Seq<char>, seen_data: bool)
    requires
        line.len() > 0,
        line[0] != '#',
        natural(fields_of(line)[0], usize::MAX as int) is Err,
    ensures
        seen_data ==> reading(line, seen_data) == (LineView::Fault {
            fault: FaultView::Frame { field: fields_of(line)[0] },
        }),
        !seen_data && (integer(fields_of(line)[0]) is Ok || integer(fields_of(line)[0])->Err_0
            is TooLarge || integer(fields_of(line)[0])->Err_0 is TooSmall) ==> reading(
            line,
            seen_data,
        ) == (LineView::Fault {
            fault: FaultView::FrameNumber {
                error: natural(fields_of(line)[0], usize::MAX as int)->Err_0,
            },
        }),
{
}

/// A file is read line by line, and a line field by field, each without the
/// white space around it. Whether data was seen depends on the lines before:
/// on one that is no comment and starts with a frame number.
pub proof fn lines_and_fields_are_trimmed_pieces(file: Seq<char>, line: Seq<char>, i: int)
    ensures
        lines_of(file).len() == pieces(file, '\n').len(),
        fields_of(line).len() == pieces(line, ',').len(),
        0 <= i < lines_of(file).len() ==> lines_of(file)[i] == trimmed(pieces(file, '\n')[i]),
        0 <= i < fields_of(line).len() ==> fields_of(line)[i] == trimmed(pieces(line, ',')[i]),
        0 <= i < lines_of(file).len() ==> reading_at(lines_of(file), i) == reading(
            lines_of(file)[i],
            exists|j: int|
                0 <= j < i && (#[trigger] lines_of(file)[j]).len() > 0 && lines_of(file)[j][0]
                    != '#' && natural(fields_of(lines_of(file)[j])[0], usize::MAX as int) is Ok,
        ),
{
    let lines = lines_of(file);
    if 0 <= i < lines.len() {
        if data_seen(lines, i) {
            let j = choose|j: int| 0 <= j < i && is_data_line(#[trigger] lines[j]);
            assert(lines[j].len() > 0 && lines[j][0] != '#');
        }
        if exists|j: int|
            0 <= j < i && (#[trigger] lines[j]).len() > 0 && lines[j][0] != '#' && natural(
                fields_of(lines[j])[0],
                usize::MAX as int,
            ) is Ok {
            let j = choose|j: int|
                0 <= j < i && (#[trigger] lines[j]).len() > 0 && lines[j][0] != '#' && natural(
                    fields_of(lines[j])[0],
                    usize::MAX as int,
                ) is Ok;
            assert(is_data_line(lines[j]));
        }
    }
}

/// A file that is read gives the rows of its lines: one for every line that
/// holds one, and only for those, in the order of the lines.
pub proof fn rows_come_in_the_order_of_their_lines(
    file: Seq<char>,
    rows: Vec<GtRow>,
    i: int,
)
    requires
        is_parse(file, Ok(rows)),
        0 <= i < lines_of(file).len(),
    ensures
        !(reading_at(lines_of(file), i) is Fault),
        rows@.len() == Set::new(
            |j: int| 0 <= j < lines_of(file).len() && reading_at(lines_of(file), j) is Row,
        ).len(),
        reading_at(lines_of(file), i) is Row ==> {
            let at = Set::new(|j: int| 0 <= j < i && reading_at(lines_of(file), j) is Row).len();
            at < rows@.len() && rows@[at as int] == reading_at(lines_of(file), i)->row
        },
{
    let lines = lines_of(file);
    let n = lines.len() as int;
    lemma_rows_by_number(lines, n);
    assert(Set::new(
        |j: int| 0 <= j < lines_of(file).len() && reading_at(lines_of(file), j) is Row,
    ) =~= row_lines(lines, n));
    if reading_at(lines, i) is Row {
        lemma_row_of_line(lines, n, i);
        assert(Set::new(|j: int| 0 <= j < i && reading_at(lines_of(file), j) is Row) =~= row_lines(
            lines,
            i,
        ));
    }
}

/// The lines before `n` that hold a row.
spec fn row_lines(lines: Seq<Seq<char>>, n: int) -> Set<int> {
    Set::new(|j: int| 0 <= j < n && reading_at(lines, j) is Row)
}

/// There is one row per line that holds one.
proof fn lemma_rows_by_number(lines: Seq<Seq<char>>, n: int)
    ensures
        row_lines(lines, n).finite(),
        rows_of(lines, n).len() == row_lines(lines, n).len(),
    decreases n,
{
    if n > 0 {
        lemma_rows_by_number(lines, n - 1);
        let (less, more) = (row_lines(lines, n - 1), row_lines(lines, n));
        if reading_at(lines, n - 1) is Row {
            assert(more =~= less.insert(n - 1));
        } else {
            assert(more =~= less);
        }
    } else {
        assert(row_lines(lines, n) =~= Set::empty());
    }
}

/// Where the row of a line stands.
proof fn lemma_row_of_line(lines: Seq<Seq<char>>, n: int, i: int)
    requires
        0 <= i < n,
        reading_at(lines, i) is Row,
    ensures
        row_lines(lines, i).len() < rows_of(lines, n).len(),
        rows_of(lines, n)[row_lines(lines, i).len() as int] == reading_at(lines, i)->row,
    decreases n,
{
    lemma_rows_by_number(lines, i);
    if i < n - 1 {
        lemma_row_of_line(lines, n - 1, i);
    }
}

/// A file that is not read is complained about at its first line at fault,
/// counted from one, with the line itself and the fault in words.
pub proof fn the_first_bad_line_is_named(file: Seq<char>, r: Result<Vec<GtRow>, RealSeqError>)
    requires
        is_parse(file, r),
    ensures
        r is Err <==> exists|i: int|
            0 <= i < lines_of(file).len() && #[trigger] reading_at(lines_of(file), i) is Fault,
        r is Err ==> r->Err_0 is BadGroundTruthLine && {
            let i = r->Err_0->line_no - 1;
            &&& 0 <= i < lines_of(file).len()
            &&& forall|j: int| 0 <= j < i ==> !(#[trigger] reading_at(lines_of(file), j) is Fault)
            &&& reading_at(lines_of(file), i) is Fault
            &&& r->Err_0->raw@ == lines_of(file)[i]
            &&& r->Err_0->reason@ == fault_words(reading_at(lines_of(file), i)->fault)
        },
{
    let lines = lines_of(file);
    if r is Err {
        let e = r->Err_0;
        let (line_no, raw, reason) = (e->line_no, e->raw, e->reason);
        let (i, x) = choose|i: int, x: FaultView|
            {
                &&& #[trigger] first_fault(lines, i, x)
                &&& line_no == i + 1
                &&& raw@ == lines[i]
                &&& reason@ == fault_words(x)
            };
        assert(reading_at(lines, i) is Fault);
    }
}

/// The text of a row: its six numbers, with commas between them.
pub open spec fn row_text(frame: nat, track_id: nat, b: BBox) -> Seq<char> {
    decimal_nat(frame).push(',') + (decimal_nat(track_id).push(',') + (decimal(b.x1 as int).push(
        ',',
    ) + (decimal(b.y1 as int).push(',') + (decimal(b.x2 as int).push(',') + decimal(
        b.y2 as int,
    )))))
}

/// What is written is read back: the text of a row with a sane box is read as
/// that row, whatever stands before it.
pub proof fn written_rows_are_read_back(row: GtRow, seen_data: bool)
    requires
        -1_000_000 <= row.bbox.x1 < row.bbox.x2 <= 1_000_000,
        -1_000_000 <= row.bbox.y1 < row.bbox.y2 <= 1_000_000,
    ensures
        reading(row_text(row.frame as nat, row.track_id as nat, row.bbox), seen_data)
            == (LineView::Row { row }),
{
    let b = row.bbox;
    let (frame, id) = (row.frame as nat, row.track_id as nat);
    let line = row_text(frame, id, b);
    let t0 = decimal_nat(frame);
    let t1 = decimal_nat(id);
    let (t2, t3) = (decimal(b.x1 as int), decimal(b.y1 as int));
    let (t4, t5) = (decimal(b.x2 as int), decimal(b.y2 as int));
    lemma_number_is_a_piece(frame as int);
    lemma_number_is_a_piece(id as int);
    lemma_number_is_a_piece(b.x1 as int);
    lemma_number_is_a_piece(b.y1 as int);
    lemma_number_is_a_piece(b.x2 as int);
    lemma_number_is_a_piece(b.y2 as int);
    let r4 = t4.push(',') + t5;
    let r3 = t3.push(',') + r4;
    let r2 = t2.push(',') + r3;
    let r1 = t1.push(',') + r2;
    separators_part_the_pieces(t5, Seq::empty(), ',');
    separators_part_the_pieces(t4, t5, ',');
    separators_part_the_pieces(t3, r4, ',');
    separators_part_the_pieces(t2, r3, ',');
    separators_part_the_pieces(t1, r2, ',');
    separators_part_the_pieces(t0, r1, ',');
    assert(line == t0.push(',') + r1);
    assert(pieces(line, ',') =~= seq![t0, t1, t2, t3, t4, t5]);
    assert(fields_of(line) =~= seq![t0, t1, t2, t3, t4, t5]);
    written_numbers_are_digits(frame);
    assert(line[0] == t0[0]);
    assert(line[0] != '#');
    written_numbers_are_read_back(frame, b.x1 as int, usize::MAX as int);
    written_numbers_are_read_back(id, b.y1 as int, u64::MAX as int);
    written_numbers_are_read_back(0, b.x2 as int, 0);
    written_numbers_are_read_back(0, b.y2 as int, 0);
    a_row_is_its_six_fields(line, seen_data);
}

/// A written number has no comma in it and no white space around it.
proof fn lemma_number_is_a_piece(v: int)
    ensures
        !decimal(v).contains(','),
        trimmed(decimal(v)) == decimal(v),
        decimal(v).len() > 0,
{
    let s = decimal(v);
    let size = if v < 0 {
        (-v) as nat
    } else {
        v as nat
    };
    written_numbers_are_digits(size);
    assert forall|i: int| 0 <= i < s.len() implies #[trigger] s[i] == '-' || '0' <= s[i] <= '9' by {
        if v < 0 && i > 0 {
            assert(s[i] == decimal_nat(size)[i - 1]);
        }
    }
    assert(s.last() == s[s.len() - 1]);
    trimming_takes_white_space_off_the_ends(Seq::empty(), s, Seq::empty());
    assert(Seq::<char>::empty() + s + Seq::<char>::empty() =~= s);
}

/// The words for a fault: which field is to blame, by its number and its name,
/// what it should be, and what it is.
pub proof fn words_for_faults(
    field: Seq<char>,
    error: IntError,
    count: int,
    value: int,
    bbox: BBox,
)
    ensures
        fault_words(FaultView::Frame { field }) == "field 0 (frame) not a non-negative integer: "@
            + quoted(field),
        fault_words(FaultView::FrameNumber { error })
            == "field 0 (frame) not a non-negative integer: "@ + int_error_words(error),
        fault_words(FaultView::FieldCount { count })
            == "expected 6 comma-separated fields (frame,track_id,x1,y1,x2,y2), got "@ + decimal(
            count,
        ),
        fault_words(FaultView::TrackId { error })
            == "field 1 (track_id) not a non-negative integer: "@ + int_error_words(error),
        fault_words(FaultView::Coordinate { index: 2, error }) == "field "@ + decimal(2) + " ("@
            + "x1"@ + ") not an integer: "@ + int_error_words(error),
        fault_words(FaultView::Coordinate { index: 3, error }) == "field "@ + decimal(3) + " ("@
            + "y1"@ + ") not an integer: "@ + int_error_words(error),
        fault_words(FaultView::Coordinate { index: 4, error }) == "field "@ + decimal(4) + " ("@
            + "x2"@ + ") not an integer: "@ + int_error_words(error),
        fault_words(FaultView::Coordinate { index: 5, error }) == "field "@ + decimal(5) + " ("@
            + "y2"@ + ") not an integer: "@ + int_error_words(error),
        fault_words(FaultView::OutOfRange { index: 2, value }) == "field "@ + decimal(2) + " ("@
            + "x1"@ + ") = "@ + decimal(value) + " is outside the sane range +/-1000000"@,
        fault_words(FaultView::OutOfRange { index: 3, value }) == "field "@ + decimal(3) + " ("@
            + "y1"@ + ") = "@ + decimal(value) + " is outside the sane range +/-1000000"@,
        fault_words(FaultView::OutOfRange { index: 4, value }) == "field "@ + decimal(4) + " ("@
            + "x2"@ + ") = "@ + decimal(value) + " is outside the sane range +/-1000000"@,
        fault_words(FaultView::OutOfRange { index: 5, value }) == "field "@ + decimal(5) + " ("@
            + "y2"@ + ") = "@ + decimal(value) + " is outside the sane range +/-1000000"@,
        fault_words(FaultView::Degenerate { bbox }) == "box ("@ + decimal(bbox.x1 as int) + ","@
            + decimal(bbox.y1 as int) + ","@ + decimal(bbox.x2 as int) + ","@ + decimal(
            bbox.y2 as int,
        ) + ") is degenerate or reversed — need x1<x2 and y1<y2"@,
{
}

} // verus!
