//! Synthetic frame sequences with known ground truth.
//!
//! Each frame is a flat background with one or two flat squares. That is
//! enough texture for a template matcher or a correlation filter to lock
//! onto, and generation stays fully deterministic.

use crate::ratio::Ratio;
use crate::rng::{draws_stay_in_range, drawn, scrambled, unit_point, Rng, UNIT_STEPS};
use crate::tracker::FrameView;
use crate::types::{fits_i64, larger, max_i64, min_i64, smaller, BBox, Confidence, Detection};
use vstd::prelude::*;

verus! {

/// The width of a synthetic frame.
pub const WIDTH: u32 = 320;

/// The height of a synthetic frame.
pub const HEIGHT: u32 = 240;

/// The number of bytes of a synthetic frame, three per pixel.
pub const FRAME_BYTES: usize = 230_400;

/// The gray level of the background.
pub const BACKGROUND: u8 = 25;

/// The gray level of the target.
pub const TARGET_LEVEL: u8 = 230;

/// The gray level of the distractor.
pub const DISTRACTOR_LEVEL: u8 = 215;

/// The side of the target and of the distractor.
pub const SQUARE_SIZE: i64 = 28;

/// The bit pattern of the confidence of every synthetic detection, 0.85.
pub const DETECTION_CONF_BITS: u32 = 0x3F59_999A;

/// Where an object is at a tick.
#[derive(Debug, Clone, Copy, PartialEq, Eq)]
pub struct GroundTruth {
    pub bbox: BBox,
    /// `false` while the object is occluded: it exists, but no detector
    /// would report it and its pixels are not drawn.
    pub visible: bool,
}

/// A frame sequence with ground truth and detector output.
#[derive(Debug)]
pub struct Sequence {
    /// A label for the report.
    pub name: &'static str,
    pub width: u32,
    pub height: u32,
    /// One RGB8 buffer per tick.
    pub frames: Vec<Vec<u8>>,
    pub target_gt: Vec<GroundTruth>,
    pub distractor_gt: Vec<Option<GroundTruth>>,
    /// The detector output per tick: `None` when the detector did not run,
    /// and an empty batch when it ran and saw nothing.
    pub detections: Vec<Option<Vec<Detection>>>,
}

/// A detector output as a value.
pub open spec fn batch_view(batch: Option<Vec<Detection>>) -> Option<Seq<Detection>> {
    match batch {
        Some(v) => Some(v@),
        None => None,
    }
}

impl Sequence {
    /// The number of ticks.
    pub open spec fn ticks(&self) -> nat {
        self.frames@.len()
    }

    /// There is something to say about every tick, and every buffer holds a
    /// whole frame.
    pub open spec fn wf(&self) -> bool {
        &&& self.target_gt@.len() == self.ticks()
        &&& self.distractor_gt@.len() == self.ticks()
        &&& self.detections@.len() == self.ticks()
        &&& self.buffers_fit()
    }

    /// Every buffer holds a whole frame.
    pub open spec fn buffers_fit(&self) -> bool {
        &&& self.width * self.height * 3 <= i64::MAX
        &&& forall|t: int|
            0 <= t < self.ticks() ==> self.width * self.height * 3 <= (
            #[trigger] self.frames@[t])@.len()
    }

    /// The frame of a tick.
    pub fn frame_view(&self, tick: usize) -> (r: FrameView<'_>)
        requires
            tick < self.ticks(),
        ensures
            r.pixels@ == self.frames@[tick as int]@,
            r.width == self.width,
            r.height == self.height,
            r.channels == 3,
            self.buffers_fit() ==> r.wf(),
    {
        FrameView {
            pixels: self.frames[tick].as_slice(),
            width: self.width,
            height: self.height,
            channels: 3,
        }
    }

    pub fn len(&self) -> (r: usize)
        ensures
            r == self.ticks(),
    {
        self.frames.len()
    }

    pub fn is_empty(&self) -> (r: bool)
        ensures
            r == (self.ticks() == 0),
    {
        self.frames.len() == 0
    }
}

/// The column of a byte of a synthetic frame.
pub open spec fn column(i: int) -> int {
    (i / 3) % (WIDTH as int)
}

/// The row of a byte of a synthetic frame.
pub open spec fn row(i: int) -> int {
    (i / 3) / (WIDTH as int)
}

/// A pixel is inside a box.
pub open spec fn covers(b: BBox, x: int, y: int) -> bool {
    b.x1 <= x < b.x2 && b.y1 <= y < b.y2
}

/// The channel of a colour that byte `i` of a frame holds.
pub open spec fn channel(color: (u8, u8, u8), i: int) -> u8 {
    if i % 3 == 0 {
        color.0
    } else if i % 3 == 1 {
        color.1
    } else {
        color.2
    }
}

/// A frame of background.
pub fn blank_frame() -> (r: Vec<u8>)
    ensures
        r@ == Seq::new(FRAME_BYTES as nat, |i: int| BACKGROUND),
{
    let mut out: Vec<u8> = Vec::new();
    let mut i: usize = 0;
    while i < FRAME_BYTES
        invariant
            i <= FRAME_BYTES,
            out@ == Seq::new(i as nat, |j: int| BACKGROUND),
        decreases FRAME_BYTES - i,
    {
        out.push(BACKGROUND);
        i += 1;
    }
    out
}

/// Byte `i` belongs to a pixel of `b` that comes before row `y`, column `x`.
spec fn painted(b: BBox, i: int, x: int, y: int) -> bool {
    covers(b, column(i), row(i)) && (row(i) < y || (row(i) == y && column(i) < x))
}

/// Paints the part of `b` that is inside the frame.
pub fn draw_square(buf: &mut Vec<u8>, b: BBox, color: (u8, u8, u8))
    requires
        old(buf)@.len() == FRAME_BYTES,
    ensures
        final(buf)@ == Seq::new(
            FRAME_BYTES as nat,
            |i: int|
                if covers(b, column(i), row(i)) {
                    channel(color, i)
                } else {
                    old(buf)@[i]
                },
        ),
{
    let ghost start = buf@;
    let (w, h): (i64, i64) = (WIDTH as i64, HEIGHT as i64);
    let (left, right): (i64, i64) = (max_i64(b.x1, 0), min_i64(b.x2, w));
    let mut y: i64 = max_i64(b.y1, 0);
    let bottom: i64 = min_i64(b.y2, h);
    assert(forall|i: int| 0 <= i < FRAME_BYTES ==> !painted(b, i, 0, y as int));
    while y < bottom
        invariant
            w == WIDTH,
            h == HEIGHT,
            left == larger(b.x1 as int, 0),
            right == smaller(b.x2 as int, w as int),
            bottom == smaller(b.y2 as int, h as int),
            larger(b.y1 as int, 0) <= y,
            y <= bottom || y == larger(b.y1 as int, 0),
            start.len() == FRAME_BYTES,
            buf@.len() == FRAME_BYTES,
            forall|i: int|
                0 <= i < FRAME_BYTES ==> #[trigger] buf@[i] == (if painted(b, i, 0, y as int) {
                    channel(color, i)
                } else {
                    start[i]
                }),
        decreases bottom - y,
    {
        let mut x: i64 = left;
        assert(forall|i: int|
            0 <= i < FRAME_BYTES ==> painted(b, i, 0, y as int) == painted(
                b,
                i,
                left as int,
                y as int,
            ));
        while x < right
            invariant
                w == WIDTH,
                h == HEIGHT,
                left == larger(b.x1 as int, 0),
                right == smaller(b.x2 as int, w as int),
                left <= x,
                x <= right || x == left,
                larger(b.y1 as int, 0) <= y < smaller(b.y2 as int, h as int),
                start.len() == FRAME_BYTES,
                buf@.len() == FRAME_BYTES,
                forall|i: int|
                    0 <= i < FRAME_BYTES ==> #[trigger] buf@[i] == (if painted(
                        b,
                        i,
                        x as int,
                        y as int,
                    ) {
                        channel(color, i)
                    } else {
                        start[i]
                    }),
            decreases right - x,
        {
            let i: usize = ((y * w + x) * 3) as usize;
            assert(forall|j: int|
                #![trigger buf@[j]]
                0 <= j < FRAME_BYTES ==> (row(j) == y && column(j) == x <==> i <= j < i + 3));
            buf[i] = color.0;
            buf[i + 1] = color.1;
            buf[i + 2] = color.2;
            x += 1;
        }
        y += 1;
        assert(forall|i: int|
            0 <= i < FRAME_BYTES ==> painted(b, i, x as int, y - 1) == painted(
                b,
                i,
                0,
                y as int,
            ));
    }
    assert(forall|i: int|
        0 <= i < FRAME_BYTES ==> painted(b, i, 0, y as int) == covers(b, column(i), row(i)));
    assert(buf@ == Seq::new(
        FRAME_BYTES as nat,
        |i: int|
            if covers(b, column(i), row(i)) {
                channel(color, i)
            } else {
                start[i]
            },
    ));
}

/// The square with this side whose centre is at `(cx, cy)`.
pub open spec fn square_at(cx: int, cy: int, size: int) -> BBox {
    BBox {
        x1: (cx - size / 2) as i64,
        y1: (cy - size / 2) as i64,
        x2: (cx - size / 2 + size) as i64,
        y2: (cy - size / 2 + size) as i64,
    }
}

/// The square with this side whose centre is at `(cx, cy)`.
fn clamp_box(cx: i64, cy: i64, size: i64) -> (r: BBox)
    requires
        size >= 0,
        fits_i64(cx - size / 2),
        fits_i64(cy - size / 2),
        fits_i64(cx - size / 2 + size),
        fits_i64(cy - size / 2 + size),
    ensures
        r == square_at(cx as int, cy as int, size as int),
{
    let half: i64 = size / 2;
    let x1: i64 = cx - half;
    let y1: i64 = cy - half;
    BBox::new(x1, y1, x1 + size, y1 + size)
}

/// The scripted sequences.
#[derive(Debug, Clone, Copy, PartialEq, Eq, Structural)]
pub enum Scenario {
    /// Steady motion with dense detections: the easy baseline.
    StraightLine,
    /// The same path, but the target is hidden for a stretch, and the
    /// detector runs on every third tick and misses some.
    OcclusionAndSparseDetections,
    /// A look-alike crosses close to the target.
    DistractorCrossing,
}

/// The label of a scenario.
pub open spec fn label(s: Scenario) -> Seq<char> {
    match s {
        Scenario::StraightLine => "straight_line"@,
        Scenario::OcclusionAndSparseDetections => "occlusion_and_sparse_detections"@,
        Scenario::DistractorCrossing => "distractor_crossing"@,
    }
}

/// The detector runs once in so many ticks.
pub open spec fn cadence(s: Scenario) -> int {
    if s is OcclusionAndSparseDetections {
        3
    } else {
        1
    }
}

/// How far the detector is off, per coordinate.
pub open spec fn jitter(s: Scenario) -> int {
    if s is OcclusionAndSparseDetections {
        3
    } else {
        2
    }
}

/// The detector misses one object in ten, or none.
pub open spec fn misses(s: Scenario, point: int) -> bool {
    s is OcclusionAndSparseDetections && point * 10 < UNIT_STEPS
}

/// The box of the target at tick `t`.
pub open spec fn target_box(s: Scenario, t: int) -> BBox {
    square_at(
        80 + (2 * t) % 240,
        if s is DistractorCrossing {
            80
        } else {
            120
        },
        SQUARE_SIZE as int,
    )
}

/// The target can be seen at tick `t` of `n`.
pub open spec fn target_visible(s: Scenario, n: int, t: int) -> bool {
    !(s is OcclusionAndSparseDetections && n / 3 <= t < n / 3 + n / 6)
}

/// The box of the distractor at tick `t`, where there is one.
pub open spec fn distractor_box(s: Scenario, t: int) -> Option<BBox> {
    if s is DistractorCrossing {
        Some(square_at(280 - (2 * t) % 240, 86, SQUARE_SIZE as int))
    } else {
        None
    }
}

/// The frame of tick `t` of `n`: the distractor over the target over the
/// background.
pub open spec fn rendered(s: Scenario, n: int, t: int) -> Seq<u8> {
    Seq::new(
        FRAME_BYTES as nat,
        |i: int|
            if distractor_box(s, t) is Some && covers(distractor_box(s, t)->0, column(i), row(i)) {
                DISTRACTOR_LEVEL
            } else if target_visible(s, n, t) && covers(target_box(s, t), column(i), row(i)) {
                TARGET_LEVEL
            } else {
                BACKGROUND
            },
    )
}

/// The detector between two ticks: the generator state and the next id.
pub struct DetectorState {
    pub rng: u64,
    pub next_id: int,
}

/// A synthetic detection.
pub open spec fn detection(b: BBox, id: int) -> Detection {
    Detection { bbox: b, confidence: Confidence::of_bits(DETECTION_CONF_BITS), id: id as u64 }
}

/// One jittered coordinate, for a generator state.
pub open spec fn jittered(s: Scenario, c: i64, rng: u64) -> i64 {
    (c + drawn(unit_point(rng), -jitter(s), jitter(s))) as i64
}

/// A jittered box, for the generator state before it. Each coordinate draws
/// once, in the order of the fields.
pub open spec fn jittered_box(s: Scenario, b: BBox, rng: u64) -> BBox {
    let r1 = scrambled(rng);
    let r2 = scrambled(r1);
    let r3 = scrambled(r2);
    let r4 = scrambled(r3);
    BBox {
        x1: jittered(s, b.x1, r1),
        y1: jittered(s, b.y1, r2),
        x2: jittered(s, b.x2, r3),
        y2: jittered(s, b.y2, r4),
    }
}

/// What the detector says of the target, and its state afterwards. A hidden
/// target draws nothing.
pub open spec fn detect_target(s: Scenario, n: int, t: int, d: DetectorState) -> (
    Seq<Detection>,
    DetectorState,
) {
    let r0 = scrambled(d.rng);
    if !target_visible(s, n, t) {
        (Seq::empty(), d)
    } else if misses(s, unit_point(r0)) {
        (Seq::empty(), DetectorState { rng: r0, ..d })
    } else {
        (
            seq![detection(jittered_box(s, target_box(s, t), r0), d.next_id)],
            DetectorState {
                rng: scrambled(scrambled(scrambled(scrambled(r0)))),
                next_id: d.next_id + 1,
            },
        )
    }
}

/// What the detector says of the distractor, and its state afterwards.
pub open spec fn detect_distractor(s: Scenario, t: int, d: DetectorState) -> (
    Seq<Detection>,
    DetectorState,
) {
    let r0 = scrambled(d.rng);
    match distractor_box(s, t) {
        None => (Seq::empty(), d),
        Some(b) => if misses(s, unit_point(r0)) {
            (Seq::empty(), DetectorState { rng: r0, ..d })
        } else {
            (
                seq![detection(b, d.next_id)],
                DetectorState { rng: r0, next_id: d.next_id + 1 },
            )
        },
    }
}

/// The detector output of tick `t` of `n`, and the detector afterwards.
pub open spec fn detect(s: Scenario, n: int, t: int, d: DetectorState) -> (
    Option<Seq<Detection>>,
    DetectorState,
) {
    if t % cadence(s) != 0 {
        (None, d)
    } else {
        let (first, mid) = detect_target(s, n, t, d);
        let (second, end) = detect_distractor(s, t, mid);
        (Some(first + second), end)
    }
}

/// The detector before tick `t`.
pub open spec fn detector_before(s: Scenario, n: int, seed: u64, t: int) -> DetectorState
    decreases t,
{
    if t <= 0 {
        DetectorState {
            rng: if seed == 0 {
                1
            } else {
                seed
            },
            next_id: 0,
        }
    } else {
        detect(s, n, t - 1, detector_before(s, n, seed, t - 1)).1
    }
}

/// The first `m` ticks of the sequence are those of the scenario of `n`
/// ticks.
pub open spec fn follows(q: Sequence, s: Scenario, n: int, seed: u64, m: int) -> bool {
    &&& q.name@ == label(s)
    &&& q.width == WIDTH
    &&& q.height == HEIGHT
    &&& q.frames@.len() == m
    &&& q.target_gt@.len() == m
    &&& q.distractor_gt@.len() == m
    &&& q.detections@.len() == m
    &&& forall|t: int| #![trigger q.frames@[t]] 0 <= t < m ==> q.frames@[t]@ == rendered(s, n, t)
    &&& forall|t: int|
        #![trigger q.target_gt@[t]]
        0 <= t < m ==> q.target_gt@[t] == (GroundTruth {
            bbox: target_box(s, t),
            visible: target_visible(s, n, t),
        })
    &&& forall|t: int|
        #![trigger q.distractor_gt@[t]]
        0 <= t < m ==> q.distractor_gt@[t] == (match distractor_box(s, t) {
            Some(b) => Some(GroundTruth { bbox: b, visible: true }),
            None => None,
        })
    &&& forall|t: int|
        #![trigger q.detections@[t]]
        0 <= t < m ==> batch_view(q.detections@[t]) == detect(
            s,
            n,
            t,
            detector_before(s, n, seed, t),
        ).0
}

/// One jittered coordinate.
fn jitter_coordinate(s: Scenario, c: i64, rng: &mut Rng) -> (r: i64)
    requires
        -1000 <= c <= 1000,
    ensures
        final(rng).state() == scrambled(old(rng).state()),
        r == jittered(s, c, final(rng).state()),
{
    let px: i64 = match s {
        Scenario::OcclusionAndSparseDetections => 3,
        _ => 2,
    };
    c + rng.range_i64(-px, px)
}

/// Whether the detector misses an object.
fn draw_miss(s: Scenario, rng: &mut Rng) -> (r: bool)
    ensures
        final(rng).state() == scrambled(old(rng).state()),
        r == misses(s, unit_point(final(rng).state())),
{
    let p: Ratio = match s {
        Scenario::OcclusionAndSparseDetections => Ratio::of(1, 10),
        _ => Ratio::of(0, 1),
    };
    rng.chance(p)
}

/// A synthetic detection.
fn new_detection(b: BBox, id: u64) -> (r: Detection)
    ensures
        r == detection(b, id as int),
{
    let confidence: Confidence = Confidence::clamp(DETECTION_CONF_BITS);
    proof {
        Confidence::score_is_its_bits(DETECTION_CONF_BITS, confidence);
    }
    Detection { bbox: b, confidence, id }
}

/// The box of the target at tick `t`.
fn target_at(s: Scenario, t: usize) -> (r: BBox)
    ensures
        r == target_box(s, t as int),
        -1000 <= r.x1 <= 1000,
        -1000 <= r.y1 <= 1000,
        -1000 <= r.x2 <= 1000,
        -1000 <= r.y2 <= 1000,
{
    assert((2 * t) % 240 == 2 * (t % 120)) by (nonlinear_arith);
    let cx: i64 = 80 + 2 * ((t % 120) as i64);
    let cy: i64 = match s {
        Scenario::DistractorCrossing => 80,
        _ => 120,
    };
    clamp_box(cx, cy, SQUARE_SIZE)
}

/// The box of the distractor at tick `t`, where there is one.
fn distractor_at(s: Scenario, t: usize) -> (r: Option<BBox>)
    ensures
        r == distractor_box(s, t as int),
{
    assert((2 * t) % 240 == 2 * (t % 120)) by (nonlinear_arith);
    match s {
        Scenario::DistractorCrossing => Some(
            clamp_box(280 - 2 * ((t % 120) as i64), 86, SQUARE_SIZE),
        ),
        _ => None,
    }
}

/// Whether the target can be seen at tick `t` of `n`.
fn is_visible(s: Scenario, n: usize, t: usize) -> (r: bool)
    ensures
        r == target_visible(s, n as int, t as int),
{
    match s {
        Scenario::OcclusionAndSparseDetections => !(n / 3 <= t && t < n / 3 + n / 6),
        _ => true,
    }
}

/// Renders the frame of tick `t` of `n`.
fn render(s: Scenario, n: usize, t: usize) -> (frame: Vec<u8>)
    ensures
        frame@ == rendered(s, n as int, t as int),
{
    let mut frame: Vec<u8> = blank_frame();
    if is_visible(s, n, t) {
        draw_square(&mut frame, target_at(s, t), (TARGET_LEVEL, TARGET_LEVEL, TARGET_LEVEL));
    }
    if let Some(b) = distractor_at(s, t) {
        draw_square(&mut frame, b, (DISTRACTOR_LEVEL, DISTRACTOR_LEVEL, DISTRACTOR_LEVEL));
    }
    assert(frame@ == rendered(s, n as int, t as int));
    frame
}

/// Lets the detector run on the target.
fn report_target(s: Scenario, n: usize, t: usize, rng: &mut Rng, next_id: u64) -> (r: Vec<
    Detection,
>)
    requires
        next_id < u64::MAX,
    ensures
        ({
            let d = DetectorState { rng: old(rng).state(), next_id: next_id as int };
            let (batch, after) = detect_target(s, n as int, t as int, d);
            r@ == batch && final(rng).state() == after.rng && after.next_id == next_id + r@.len()
        }),
        r@.len() <= 1,
{
    let mut batch: Vec<Detection> = Vec::new();
    if is_visible(s, n, t) {
        if !draw_miss(s, rng) {
            let tb: BBox = target_at(s, t);
            let x1: i64 = jitter_coordinate(s, tb.x1, rng);
            let y1: i64 = jitter_coordinate(s, tb.y1, rng);
            let x2: i64 = jitter_coordinate(s, tb.x2, rng);
            let y2: i64 = jitter_coordinate(s, tb.y2, rng);
            batch.push(new_detection(BBox::new(x1, y1, x2, y2), next_id));
        }
    }
    batch
}

/// Lets the detector run at tick `t` of `n`.
fn run_detector(s: Scenario, n: usize, t: usize, rng: &mut Rng, next_id: &mut u64) -> (r: Option<
    Vec<Detection>,
>)
    requires
        *old(next_id) <= u64::MAX - 2,
    ensures
        ({
            let d = DetectorState { rng: old(rng).state(), next_id: *old(next_id) as int };
            let (batch, after) = detect(s, n as int, t as int, d);
            batch_view(r) == batch && final(rng).state() == after.rng && *final(next_id)
                == after.next_id
        }),
        *final(next_id) <= *old(next_id) + 2,
{
    let step: usize = match s {
        Scenario::OcclusionAndSparseDetections => 3,
        _ => 1,
    };
    if t % step != 0 {
        return None;
    }
    let ghost d = DetectorState { rng: rng.state(), next_id: *next_id as int };
    let mut batch: Vec<Detection> = report_target(s, n, t, rng, *next_id);
    let ghost (first, mid) = detect_target(s, n as int, t as int, d);
    *next_id = *next_id + batch.len() as u64;
    if let Some(b) = distractor_at(s, t) {
        if !draw_miss(s, rng) {
            batch.push(new_detection(b, *next_id));
            *next_id = *next_id + 1;
        }
    }
    assert(batch@ == first + detect_distractor(s, t as int, mid).0);
    Some(batch)
}

/// Generates a scenario of `num_ticks` ticks.
fn build(s: Scenario, num_ticks: usize, seed: u64) -> (q: Sequence)
    requires
        2 * num_ticks <= u64::MAX,
    ensures
        follows(q, s, num_ticks as int, seed, num_ticks as int),
{
    let name: &'static str = match s {
        Scenario::StraightLine => "straight_line",
        Scenario::OcclusionAndSparseDetections => "occlusion_and_sparse_detections",
        Scenario::DistractorCrossing => "distractor_crossing",
    };
    let mut q: Sequence = Sequence {
        name,
        width: WIDTH,
        height: HEIGHT,
        frames: Vec::new(),
        target_gt: Vec::new(),
        distractor_gt: Vec::new(),
        detections: Vec::new(),
    };
    let mut rng: Rng = Rng::new(seed);
    let mut next_id: u64 = 0;
    let ghost n = num_ticks as int;
    let mut t: usize = 0;
    while t < num_ticks
        invariant
            t <= num_ticks,
            n == num_ticks,
            2 * num_ticks <= u64::MAX,
            follows(q, s, n, seed, t as int),
            detector_before(s, n, seed, t as int) == (DetectorState {
                rng: rng.state(),
                next_id: next_id as int,
            }),
            next_id <= 2 * t,
        decreases num_ticks - t,
    {
        let dets: Option<Vec<Detection>> = run_detector(s, num_ticks, t, &mut rng, &mut next_id);
        let truth: Option<GroundTruth> = match distractor_at(s, t) {
            Some(b) => Some(GroundTruth { bbox: b, visible: true }),
            None => None,
        };
        q.frames.push(render(s, num_ticks, t));
        q.target_gt.push(
            GroundTruth { bbox: target_at(s, t), visible: is_visible(s, num_ticks, t) },
        );
        q.distractor_gt.push(truth);
        q.detections.push(dets);
        t += 1;
    }
    q
}

/// Steady motion across the frame, without occlusion, with a detection on
/// every tick.
pub fn straight_line(num_ticks: usize, seed: u64) -> (q: Sequence)
    requires
        2 * num_ticks <= u64::MAX,
    ensures
        follows(q, Scenario::StraightLine, num_ticks as int, seed, num_ticks as int),
{
    build(Scenario::StraightLine, num_ticks, seed)
}

/// The same path with the target hidden for a stretch in the middle, and a
/// detector that runs on every third tick with some dropout: loss, age-out
/// and re-acquisition.
pub fn occlusion_and_sparse_detections(num_ticks: usize, seed: u64) -> (q: Sequence)
    requires
        2 * num_ticks <= u64::MAX,
    ensures
        follows(
            q,
            Scenario::OcclusionAndSparseDetections,
            num_ticks as int,
            seed,
            num_ticks as int,
        ),
{
    build(Scenario::OcclusionAndSparseDetections, num_ticks, seed)
}

/// A similar and equally confident object crosses close to the target.
pub fn distractor_crossing(num_ticks: usize, seed: u64) -> (q: Sequence)
    requires
        2 * num_ticks <= u64::MAX,
    ensures
        follows(q, Scenario::DistractorCrossing, num_ticks as int, seed, num_ticks as int),
{
    build(Scenario::DistractorCrossing, num_ticks, seed)
}

/// A generated sequence can be run: nothing is missing, and every buffer
/// holds a whole frame.
pub proof fn generated_sequences_are_complete(q: Sequence, s: Scenario, n: int, seed: u64)
    requires
        follows(q, s, n, seed, n),
    ensures
        q.wf(),
        q.ticks() == n,
{
}

/// A picture shows what the ground truth says: the pixels of the distractor
/// at level 215, those of a visible target that it does not cover at level
/// 230, and all others at level 25, in every channel.
pub proof fn pictures_show_the_ground_truth(
    q: Sequence,
    s: Scenario,
    n: int,
    seed: u64,
    t: int,
    x: int,
    y: int,
    c: int,
)
    requires
        follows(q, s, n, seed, n),
        0 <= t < n,
        0 <= x < 320,
        0 <= y < 240,
        0 <= c < 3,
    ensures
        q.width == 320,
        q.height == 240,
        q.frames@[t]@.len() == 320 * 240 * 3,
        ({
            let target = q.target_gt@[t];
            let decoy = q.distractor_gt@[t];
            let on_target = target.visible && target.bbox.x1 <= x < target.bbox.x2
                && target.bbox.y1 <= y < target.bbox.y2;
            let on_decoy = decoy is Some && decoy->0.bbox.x1 <= x < decoy->0.bbox.x2
                && decoy->0.bbox.y1 <= y < decoy->0.bbox.y2;
            q.frames@[t]@[(y * 320 + x) * 3 + c] == (if on_decoy {
                215u8
            } else if on_target {
                230u8
            } else {
                25u8
            })
        }),
{
    let i = (y * 320 + x) * 3 + c;
    assert(i / 3 == y * 320 + x);
    assert(column(i) == x && row(i) == y);
    assert(q.frames@[t]@ == rendered(s, n, t));
    assert(q.target_gt@[t].bbox == target_box(s, t));
    assert(q.distractor_gt@[t] is Some <==> distractor_box(s, t) is Some);
}

/// The paths of the two objects, in coordinates. Both are squares of 28
/// pixels. The target starts with its centre at column 80 and moves right by
/// two columns per tick, over again every 120 ticks, at row 120, or at row 80
/// where there is a distractor. That starts at column 280 and moves left, at
/// row 86. The target is hidden on a sixth of the ticks, from a third on, in
/// the scenario of that name, and visible on all others.
pub proof fn objects_move_on_their_paths(q: Sequence, s: Scenario, n: int, seed: u64, t: int)
    requires
        follows(q, s, n, seed, n),
        0 <= t < n,
    ensures
        ({
            let moved = 2 * (t % 120);
            let b = q.target_gt@[t].bbox;
            &&& b.x1 == 80 - 14 + moved
            &&& b.x2 == 80 + 14 + moved
            &&& s is DistractorCrossing ==> b.y1 == 66 && b.y2 == 94
            &&& !(s is DistractorCrossing) ==> b.y1 == 106 && b.y2 == 134
            &&& q.target_gt@[t].visible <==> !(s is OcclusionAndSparseDetections) || t < n / 3 || t
                >= n / 3 + n / 6
            &&& q.distractor_gt@[t] is Some <==> s is DistractorCrossing
            &&& q.distractor_gt@[t] is Some ==> {
                let d = q.distractor_gt@[t]->0;
                &&& d.visible
                &&& d.bbox.x1 == 280 - 14 - moved
                &&& d.bbox.x2 == 280 + 14 - moved
                &&& d.bbox.y1 == 72
                &&& d.bbox.y2 == 100
            }
        }),
        s is StraightLine ==> q.name@ == "straight_line"@,
        s is OcclusionAndSparseDetections ==> q.name@ == "occlusion_and_sparse_detections"@,
        s is DistractorCrossing ==> q.name@ == "distractor_crossing"@,
{
    assert((2 * t) % 240 == 2 * (t % 120)) by (nonlinear_arith);
    assert(q.target_gt@[t].bbox == target_box(s, t));
    assert(q.distractor_gt@[t] is Some <==> distractor_box(s, t) is Some);
}

/// What the detector reports. It runs on every tick, or on every third where
/// detections are sparse. It reports the target when it is visible, each
/// coordinate off by at most two pixels, or three where detections are sparse,
/// and misses it only there. Then it reports the distractor, if there is one,
/// where it is. Nothing else is reported, and everything with the same
/// confidence.
pub proof fn the_detector_reports_what_is_there(
    q: Sequence,
    s: Scenario,
    n: int,
    seed: u64,
    t: int,
)
    requires
        follows(q, s, n, seed, n),
        0 <= t < n,
    ensures
        q.detections@[t] is Some <==> !(s is OcclusionAndSparseDetections) || t % 3 == 0,
        q.detections@[t] is Some ==> {
            let batch = q.detections@[t]->0@;
            let b = q.target_gt@[t].bbox;
            let off: int = if s is OcclusionAndSparseDetections {
                3
            } else {
                2
            };
            &&& s is StraightLine ==> batch.len() == 1
            &&& s is OcclusionAndSparseDetections ==> batch.len() <= 1
            &&& s is DistractorCrossing ==> batch.len() == 2 && batch[1].bbox
                == q.distractor_gt@[t]->0.bbox
            &&& !q.target_gt@[t].visible ==> batch.len() == 0
            &&& batch.len() > 0 ==> {
                &&& -off <= batch[0].bbox.x1 - b.x1 <= off
                &&& -off <= batch[0].bbox.y1 - b.y1 <= off
                &&& -off <= batch[0].bbox.x2 - b.x2 <= off
                &&& -off <= batch[0].bbox.y2 - b.y2 <= off
            }
            &&& forall|k: int|
                0 <= k < batch.len() ==> (#[trigger] batch[k]).confidence.bits() == 0x3F59_999A
        },
{
    let d = detector_before(s, n, seed, t);
    objects_move_on_their_paths(q, s, n, seed, t);
    assert(batch_view(q.detections@[t]) == detect(s, n, t, d).0);
    assert(q.target_gt@[t].bbox == target_box(s, t));
    assert(q.target_gt@[t].visible == target_visible(s, n, t));
    assert(q.distractor_gt@[t] is Some <==> distractor_box(s, t) is Some);
    Confidence::score_is_its_bits(
        DETECTION_CONF_BITS,
        Confidence::of_bits(DETECTION_CONF_BITS),
    );
    if t % cadence(s) == 0 {
        let r0 = scrambled(d.rng);
        let b = target_box(s, t);
        lemma_jitter_is_small(s, scrambled(r0));
        lemma_jitter_is_small(s, scrambled(scrambled(r0)));
        lemma_jitter_is_small(s, scrambled(scrambled(scrambled(r0))));
        lemma_jitter_is_small(s, scrambled(scrambled(scrambled(scrambled(r0)))));
    }
}

/// A coordinate is off by no more than the jitter.
proof fn lemma_jitter_is_small(s: Scenario, rng: u64)
    ensures
        -jitter(s) <= drawn(unit_point(rng), -jitter(s), jitter(s)) <= jitter(s),
{
    draws_stay_in_range(unit_point(rng), -jitter(s), jitter(s));
}

/// The state of a generator after a number of rounds.
pub open spec fn state_after(x: u64, rounds: int) -> u64
    decreases rounds,
{
    if rounds <= 0 {
        x
    } else {
        scrambled(state_after(x, rounds - 1))
    }
}

/// The noise of the detector where it misses nothing: a tick takes one round
/// for the chance to miss the target, and one for each of its coordinates, in
/// order; with a distractor, one more for the chance to miss that. So the noise
/// of every tick is known from the seed alone, where zero stands for one.
/// Detections are numbered through.
#[verifier::rlimit(40)]
pub proof fn noise_is_drawn_in_order(q: Sequence, s: Scenario, n: int, seed: u64, t: int)
    requires
        follows(q, s, n, seed, n),
        0 <= t < n,
        n <= 0x7FFF_FFFF_FFFF_FFFF,
        !(s is OcclusionAndSparseDetections),
    ensures
        ({
            let start = if seed == 0 {
                1
            } else {
                seed
            };
            let at = if s is DistractorCrossing {
                6 * t + 1
            } else {
                5 * t + 1
            };
            let batch = q.detections@[t]->0@;
            let (found, b) = (batch[0].bbox, q.target_gt@[t].bbox);
            &&& q.detections@[t] is Some
            &&& found.x1 - b.x1 == drawn(unit_point(state_after(start, at + 1)), -2, 2)
            &&& found.y1 - b.y1 == drawn(unit_point(state_after(start, at + 2)), -2, 2)
            &&& found.x2 - b.x2 == drawn(unit_point(state_after(start, at + 3)), -2, 2)
            &&& found.y2 - b.y2 == drawn(unit_point(state_after(start, at + 4)), -2, 2)
            &&& s is StraightLine ==> batch.len() == 1 && batch[0].id == t
            &&& s is DistractorCrossing ==> batch.len() == 2 && batch[0].id == 2 * t
                && batch[1].id == 2 * t + 1
        }),
{
    let start = if seed == 0 {
        1
    } else {
        seed
    };
    let d = detector_before(s, n, seed, t);
    let done = if s is DistractorCrossing {
        6 * t
    } else {
        5 * t
    };
    lemma_rounds_of_detector(s, n, seed, t);
    the_detector_reports_what_is_there(q, s, n, seed, t);
    assert(batch_view(q.detections@[t]) == detect(s, n, t, d).0);
    assert(q.target_gt@[t].bbox == target_box(s, t));
    lemma_five_rounds(start, done);
    lemma_full_detection(s, n, t, d);
    lemma_noise_of_box(
        s,
        target_box(s, t),
        scrambled(d.rng),
        state_after(start, done + 2),
        state_after(start, done + 3),
        state_after(start, done + 4),
        state_after(start, done + 5),
    );
    lemma_target_is_near(s, t);
    let batch = detect(s, n, t, d).0->0;
    assert(batch[0] == detection(jittered_box(s, target_box(s, t), scrambled(d.rng)), d.next_id));
}

/// The target stays near the frame.
proof fn lemma_target_is_near(s: Scenario, t: int)
    ensures
        ({
            let b = target_box(s, t);
            &&& -1000 <= b.x1 <= 1000 && -1000 <= b.y1 <= 1000
            &&& -1000 <= b.x2 <= 1000 && -1000 <= b.y2 <= 1000
        }),
{
}

/// What the rounds of a tick add to the coordinates of a box near the frame.
proof fn lemma_noise_of_box(s: Scenario, b: BBox, r0: u64, r1: u64, r2: u64, r3: u64, r4: u64)
    requires
        r1 == scrambled(r0),
        r2 == scrambled(r1),
        r3 == scrambled(r2),
        r4 == scrambled(r3),
    ensures
        -1000 <= b.x1 <= 1000 && -1000 <= b.y1 <= 1000 && -1000 <= b.x2 <= 1000 && -1000 <= b.y2
            <= 1000 ==> {
            let f = jittered_box(s, b, r0);
            let off = jitter(s);
            &&& f.x1 - b.x1 == drawn(unit_point(r1), -off, off)
            &&& f.y1 - b.y1 == drawn(unit_point(r2), -off, off)
            &&& f.x2 - b.x2 == drawn(unit_point(r3), -off, off)
            &&& f.y2 - b.y2 == drawn(unit_point(r4), -off, off)
        },
{
    lemma_jitter_is_small(s, r1);
    lemma_jitter_is_small(s, r2);
    lemma_jitter_is_small(s, r3);
    lemma_jitter_is_small(s, r4);
}

/// The rounds of a tick, one after the other.
proof fn lemma_five_rounds(start: u64, done: int)
    requires
        done >= 0,
    ensures
        state_after(start, done + 1) == scrambled(state_after(start, done)),
        state_after(start, done + 2) == scrambled(state_after(start, done + 1)),
        state_after(start, done + 3) == scrambled(state_after(start, done + 2)),
        state_after(start, done + 4) == scrambled(state_after(start, done + 3)),
        state_after(start, done + 5) == scrambled(state_after(start, done + 4)),
        state_after(start, done + 6) == scrambled(state_after(start, done + 5)),
{
}

/// What a tick leads to where nothing is missed.
proof fn lemma_full_detection(s: Scenario, n: int, t: int, d: DetectorState)
    requires
        !(s is OcclusionAndSparseDetections),
    ensures
        ({
            let r0 = scrambled(d.rng);
            let r4 = scrambled(scrambled(scrambled(scrambled(r0))));
            let first = detection(jittered_box(s, target_box(s, t), r0), d.next_id);
            let (batch, after) = detect(s, n, t, d);
            &&& batch is Some
            &&& s is StraightLine ==> batch->0 == seq![first] && after.rng == r4 && after.next_id
                == d.next_id + 1
            &&& s is DistractorCrossing ==> batch->0 == seq![
                first,
                detection(distractor_box(s, t)->0, d.next_id + 1),
            ] && after.rng == scrambled(r4) && after.next_id == d.next_id + 2
        }),
{
    let (first, mid) = detect_target(s, n, t, d);
    let (second, end) = detect_distractor(s, t, mid);
    assert(t % cadence(s) == 0);
    assert(detect(s, n, t, d) == (Some(first + second), end));
    if s is StraightLine {
        assert(first + second =~= first);
    } else {
        assert(first + second =~= seq![first[0], second[0]]);
    }
}

/// How far the generator is before a tick, and how many were reported.
proof fn lemma_rounds_of_detector(s: Scenario, n: int, seed: u64, t: int)
    requires
        0 <= t,
        !(s is OcclusionAndSparseDetections),
    ensures
        ({
            let start = if seed == 0 {
                1
            } else {
                seed
            };
            let d = detector_before(s, n, seed, t);
            &&& s is StraightLine ==> d.rng == state_after(start, 5 * t) && d.next_id == t
            &&& s is DistractorCrossing ==> d.rng == state_after(start, 6 * t) && d.next_id == 2 * t
        }),
    decreases t,
{
    if t > 0 {
        lemma_rounds_of_detector(s, n, seed, t - 1);
        let start = if seed == 0 {
            1
        } else {
            seed
        };
        let d = detector_before(s, n, seed, t - 1);
        lemma_full_detection(s, n, t - 1, d);
        if s is StraightLine {
            lemma_five_rounds(start, 5 * (t - 1));
        } else {
            lemma_five_rounds(start, 6 * (t - 1));
        }
        assert(detector_before(s, n, seed, t) == detect(s, n, t - 1, d).1);
    }
}

/// The number of detections before tick `t`.
pub open spec fn reported_before(q: Sequence, t: int) -> int
    decreases t,
{
    if t <= 0 {
        0
    } else {
        reported_before(q, t - 1) + (match q.detections@[t - 1] {
            Some(batch) => batch@.len() as int,
            None => 0,
        })
    }
}

/// Detections are numbered through, from zero, over all ticks.
pub proof fn detections_are_numbered_through(
    q: Sequence,
    s: Scenario,
    n: int,
    seed: u64,
    t: int,
    k: int,
)
    requires
        follows(q, s, n, seed, n),
        0 <= t < n,
        n <= 0x7FFF_FFFF_FFFF_FFFF,
        q.detections@[t] is Some,
        0 <= k < q.detections@[t]->0@.len(),
    ensures
        q.detections@[t]->0@[k].id == reported_before(q, t) + k,
{
    let d = detector_before(s, n, seed, t);
    assert(batch_view(q.detections@[t]) == detect(s, n, t, d).0);
    lemma_numbers_grow(s, n, seed, 0, t);
    lemma_numbers_are_counted(q, s, n, seed, t);
}

/// The next number is how many were reported.
proof fn lemma_numbers_are_counted(q: Sequence, s: Scenario, n: int, seed: u64, t: int)
    requires
        follows(q, s, n, seed, n),
        0 <= t <= n,
    ensures
        detector_before(s, n, seed, t).next_id == reported_before(q, t),
    decreases t,
{
    if t > 0 {
        lemma_numbers_are_counted(q, s, n, seed, t - 1);
        let d = detector_before(s, n, seed, t - 1);
        assert(batch_view(q.detections@[t - 1]) == detect(s, n, t - 1, d).0);
        assert(detector_before(s, n, seed, t) == detect(s, n, t - 1, d).1);
    }
}

/// The next number never goes back, and grows by at most two per tick.
proof fn lemma_numbers_grow(s: Scenario, n: int, seed: u64, t: int, u: int)
    requires
        0 <= t <= u,
    ensures
        detector_before(s, n, seed, t).next_id <= detector_before(s, n, seed, u).next_id,
        0 <= detector_before(s, n, seed, u).next_id <= 2 * u,
    decreases u,
{
    if u > 0 {
        if t < u {
            lemma_numbers_grow(s, n, seed, t, u - 1);
        } else {
            lemma_numbers_grow(s, n, seed, u - 1, u - 1);
        }
    }
}

/// The noise of the detector where detections are sparse, from tick to tick.
/// The generator starts from the seed, where zero stands for one, and rests
/// while the detector does not run or the target is hidden. On any other tick
/// one round decides: the target is missed when the point lies in the first
/// tenth of the unit interval. Otherwise four rounds follow, one for each
/// coordinate in order.
#[verifier::rlimit(40)]
pub proof fn sparse_noise_is_drawn_in_order(q: Sequence, n: int, seed: u64)
    requires
        follows(q, Scenario::OcclusionAndSparseDetections, n, seed, n),
        0 <= n,
    ensures
        exists|states: Seq<u64>|
            {
                &&& states.len() == n + 1
                &&& states[0] == (if seed == 0 {
                    1
                } else {
                    seed
                })
                &&& forall|t: int|
                    0 <= t < n ==> {
                        let now = #[trigger] states[t];
                        let b = q.target_gt@[t].bbox;
                        let runs = t % 3 == 0 && q.target_gt@[t].visible;
                        let missed = 10 * unit_point(state_after(now, 1)) < 0x20_0000_0000_0000;
                        &&& !runs ==> states[t + 1] == now
                        &&& runs ==> q.detections@[t] is Some
                        &&& runs && missed ==> states[t + 1] == state_after(now, 1)
                            && q.detections@[t]->0@.len() == 0
                        &&& runs && !missed ==> {
                            let found = q.detections@[t]->0@[0].bbox;
                            &&& states[t + 1] == state_after(now, 5)
                            &&& q.detections@[t]->0@.len() == 1
                            &&& found.x1 - b.x1 == drawn(unit_point(state_after(now, 2)), -3, 3)
                            &&& found.y1 - b.y1 == drawn(unit_point(state_after(now, 3)), -3, 3)
                            &&& found.x2 - b.x2 == drawn(unit_point(state_after(now, 4)), -3, 3)
                            &&& found.y2 - b.y2 == drawn(unit_point(state_after(now, 5)), -3, 3)
                        }
                    }
            },
{
    let s = Scenario::OcclusionAndSparseDetections;
    let states = Seq::new((n + 1) as nat, |t: int| detector_before(s, n, seed, t).rng);
    assert forall|t: int| 0 <= t < n implies {
        let now = #[trigger] states[t];
        let b = q.target_gt@[t].bbox;
        let runs = t % 3 == 0 && q.target_gt@[t].visible;
        let missed = 10 * unit_point(state_after(now, 1)) < 0x20_0000_0000_0000;
        &&& !runs ==> states[t + 1] == now
        &&& runs ==> q.detections@[t] is Some
        &&& runs && missed ==> states[t + 1] == state_after(now, 1) && q.detections@[t]->0@.len()
            == 0
        &&& runs && !missed ==> {
            let found = q.detections@[t]->0@[0].bbox;
            &&& states[t + 1] == state_after(now, 5)
            &&& q.detections@[t]->0@.len() == 1
            &&& found.x1 - b.x1 == drawn(unit_point(state_after(now, 2)), -3, 3)
            &&& found.y1 - b.y1 == drawn(unit_point(state_after(now, 3)), -3, 3)
            &&& found.x2 - b.x2 == drawn(unit_point(state_after(now, 4)), -3, 3)
            &&& found.y2 - b.y2 == drawn(unit_point(state_after(now, 5)), -3, 3)
        }
    } by {
        let d = detector_before(s, n, seed, t);
        let b = target_box(s, t);
        assert(batch_view(q.detections@[t]) == detect(s, n, t, d).0);
        assert(q.target_gt@[t].bbox == b);
        assert(q.target_gt@[t].visible == target_visible(s, n, t));
        assert(detector_before(s, n, seed, t + 1) == detect(s, n, t, d).1);
        lemma_sparse_detection(s, n, t, d);
        lemma_five_rounds(d.rng, 0);
        lemma_noise_of_box(
            s,
            b,
            scrambled(d.rng),
            state_after(d.rng, 2),
            state_after(d.rng, 3),
            state_after(d.rng, 4),
            state_after(d.rng, 5),
        );
        lemma_target_is_near(s, t);
    }
    assert(states.len() == n + 1);
}

/// What a tick leads to where detections are sparse.
proof fn lemma_sparse_detection(s: Scenario, n: int, t: int, d: DetectorState)
    requires
        s is OcclusionAndSparseDetections,
    ensures
        ({
            let r0 = scrambled(d.rng);
            let runs = t % 3 == 0 && target_visible(s, n, t);
            let (batch, after) = detect(s, n, t, d);
            &&& !runs ==> after.rng == d.rng
            &&& runs ==> batch is Some
            &&& runs && misses(s, unit_point(r0)) ==> batch->0 == Seq::<Detection>::empty()
                && after.rng == r0
            &&& runs && !misses(s, unit_point(r0)) ==> batch->0 == seq![
                detection(jittered_box(s, target_box(s, t), r0), d.next_id),
            ] && after.rng == scrambled(scrambled(scrambled(scrambled(r0))))
        }),
{
    let (first, mid) = detect_target(s, n, t, d);
    let (second, end) = detect_distractor(s, t, mid);
    assert(first + second =~= first);
}

/// Painting a box changes its pixels to the colour, and no other pixel.
pub proof fn a_painted_byte_belongs_to_its_pixel(x: int, y: int, c: int, b: BBox, color: (u8, u8, u8))
    requires
        0 <= x < 320,
        0 <= y < 240,
        0 <= c < 3,
    ensures
        ({
            let i = (y * 320 + x) * 3 + c;
            &&& covers(b, column(i), row(i)) <==> b.x1 <= x < b.x2 && b.y1 <= y < b.y2
            &&& channel(color, i) == (if c == 0 {
                color.0
            } else if c == 1 {
                color.1
            } else {
                color.2
            })
        }),
{
    let i = (y * 320 + x) * 3 + c;
    assert(i / 3 == y * 320 + x);
    assert(i % 3 == c);
}

} // verus!
