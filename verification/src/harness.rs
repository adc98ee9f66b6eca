//! The evaluation harness: running a sequence through a session, scoring the
//! run, and reading the command line of the evaluation program.

use crate::metrics::{is_score, score, Report};
use crate::seed::FrameDims;
use crate::session::{
    may_advance, steps_keep_a_stage_consistent, the_first_step_is_idle, TrackingSession,
};
use crate::simple_tracker::SimpleTracker;
use crate::stage::{is_consistent, Config, LockMemory, Stage};
use crate::synthetic::{
    batch_view, distractor_crossing, follows, occlusion_and_sparse_detections, straight_line,
    Scenario, Sequence,
};
use crate::text::{chars_of, push_text};
use crate::tracker::FrameView;
use crate::types::{smaller, Detection, TrackState};
use vstd::prelude::*;

verus! {

/// The frame rate of every sequence, per second.
pub const FRAMES_PER_SECOND: u128 = 15;

/// One second in nanoseconds.
pub const SECOND_NS: u128 = 1_000_000_000;

/// The time of tick `t` in nanoseconds, at most the largest `i64`.
pub open spec fn tick_time(t: int) -> int {
    smaller(t * SECOND_NS / (FRAMES_PER_SECOND as int), i64::MAX as int)
}

/// The view shows the frame of tick `t`.
pub open spec fn shows(v: FrameView<'_>, seq: Sequence, t: int) -> bool {
    &&& v.pixels@ == seq.frames@[t]@
    &&& v.width == seq.width
    &&& v.height == seq.height
    &&& v.channels == 3
}

/// The stage of a new session on this sequence.
pub open spec fn is_initial(s: Stage<SimpleTracker>, seq: Sequence, config: Config) -> bool {
    &&& s.backend().target() is None
    &&& s.frame() == (FrameDims { width: seq.width as i64, height: seq.height as i64 })
    &&& s.config() == config
    &&& s.memory() == LockMemory::blank()
}

/// Tick `t` of a run: the frame and the detector output of that tick are
/// stepped through.
pub open spec fn is_run_tick(
    seq: Sequence,
    stages: Seq<Stage<SimpleTracker>>,
    states: Seq<TrackState>,
    t: int,
) -> bool {
    exists|v: FrameView<'_>| #[trigger]
        shows(v, seq, t) && may_advance(
            stages[t],
            v,
            batch_view(seq.detections@[t]),
            tick_time(t) as i64,
            stages[t + 1],
            states[t],
        )
}

/// The stages lead from a new session through the first `n` ticks.
pub open spec fn is_trace(
    seq: Sequence,
    config: Config,
    stages: Seq<Stage<SimpleTracker>>,
    states: Seq<TrackState>,
    n: int,
) -> bool {
    &&& states.len() == n
    &&& stages.len() == n + 1
    &&& is_initial(stages[0], seq, config)
    &&& forall|t: int| 0 <= t < n ==> #[trigger] is_run_tick(seq, stages, states, t)
}

/// The states are those of a run of the whole sequence.
pub open spec fn is_run(seq: Sequence, config: Config, states: Seq<TrackState>) -> bool {
    exists|stages: Seq<Stage<SimpleTracker>>| #[trigger]
        is_trace(seq, config, stages, states, seq.ticks() as int)
}

/// The time of tick `t`.
fn time_of(t: usize) -> (r: i64)
    ensures
        r == tick_time(t as int),
{
    assert(t * SECOND_NS <= 0xFFFF_FFFF_FFFF_FFFF * 1_000_000_000) by (nonlinear_arith)
        requires
            0 <= t <= 0xFFFF_FFFF_FFFF_FFFF,
            SECOND_NS == 1_000_000_000,
    ;
    let ns: u128 = (t as u128) * SECOND_NS / FRAMES_PER_SECOND;
    if ns <= i64::MAX as u128 {
        ns as i64
    } else {
        i64::MAX
    }
}

/// Runs a sequence through a fresh session and returns the state of every
/// tick.
pub fn run(seq: &Sequence, config: Config) -> (r: Vec<TrackState>)
    requires
        seq.buffers_fit(),
        seq.detections@.len() >= seq.ticks(),
    ensures
        is_run(*seq, config, r@),
{
    let mut session: TrackingSession<SimpleTracker> = TrackingSession::new(
        SimpleTracker::new(),
        seq.width as i64,
        seq.height as i64,
        config,
    );
    let ghost mut stages: Seq<Stage<SimpleTracker>> = seq![session.stage()];
    let mut out: Vec<TrackState> = Vec::new();
    let mut t: usize = 0;
    while t < seq.len()
        invariant
            t <= seq.ticks(),
            seq.buffers_fit(),
            seq.detections@.len() >= seq.ticks(),
            is_trace(*seq, config, stages, out@, t as int),
            stages.last() == session.stage(),
        decreases seq.ticks() - t,
    {
        let view: FrameView<'_> = seq.frame_view(t);
        let dets: Option<&[Detection]> = match &seq.detections[t] {
            Some(batch) => Some(batch.as_slice()),
            None => None,
        };
        let ghost before = stages;
        let ghost reported = out@;
        let state: TrackState = session.step(view, dets, time_of(t));
        out.push(state);
        proof {
            stages = stages.push(session.stage());
            assert(shows(view, *seq, t as int));
            assert(is_run_tick(*seq, stages, out@, t as int));
            assert forall|j: int| 0 <= j < t + 1 implies #[trigger] is_run_tick(
                *seq,
                stages,
                out@,
                j,
            ) by {
                if j < t {
                    assert(is_run_tick(*seq, before, reported, j));
                    assert(stages[j] == before[j] && stages[j + 1] == before[j + 1]);
                    assert(out@[j] == reported[j]);
                }
            }
        }
        t += 1;
    }
    out
}

/// What a stage holds after a tick is what the tick reported.
spec fn holds_report(s: Stage<SimpleTracker>, state: TrackState) -> bool {
    match state {
        TrackState::Idle => s.memory().held is None,
        TrackState::Locked(h) => s.memory().held == Some(h),
        TrackState::Lost(h) => s.memory().held == Some(h),
    }
}

/// Every stage of a run is consistent, and holds the last report.
proof fn lemma_run_holds_reports(
    seq: Sequence,
    config: Config,
    stages: Seq<Stage<SimpleTracker>>,
    states: Seq<TrackState>,
    n: int,
    k: int,
)
    requires
        is_trace(seq, config, stages, states, n),
        0 <= k <= n,
    ensures
        is_consistent(stages[k]),
        k == 0 ==> stages[k].memory().held is None,
        k > 0 ==> holds_report(stages[k], states[k - 1]),
    decreases k,
{
    if k > 0 {
        let t = k - 1;
        lemma_run_holds_reports(seq, config, stages, states, n, t);
        assert(is_run_tick(seq, stages, states, t));
        let v = choose|v: FrameView<'_>| #[trigger]
            shows(v, seq, t) && may_advance(
                stages[t],
                v,
                batch_view(seq.detections@[t]),
                tick_time(t) as i64,
                stages[t + 1],
                states[t],
            );
        steps_keep_a_stage_consistent(
            stages[t],
            v,
            batch_view(seq.detections@[t]),
            tick_time(t) as i64,
            stages[t + 1],
            states[t],
        );
    }
}

/// A run never makes up a box: a loss carries the box of the tick before it,
/// which was a lock or a loss on that very box.
pub proof fn a_run_never_makes_up_a_box(
    seq: Sequence,
    config: Config,
    states: Seq<TrackState>,
    t: int,
)
    requires
        is_run(seq, config, states),
        0 <= t < states.len(),
        states[t] is Lost,
    ensures
        t > 0,
        states[t - 1] == TrackState::Locked(states[t]->Lost_0) || states[t - 1] == states[t],
{
    let n = seq.ticks() as int;
    let stages = choose|stages: Seq<Stage<SimpleTracker>>| #[trigger]
        is_trace(seq, config, stages, states, n);
    lemma_run_holds_reports(seq, config, stages, states, n, t);
    assert(is_run_tick(seq, stages, states, t));
    let v = choose|v: FrameView<'_>| #[trigger]
        shows(v, seq, t) && may_advance(
            stages[t],
            v,
            batch_view(seq.detections@[t]),
            tick_time(t) as i64,
            stages[t + 1],
            states[t],
        );
    steps_keep_a_stage_consistent(
        stages[t],
        v,
        batch_view(seq.detections@[t]),
        tick_time(t) as i64,
        stages[t + 1],
        states[t],
    );
}

/// A run starts out idle: one batch alone never locks.
pub proof fn a_run_starts_idle(seq: Sequence, config: Config, states: Seq<TrackState>)
    requires
        is_run(seq, config, states),
        states.len() > 0,
    ensures
        states[0] is Idle,
{
    let n = seq.ticks() as int;
    let stages = choose|stages: Seq<Stage<SimpleTracker>>| #[trigger]
        is_trace(seq, config, stages, states, n);
    assert(is_run_tick(seq, stages, states, 0));
    let v = choose|v: FrameView<'_>| #[trigger]
        shows(v, seq, 0) && may_advance(
            stages[0],
            v,
            batch_view(seq.detections@[0]),
            tick_time(0) as i64,
            stages[1],
            states[0],
        );
    the_first_step_is_idle(
        stages[0],
        v,
        batch_view(seq.detections@[0]),
        tick_time(0) as i64,
        stages[1],
        states[0],
    );
}

/// The report is that of a run of the sequence.
pub open spec fn is_evaluation(seq: Sequence, config: Config, r: Report) -> bool {
    exists|states: Seq<TrackState>| #[trigger]
        is_run(seq, config, states) && is_score(r, seq, states)
}

/// Runs a sequence and scores the run.
pub fn evaluate(seq: &Sequence, config: Config) -> (r: Report)
    requires
        seq.wf(),
    ensures
        is_evaluation(*seq, config, r),
{
    let states: Vec<TrackState> = run(seq, config);
    score(seq, states.as_slice())
}

/// The number of ticks of each synthetic scenario.
pub const SCENARIO_TICKS: usize = 90;

/// The report is that of a scenario with this seed and this policy.
pub open spec fn is_scenario_report(s: Scenario, seed: u64, config: Config, r: Report) -> bool {
    exists|seq: Sequence| #[trigger]
        follows(seq, s, SCENARIO_TICKS as int, seed, SCENARIO_TICKS as int) && is_evaluation(
            seq,
            config,
            r,
        )
}

/// Runs the three synthetic scenarios, each with its own fixed seed.
pub fn run_synthetic(config: Config) -> (r: Vec<Report>)
    ensures
        r@.len() == 3,
        is_scenario_report(Scenario::StraightLine, 1, config, r@[0]),
        is_scenario_report(Scenario::OcclusionAndSparseDetections, 2, config, r@[1]),
        is_scenario_report(Scenario::DistractorCrossing, 3, config, r@[2]),
{
    let mut out: Vec<Report> = Vec::new();
    out.push(evaluate(&straight_line(SCENARIO_TICKS, 1), config));
    out.push(evaluate(&occlusion_and_sparse_detections(SCENARIO_TICKS, 2), config));
    out.push(evaluate(&distractor_crossing(SCENARIO_TICKS, 3), config));
    out
}

/// Whether every report is acceptable.
pub fn all_acceptable(reports: &Vec<Report>) -> (r: bool)
    ensures
        r == (forall|i: int|
            0 <= i < reports@.len() ==> {
                let one = #[trigger] reports@[i];
                one.visible_ticks == 0 || 2 * one.success_ticks >= one.visible_ticks
            }),
{
    let mut i: usize = 0;
    while i < reports.len()
        invariant
            i <= reports@.len(),
            forall|j: int|
                0 <= j < i ==> {
                    let one = #[trigger] reports@[j];
                    one.visible_ticks == 0 || 2 * one.success_ticks >= one.visible_ticks
                },
        decreases reports@.len() - i,
    {
        if !reports[i].is_acceptable() {
            return false;
        }
        i += 1;
    }
    true
}

/// The arguments of the `real` mode.
#[derive(Debug, Clone, PartialEq, Eq)]
pub struct RealArgs {
    /// The directory of the frames.
    pub frames: String,
    /// The ground-truth file.
    pub gt: Option<String>,
    /// The video to extract frames from first.
    pub video: Option<String>,
}

/// What was read of the arguments so far.
pub struct ArgsView {
    pub frames: Option<Seq<char>>,
    pub gt: Option<Seq<char>>,
    pub video: Option<Seq<char>>,
}

/// A text, if there is one, as a value.
pub open spec fn text_view(s: Option<String>) -> Option<Seq<char>> {
    match s {
        Some(t) => Some(t@),
        None => None,
    }
}

/// The texts of a list of arguments.
pub open spec fn arg_texts(args: Seq<String>) -> Seq<Seq<char>> {
    Seq::new(args.len(), |i: int| args[i]@)
}

/// Reads the arguments from position `i` on. Each option takes the argument
/// after it, and a later one replaces an earlier one.
pub open spec fn read_args(args: Seq<Seq<char>>, i: int, got: ArgsView) -> Result<
    ArgsView,
    Seq<char>,
>
    decreases args.len() - i,
{
    if i >= args.len() {
        if got.frames is Some {
            Ok(got)
        } else {
            Err("real mode needs --frames <dir>"@)
        }
    } else if args[i] == "--frames"@ {
        if i + 1 < args.len() {
            read_args(args, i + 2, ArgsView { frames: Some(args[i + 1]), ..got })
        } else {
            Err("--frames needs a value"@)
        }
    } else if args[i] == "--gt"@ {
        if i + 1 < args.len() {
            read_args(args, i + 2, ArgsView { gt: Some(args[i + 1]), ..got })
        } else {
            Err("--gt needs a value"@)
        }
    } else if args[i] == "--video"@ {
        if i + 1 < args.len() {
            read_args(args, i + 2, ArgsView { video: Some(args[i + 1]), ..got })
        } else {
            Err("--video needs a value"@)
        }
    } else {
        Err("unrecognised argument: "@ + args[i])
    }
}

/// What the arguments say, or what is wrong with them.
pub open spec fn real_args(args: Seq<Seq<char>>) -> Result<ArgsView, Seq<char>> {
    read_args(args, 0, ArgsView { frames: None, gt: None, video: None })
}

/// Whether two texts are the same.
fn same_text(a: &str, b: &str) -> (r: bool)
    ensures
        r == (a@ == b@),
{
    let (x, y): (Vec<char>, Vec<char>) = (chars_of(a), chars_of(b));
    if x.len() != y.len() {
        return false;
    }
    let mut i: usize = 0;
    while i < x.len()
        invariant
            i <= x@.len(),
            x@.len() == y@.len(),
            x@ == a@,
            y@ == b@,
            forall|j: int| 0 <= j < i ==> a@[j] == b@[j],
        decreases x@.len() - i,
    {
        if x[i] != y[i] {
            return false;
        }
        i += 1;
    }
    assert(a@ == b@);
    true
}

/// A copy of a text.
fn copy_text(s: &str) -> (r: String)
    ensures
        r@ == s@,
{
    let mut out = String::new();
    push_text(&mut out, s);
    out
}

/// Reads the arguments of the `real` mode.
pub fn parse_real_args(args: &[String]) -> (r: Result<RealArgs, String>)
    ensures
        (match r {
            Ok(a) => Ok(
                ArgsView {
                    frames: Some(a.frames@),
                    gt: text_view(a.gt),
                    video: text_view(a.video),
                },
            ),
            Err(e) => Err(e@),
        }) == real_args(arg_texts(args@)),
{
    let ghost all = arg_texts(args@);
    let mut frames: Option<String> = None;
    let mut gt: Option<String> = None;
    let mut video: Option<String> = None;
    let mut i: usize = 0;
    while i < args.len()
        invariant
            i <= args@.len(),
            all == arg_texts(args@),
            read_args(
                all,
                i as int,
                ArgsView {
                    frames: text_view(frames),
                    gt: text_view(gt),
                    video: text_view(video),
                },
            ) == real_args(all),
        decreases args@.len() - i,
    {
        let arg: &str = args[i].as_str();
        assert(all[i as int] == arg@);
        let is_frames: bool = same_text(arg, "--frames");
        let is_gt: bool = same_text(arg, "--gt");
        let is_video: bool = same_text(arg, "--video");
        if !is_frames && !is_gt && !is_video {
            let mut out = String::new();
            push_text(&mut out, "unrecognised argument: ");
            push_text(&mut out, arg);
            assert(out@ == "unrecognised argument: "@ + arg@);
            return Err(out);
        }
        if args.len() - i < 2 {
            return Err(
                copy_text(
                    if is_frames {
                        "--frames needs a value"
                    } else if is_gt {
                        "--gt needs a value"
                    } else {
                        "--video needs a value"
                    },
                ),
            );
        }
        assert(all[i + 1] == args@[i + 1]@);
        let value: String = copy_text(args[i + 1].as_str());
        if is_frames {
            frames = Some(value);
        } else if is_gt {
            gt = Some(value);
        } else {
            video = Some(value);
        }
        i += 2;
    }
    match frames {
        Some(f) => Ok(RealArgs { frames: f, gt, video }),
        None => Err(copy_text("real mode needs --frames <dir>")),
    }
}

/// What the program is asked to do.
#[derive(Debug, Clone, PartialEq, Eq)]
pub enum Command {
    /// Run the synthetic scenarios.
    Synthetic,
    /// Run a sequence of real frames.
    Real(RealArgs),
    /// The arguments of the `real` mode are wrong, for this reason.
    BadRealArgs(String),
    /// Neither.
    Unknown,
}

/// The command that the arguments of the program make: none at all for the
/// synthetic scenarios, or `real` and its own arguments.
pub open spec fn is_command(args: Seq<Seq<char>>, c: Command) -> bool {
    if args.len() == 0 {
        c is Synthetic
    } else if args[0] == "real"@ {
        match real_args(args.drop_first()) {
            Ok(a) => c is Real && c->Real_0.frames@ == a.frames->0 && text_view(c->Real_0.gt)
                == a.gt && text_view(c->Real_0.video) == a.video,
            Err(e) => c is BadRealArgs && c->BadRealArgs_0@ == e,
        }
    } else {
        c is Unknown
    }
}

/// Reads the arguments of the program.
pub fn parse_command(args: &[String]) -> (c: Command)
    ensures
        is_command(arg_texts(args@), c),
{
    if args.len() == 0 {
        return Command::Synthetic;
    }
    assert(arg_texts(args@)[0] == args@[0]@);
    if !same_text(args[0].as_str(), "real") {
        return Command::Unknown;
    }
    let rest: &[String] = vstd::slice::slice_subrange(args, 1, args.len());
    assert(arg_texts(rest@) == arg_texts(args@).drop_first());
    match parse_real_args(rest) {
        Ok(a) => Command::Real(a),
        Err(e) => Command::BadRealArgs(e),
    }
}

/// Ticks come fifteen to a second: the time of a tick is the whole number of
/// nanoseconds that have passed, as long as that is a number of 64 bits, and
/// the largest such number after that.
pub proof fn ticks_come_fifteen_to_a_second(t: int)
    requires
        0 <= t,
    ensures
        t <= 138_350_580_552 ==> 15 * tick_time(t) <= t * 1_000_000_000 < 15 * tick_time(t) + 15,
        t > 138_350_580_552 ==> tick_time(t) == i64::MAX,
        0 <= tick_time(t) <= i64::MAX,
        tick_time(0) == 0,
        tick_time(t) <= tick_time(t + 1),
{
}

/// A run, tick by tick: a new session on frames of the given size is stepped
/// through every frame in order, each as three bytes per pixel, with the
/// detector output of its own tick and at the time of its own tick, and the
/// states are what it reports.
pub proof fn a_run_steps_through_every_frame(
    seq: Sequence,
    config: Config,
    stages: Seq<Stage<SimpleTracker>>,
    states: Seq<TrackState>,
    n: int,
    t: int,
)
    requires
        is_trace(seq, config, stages, states, n),
        0 <= t < n,
    ensures
        states.len() == n,
        stages.len() == n + 1,
        stages[0].backend().target() is None,
        stages[0].frame().width == seq.width,
        stages[0].frame().height == seq.height,
        stages[0].config() == config,
        stages[0].memory() == LockMemory::blank(),
        exists|v: FrameView<'_>, batch: Option<Seq<Detection>>, now_ns: i64|
            {
                &&& v.pixels@ == seq.frames@[t]@
                &&& v.width == seq.width
                &&& v.height == seq.height
                &&& v.channels == 3
                &&& batch is Some <==> seq.detections@[t] is Some
                &&& batch is Some ==> batch->0 == seq.detections@[t]->0@
                &&& t <= 138_350_580_552 ==> 15 * now_ns <= t * 1_000_000_000 < 15 * now_ns + 15
                &&& #[trigger] may_advance(stages[t], v, batch, now_ns, stages[t + 1], states[t])
            },
{
    assert(is_run_tick(seq, stages, states, t));
    let v = choose|v: FrameView<'_>| #[trigger]
        shows(v, seq, t) && may_advance(
            stages[t],
            v,
            batch_view(seq.detections@[t]),
            tick_time(t) as i64,
            stages[t + 1],
            states[t],
        );
    ticks_come_fifteen_to_a_second(t);
    let batch = batch_view(seq.detections@[t]);
    let now_ns = tick_time(t) as i64;
    assert(may_advance(stages[t], v, batch, now_ns, stages[t + 1], states[t]));
}

/// A run reports on every frame of its sequence.
pub proof fn a_run_covers_every_frame(seq: Sequence, config: Config, states: Seq<TrackState>)
    requires
        is_run(seq, config, states),
    ensures
        states.len() == seq.frames@.len(),
        exists|stages: Seq<Stage<SimpleTracker>>| #[trigger]
            is_trace(seq, config, stages, states, seq.frames@.len() as int),
{
}

/// An evaluation reports on a run of the whole sequence, under its name. The
/// first tick of it is never a lock.
pub proof fn an_evaluation_reports_on_the_whole_run(seq: Sequence, config: Config, r: Report)
    requires
        is_evaluation(seq, config, r),
    ensures
        r.num_ticks == seq.frames@.len(),
        r.scenario@ == seq.name@,
        r.time_to_lock != Some(0usize),
        exists|states: Seq<TrackState>|
            #[trigger] is_run(seq, config, states) && is_score(r, seq, states),
{
    let states = choose|states: Seq<TrackState>| #[trigger]
        is_run(seq, config, states) && is_score(r, seq, states);
    a_run_covers_every_frame(seq, config, states);
    if r.time_to_lock == Some(0usize) {
        a_run_starts_idle(seq, config, states);
    }
}

/// A report on a scenario is an evaluation of its sequence of ninety ticks.
pub proof fn scenarios_last_ninety_ticks(s: Scenario, seed: u64, config: Config, r: Report)
    requires
        is_scenario_report(s, seed, config, r),
    ensures
        r.num_ticks == 90,
        exists|seq: Sequence| #[trigger]
            follows(seq, s, 90, seed, 90) && is_evaluation(seq, config, r),
{
    let seq = choose|seq: Sequence| #[trigger]
        follows(seq, s, SCENARIO_TICKS as int, seed, SCENARIO_TICKS as int) && is_evaluation(
            seq,
            config,
            r,
        );
    an_evaluation_reports_on_the_whole_run(seq, config, r);
    assert(follows(seq, s, 90, seed, 90));
}

/// The option at place `k`: every other argument is one.
pub open spec fn option_at(args: Seq<Seq<char>>, k: int) -> Seq<char> {
    args[2 * k]
}

/// An option that the `real` mode has.
pub open spec fn is_known_option(option: Seq<char>) -> bool {
    option == "--frames"@ || option == "--gt"@ || option == "--video"@
}

/// The value of an option is what stands behind its last mention from place
/// `p` on, or what it was before when it is not mentioned.
pub open spec fn is_last_value(
    args: Seq<Seq<char>>,
    p: int,
    option: Seq<char>,
    before: Option<Seq<char>>,
    value: Option<Seq<char>>,
) -> bool {
    &&& (forall|k: int| p <= k && 2 * k < args.len() ==> #[trigger] option_at(args, k) != option)
        ==> value == before
    &&& forall|k: int|
        p <= k && 2 * k < args.len() && #[trigger] option_at(args, k) == option && (forall|j: int|
            k < j && 2 * j < args.len() ==> #[trigger] option_at(args, j) != option) ==> value
            == Some(args[2 * k + 1])
}

/// The value of an option from one place on, and from the next.
proof fn lemma_last_value_step(
    args: Seq<Seq<char>>,
    p: int,
    option: Seq<char>,
    before: Option<Seq<char>>,
    next: Option<Seq<char>>,
    value: Option<Seq<char>>,
)
    requires
        0 <= p,
        2 * p < args.len(),
        is_last_value(args, p + 1, option, next, value),
        next == (if option_at(args, p) == option {
            Some(args[2 * p + 1])
        } else {
            before
        }),
    ensures
        is_last_value(args, p, option, before, value),
{
    if forall|k: int| p <= k && 2 * k < args.len() ==> #[trigger] option_at(args, k) != option {
        assert(option_at(args, p) != option);
        assert(value == before);
    }
    assert forall|k: int|
        p <= k && 2 * k < args.len() && #[trigger] option_at(args, k) == option && (forall|j: int|
            k < j && 2 * j < args.len() ==> #[trigger] option_at(args, j) != option) implies value
        == Some(args[2 * k + 1]) by {
        if k == p {
            assert(forall|j: int|
                p + 1 <= j && 2 * j < args.len() ==> #[trigger] option_at(args, j) != option);
        }
    }
}

/// What the arguments from place `p` on come to.
proof fn lemma_args_from(args: Seq<Seq<char>>, p: int, got: ArgsView)
    requires
        0 <= p,
        2 * p <= args.len(),
    ensures
        ({
            let r = read_args(args, 2 * p, got);
            let all_known = forall|k: int|
                p <= k && 2 * k < args.len() ==> is_known_option(#[trigger] option_at(args, k));
            let named = got.frames is Some || exists|k: int|
                p <= k && 2 * k < args.len() && #[trigger] option_at(args, k) == "--frames"@;
            &&& r is Ok <==> all_known && args.len() % 2 == 0 && named
            &&& all_known && args.len() % 2 == 0 && !named ==> r == Err::<ArgsView, Seq<char>>(
                "real mode needs --frames <dir>"@,
            )
            &&& all_known && args.len() % 2 == 1 ==> r == Err::<ArgsView, Seq<char>>(
                args[args.len() - 1] + " needs a value"@,
            )
            &&& forall|k: int|
                p <= k && 2 * k < args.len() && !is_known_option(#[trigger] option_at(args, k)) && (
                forall|j: int| p <= j < k ==> is_known_option(#[trigger] option_at(args, j)))
                    ==> r == Err::<ArgsView, Seq<char>>("unrecognised argument: "@ + args[2 * k])
            &&& r is Ok ==> is_last_value(args, p, "--frames"@, got.frames, r->Ok_0.frames)
                && is_last_value(args, p, "--gt"@, got.gt, r->Ok_0.gt) && is_last_value(
                args,
                p,
                "--video"@,
                got.video,
                r->Ok_0.video,
            )
        }),
    decreases args.len() - 2 * p,
{
    reveal_strlit("--frames");
    reveal_strlit("--gt");
    reveal_strlit("--video");
    reveal_strlit(" needs a value");
    reveal_strlit("--frames needs a value");
    reveal_strlit("--gt needs a value");
    reveal_strlit("--video needs a value");
    assert("--frames"@ + " needs a value"@ =~= "--frames needs a value"@);
    assert("--gt"@ + " needs a value"@ =~= "--gt needs a value"@);
    assert("--video"@ + " needs a value"@ =~= "--video needs a value"@);
    assert("--frames"@.len() == 8 && "--gt"@.len() == 4 && "--video"@.len() == 7);
    let i = 2 * p;
    let r = read_args(args, i, got);
    if i < args.len() {
        let option = option_at(args, p);
        assert(option == args[i]);
        if is_known_option(option) && i + 1 < args.len() {
            let value = args[i + 1];
            let next = if option == "--frames"@ {
                ArgsView { frames: Some(value), ..got }
            } else if option == "--gt"@ {
                ArgsView { gt: Some(value), ..got }
            } else {
                ArgsView { video: Some(value), ..got }
            };
            lemma_args_from(args, p + 1, next);
            assert(r == read_args(args, 2 * (p + 1), next));
            if r is Ok {
                let a = r->Ok_0;
                lemma_last_value_step(args, p, "--frames"@, got.frames, next.frames, a.frames);
                lemma_last_value_step(args, p, "--gt"@, got.gt, next.gt, a.gt);
                lemma_last_value_step(args, p, "--video"@, got.video, next.video, a.video);
            }
            if next.frames is Some && got.frames is None {
                assert(option_at(args, p) == "--frames"@);
            }
            if forall|k: int|
                p + 1 <= k && 2 * k < args.len() ==> is_known_option(#[trigger] option_at(args, k)) {
                assert forall|k: int| p <= k && 2 * k < args.len() implies is_known_option(
                    #[trigger] option_at(args, k),
                ) by {}
            }
        } else if is_known_option(option) {
            assert(i == args.len() - 1);
            assert(args.len() % 2 == 1);
        } else {
            assert(r == Err::<ArgsView, Seq<char>>("unrecognised argument: "@ + args[i]));
            assert forall|k: int|
                p <= k && 2 * k < args.len() && !is_known_option(#[trigger] option_at(args, k)) && (
                forall|j: int|
                    p <= j < k ==> is_known_option(#[trigger] option_at(args, j))) implies k
                == p by {
                if k > p {
                    assert(is_known_option(option_at(args, p)));
                }
            }
        }
    }
}

/// What the `real` mode is told. Every other argument is an option, each
/// followed by its value: the frames, which have to be there, the ground truth
/// and the video. The last mention of an option counts. The first argument in
/// the place of an option that is none is complained about, before an option
/// without a value, and that before frames that are not there.
pub proof fn what_the_real_mode_is_told(args: Seq<Seq<char>>)
    ensures
        ({
            let r = real_args(args);
            let all_known = forall|k: int|
                0 <= k && 2 * k < args.len() ==> (#[trigger] option_at(args, k) == "--frames"@
                    || option_at(args, k) == "--gt"@ || option_at(args, k) == "--video"@);
            let named = exists|k: int|
                0 <= k && 2 * k < args.len() && #[trigger] option_at(args, k) == "--frames"@;
            &&& r is Ok <==> all_known && args.len() % 2 == 0 && named
            &&& all_known && args.len() % 2 == 1 ==> r == Err::<ArgsView, Seq<char>>(
                args[args.len() - 1] + " needs a value"@,
            )
            &&& all_known && args.len() % 2 == 0 && !named ==> r == Err::<ArgsView, Seq<char>>(
                "real mode needs --frames <dir>"@,
            )
            &&& !all_known ==> exists|k: int|
                0 <= k && 2 * k < args.len() && !is_known_option(#[trigger] option_at(args, k))
                    && r == Err::<ArgsView, Seq<char>>("unrecognised argument: "@ + args[2 * k])
                    && forall|j: int|
                    0 <= j < k ==> is_known_option(#[trigger] option_at(args, j))
            &&& r is Ok ==> r->Ok_0.frames is Some && is_last_value(
                args,
                0,
                "--frames"@,
                None,
                r->Ok_0.frames,
            ) && is_last_value(args, 0, "--gt"@, None, r->Ok_0.gt) && is_last_value(
                args,
                0,
                "--video"@,
                None,
                r->Ok_0.video,
            )
        }),
{
    let got = ArgsView { frames: None, gt: None, video: None };
    lemma_args_from(args, 0, got);
    lemma_args_name_frames(args, 0, got);
    let all_known = forall|k: int|
        0 <= k && 2 * k < args.len() ==> is_known_option(#[trigger] option_at(args, k));
    if !all_known {
        let k = choose|k: int|
            0 <= k && 2 * k < args.len() && !is_known_option(#[trigger] option_at(args, k));
        let first = lemma_first_unknown(args, k);
        assert(!is_known_option(option_at(args, first)));
    }
}

/// Frames are there when the arguments are in order.
proof fn lemma_args_name_frames(args: Seq<Seq<char>>, i: int, got: ArgsView)
    ensures
        read_args(args, i, got) is Ok ==> read_args(args, i, got)->Ok_0.frames is Some,
    decreases args.len() - i,
{
    if i < args.len() && i + 1 < args.len() {
        let value = args[i + 1];
        lemma_args_name_frames(args, i + 2, ArgsView { frames: Some(value), ..got });
        lemma_args_name_frames(args, i + 2, ArgsView { gt: Some(value), ..got });
        lemma_args_name_frames(args, i + 2, ArgsView { video: Some(value), ..got });
    }
}

/// The first place up to `k` that holds no option.
proof fn lemma_first_unknown(args: Seq<Seq<char>>, k: int) -> (first: int)
    requires
        0 <= k,
        2 * k < args.len(),
        !is_known_option(option_at(args, k)),
    ensures
        0 <= first <= k,
        !is_known_option(option_at(args, first)),
        forall|j: int| 0 <= j < first ==> is_known_option(#[trigger] option_at(args, j)),
    decreases k,
{
    if forall|j: int| 0 <= j < k ==> is_known_option(#[trigger] option_at(args, j)) {
        k
    } else {
        let j = choose|j: int| 0 <= j < k && !is_known_option(#[trigger] option_at(args, j));
        lemma_first_unknown(args, j)
    }
}

/// What the program is asked to do: nothing at all is the synthetic scenarios,
/// `real` and arguments in order a sequence of real frames with just those
/// arguments, `real` and anything else a complaint, and the rest is unknown.
pub proof fn what_the_program_is_asked(args: Seq<Seq<char>>, c: Command)
    requires
        is_command(args, c),
    ensures
        c is Synthetic <==> args.len() == 0,
        c is Unknown <==> args.len() > 0 && args[0] != "real"@,
        c is Real <==> args.len() > 0 && args[0] == "real"@ && real_args(args.skip(1)) is Ok,
        c is BadRealArgs <==> args.len() > 0 && args[0] == "real"@ && real_args(args.skip(1)) is Err,
        c is Real ==> {
            let a = real_args(args.skip(1))->Ok_0;
            &&& a.frames == Some(c->Real_0.frames@)
            &&& a.gt is Some <==> c->Real_0.gt is Some
            &&& a.gt is Some ==> a.gt->0 == c->Real_0.gt->0@
            &&& a.video is Some <==> c->Real_0.video is Some
            &&& a.video is Some ==> a.video->0 == c->Real_0.video->0@
        },
        c is BadRealArgs ==> c->BadRealArgs_0@ == real_args(args.skip(1))->Err_0,
{
    if args.len() > 0 {
        assert(args.skip(1) =~= args.drop_first());
        what_the_real_mode_is_told(args.skip(1));
    }
}

} // verus!
