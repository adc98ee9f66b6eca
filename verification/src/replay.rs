//! Evaluation is reproducible: the same sequence under the same policy leads
//! to the same states and the same report, down to the last number.

use crate::acquisition::{
    associable, confirmation_is_unique, last_choice_is_unique, overlaps_more,
};
use crate::harness::{
    is_evaluation, is_run, is_run_tick, is_scenario_report, is_trace, shows, tick_time,
    SCENARIO_TICKS,
};
use crate::metrics::{is_score, same_report, scores_are_unique, Report};
use crate::seed::SeedBox;
use crate::session::may_advance;
use crate::simple_tracker::{
    accepted, best_position, found, gray_patch, sad_at, search_is_unique, searched, shifted,
    SimpleTracker, Target, SEARCH_POSITIONS,
};
use crate::stage::{
    answer_of_tick, batch_choice, may_answer, may_fold, may_seed, may_step, may_tick, needs_seed,
    nominated, nomination, Answer, Config, LockMemory, PendingLock, Stage,
};
use crate::synthetic::{batch_view, follows, Scenario, Sequence};
use crate::tracker::{FrameView, Tracker, TrackerError};
use crate::types::{BBox, Detection, TrackState};
use vstd::prelude::*;

verus! {

/// Two views show the same picture.
pub open spec fn same_picture(v: FrameView<'_>, w: FrameView<'_>) -> bool {
    &&& v.pixels@ == w.pixels@
    &&& v.width == w.width
    &&& v.height == w.height
    &&& v.channels == w.channels
}

/// Two stages cannot be told apart: same policy, same memory, and a tracker
/// that holds the same target.
pub open spec fn same_stage(a: Stage<SimpleTracker>, b: Stage<SimpleTracker>) -> bool {
    &&& a.frame() == b.frame()
    &&& a.config() == b.config()
    &&& a.memory() == b.memory()
    &&& a.backend().target() == b.backend().target()
}

/// The same picture has the same patches.
proof fn lemma_same_patch(v: FrameView<'_>, w: FrameView<'_>, b: BBox)
    requires
        same_picture(v, w),
    ensures
        gray_patch(v, b) == gray_patch(w, b),
{
    assert(gray_patch(v, b) =~= gray_patch(w, b));
}

/// Searching the same picture has the same outcome.
proof fn lemma_same_search(
    t: Target,
    v: FrameView<'_>,
    w: FrameView<'_>,
    r: Option<BBox>,
    s: Option<BBox>,
)
    requires
        same_picture(v, w),
        found(t, v, r),
        found(t, w, s),
    ensures
        r == s,
{
    assert forall|k: int| #[trigger] sad_at(t, v, k) == sad_at(t, w, k) by {
        lemma_same_patch(v, w, shifted(t.bbox, k));
    }
    assert forall|k: int| #[trigger] searched(t.bbox, w, k) == searched(t.bbox, v, k) by {}
    if let Some(b) = s {
        let k = choose|k: int| #[trigger]
            best_position(t, w, k) && accepted(t, w, k) && b == shifted(t.bbox, k);
        assert(searched(t.bbox, v, k));
        assert forall|j: int|
            j < SEARCH_POSITIONS && #[trigger] searched(t.bbox, v, j) implies sad_at(t, v, k)
            <= sad_at(t, v, j) && (j < k ==> sad_at(t, v, k) < sad_at(t, v, j)) by {
            assert(searched(t.bbox, w, j));
            assert(sad_at(t, v, j) == sad_at(t, w, j));
        }
        assert(sad_at(t, v, k) == sad_at(t, w, k));
        assert(best_position(t, v, k));
        assert(accepted(t, v, k));
        assert(found(t, v, s));
    } else {
        assert forall|k: int| #[trigger] searched(t.bbox, v, k) implies !accepted(t, v, k) by {
            assert(searched(t.bbox, w, k));
            assert(sad_at(t, v, k) == sad_at(t, w, k));
        }
        assert(found(t, v, s));
    }
    search_is_unique(t, v, r, s);
}

/// Stepping equal trackers to the same picture has the same outcome.
proof fn lemma_same_step(
    a: SimpleTracker,
    b: SimpleTracker,
    v: FrameView<'_>,
    w: FrameView<'_>,
    a_post: SimpleTracker,
    b_post: SimpleTracker,
    a_answer: Answer,
    b_answer: Answer,
)
    requires
        a.target() == b.target(),
        same_picture(v, w),
        may_step(a, v, a_post, a_answer),
        may_step(b, w, b_post, b_answer),
    ensures
        a_answer == b_answer,
        a_post.target() == b_post.target(),
{
    let r = choose|r: Result<Option<BBox>, TrackerError>| #[trigger]
        a.may_update(v, &a_post, r) && a_post.active() == a.active() && a_answer == (match r {
            Ok(Some(b)) => Answer::Found(b),
            Ok(None) => Answer::Missing,
            Err(_) => Answer::Failed,
        });
    let s = choose|s: Result<Option<BBox>, TrackerError>| #[trigger]
        b.may_update(w, &b_post, s) && b_post.active() == b.active() && b_answer == (match s {
            Ok(Some(b)) => Answer::Found(b),
            Ok(None) => Answer::Missing,
            Err(_) => Answer::Failed,
        });
    if a.target() is Some {
        lemma_same_search(a.target()->0, v, w, r->Ok_0, s->Ok_0);
    }
}

/// Seeding trackers on the same picture has the same outcome.
proof fn lemma_same_seed(
    a: SimpleTracker,
    b: SimpleTracker,
    v: FrameView<'_>,
    w: FrameView<'_>,
    bbox: BBox,
    a_post: SimpleTracker,
    b_post: SimpleTracker,
    a_answer: Answer,
    b_answer: Answer,
)
    requires
        same_picture(v, w),
        may_seed(a, v, bbox, a_post, a_answer),
        may_seed(b, w, bbox, b_post, b_answer),
    ensures
        a_answer == b_answer,
        a_post.target() == b_post.target(),
{
    lemma_same_patch(v, w, bbox);
    let (x, r) = choose|x: SeedBox, r: Result<(), TrackerError>| #[trigger]
        a.may_reinit(v, x, &a_post, r) && x.bbox() == bbox && (match r {
            Ok(_) => a_answer == Answer::Seeded && a_post.active(),
            Err(_) => a_answer == Answer::Refused,
        });
    let (y, s) = choose|y: SeedBox, s: Result<(), TrackerError>| #[trigger]
        b.may_reinit(w, y, &b_post, s) && y.bbox() == bbox && (match s {
            Ok(_) => b_answer == Answer::Seeded && b_post.active(),
            Err(_) => b_answer == Answer::Refused,
        });
    assert(a_post.target() == Some(Target { gray: gray_patch(v, bbox), bbox }));
    assert(b_post.target() == Some(Target { gray: gray_patch(w, bbox), bbox }));
}

/// Equal trackers answer a tick on the same picture alike.
proof fn lemma_same_answer(
    a: SimpleTracker,
    b: SimpleTracker,
    v: FrameView<'_>,
    w: FrameView<'_>,
    pending: Option<PendingLock>,
    seed_anew: bool,
    a_post: SimpleTracker,
    b_post: SimpleTracker,
    a_answer: Answer,
    b_answer: Answer,
)
    requires
        a.target() == b.target(),
        same_picture(v, w),
        may_answer(a, v, pending, seed_anew, a_post, a_answer),
        may_answer(b, w, pending, seed_anew, b_post, b_answer),
    ensures
        a_answer == b_answer,
        a_post.target() == b_post.target(),
{
    match pending {
        None => {
            if a.active() {
                lemma_same_step(a, b, v, w, a_post, b_post, a_answer, b_answer);
            }
        },
        Some(p) => {
            if seed_anew {
                lemma_same_seed(a, b, v, w, p.bbox, a_post, b_post, a_answer, b_answer);
            } else {
                let (a_mid, a_step) = lemma_stepped(a, v, p.bbox, a_post, a_answer);
                let (b_mid, b_step) = lemma_stepped(b, w, p.bbox, b_post, b_answer);
                lemma_same_step(a, b, v, w, a_mid, b_mid, a_step, b_step);
                if !(a_step is Found) {
                    lemma_same_seed(a_mid, b_mid, v, w, p.bbox, a_post, b_post, a_answer, b_answer);
                }
            }
        },
    }
}

/// A refresh steps the tracker first, and seeds it when that misses.
proof fn lemma_stepped(
    a: SimpleTracker,
    v: FrameView<'_>,
    bbox: BBox,
    post: SimpleTracker,
    answer: Answer,
) -> (r: (SimpleTracker, Answer))
    requires
        (answer is Found && may_step(a, v, post, answer)) || exists|
            mid: SimpleTracker,
            missed: Answer,
        | #[trigger]
            may_step(a, v, mid, missed) && !(missed is Found) && may_seed(
                mid,
                v,
                bbox,
                post,
                answer,
            ),
    ensures
        may_step(a, v, r.0, r.1),
        r.1 is Found ==> r == (post, answer),
        !(r.1 is Found) ==> may_seed(r.0, v, bbox, post, answer),
{
    if answer is Found && may_step(a, v, post, answer) {
        (post, answer)
    } else {
        choose|mid: SimpleTracker, missed: Answer| #[trigger]
            may_step(a, v, mid, missed) && !(missed is Found) && may_seed(
                mid,
                v,
                bbox,
                post,
                answer,
            )
    }
}

/// Equal stages tick alike on the same picture.
proof fn lemma_same_tick(
    a: Stage<SimpleTracker>,
    b: Stage<SimpleTracker>,
    v: FrameView<'_>,
    w: FrameView<'_>,
    now_ns: i64,
    pending: Option<PendingLock>,
    force_reinit: bool,
    a_post: Stage<SimpleTracker>,
    b_post: Stage<SimpleTracker>,
    a_state: TrackState,
    b_state: TrackState,
)
    requires
        same_stage(a, b),
        same_picture(v, w),
        may_tick(a, v, now_ns, pending, force_reinit, a_post, a_state),
        may_tick(b, w, now_ns, pending, force_reinit, b_post, b_state),
    ensures
        same_stage(a_post, b_post),
        a_state == b_state,
{
    let (a_mid, a_answer) = answer_of_tick(a, v, now_ns, pending, force_reinit, a_post, a_state);
    let (b_mid, b_answer) = answer_of_tick(b, w, now_ns, pending, force_reinit, b_post, b_state);
    lemma_same_answer(
        a.backend(),
        b.backend(),
        v,
        w,
        nominated(pending, a.frame()),
        needs_seed(a.backend().active(), a.memory(), force_reinit),
        a_mid,
        b_mid,
        a_answer,
        b_answer,
    );
}

/// Equal stages fold in a batch alike.
proof fn lemma_same_fold(
    a: Stage<SimpleTracker>,
    b: Stage<SimpleTracker>,
    dets: Seq<Detection>,
    a_post: Stage<SimpleTracker>,
    b_post: Stage<SimpleTracker>,
    a_pending: Option<PendingLock>,
    b_pending: Option<PendingLock>,
)
    requires
        same_stage(a, b),
        may_fold(a, dets, a_post, a_pending),
        may_fold(b, dets, b_post, b_pending),
    ensures
        same_stage(a_post, b_post),
        a_pending == b_pending,
{
    let (m, frame, config) = (a.memory(), a.frame(), a.config());
    let active = a.backend().active();
    let (c, n) = choose|c: Option<Detection>, n: Option<Detection>| #[trigger]
        batch_choice(active, m, frame, config, dets, c, n) && a_pending == nomination(c)
            && a_post.memory() == (LockMemory { acquire_candidate: n, ..m });
    let (d, o) = choose|d: Option<Detection>, o: Option<Detection>| #[trigger]
        batch_choice(b.backend().active(), m, frame, config, dets, d, o) && b_pending
            == nomination(d) && b_post.memory() == (LockMemory { acquire_candidate: o, ..m });
    if !active {
        confirmation_is_unique(
            m.acquire_candidate,
            dets,
            frame.width as int,
            frame.height as int,
            config.min_conf,
            config.gate_px,
            c,
            n,
            d,
            o,
        );
    } else if m.current_box is Some {
        let cur = m.current_box->0;
        last_choice_is_unique(
            dets,
            associable(cur, config.min_conf, config.iou_threshold),
            overlaps_more(cur),
            c,
            d,
        );
    }
}

/// A session has one way to take a step: equal stages that are given the
/// same picture, detector output and time report the same state and are
/// equal again.
pub proof fn steps_are_reproducible(
    a: Stage<SimpleTracker>,
    b: Stage<SimpleTracker>,
    v: FrameView<'_>,
    w: FrameView<'_>,
    detections: Option<Seq<Detection>>,
    now_ns: i64,
    a_post: Stage<SimpleTracker>,
    b_post: Stage<SimpleTracker>,
    a_state: TrackState,
    b_state: TrackState,
)
    requires
        same_stage(a, b),
        same_picture(v, w),
        may_advance(a, v, detections, now_ns, a_post, a_state),
        may_advance(b, w, detections, now_ns, b_post, b_state),
    ensures
        same_stage(a_post, b_post),
        a_state == b_state,
{
    if detections is Some {
        let dets = detections->0;
        let (a_mid, a_pending) = choose|
            mid: Stage<SimpleTracker>,
            pending: Option<PendingLock>,
        | #[trigger]
            may_fold(a, dets, mid, pending) && may_tick(
                mid,
                v,
                now_ns,
                pending,
                false,
                a_post,
                a_state,
            );
        let (b_mid, b_pending) = choose|
            mid: Stage<SimpleTracker>,
            pending: Option<PendingLock>,
        | #[trigger]
            may_fold(b, dets, mid, pending) && may_tick(
                mid,
                w,
                now_ns,
                pending,
                false,
                b_post,
                b_state,
            );
        lemma_same_fold(a, b, dets, a_mid, b_mid, a_pending, b_pending);
        lemma_same_tick(
            a_mid,
            b_mid,
            v,
            w,
            now_ns,
            a_pending,
            false,
            a_post,
            b_post,
            a_state,
            b_state,
        );
    } else {
        lemma_same_tick(a, b, v, w, now_ns, None, false, a_post, b_post, a_state, b_state);
    }
}

/// Two sequences show the same pictures and have the same detector output.
pub open spec fn same_footage(p: Sequence, q: Sequence) -> bool {
    &&& p.width == q.width
    &&& p.height == q.height
    &&& p.ticks() == q.ticks()
    &&& forall|t: int|
        #![trigger p.frames@[t]]
        #![trigger q.frames@[t]]
        0 <= t < p.ticks() ==> p.frames@[t]@ == q.frames@[t]@
    &&& forall|t: int|
        #![trigger p.detections@[t]]
        #![trigger q.detections@[t]]
        0 <= t < p.ticks() ==> batch_view(p.detections@[t]) == batch_view(q.detections@[t])
}

/// Two sequences also have the same label and ground truth.
pub open spec fn same_sequence(p: Sequence, q: Sequence) -> bool {
    &&& same_footage(p, q)
    &&& p.name@ == q.name@
    &&& p.target_gt@ == q.target_gt@
    &&& p.distractor_gt@ == q.distractor_gt@
}

/// Two traces of the same footage agree on the first `k` ticks.
proof fn lemma_same_trace(
    p: Sequence,
    q: Sequence,
    config: Config,
    a_stages: Seq<Stage<SimpleTracker>>,
    b_stages: Seq<Stage<SimpleTracker>>,
    a: Seq<TrackState>,
    b: Seq<TrackState>,
    k: int,
)
    requires
        same_footage(p, q),
        is_trace(p, config, a_stages, a, p.ticks() as int),
        is_trace(q, config, b_stages, b, q.ticks() as int),
        0 <= k <= p.ticks(),
    ensures
        same_stage(a_stages[k], b_stages[k]),
        forall|t: int| 0 <= t < k ==> a[t] == b[t],
    decreases k,
{
    if k > 0 {
        let t = k - 1;
        lemma_same_trace(p, q, config, a_stages, b_stages, a, b, t);
        assert(is_run_tick(p, a_stages, a, t));
        assert(is_run_tick(q, b_stages, b, t));
        let v = choose|v: FrameView<'_>| #[trigger]
            shows(v, p, t) && may_advance(
                a_stages[t],
                v,
                batch_view(p.detections@[t]),
                tick_time(t) as i64,
                a_stages[t + 1],
                a[t],
            );
        let w = choose|w: FrameView<'_>| #[trigger]
            shows(w, q, t) && may_advance(
                b_stages[t],
                w,
                batch_view(q.detections@[t]),
                tick_time(t) as i64,
                b_stages[t + 1],
                b[t],
            );
        assert(p.frames@[t]@ == q.frames@[t]@);
        assert(batch_view(p.detections@[t]) == batch_view(q.detections@[t]));
        steps_are_reproducible(
            a_stages[t],
            b_stages[t],
            v,
            w,
            batch_view(p.detections@[t]),
            tick_time(t) as i64,
            a_stages[t + 1],
            b_stages[t + 1],
            a[t],
            b[t],
        );
    }
}

/// Runs are reproducible: the same footage under the same policy leads to
/// the same states.
pub proof fn runs_are_reproducible(
    p: Sequence,
    q: Sequence,
    config: Config,
    a: Seq<TrackState>,
    b: Seq<TrackState>,
)
    requires
        same_footage(p, q),
        is_run(p, config, a),
        is_run(q, config, b),
    ensures
        a == b,
{
    let n = p.ticks() as int;
    let x = choose|x: Seq<Stage<SimpleTracker>>| #[trigger] is_trace(p, config, x, a, n);
    let y = choose|y: Seq<Stage<SimpleTracker>>| #[trigger] is_trace(q, config, y, b, n);
    lemma_same_trace(p, q, config, x, y, a, b, n);
    assert(a =~= b);
}

/// Evaluations are reproducible: the same sequence under the same policy
/// leads to the same report.
pub proof fn evaluations_are_reproducible(
    p: Sequence,
    q: Sequence,
    config: Config,
    a: Report,
    b: Report,
)
    requires
        same_sequence(p, q),
        is_evaluation(p, config, a),
        is_evaluation(q, config, b),
    ensures
        same_report(a, b),
{
    let x = choose|x: Seq<TrackState>| #[trigger] is_run(p, config, x) && is_score(a, p, x);
    let y = choose|y: Seq<TrackState>| #[trigger] is_run(q, config, y) && is_score(b, q, y);
    runs_are_reproducible(p, q, config, x, y);
    scores_are_unique(a, b, p, q, x);
}

/// A scenario has one sequence per length and seed.
pub proof fn generation_is_reproducible(p: Sequence, q: Sequence, s: Scenario, n: int, seed: u64)
    requires
        follows(p, s, n, seed, n),
        follows(q, s, n, seed, n),
    ensures
        same_sequence(p, q),
{
    assert(p.target_gt@ =~= q.target_gt@);
    assert(p.distractor_gt@ =~= q.distractor_gt@);
}

/// The reports on the scenarios are deterministic: under one policy, a
/// scenario with a fixed seed always leads to the same numbers.
pub proof fn scenario_reports_are_reproducible(
    s: Scenario,
    seed: u64,
    config: Config,
    a: Report,
    b: Report,
)
    requires
        is_scenario_report(s, seed, config, a),
        is_scenario_report(s, seed, config, b),
    ensures
        same_report(a, b),
{
    let n = SCENARIO_TICKS as int;
    let p = choose|p: Sequence| #[trigger]
        follows(p, s, n, seed, n) && is_evaluation(p, config, a);
    let q = choose|q: Sequence| #[trigger]
        follows(q, s, n, seed, n) && is_evaluation(q, config, b);
    generation_is_reproducible(p, q, s, n, seed);
    evaluations_are_reproducible(p, q, config, a, b);
}

} // verus!
