//! Scoring: what a run reported, held against the ground truth.

use crate::acquisition::{iou, iou_den, iou_num, overlaps_fit_in_128_bits, Iou};
use crate::ratio::Ratio;
use crate::synthetic::{GroundTruth, Sequence};
use crate::types::{BBox, TrackState};
use vstd::prelude::*;

verus! {

/// The scores of one run.
#[derive(Debug, Clone)]
pub struct Report {
    pub scenario: &'static str,
    pub num_ticks: usize,
    /// Ticks on which the target was visible.
    pub visible_ticks: usize,
    /// Visible ticks on which a box was reported that overlaps the target by
    /// at least one half. A `Lost` box counts too: it is the last real one.
    pub success_ticks: usize,
    /// The overlaps with the target on the visible ticks that were reported
    /// as `Locked`, in order. Their mean is the accuracy of the run.
    pub locked_ious: Vec<Iou>,
    /// The first tick that was reported as `Locked`.
    pub time_to_lock: Option<usize>,
    /// Ticks from the end of the first occlusion to the next `Locked`.
    pub reacquisition_ticks: Option<usize>,
    /// How often the reported box went over to the distractor. A run of
    /// ticks on the distractor counts once.
    pub id_switches: usize,
}

/// A lock was reported.
pub open spec fn is_lock(s: TrackState) -> bool {
    s is Locked
}

/// The box that was reported, if any.
pub open spec fn reported(s: TrackState) -> Option<BBox> {
    match s {
        TrackState::Locked(h) => Some(h.bbox),
        TrackState::Lost(h) => Some(h.bbox),
        TrackState::Idle => None,
    }
}

/// A box overlaps the target by at least one half.
pub open spec fn is_hit(b: BBox, target: BBox) -> bool {
    2 * iou_num(b, target) >= iou_den(b, target)
}

/// A tick counts as a success.
pub open spec fn is_success(gt: GroundTruth, s: TrackState) -> bool {
    gt.visible && reported(s) is Some && is_hit(reported(s)->0, gt.bbox)
}

/// The number of visible ticks among the first `n`.
pub open spec fn visible_count(gt: Seq<GroundTruth>, n: int) -> int
    decreases n,
{
    if n <= 0 {
        0
    } else {
        visible_count(gt, n - 1) + (if gt[n - 1].visible {
            1int
        } else {
            0
        })
    }
}

/// The number of successes among the first `n` ticks.
pub open spec fn success_count(gt: Seq<GroundTruth>, states: Seq<TrackState>, n: int) -> int
    decreases n,
{
    if n <= 0 {
        0
    } else {
        success_count(gt, states, n - 1) + (if is_success(gt[n - 1], states[n - 1]) {
            1int
        } else {
            0
        })
    }
}

/// The overlap of two boxes.
pub open spec fn overlap(a: BBox, b: BBox) -> Iou {
    Iou { shared: iou_num(a, b) as u128, covered: iou_den(a, b) as u128 }
}

/// The overlaps of the locked and visible ticks among the first `n`.
pub open spec fn locked_overlaps(gt: Seq<GroundTruth>, states: Seq<TrackState>, n: int) -> Seq<Iou>
    decreases n,
{
    if n <= 0 {
        Seq::empty()
    } else {
        let before = locked_overlaps(gt, states, n - 1);
        if gt[n - 1].visible && is_lock(states[n - 1]) {
            before.push(overlap(reported(states[n - 1])->0, gt[n - 1].bbox))
        } else {
            before
        }
    }
}

/// Tick `t` is the first lock at or after tick `from`.
pub open spec fn first_lock_from(states: Seq<TrackState>, from: int, t: int) -> bool {
    &&& from <= t < states.len()
    &&& is_lock(states[t])
    &&& forall|j: int| from <= j < t ==> !is_lock(#[trigger] states[j])
}

/// No lock was reported at or after tick `from`.
pub open spec fn no_lock_from(states: Seq<TrackState>, from: int) -> bool {
    forall|j: int| from <= j < states.len() ==> !is_lock(#[trigger] states[j])
}

/// The target is hidden at some tick before `t`.
pub open spec fn hidden_before(gt: Seq<GroundTruth>, t: int) -> bool {
    exists|j: int| 0 <= j < t && !(#[trigger] gt[j]).visible
}

/// The target is back at tick `t`, for the first time after it was hidden.
pub open spec fn reappears_at(gt: Seq<GroundTruth>, t: int) -> bool {
    &&& 0 <= t < gt.len()
    &&& gt[t].visible
    &&& hidden_before(gt, t)
    &&& forall|j: int| 0 <= j < t && (#[trigger] gt[j]).visible ==> !hidden_before(gt, j)
}

/// The target is never back after it was hidden.
pub open spec fn never_reappears(gt: Seq<GroundTruth>) -> bool {
    forall|j: int| 0 <= j < gt.len() && (#[trigger] gt[j]).visible ==> !hidden_before(gt, j)
}

/// The ticks from the end of the first occlusion to the next lock.
pub open spec fn reacquired(
    gt: Seq<GroundTruth>,
    states: Seq<TrackState>,
    r: Option<usize>,
) -> bool {
    match r {
        Some(k) => exists|e: int| #[trigger]
            reappears_at(gt, e) && first_lock_from(states, e, e + k),
        None => forall|e: int| #[trigger] reappears_at(gt, e) ==> no_lock_from(states, e),
    }
}

/// A box is on the distractor rather than on the target: it overlaps the
/// distractor more.
pub open spec fn is_on_distractor(b: BBox, distractor: BBox, target: BBox) -> bool {
    iou_num(b, distractor) * iou_den(b, target) > iou_num(b, target) * iou_den(b, distractor)
}

/// What the tick says about whether the report is on the distractor. It says
/// nothing without a report or without a distractor.
pub open spec fn distraction(
    gt: GroundTruth,
    distractor: Option<GroundTruth>,
    s: TrackState,
) -> Option<bool> {
    if reported(s) is Some && distractor is Some {
        Some(is_on_distractor(reported(s)->0, distractor->0.bbox, gt.bbox))
    } else {
        None
    }
}

/// The distractor of a tick, if any.
pub open spec fn distractor_at(gt: Seq<Option<GroundTruth>>, t: int) -> Option<GroundTruth> {
    if t < gt.len() {
        gt[t]
    } else {
        None
    }
}

/// The report is on the distractor after `n` ticks, as far as they say.
pub open spec fn distracted_after(
    gt: Seq<GroundTruth>,
    distractors: Seq<Option<GroundTruth>>,
    states: Seq<TrackState>,
    n: int,
) -> bool
    decreases n,
{
    if n <= 0 {
        false
    } else {
        match distraction(gt[n - 1], distractor_at(distractors, n - 1), states[n - 1]) {
            Some(on) => on,
            None => distracted_after(gt, distractors, states, n - 1),
        }
    }
}

/// How often, within `n` ticks, the report went over to the distractor.
pub open spec fn switch_count(
    gt: Seq<GroundTruth>,
    distractors: Seq<Option<GroundTruth>>,
    states: Seq<TrackState>,
    n: int,
) -> int
    decreases n,
{
    if n <= 0 {
        0
    } else {
        switch_count(gt, distractors, states, n - 1) + (if distracted_after(
            gt,
            distractors,
            states,
            n,
        ) && !distracted_after(gt, distractors, states, n - 1) {
            1int
        } else {
            0
        })
    }
}

/// The report is right about a run.
pub open spec fn is_score(r: Report, seq: Sequence, states: Seq<TrackState>) -> bool {
    let (gt, n) = (seq.target_gt@, states.len() as int);
    &&& r.scenario@ == seq.name@
    &&& r.num_ticks == n
    &&& r.visible_ticks == visible_count(gt, n)
    &&& r.success_ticks == success_count(gt, states, n)
    &&& r.locked_ious@ == locked_overlaps(gt, states, n)
    &&& match r.time_to_lock {
        Some(t) => first_lock_from(states, 0, t as int),
        None => no_lock_from(states, 0),
    }
    &&& reacquired(gt, states, r.reacquisition_ticks)
    &&& r.id_switches == switch_count(gt, seq.distractor_gt@, states, n)
}

impl Report {
    /// The share of visible ticks that were a success, as successes and
    /// ticks. A run in which the target is never visible counts as a full
    /// success.
    pub fn success_rate(&self) -> (r: (usize, usize))
        ensures
            self.visible_ticks == 0 ==> r == (1usize, 1usize),
            self.visible_ticks > 0 ==> r == (self.success_ticks, self.visible_ticks),
    {
        if self.visible_ticks == 0 {
            return (1, 1);
        }
        (self.success_ticks, self.visible_ticks)
    }

    /// Whether at least half of the visible ticks were a success.
    pub fn is_acceptable(&self) -> (r: bool)
        ensures
            r == (self.visible_ticks == 0 || 2 * self.success_ticks >= self.visible_ticks),
    {
        let (hits, ticks): (usize, usize) = self.success_rate();
        2 * (hits as u128) >= ticks as u128
    }
}

/// Whether a lock was reported.
fn is_locked(s: &TrackState) -> (r: bool)
    ensures
        r == is_lock(*s),
{
    match s {
        TrackState::Locked(_) => true,
        _ => false,
    }
}

/// The box that was reported, if any.
fn reported_box(s: &TrackState) -> (r: Option<BBox>)
    ensures
        r == reported(*s),
{
    match s {
        TrackState::Locked(h) => Some(h.bbox),
        TrackState::Lost(h) => Some(h.bbox),
        TrackState::Idle => None,
    }
}

/// The tick on which the target is back from its first occlusion.
fn occlusion_end(gt: &Vec<GroundTruth>) -> (r: Option<usize>)
    ensures
        match r {
            Some(t) => reappears_at(gt@, t as int),
            None => never_reappears(gt@),
        },
{
    let mut in_gap: bool = false;
    let mut t: usize = 0;
    while t < gt.len()
        invariant
            t <= gt@.len(),
            in_gap == hidden_before(gt@, t as int),
            forall|j: int| 0 <= j < t && (#[trigger] gt@[j]).visible ==> !hidden_before(gt@, j),
        decreases gt@.len() - t,
    {
        if !gt[t].visible {
            in_gap = true;
        } else if in_gap {
            return Some(t);
        }
        proof {
            let now = hidden_before(gt@, t + 1);
            if !gt@[t as int].visible {
                assert(now);
            } else if now {
                let j = choose|j: int| 0 <= j < t + 1 && !(#[trigger] gt@[j]).visible;
                assert(0 <= j < t && !gt@[j].visible);
            } else if hidden_before(gt@, t as int) {
                let j = choose|j: int| 0 <= j < t && !(#[trigger] gt@[j]).visible;
                assert(0 <= j < t + 1 && !gt@[j].visible);
            }
        }
        t += 1;
    }
    None
}

/// Scores a run against its sequence.
pub fn score(seq: &Sequence, states: &[TrackState]) -> (r: Report)
    requires
        seq.ticks() == states@.len(),
        seq.target_gt@.len() >= states@.len(),
    ensures
        is_score(r, *seq, states@),
{
    let ghost (gt, ds) = (seq.target_gt@, seq.distractor_gt@);
    let half: Ratio = Ratio::of(1, 2);
    let mut visible_ticks: usize = 0;
    let mut success_ticks: usize = 0;
    let mut locked_ious: Vec<Iou> = Vec::new();
    let mut time_to_lock: Option<usize> = None;
    let mut reacquisition_ticks: Option<usize> = None;
    let mut id_switches: usize = 0;
    let mut prev_on_distractor: bool = false;
    let back: Option<usize> = occlusion_end(&seq.target_gt);
    let mut t: usize = 0;
    while t < states.len()
        invariant
            t <= states@.len(),
            gt == seq.target_gt@,
            ds == seq.distractor_gt@,
            gt.len() >= states@.len(),
            half.num() == 1,
            half.den() == 2,
            visible_ticks == visible_count(gt, t as int),
            visible_ticks <= t,
            success_ticks == success_count(gt, states@, t as int),
            success_ticks <= t,
            locked_ious@ == locked_overlaps(gt, states@, t as int),
            time_to_lock is Some ==> first_lock_from(states@, 0, time_to_lock->0 as int),
            time_to_lock is None ==> forall|j: int| 0 <= j < t ==> !is_lock(#[trigger] states@[j]),
            back is Some ==> reappears_at(gt, back->0 as int),
            back is None ==> never_reappears(gt) && reacquisition_ticks is None,
            reacquisition_ticks is Some ==> back is Some && first_lock_from(
                states@,
                back->0 as int,
                back->0 + reacquisition_ticks->0,
            ),
            reacquisition_ticks is None && back is Some ==> forall|j: int|
                back->0 <= j < t ==> !is_lock(#[trigger] states@[j]),
            prev_on_distractor == distracted_after(gt, ds, states@, t as int),
            id_switches == switch_count(gt, ds, states@, t as int),
            id_switches <= t,
        decreases states@.len() - t,
    {
        let state: TrackState = states[t];
        let truth: GroundTruth = seq.target_gt[t];
        let box_out: Option<BBox> = reported_box(&state);
        let locked: bool = is_locked(&state);
        if time_to_lock.is_none() && locked {
            time_to_lock = Some(t);
        }
        if truth.visible {
            visible_ticks += 1;
            if let Some(b) = box_out {
                let hit: Iou = iou(b, truth.bbox);
                if hit.at_least(half) {
                    success_ticks += 1;
                }
                if locked {
                    assert(hit == overlap(b, truth.bbox));
                    locked_ious.push(hit);
                }
            }
        }
        if let Some(e) = back {
            if t >= e && reacquisition_ticks.is_none() && locked {
                reacquisition_ticks = Some(t - e);
            }
        }
        let decoy: Option<GroundTruth> = if t < seq.distractor_gt.len() {
            seq.distractor_gt[t]
        } else {
            None
        };
        if let Some(b) = box_out {
            if let Some(d) = decoy {
                let on_decoy: Iou = iou(b, d.bbox);
                let on_target: Iou = iou(b, truth.bbox);
                let on_distractor: bool = on_decoy.exceeds(&on_target);
                if on_distractor && !prev_on_distractor {
                    id_switches += 1;
                }
                prev_on_distractor = on_distractor;
            }
        }
        t += 1;
    }
    proof {
        let r = reacquisition_ticks;
        assert forall|e: int| #[trigger] reappears_at(gt, e) implies back is Some && e
            == back->0 by {
            lemma_one_reappearance(gt, e, back);
        }
        if r is Some {
            assert(reappears_at(gt, back->0 as int));
        }
        assert(reacquired(gt, states@, r));
    }
    Report {
        scenario: seq.name,
        num_ticks: seq.len(),
        visible_ticks,
        success_ticks,
        locked_ious,
        time_to_lock,
        reacquisition_ticks,
        id_switches,
    }
}

/// There is at most one first reappearance.
proof fn lemma_one_reappearance(gt: Seq<GroundTruth>, e: int, back: Option<usize>)
    requires
        reappears_at(gt, e),
        back is Some ==> reappears_at(gt, back->0 as int),
        back is None ==> never_reappears(gt),
    ensures
        back is Some,
        e == back->0,
{
    assert(gt[e].visible);
    if back is Some {
        assert(gt[back->0 as int].visible);
    }
}

/// A visible tick is counted.
pub proof fn visible_ticks_are_counted(gt: Seq<GroundTruth>, n: int, t: int)
    requires
        0 <= t < n <= gt.len(),
        gt[t].visible,
    ensures
        visible_count(gt, n) > 0,
    decreases n,
{
    lemma_counts_are_bounded(gt, Seq::empty(), n - 1);
    if t < n - 1 {
        visible_ticks_are_counted(gt, n - 1, t);
    }
}

/// The counts grow by at most one per tick, and successes are visible.
proof fn lemma_counts_are_bounded(gt: Seq<GroundTruth>, states: Seq<TrackState>, n: int)
    requires
        0 <= n,
    ensures
        0 <= success_count(gt, states, n) <= visible_count(gt, n) <= n,
        locked_overlaps(gt, states, n).len() <= visible_count(gt, n),
    decreases n,
{
    if n > 0 {
        lemma_counts_are_bounded(gt, states, n - 1);
    }
}

/// A switch takes a tick.
proof fn lemma_switches_are_bounded(
    gt: Seq<GroundTruth>,
    distractors: Seq<Option<GroundTruth>>,
    states: Seq<TrackState>,
    n: int,
)
    requires
        0 <= n,
    ensures
        0 <= switch_count(gt, distractors, states, n) <= n,
    decreases n,
{
    if n > 0 {
        lemma_switches_are_bounded(gt, distractors, states, n - 1);
    }
}

/// The numbers of a report are in proportion: successes are among the
/// visible ticks, and those among all ticks.
pub proof fn report_counts_are_in_proportion(r: Report, seq: Sequence, states: Seq<TrackState>)
    requires
        is_score(r, seq, states),
    ensures
        r.success_ticks <= r.visible_ticks <= r.num_ticks,
        r.locked_ious@.len() <= r.visible_ticks,
        r.id_switches <= r.num_ticks,
        r.time_to_lock is Some ==> r.time_to_lock->0 < r.num_ticks,
{
    let n = states.len() as int;
    lemma_counts_are_bounded(seq.target_gt@, states, n);
    lemma_switches_are_bounded(seq.target_gt@, seq.distractor_gt@, states, n);
}

/// A run of ticks on the distractor counts once: while the report stays on
/// it, no further switch is counted.
pub proof fn a_run_on_the_distractor_counts_once(
    gt: Seq<GroundTruth>,
    distractors: Seq<Option<GroundTruth>>,
    states: Seq<TrackState>,
    from: int,
    to: int,
)
    requires
        0 <= from <= to,
        forall|k: int|
            from <= k <= to ==> #[trigger] distracted_after(gt, distractors, states, k),
    ensures
        switch_count(gt, distractors, states, to) == switch_count(gt, distractors, states, from),
    decreases to,
{
    if from < to {
        a_run_on_the_distractor_counts_once(gt, distractors, states, from, to - 1);
        assert(distracted_after(gt, distractors, states, to - 1));
    }
}

/// Without a distractor there is nothing to switch to.
pub proof fn no_distractor_no_switch(
    gt: Seq<GroundTruth>,
    distractors: Seq<Option<GroundTruth>>,
    states: Seq<TrackState>,
    n: int,
)
    requires
        forall|t: int| 0 <= t < distractors.len() ==> (#[trigger] distractors[t]) is None,
    ensures
        switch_count(gt, distractors, states, n) <= 0,
        !distracted_after(gt, distractors, states, n),
    decreases n,
{
    if n > 0 {
        no_distractor_no_switch(gt, distractors, states, n - 1);
    }
}

/// Two reports say the same.
pub open spec fn same_report(a: Report, b: Report) -> bool {
    &&& a.scenario@ == b.scenario@
    &&& a.num_ticks == b.num_ticks
    &&& a.visible_ticks == b.visible_ticks
    &&& a.success_ticks == b.success_ticks
    &&& a.locked_ious@ == b.locked_ious@
    &&& a.time_to_lock == b.time_to_lock
    &&& a.reacquisition_ticks == b.reacquisition_ticks
    &&& a.id_switches == b.id_switches
}

/// A run has one score: sequences with the same label and ground truth, and
/// the same reported states, lead to the same report.
pub proof fn scores_are_unique(
    a: Report,
    b: Report,
    p: Sequence,
    q: Sequence,
    states: Seq<TrackState>,
)
    requires
        is_score(a, p, states),
        is_score(b, q, states),
        p.name@ == q.name@,
        p.target_gt@ == q.target_gt@,
        p.distractor_gt@ == q.distractor_gt@,
    ensures
        same_report(a, b),
{
    let gt = p.target_gt@;
    if let Some(i) = a.time_to_lock {
        assert(is_lock(states[i as int]));
    }
    if let Some(j) = b.time_to_lock {
        assert(is_lock(states[j as int]));
    }
    if let Some(i) = a.reacquisition_ticks {
        let e = choose|e: int| #[trigger]
            reappears_at(gt, e) && first_lock_from(states, e, e + i);
        assert(is_lock(states[e + i]));
        if let Some(j) = b.reacquisition_ticks {
            let f = choose|f: int| #[trigger]
                reappears_at(gt, f) && first_lock_from(states, f, f + j);
            assert(is_lock(states[f + j]));
            assert(gt[e].visible && gt[f].visible);
        }
    } else if let Some(j) = b.reacquisition_ticks {
        let f = choose|f: int| #[trigger]
            reappears_at(gt, f) && first_lock_from(states, f, f + j);
        assert(is_lock(states[f + j]));
    }
}

/// The ticks before `n` on which something holds.
spec fn ticks_with(n: int, p: spec_fn(int) -> bool) -> Set<int> {
    Set::new(|t: int| 0 <= t < n && p(t))
}

/// One tick more adds itself or nothing.
proof fn lemma_ticks_step(n: int, p: spec_fn(int) -> bool)
    requires
        n > 0,
        ticks_with(n - 1, p).finite(),
    ensures
        ticks_with(n, p).finite(),
        ticks_with(n, p).len() == ticks_with(n - 1, p).len() + (if p(n - 1) {
            1int
        } else {
            0
        }),
{
    let (less, more) = (ticks_with(n - 1, p), ticks_with(n, p));
    if p(n - 1) {
        assert(more =~= less.insert(n - 1));
    } else {
        assert(more =~= less);
    }
}

/// Before the first tick there is none.
proof fn lemma_no_ticks(n: int, p: spec_fn(int) -> bool)
    requires
        n <= 0,
    ensures
        ticks_with(n, p).finite(),
        ticks_with(n, p).len() == 0,
{
    assert(ticks_with(n, p) =~= Set::empty());
}

/// A count of visible ticks is the number of ticks on which the target is
/// visible.
pub proof fn visible_ticks_by_number(gt: Seq<GroundTruth>, n: int)
    ensures
        Set::new(|t: int| 0 <= t < n && gt[t].visible).finite(),
        n >= 0 ==> visible_count(gt, n) == Set::new(|t: int| 0 <= t < n && gt[t].visible).len(),
    decreases n,
{
    let p = |t: int| gt[t].visible;
    assert(Set::new(|t: int| 0 <= t < n && gt[t].visible) =~= ticks_with(n, p));
    if n > 0 {
        visible_ticks_by_number(gt, n - 1);
        assert(Set::new(|t: int| 0 <= t < n - 1 && gt[t].visible) =~= ticks_with(n - 1, p));
        lemma_ticks_step(n, p);
    } else {
        lemma_no_ticks(n, p);
    }
}

/// A report counts the ticks on which the target is visible, and of those the
/// ones whose box, locked or lost, has at least half of what it and the target
/// cover in common with the target.
pub proof fn a_report_counts_visible_and_successful_ticks(
    r: Report,
    seq: Sequence,
    states: Seq<TrackState>,
)
    requires
        is_score(r, seq, states),
    ensures
        r.scenario@ == seq.name@,
        r.num_ticks == states.len(),
        r.visible_ticks == Set::new(
            |t: int| 0 <= t < states.len() && seq.target_gt@[t].visible,
        ).len(),
        r.success_ticks == Set::new(
            |t: int|
                0 <= t < states.len() && seq.target_gt@[t].visible && match states[t] {
                    TrackState::Locked(h) => 2 * iou_num(h.bbox, seq.target_gt@[t].bbox) >= iou_den(
                        h.bbox,
                        seq.target_gt@[t].bbox,
                    ),
                    TrackState::Lost(h) => 2 * iou_num(h.bbox, seq.target_gt@[t].bbox) >= iou_den(
                        h.bbox,
                        seq.target_gt@[t].bbox,
                    ),
                    TrackState::Idle => false,
                },
        ).len(),
{
    let (gt, n) = (seq.target_gt@, states.len() as int);
    visible_ticks_by_number(gt, n);
    let p = |t: int|
        gt[t].visible && match states[t] {
            TrackState::Locked(h) => 2 * iou_num(h.bbox, gt[t].bbox) >= iou_den(h.bbox, gt[t].bbox),
            TrackState::Lost(h) => 2 * iou_num(h.bbox, gt[t].bbox) >= iou_den(h.bbox, gt[t].bbox),
            TrackState::Idle => false,
        };
    lemma_successes_by_number(gt, states, n, p);
    assert(Set::new(|t: int| 0 <= t < states.len() && gt[t].visible) =~= Set::new(
        |t: int| 0 <= t < n && gt[t].visible,
    ));
    assert(Set::new(
        |t: int|
            0 <= t < states.len() && seq.target_gt@[t].visible && match states[t] {
                TrackState::Locked(h) => 2 * iou_num(h.bbox, seq.target_gt@[t].bbox) >= iou_den(
                    h.bbox,
                    seq.target_gt@[t].bbox,
                ),
                TrackState::Lost(h) => 2 * iou_num(h.bbox, seq.target_gt@[t].bbox) >= iou_den(
                    h.bbox,
                    seq.target_gt@[t].bbox,
                ),
                TrackState::Idle => false,
            },
    ) =~= ticks_with(n, p));
}

/// A count of successes is the number of successful ticks.
proof fn lemma_successes_by_number(
    gt: Seq<GroundTruth>,
    states: Seq<TrackState>,
    n: int,
    p: spec_fn(int) -> bool,
)
    requires
        forall|t: int| #[trigger] p(t) <==> is_success(gt[t], states[t]),
    ensures
        ticks_with(n, p).finite(),
        n >= 0 ==> success_count(gt, states, n) == ticks_with(n, p).len(),
    decreases n,
{
    if n > 0 {
        lemma_successes_by_number(gt, states, n - 1, p);
        lemma_ticks_step(n, p);
        assert(p(n - 1) <==> is_success(gt[n - 1], states[n - 1]));
    } else {
        lemma_no_ticks(n, p);
    }
}

/// The overlaps of a report: one for every tick that is locked while the
/// target is visible, and only for those, in the order of the ticks. Each is
/// that of the locked box with the target of its tick.
pub proof fn a_report_lists_the_overlaps_of_locked_ticks(
    r: Report,
    seq: Sequence,
    states: Seq<TrackState>,
    t: int,
)
    requires
        is_score(r, seq, states),
        0 <= t < states.len(),
    ensures
        r.locked_ious@.len() == Set::new(
            |u: int| 0 <= u < states.len() && seq.target_gt@[u].visible && states[u] is Locked,
        ).len(),
        seq.target_gt@[t].visible && states[t] is Locked ==> {
            let i = Set::new(
                |u: int| 0 <= u < t && seq.target_gt@[u].visible && states[u] is Locked,
            ).len() as int;
            &&& i < r.locked_ious@.len()
            &&& r.locked_ious@[i].shared == iou_num(states[t]->Locked_0.bbox, seq.target_gt@[t].bbox)
            &&& r.locked_ious@[i].covered == iou_den(
                states[t]->Locked_0.bbox,
                seq.target_gt@[t].bbox,
            )
        },
{
    let (gt, n) = (seq.target_gt@, states.len() as int);
    let p = |u: int| gt[u].visible && states[u] is Locked;
    lemma_locked_ticks_by_number(gt, states, n, p);
    assert(Set::new(
        |u: int| 0 <= u < states.len() && seq.target_gt@[u].visible && states[u] is Locked,
    ) =~= ticks_with(n, p));
    if gt[t].visible && states[t] is Locked {
        lemma_overlap_of_tick(gt, states, n, t, p);
        assert(Set::new(|u: int| 0 <= u < t && seq.target_gt@[u].visible && states[u] is Locked)
            =~= ticks_with(t, p));
        overlaps_fit_in_128_bits(states[t]->Locked_0.bbox, gt[t].bbox);
    }
}

/// There is one overlap per locked and visible tick.
proof fn lemma_locked_ticks_by_number(
    gt: Seq<GroundTruth>,
    states: Seq<TrackState>,
    n: int,
    p: spec_fn(int) -> bool,
)
    requires
        forall|t: int| #[trigger] p(t) <==> gt[t].visible && states[t] is Locked,
    ensures
        ticks_with(n, p).finite(),
        locked_overlaps(gt, states, n).len() == ticks_with(n, p).len(),
    decreases n,
{
    if n > 0 {
        lemma_locked_ticks_by_number(gt, states, n - 1, p);
        lemma_ticks_step(n, p);
        assert(p(n - 1) <==> gt[n - 1].visible && states[n - 1] is Locked);
    } else {
        lemma_no_ticks(n, p);
    }
}

/// Where the overlap of a tick stands.
proof fn lemma_overlap_of_tick(
    gt: Seq<GroundTruth>,
    states: Seq<TrackState>,
    n: int,
    t: int,
    p: spec_fn(int) -> bool,
)
    requires
        forall|u: int| #[trigger] p(u) <==> gt[u].visible && states[u] is Locked,
        0 <= t < n,
        gt[t].visible,
        states[t] is Locked,
    ensures
        ticks_with(t, p).len() < locked_overlaps(gt, states, n).len(),
        locked_overlaps(gt, states, n)[ticks_with(t, p).len() as int] == overlap(
            states[t]->Locked_0.bbox,
            gt[t].bbox,
        ),
    decreases n,
{
    lemma_locked_ticks_by_number(gt, states, t, p);
    if t < n - 1 {
        lemma_overlap_of_tick(gt, states, n - 1, t, p);
    }
}

/// The time to lock is the first tick that is locked, and missing only when
/// none is.
pub proof fn a_report_names_the_first_lock(r: Report, seq: Sequence, states: Seq<TrackState>)
    requires
        is_score(r, seq, states),
    ensures
        r.time_to_lock is None <==> forall|t: int|
            0 <= t < states.len() ==> !(#[trigger] states[t] is Locked),
        r.time_to_lock is Some ==> r.time_to_lock->0 < states.len()
            && states[r.time_to_lock->0 as int] is Locked && forall|t: int|
            0 <= t < r.time_to_lock->0 ==> !(#[trigger] states[t] is Locked),
{
    if r.time_to_lock is Some {
        assert(is_lock(states[r.time_to_lock->0 as int]));
        assert forall|t: int| 0 <= t < r.time_to_lock->0 implies !(#[trigger] states[t] is Locked) by {
            assert(!is_lock(states[t]));
        }
    } else {
        assert forall|t: int| 0 <= t < states.len() implies !(#[trigger] states[t] is Locked) by {
            assert(!is_lock(states[t]));
        }
    }
}

/// The time to reacquire runs from the tick `back` on which the target is
/// visible again after its first occlusion, the ticks from `gone` up to it,
/// to the first lock from there on.
pub proof fn a_report_times_the_reacquisition(
    r: Report,
    seq: Sequence,
    states: Seq<TrackState>,
    gone: int,
    back: int,
)
    requires
        is_score(r, seq, states),
        0 <= gone < back < seq.target_gt@.len(),
        forall|t: int| 0 <= t < gone ==> (#[trigger] seq.target_gt@[t]).visible,
        forall|t: int| gone <= t < back ==> !(#[trigger] seq.target_gt@[t]).visible,
        seq.target_gt@[back].visible,
    ensures
        r.reacquisition_ticks is None <==> forall|t: int|
            back <= t < states.len() ==> !(#[trigger] states[t] is Locked),
        r.reacquisition_ticks is Some ==> back + r.reacquisition_ticks->0 < states.len()
            && states[back + r.reacquisition_ticks->0] is Locked && forall|t: int|
            back <= t < back + r.reacquisition_ticks->0 ==> !(#[trigger] states[t] is Locked),
{
    let gt = seq.target_gt@;
    assert(!gt[gone].visible);
    assert(hidden_before(gt, back));
    assert forall|j: int| 0 <= j < back && (#[trigger] gt[j]).visible implies !hidden_before(gt, j) by {
        assert(j < gone);
    }
    assert(reappears_at(gt, back));
    if let Some(k) = r.reacquisition_ticks {
        let e = choose|e: int| #[trigger] reappears_at(gt, e) && first_lock_from(states, e, e + k);
        assert(gt[e].visible && gt[back].visible);
        assert(e == back);
        assert(is_lock(states[back + k]));
        assert forall|t: int| back <= t < back + k implies !(#[trigger] states[t] is Locked) by {
            assert(!is_lock(states[t]));
        }
    } else {
        assert(no_lock_from(states, back));
        assert forall|t: int| back <= t < states.len() implies !(#[trigger] states[t] is Locked) by {
            assert(!is_lock(states[t]));
        }
    }
}

/// Without an occlusion that ends there is nothing to reacquire: when the
/// target is never visible again once it is hidden.
pub proof fn without_a_return_there_is_no_reacquisition(
    r: Report,
    seq: Sequence,
    states: Seq<TrackState>,
    gone: int,
)
    requires
        is_score(r, seq, states),
        0 <= gone,
        forall|t: int| 0 <= t < gone && t < seq.target_gt@.len() ==> (
        #[trigger] seq.target_gt@[t]).visible,
        forall|t: int| gone <= t < seq.target_gt@.len() ==> !(#[trigger] seq.target_gt@[t]).visible,
    ensures
        r.reacquisition_ticks is None,
{
    let gt = seq.target_gt@;
    if let Some(k) = r.reacquisition_ticks {
        let e = choose|e: int| #[trigger] reappears_at(gt, e) && first_lock_from(states, e, e + k);
        assert(gt[e].visible);
        let j = choose|j: int| 0 <= j < e && !(#[trigger] gt[j]).visible;
        assert(gt[j].visible);
    }
}

/// What a tick says about the distractor: nothing without a box or without a
/// distractor, and otherwise whether the box overlaps it more than the target.
pub open spec fn says_distracted(seq: Sequence, states: Seq<TrackState>, t: int) -> Option<bool> {
    if t >= seq.distractor_gt@.len() || seq.distractor_gt@[t] is None || states[t] is Idle {
        None
    } else {
        let b = match states[t] {
            TrackState::Locked(h) => h.bbox,
            TrackState::Lost(h) => h.bbox,
            TrackState::Idle => seq.target_gt@[t].bbox,
        };
        let (target, decoy) = (seq.target_gt@[t].bbox, seq.distractor_gt@[t]->0.bbox);
        Some(iou_num(b, decoy) * iou_den(b, target) > iou_num(b, target) * iou_den(b, decoy))
    }
}

/// A report counts a switch on every tick that says the box is on the
/// distractor, unless the last tick before it that says anything said so too.
pub proof fn a_report_counts_the_switches(r: Report, seq: Sequence, states: Seq<TrackState>)
    requires
        is_score(r, seq, states),
    ensures
        r.id_switches == Set::new(
            |t: int|
                0 <= t < states.len() && says_distracted(seq, states, t) == Some(true)
                    && !exists|j: int|
                    0 <= j < t && #[trigger] says_distracted(seq, states, j) == Some(true)
                        && forall|k: int|
                        j < k < t ==> #[trigger] says_distracted(seq, states, k) is None,
        ).len(),
{
    let n = states.len() as int;
    let p = |t: int|
        says_distracted(seq, states, t) == Some(true) && !exists|j: int|
            0 <= j < t && #[trigger] says_distracted(seq, states, j) == Some(true) && forall|
                k: int,
            |
                j < k < t ==> #[trigger] says_distracted(seq, states, k) is None;
    lemma_switches_by_number(seq, states, n, p);
    assert(Set::new(
        |t: int|
            0 <= t < states.len() && says_distracted(seq, states, t) == Some(true) && !exists|
                j: int,
            |
                0 <= j < t && #[trigger] says_distracted(seq, states, j) == Some(true) && forall|
                    k: int,
                |
                    j < k < t ==> #[trigger] says_distracted(seq, states, k) is None,
    ) =~= ticks_with(n, p));
}

/// A run is distracted after `n` ticks when the last tick that says anything
/// says so.
proof fn lemma_last_word_counts(seq: Sequence, states: Seq<TrackState>, n: int)
    requires
        0 <= n,
    ensures
        distracted_after(seq.target_gt@, seq.distractor_gt@, states, n) <==> exists|j: int|
            0 <= j < n && #[trigger] says_distracted(seq, states, j) == Some(true) && forall|
                k: int,
            |
                j < k < n ==> #[trigger] says_distracted(seq, states, k) is None,
    decreases n,
{
    let (gt, ds) = (seq.target_gt@, seq.distractor_gt@);
    if n > 0 {
        lemma_last_word_counts(seq, states, n - 1);
        let last = says_distracted(seq, states, n - 1);
        assert(distraction(gt[n - 1], distractor_at(ds, n - 1), states[n - 1]) == last);
        if last is None && distracted_after(gt, ds, states, n - 1) {
            let j = choose|j: int|
                0 <= j < n - 1 && #[trigger] says_distracted(seq, states, j) == Some(true)
                    && forall|k: int|
                    j < k < n - 1 ==> #[trigger] says_distracted(seq, states, k) is None;
            assert forall|k: int| j < k < n implies #[trigger] says_distracted(
                seq,
                states,
                k,
            ) is None by {}
        }
        if last == Some(true) {
            assert(says_distracted(seq, states, n - 1) == Some(true));
        }
        if exists|j: int|
            0 <= j < n && #[trigger] says_distracted(seq, states, j) == Some(true) && forall|
                k: int,
            |
                j < k < n ==> #[trigger] says_distracted(seq, states, k) is None {
            let j = choose|j: int|
                0 <= j < n && #[trigger] says_distracted(seq, states, j) == Some(true)
                    && forall|k: int|
                    j < k < n ==> #[trigger] says_distracted(seq, states, k) is None;
            if j < n - 1 {
                assert(says_distracted(seq, states, n - 1) is None);
                assert(says_distracted(seq, states, j) == Some(true));
            }
        }
    }
}

/// A count of switches is the number of ticks with one.
proof fn lemma_switches_by_number(
    seq: Sequence,
    states: Seq<TrackState>,
    n: int,
    p: spec_fn(int) -> bool,
)
    requires
        forall|t: int| #[trigger] p(t) <==> says_distracted(seq, states, t) == Some(true)
            && !exists|j: int|
            0 <= j < t && #[trigger] says_distracted(seq, states, j) == Some(true) && forall|
                k: int,
            |
                j < k < t ==> #[trigger] says_distracted(seq, states, k) is None,
    ensures
        ticks_with(n, p).finite(),
        n >= 0 ==> switch_count(seq.target_gt@, seq.distractor_gt@, states, n) == ticks_with(
            n,
            p,
        ).len(),
    decreases n,
{
    let (gt, ds) = (seq.target_gt@, seq.distractor_gt@);
    if n > 0 {
        lemma_switches_by_number(seq, states, n - 1, p);
        lemma_ticks_step(n, p);
        lemma_last_word_counts(seq, states, n - 1);
        assert(distraction(gt[n - 1], distractor_at(ds, n - 1), states[n - 1]) == says_distracted(
            seq,
            states,
            n - 1,
        ));
        assert(p(n - 1) <==> says_distracted(seq, states, n - 1) == Some(true)
            && !distracted_after(gt, ds, states, n - 1));
    } else {
        lemma_no_ticks(n, p);
    }
}

} // verus!
