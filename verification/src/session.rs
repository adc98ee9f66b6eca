//! The main entry point: push a frame and this tick's detections in, get the
//! track state out, in one synchronous call.

use crate::acquisition::{
    agreeing, associated_choice, confirmation, iou_den, iou_num, nominable, qualifies, sq_dist,
    the_best_overlap_is_associated, within,
};
use crate::seed::{seedable, FrameDims, SeedBox};
use crate::stage::{
    a_forced_lock_always_seeds, an_empty_batch_drops_a_waiting_candidate, answer_of_tick,
    batch_choice, batches_keep_a_stage_consistent, forced, is_consistent, may_fold, may_seed,
    may_tick, needs_seed, nomination, one_batch_never_nominates, ticks_keep_a_stage_consistent,
    what_a_batch_nominates, what_a_refreshing_nomination_reports,
    what_a_seeding_nomination_reports, what_a_step_without_nomination_reports,
    what_an_idle_tracker_reports, Answer, Config, LockMemory, PendingLock, Stage,
};
use crate::tracker::{FrameView, Tracker, TrackerError};
use crate::types::{BBox, Confidence, Detection, HeldTrack, TrackState};
use vstd::prelude::*;

verus! {

/// A single-target tracking session over one video stream. It owns the
/// tracker and all lock state.
pub struct TrackingSession<T: Tracker> {
    stage: Stage<T>,
}

/// Stepping with a detector batch may take the stage from `pre` to `post`
/// and report `state`: the batch is folded in, and its nomination ticks.
pub open spec fn may_advance_with<T: Tracker>(
    pre: Stage<T>,
    frame: FrameView<'_>,
    dets: Seq<Detection>,
    now_ns: i64,
    post: Stage<T>,
    state: TrackState,
) -> bool {
    exists|mid: Stage<T>, pending: Option<PendingLock>| #[trigger]
        may_fold(pre, dets, mid, pending) && may_tick(
            mid,
            frame,
            now_ns,
            pending,
            false,
            post,
            state,
        )
}

/// Stepping with this detector output may take the stage from `pre` to
/// `post` and report `state`. Without a batch nothing is folded in.
pub open spec fn may_advance<T: Tracker>(
    pre: Stage<T>,
    frame: FrameView<'_>,
    detections: Option<Seq<Detection>>,
    now_ns: i64,
    post: Stage<T>,
    state: TrackState,
) -> bool {
    if detections is Some {
        may_advance_with(pre, frame, detections->0, now_ns, post, state)
    } else {
        may_tick(pre, frame, now_ns, None, false, post, state)
    }
}

/// A forced lock may take the stage from `pre` to `post` and report `state`.
pub open spec fn may_force<T: Tracker>(
    pre: Stage<T>,
    frame: FrameView<'_>,
    bbox: BBox,
    now_ns: i64,
    matched_confidence: Option<Confidence>,
    post: Stage<T>,
    state: TrackState,
) -> bool {
    exists|mid: Stage<T>|
        {
            &&& mid.backend() == pre.backend()
            &&& mid.frame() == pre.frame()
            &&& mid.config() == pre.config()
            &&& mid.memory() == (LockMemory { acquire_candidate: None, ..pre.memory() })
            &&& #[trigger] may_tick(
                mid,
                frame,
                now_ns,
                Some(forced(bbox, matched_confidence)),
                true,
                post,
                state,
            )
        }
}

impl<T: Tracker> TrackingSession<T> {
    /// The state machine.
    pub closed spec fn stage(&self) -> Stage<T> {
        self.stage
    }

    /// `frame_w` and `frame_h` are the dimensions of the stream; a session
    /// is scoped to one resolution.
    pub fn new(tracker: T, frame_w: i64, frame_h: i64, config: Config) -> (r: Self)
        ensures
            r.stage().backend() == tracker,
            r.stage().frame() == (FrameDims { width: frame_w, height: frame_h }),
            r.stage().config() == config,
            r.stage().memory() == LockMemory::blank(),
    {
        TrackingSession { stage: Stage::new(tracker, frame_w, frame_h, config) }
    }

    /// Advances the session by one frame.
    ///
    /// `None` as `detections` says that the detector produced no batch this
    /// tick; the tracker still steps forward, and the acquisition state is
    /// left alone. `Some` of an empty batch says that the detector ran and
    /// saw nothing, which is an observation like any other and drops a
    /// candidate that waits for confirmation. Passing an empty batch for
    /// every skipped tick would therefore defeat the confirmation.
    ///
    /// `now_ns` is a monotonically increasing clock of the caller's choice,
    /// used for the age-out alone.
    pub fn step(
        &mut self,
        frame: FrameView<'_>,
        detections: Option<&[Detection]>,
        now_ns: i64,
    ) -> (r: TrackState)
        requires
            frame.wf(),
        ensures
            may_advance(
                old(self).stage(),
                frame,
                match detections {
                    Some(d) => Some(d@),
                    None => None,
                },
                now_ns,
                final(self).stage(),
                r,
            ),
    {
        let pending: Option<PendingLock> = match detections {
            Some(d) => self.stage.on_detection_batch(d),
            None => None,
        };
        let ghost mid = self.stage;
        let state: TrackState = self.stage.tick(frame, now_ns, pending, false);
        proof {
            if let Some(d) = detections {
                assert(may_fold(old(self).stage(), d@, mid, pending));
                assert(may_advance_with(old(self).stage(), frame, d@, now_ns, self.stage, state));
            }
        }
        state
    }

    /// Forces a lock onto `bbox`, bypassing acquisition: an operator's
    /// command. The tracker is seeded anew even over a healthy lock.
    /// `matched_confidence` is the caller's best guess for the forced box.
    pub fn force_lock(
        &mut self,
        frame: FrameView<'_>,
        bbox: BBox,
        now_ns: i64,
        matched_confidence: Option<Confidence>,
    ) -> (r: TrackState)
        requires
            frame.wf(),
        ensures
            may_force(
                old(self).stage(),
                frame,
                bbox,
                now_ns,
                matched_confidence,
                final(self).stage(),
                r,
            ),
    {
        let pending: PendingLock = self.stage.on_force_lock(bbox, matched_confidence);
        self.stage.tick(frame, now_ns, Some(pending), true)
    }

    /// The state machine itself, for a pipeline that routes detections
    /// separately from frames.
    pub fn stage_mut(&mut self) -> (r: &mut Stage<T>)
        ensures
            *r == old(self).stage(),
            final(self).stage() == *final(r),
    {
        &mut self.stage
    }
}

/// A single batch never locks: a session that has just begun is idle after
/// its first step, whatever the batch.
pub proof fn the_first_step_is_idle<T: Tracker>(
    pre: Stage<T>,
    frame: FrameView<'_>,
    detections: Option<Seq<Detection>>,
    now_ns: i64,
    post: Stage<T>,
    state: TrackState,
)
    requires
        pre.memory() == LockMemory::blank(),
        !pre.backend().active(),
        may_advance(pre, frame, detections, now_ns, post, state),
    ensures
        state is Idle,
        !post.backend().active(),
        post.backend() == pre.backend(),
{
    if detections is Some {
        let (mid, pending) = choose|mid: Stage<T>, pending: Option<PendingLock>| #[trigger]
            may_fold(pre, detections->0, mid, pending) && may_tick(
                mid,
                frame,
                now_ns,
                pending,
                false,
                post,
                state,
            );
        one_batch_never_nominates(pre, detections->0, mid, pending);
    }
}

/// A step without a batch leaves a waiting candidate alone.
pub proof fn a_skipped_batch_keeps_the_candidate<T: Tracker>(
    pre: Stage<T>,
    frame: FrameView<'_>,
    now_ns: i64,
    post: Stage<T>,
    state: TrackState,
)
    requires
        may_advance(pre, frame, None, now_ns, post, state),
    ensures
        post.memory().acquire_candidate == pre.memory().acquire_candidate,
{
}

/// A step with an empty batch is an observation: without a lock it drops a
/// waiting candidate.
pub proof fn an_empty_batch_is_an_observation<T: Tracker>(
    pre: Stage<T>,
    frame: FrameView<'_>,
    now_ns: i64,
    post: Stage<T>,
    state: TrackState,
)
    requires
        may_advance(pre, frame, Some(Seq::empty()), now_ns, post, state),
        !pre.backend().active(),
    ensures
        post.memory().acquire_candidate is None,
{
    let (mid, pending) = choose|mid: Stage<T>, pending: Option<PendingLock>| #[trigger]
        may_fold(pre, Seq::empty(), mid, pending) && may_tick(
            mid,
            frame,
            now_ns,
            pending,
            false,
            post,
            state,
        );
    an_empty_batch_drops_a_waiting_candidate(pre, mid, pending);
}

/// A step keeps a stage consistent. It holds the box that it reports: a lock
/// is held, a loss carries what was held before, and nothing is held after
/// an idle tick.
pub proof fn steps_keep_a_stage_consistent<T: Tracker>(
    pre: Stage<T>,
    frame: FrameView<'_>,
    detections: Option<Seq<Detection>>,
    now_ns: i64,
    post: Stage<T>,
    state: TrackState,
)
    requires
        is_consistent(pre),
        may_advance(pre, frame, detections, now_ns, post, state),
    ensures
        is_consistent(post),
        state is Idle <==> post.memory().prev_state is Idle,
        state is Idle ==> post.memory().held is None,
        state is Locked ==> post.memory().held == Some(state->Locked_0),
        state is Lost ==> pre.memory().held == Some(state->Lost_0) && post.memory().held == Some(
            state->Lost_0,
        ),
{
    if detections is Some {
        let (mid, pending) = choose|mid: Stage<T>, pending: Option<PendingLock>| #[trigger]
            may_fold(pre, detections->0, mid, pending) && may_tick(
                mid,
                frame,
                now_ns,
                pending,
                false,
                post,
                state,
            );
        batches_keep_a_stage_consistent(pre, detections->0, mid, pending);
        ticks_keep_a_stage_consistent(mid, frame, now_ns, pending, false, post, state);
    } else {
        ticks_keep_a_stage_consistent(pre, frame, now_ns, None, false, post, state);
    }
}

/// A forced lock on a box that can be seeded reports exactly that box,
/// unless the tracker refuses the seed. It never refreshes from a detection.
pub proof fn a_forced_lock_reports_its_box<T: Tracker>(
    pre: Stage<T>,
    frame: FrameView<'_>,
    bbox: BBox,
    now_ns: i64,
    matched_confidence: Option<Confidence>,
    post: Stage<T>,
    state: TrackState,
)
    requires
        may_force(pre, frame, bbox, now_ns, matched_confidence, post, state),
        seedable(bbox, pre.frame()),
        pre.config().max_age_ns >= 0,
    ensures
        post.memory().acquire_candidate is None,
        exists|next: T, a: Answer|
            {
                &&& #[trigger] may_seed(pre.backend(), frame, bbox, next, a)
                &&& a is Seeded ==> post.backend() == next && state is Locked
                    && state->Locked_0.bbox == bbox && state->Locked_0.source_detection_id is None
                &&& !(a is Seeded) ==> !post.backend().active() && !(state is Locked)
            },
{
    let p = forced(bbox, matched_confidence);
    let mid = choose|mid: Stage<T>|
        {
            &&& mid.backend() == pre.backend()
            &&& mid.frame() == pre.frame()
            &&& mid.config() == pre.config()
            &&& mid.memory() == (LockMemory { acquire_candidate: None, ..pre.memory() })
            &&& #[trigger] may_tick(mid, frame, now_ns, Some(p), true, post, state)
        };
    a_forced_lock_always_seeds(mid, frame, now_ns, p, post, state);
}

/// Two batches that agree lock the target, unless the tracker refuses the
/// seed: after a batch of the detection `first`, a batch of `second` no
/// further than `gate_px` from it leads to a lock on `second`.
pub proof fn two_agreeing_batches_lock<T: Tracker>(
    start: Stage<T>,
    frame: FrameView<'_>,
    first: Detection,
    first_ns: i64,
    middle: Stage<T>,
    first_state: TrackState,
    next_frame: FrameView<'_>,
    second: Detection,
    second_ns: i64,
    end: Stage<T>,
    state: TrackState,
)
    requires
        start.memory() == LockMemory::blank(),
        !start.backend().active(),
        may_advance(start, frame, Some(seq![first]), first_ns, middle, first_state),
        may_advance(middle, next_frame, Some(seq![second]), second_ns, end, state),
        qualifies(first, start.config().min_conf),
        qualifies(second, start.config().min_conf),
        within(
            sq_dist(
                second.bbox,
                first.bbox.x1 + first.bbox.x2,
                first.bbox.y1 + first.bbox.y2,
            ),
            start.config().gate_px,
        ),
        seedable(second.bbox, start.frame()),
        start.config().max_age_ns >= 0,
    ensures
        first_state is Idle,
        exists|next: T, a: Answer|
            {
                &&& #[trigger] may_seed(start.backend(), next_frame, second.bbox, next, a)
                &&& a is Seeded ==> end.backend() == next && state == TrackState::Locked(
                    HeldTrack {
                        bbox: second.bbox,
                        confidence: second.confidence,
                        source_detection_id: Some(second.id),
                    },
                )
                &&& !(a is Seeded) ==> !end.backend().active() && state is Idle
            },
{
    let config = start.config();
    let (fw, fh) = (start.frame().width as int, start.frame().height as int);
    the_first_step_is_idle(start, frame, Some(seq![first]), first_ns, middle, first_state);
    // The first batch leaves `first` as the candidate.
    let (mid, pending) = choose|mid: Stage<T>, pending: Option<PendingLock>| #[trigger]
        may_fold(start, seq![first], mid, pending) && may_tick(
            mid,
            frame,
            first_ns,
            pending,
            false,
            middle,
            first_state,
        );
    one_batch_never_nominates(start, seq![first], mid, pending);
    let (chosen, next) = choose|chosen: Option<Detection>, next: Option<Detection>| #[trigger]
        batch_choice(
            false,
            start.memory(),
            start.frame(),
            config,
            seq![first],
            chosen,
            next,
        ) && pending == nomination(chosen) && mid.memory() == (LockMemory {
            acquire_candidate: next,
            ..start.memory()
        });
    assert(nominable(config.min_conf)(seq![first][0]));
    assert(next is Some);
    assert(next == Some(first));
    assert(middle.memory().acquire_candidate == Some(first));
    // The second batch confirms `second`.
    let (mid2, pending2) = choose|mid2: Stage<T>, pending2: Option<PendingLock>| #[trigger]
        may_fold(middle, seq![second], mid2, pending2) && may_tick(
            mid2,
            next_frame,
            second_ns,
            pending2,
            false,
            end,
            state,
        );
    let (chosen2, next2) = choose|chosen2: Option<Detection>, next2: Option<Detection>| #[trigger]
        batch_choice(
            false,
            middle.memory(),
            middle.frame(),
            config,
            seq![second],
            chosen2,
            next2,
        ) && pending2 == nomination(chosen2) && mid2.memory() == (LockMemory {
            acquire_candidate: next2,
            ..middle.memory()
        });
    assert(agreeing(first.bbox, config.min_conf, config.gate_px)(seq![second][0]));
    assert(chosen2 is Some);
    assert(chosen2 == Some(second));
    // The nomination seeds the tracker.
    assert(needs_seed(mid2.backend().active(), mid2.memory(), false));
    let p = nomination(Some(second))->0;
    let (seeded, answer) = answer_of_tick(
        mid2,
        next_frame,
        second_ns,
        Some(p),
        false,
        end,
        state,
    );
    assert(may_seed(start.backend(), next_frame, second.bbox, seeded, answer));
}

/// The fold and the tick that a step with a batch is made of.
proof fn fold_of_step<T: Tracker>(
    pre: Stage<T>,
    frame: FrameView<'_>,
    dets: Seq<Detection>,
    now_ns: i64,
    post: Stage<T>,
    state: TrackState,
) -> (r: (Stage<T>, Option<PendingLock>))
    requires
        may_advance(pre, frame, Some(dets), now_ns, post, state),
    ensures
        may_fold(pre, dets, r.0, r.1),
        may_tick(r.0, frame, now_ns, r.1, false, post, state),
{
    choose|mid: Stage<T>, pending: Option<PendingLock>| #[trigger]
        may_fold(pre, dets, mid, pending) && may_tick(
            mid,
            frame,
            now_ns,
            pending,
            false,
            post,
            state,
        )
}

/// A step follows the tracker when no detection is associated: because there
/// is no batch, or because no entry of it is confident enough and overlaps
/// the current box by the threshold. While the lock is recent enough, a box
/// that the tracker gives is reported as it is, with the confidence of the
/// last refresh and no source, and becomes the current box; without one, the
/// held box is lost and the current box stays. Neither is a refresh.
pub proof fn a_step_without_association_follows_the_tracker<T: Tracker>(
    pre: Stage<T>,
    frame: FrameView<'_>,
    detections: Option<Seq<Detection>>,
    now_ns: i64,
    post: Stage<T>,
    state: TrackState,
)
    requires
        may_advance(pre, frame, detections, now_ns, post, state),
        pre.backend().active(),
        pre.memory().current_box is Some,
        pre.memory().held is Some,
        detections is Some ==> forall|j: int|
            0 <= j < detections->0.len() && (#[trigger] detections->0[j]).confidence.bits()
                >= pre.config().min_conf.bits() ==> iou_num(
                pre.memory().current_box->0,
                detections->0[j].bbox,
            ) * pre.config().iou_threshold.den() < pre.config().iou_threshold.num() * iou_den(
                pre.memory().current_box->0,
                detections->0[j].bbox,
            ),
        now_ns - pre.memory().last_refresh_ns <= pre.config().max_age_ns,
    ensures
        exists|mid: T, outcome: Result<Option<BBox>, TrackerError>|
            {
                &&& #[trigger] pre.backend().may_update(frame, &mid, outcome)
                &&& match outcome {
                    Ok(Some(b)) => {
                        &&& state == TrackState::Locked(
                            HeldTrack {
                                bbox: b,
                                confidence: pre.memory().current_confidence,
                                source_detection_id: None,
                            },
                        )
                        &&& post.backend() == mid
                        &&& post.memory().current_box == Some(b)
                        &&& post.memory().last_refresh_ns == pre.memory().last_refresh_ns
                    },
                    Ok(None) => {
                        &&& state == TrackState::Lost(pre.memory().held->0)
                        &&& post.backend() == mid
                        &&& post.memory().current_box == pre.memory().current_box
                        &&& post.memory().last_refresh_ns == pre.memory().last_refresh_ns
                    },
                    Err(_) => {
                        &&& state == TrackState::Lost(pre.memory().held->0)
                        &&& !post.backend().active()
                        &&& post.memory().current_box is None
                    },
                }
            },
{
    if detections is Some {
        let (mid, pending) = fold_of_step(pre, frame, detections->0, now_ns, post, state);
        what_a_batch_nominates(pre, detections->0, mid, pending);
        let chosen = choose|chosen: Option<Detection>|
            {
                &&& pending is Some <==> chosen is Some
                &&& #[trigger] associated_choice(
                    pre.memory().current_box->0,
                    detections->0,
                    pre.config().min_conf,
                    pre.config().iou_threshold,
                    chosen,
                )
            };
        the_best_overlap_is_associated(
            pre.memory().current_box->0,
            detections->0,
            pre.config().min_conf,
            pre.config().iou_threshold,
            chosen,
        );
        assert(pending is None);
        what_a_step_without_nomination_reports(mid, frame, now_ns, None, false, post, state);
    } else {
        what_a_step_without_nomination_reports(pre, frame, now_ns, None, false, post, state);
    }
}

/// A step with a batch that has a match refreshes a healthy lock. The match
/// is the entry that overlaps the current box most, among those that are
/// confident enough and overlap it by the threshold, the last of them among
/// equals. If a tracker can be seeded with it, then the box that the tracker
/// gives is reported with the confidence and the id of the match, and the
/// lock is refreshed now; when the tracker gives none, the match itself is.
pub proof fn a_matching_batch_refreshes_the_lock<T: Tracker>(
    pre: Stage<T>,
    frame: FrameView<'_>,
    dets: Seq<Detection>,
    now_ns: i64,
    post: Stage<T>,
    state: TrackState,
    k: int,
)
    requires
        may_advance(pre, frame, Some(dets), now_ns, post, state),
        pre.backend().active(),
        pre.memory().current_box is Some,
        !(pre.memory().prev_state is Lost),
        pre.config().max_age_ns >= 0,
        0 <= k < dets.len(),
        dets[k].confidence.bits() >= pre.config().min_conf.bits(),
        iou_num(pre.memory().current_box->0, dets[k].bbox) * pre.config().iou_threshold.den()
            >= pre.config().iou_threshold.num() * iou_den(
            pre.memory().current_box->0,
            dets[k].bbox,
        ),
    ensures
        exists|i: int|
            {
                let (cur, d) = (pre.memory().current_box->0, #[trigger] dets[i]);
                &&& 0 <= i < dets.len()
                &&& d.confidence.bits() >= pre.config().min_conf.bits()
                &&& iou_num(cur, dets[k].bbox) * iou_den(cur, d.bbox) <= iou_num(cur, d.bbox)
                    * iou_den(cur, dets[k].bbox)
                &&& k > i ==> iou_num(cur, dets[k].bbox) * iou_den(cur, d.bbox) < iou_num(
                    cur,
                    d.bbox,
                ) * iou_den(cur, dets[k].bbox)
                &&& seedable(d.bbox, pre.frame()) ==> exists|
                    mid: T,
                    outcome: Result<Option<BBox>, TrackerError>,
                |
                    {
                        &&& #[trigger] pre.backend().may_update(frame, &mid, outcome)
                        &&& state is Locked ==> {
                            &&& state->Locked_0.bbox == (match outcome {
                                Ok(Some(b)) => b,
                                _ => d.bbox,
                            })
                            &&& state->Locked_0.confidence == d.confidence
                            &&& state->Locked_0.source_detection_id == Some(d.id)
                            &&& post.memory().current_box == Some(state->Locked_0.bbox)
                            &&& post.memory().last_refresh_ns == now_ns
                        }
                        &&& outcome matches Ok(Some(_)) ==> state is Locked && post.backend()
                            == mid
                        &&& !(state is Locked) ==> !post.backend().active()
                    }
            },
{
    let cur = pre.memory().current_box->0;
    let (mid, pending) = fold_of_step(pre, frame, dets, now_ns, post, state);
    what_a_batch_nominates(pre, dets, mid, pending);
    let chosen = choose|chosen: Option<Detection>|
        {
            &&& pending is Some <==> chosen is Some
            &&& pending is Some ==> pending->0.bbox == chosen->0.bbox && pending->0.confidence
                == chosen->0.confidence && pending->0.source_detection_id == Some(chosen->0.id)
            &&& #[trigger] associated_choice(
                cur,
                dets,
                pre.config().min_conf,
                pre.config().iou_threshold,
                chosen,
            )
        };
    the_best_overlap_is_associated(
        cur,
        dets,
        pre.config().min_conf,
        pre.config().iou_threshold,
        chosen,
    );
    assert(chosen is Some);
    let i = choose|i: int|
        0 <= i < dets.len() && #[trigger] dets[i] == chosen->0 && dets[i].confidence.bits()
            >= pre.config().min_conf.bits() && forall|j: int|
            0 <= j < dets.len() && (#[trigger] dets[j]).confidence.bits()
                >= pre.config().min_conf.bits() && iou_num(cur, dets[j].bbox)
                * pre.config().iou_threshold.den() >= pre.config().iou_threshold.num() * iou_den(
                cur,
                dets[j].bbox,
            ) ==> {
                let (n, d) = (iou_num(cur, dets[i].bbox), iou_den(cur, dets[i].bbox));
                let (m, e) = (iou_num(cur, dets[j].bbox), iou_den(cur, dets[j].bbox));
                &&& m * d <= n * e
                &&& j > i ==> m * d < n * e
            };
    assert(dets[i] == chosen->0);
    if seedable(dets[i].bbox, pre.frame()) {
        what_a_refreshing_nomination_reports(mid, frame, now_ns, pending->0, post, state);
    }
}

/// A step with a batch locks a target that is not tracked yet exactly when
/// there is a candidate and an entry that agrees with it: the nearest such
/// entry is what the tracker is seeded with and what is reported. Every other
/// batch leaves the tracker alone, locks nothing, and leaves its most central
/// entry as the candidate.
pub proof fn a_batch_locks_what_agrees_with_the_candidate<T: Tracker>(
    pre: Stage<T>,
    frame: FrameView<'_>,
    dets: Seq<Detection>,
    now_ns: i64,
    post: Stage<T>,
    state: TrackState,
)
    requires
        may_advance(pre, frame, Some(dets), now_ns, post, state),
        !pre.backend().active(),
        pre.config().max_age_ns >= 0,
    ensures
        exists|confirmed: Option<Detection>, next: Option<Detection>|
            {
                &&& #[trigger] confirmation(
                    pre.memory().acquire_candidate,
                    dets,
                    pre.frame().width as int,
                    pre.frame().height as int,
                    pre.config().min_conf,
                    pre.config().gate_px,
                    confirmed,
                    next,
                )
                &&& confirmed is None || !seedable(confirmed->0.bbox, pre.frame())
                    ==> post.backend() == pre.backend() && !(state is Locked)
                    && post.memory().acquire_candidate == next
                &&& confirmed is Some && seedable(confirmed->0.bbox, pre.frame()) ==> exists|
                    mid: T,
                    seed: SeedBox,
                    outcome: Result<(), TrackerError>,
                |
                    {
                        &&& #[trigger] pre.backend().may_reinit(frame, seed, &mid, outcome)
                        &&& seed.bbox() == confirmed->0.bbox
                        &&& outcome is Ok ==> post.backend() == mid && state == TrackState::Locked(
                            HeldTrack {
                                bbox: confirmed->0.bbox,
                                confidence: confirmed->0.confidence,
                                source_detection_id: Some(confirmed->0.id),
                            },
                        ) && post.memory().current_box == Some(confirmed->0.bbox)
                            && post.memory().last_refresh_ns == now_ns
                            && post.memory().acquire_candidate is None
                        &&& outcome is Err ==> !post.backend().active() && !(state is Locked)
                    }
            },
{
    let (mid, pending) = fold_of_step(pre, frame, dets, now_ns, post, state);
    what_a_batch_nominates(pre, dets, mid, pending);
    let next = mid.memory().acquire_candidate;
    let chosen = choose|chosen: Option<Detection>|
        {
            &&& pending is Some <==> chosen is Some
            &&& pending is Some ==> pending->0.bbox == chosen->0.bbox && pending->0.confidence
                == chosen->0.confidence && pending->0.source_detection_id == Some(chosen->0.id)
            &&& #[trigger] confirmation(
                pre.memory().acquire_candidate,
                dets,
                pre.frame().width as int,
                pre.frame().height as int,
                pre.config().min_conf,
                pre.config().gate_px,
                chosen,
                next,
            )
        };
    if chosen is Some && seedable(chosen->0.bbox, pre.frame()) {
        what_a_seeding_nomination_reports(mid, frame, now_ns, pending->0, false, post, state);
    } else {
        what_an_idle_tracker_reports(mid, frame, now_ns, pending, false, post, state);
    }
}

/// A forced lock on a box that can be seeded, in full: the tracker is seeded
/// with the box, and the report carries the box, the given confidence or
/// none, and no source. It counts as a refresh. A box that cannot be seeded
/// only drops the waiting candidate, and the tracker steps on.
pub proof fn what_a_forced_lock_reports<T: Tracker>(
    pre: Stage<T>,
    frame: FrameView<'_>,
    bbox: BBox,
    now_ns: i64,
    matched_confidence: Option<Confidence>,
    post: Stage<T>,
    state: TrackState,
)
    requires
        may_force(pre, frame, bbox, now_ns, matched_confidence, post, state),
        pre.config().max_age_ns >= 0,
    ensures
        post.memory().acquire_candidate is None,
        seedable(bbox, pre.frame()) ==> exists|
            mid: T,
            seed: SeedBox,
            outcome: Result<(), TrackerError>,
        |
            {
                &&& #[trigger] pre.backend().may_reinit(frame, seed, &mid, outcome)
                &&& seed.bbox() == bbox
                &&& outcome is Ok ==> post.backend() == mid && state == TrackState::Locked(
                    HeldTrack {
                        bbox,
                        confidence: match matched_confidence {
                            Some(c) => c,
                            None => Confidence::of_bits(0),
                        },
                        source_detection_id: None,
                    },
                ) && post.memory().current_box == Some(bbox) && post.memory().last_refresh_ns
                    == now_ns
                &&& outcome is Err ==> !post.backend().active() && !(state is Locked)
            },
        !seedable(bbox, pre.frame()) && pre.backend().active() ==> exists|
            mid: T,
            outcome: Result<Option<BBox>, TrackerError>,
        |
            {
                &&& #[trigger] pre.backend().may_update(frame, &mid, outcome)
                &&& state is Locked ==> outcome == Ok::<Option<BBox>, TrackerError>(
                    Some(state->Locked_0.bbox),
                )
                &&& post.memory().last_refresh_ns == pre.memory().last_refresh_ns
                    || !post.backend().active()
            },
        !seedable(bbox, pre.frame()) && !pre.backend().active() ==> !(state is Locked)
            && post.backend() == pre.backend(),
{
    let p = forced(bbox, matched_confidence);
    let mid = choose|mid: Stage<T>|
        {
            &&& mid.backend() == pre.backend()
            &&& mid.frame() == pre.frame()
            &&& mid.config() == pre.config()
            &&& mid.memory() == (LockMemory { acquire_candidate: None, ..pre.memory() })
            &&& #[trigger] may_tick(mid, frame, now_ns, Some(p), true, post, state)
        };
    if seedable(bbox, pre.frame()) {
        what_a_seeding_nomination_reports(mid, frame, now_ns, p, true, post, state);
    } else if pre.backend().active() {
        what_a_step_without_nomination_reports(mid, frame, now_ns, Some(p), true, post, state);
    } else {
        what_an_idle_tracker_reports(mid, frame, now_ns, Some(p), true, post, state);
    }
}

/// A step is a tick without a nomination when there is no batch, and otherwise
/// the batch folded in and a tick with what it nominates, at the given time
/// and never forced. It leaves the policy and the dimensions of the frames
/// alone.
pub proof fn a_step_is_a_fold_and_a_tick<T: Tracker>(
    pre: Stage<T>,
    frame: FrameView<'_>,
    detections: Option<Seq<Detection>>,
    now_ns: i64,
    post: Stage<T>,
    state: TrackState,
)
    ensures
        detections is None ==> (may_advance(pre, frame, detections, now_ns, post, state)
            <==> may_tick(pre, frame, now_ns, None, false, post, state)),
        detections is Some ==> (may_advance(pre, frame, detections, now_ns, post, state)
            <==> exists|mid: Stage<T>, pending: Option<PendingLock>| #[trigger]
            may_fold(pre, detections->0, mid, pending) && may_tick(
                mid,
                frame,
                now_ns,
                pending,
                false,
                post,
                state,
            )),
        may_advance(pre, frame, detections, now_ns, post, state) ==> post.config() == pre.config()
            && post.frame() == pre.frame(),
{
    if may_advance(pre, frame, detections, now_ns, post, state) && detections is Some {
        let (mid, pending) = fold_of_step(pre, frame, detections->0, now_ns, post, state);
        assert(may_fold(pre, detections->0, mid, pending));
    }
}

/// A forced lock drops the waiting candidate and is a forced tick, at the given
/// time, with a nomination of the given box: with the given confidence or
/// none, and without a source. It leaves the policy and the dimensions of the
/// frames alone.
pub proof fn a_forced_lock_is_a_forced_tick<T: Tracker>(
    pre: Stage<T>,
    frame: FrameView<'_>,
    bbox: BBox,
    now_ns: i64,
    matched_confidence: Option<Confidence>,
    post: Stage<T>,
    state: TrackState,
    p: PendingLock,
)
    requires
        p.bbox == bbox,
        matched_confidence is Some ==> p.confidence == matched_confidence->0,
        matched_confidence is None ==> p.confidence == Confidence::of_bits(0),
        p.source_detection_id is None,
    ensures
        may_force(pre, frame, bbox, now_ns, matched_confidence, post, state) ==> post.config()
            == pre.config() && post.frame() == pre.frame() && exists|mid: Stage<T>|
            {
                &&& mid.backend() == pre.backend()
                &&& mid.frame() == pre.frame()
                &&& mid.config() == pre.config()
                &&& mid.memory().acquire_candidate is None
                &&& mid.memory().current_box == pre.memory().current_box
                &&& mid.memory().current_confidence == pre.memory().current_confidence
                &&& mid.memory().last_refresh_ns == pre.memory().last_refresh_ns
                &&& mid.memory().held == pre.memory().held
                &&& mid.memory().prev_state == pre.memory().prev_state
                &&& #[trigger] may_tick(mid, frame, now_ns, Some(p), true, post, state)
            },
{
    assert(p == forced(bbox, matched_confidence));
}

} // verus!
