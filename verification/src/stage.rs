//! The tracking state machine: acquisition, lock, refresh, loss, age-out.
//!
//! [`crate::session::TrackingSession`] wraps a [`Stage`] into a single call
//! per frame. Use `Stage` directly when detections and frames arrive on
//! different schedules.
//!
//! A tick has three parts. The nomination passes the seedability gate; the
//! tracker is asked for what the tick needs, and answers; and the
//! [`LockMemory`] settles on the answer. The last part is free of the
//! tracker, and decides alone what the tick reports.

use crate::acquisition::{
    associable, associated_choice, confirm_central, confirmation,
    confirmation_takes_two_agreeing_batches, last_best, match_detection, overlaps_more,
};
use crate::is_stale;
use crate::ratio::Ratio;
use crate::seed::{seedable, FrameDims, SeedBox};
use crate::tracker::{FrameView, Tracker, TrackerError};
use crate::types::{BBox, Confidence, Detection, HeldTrack, TrackState};
use vstd::prelude::*;

verus! {

/// A nomination for a lock. It still has to pass the seedability gate.
#[derive(Debug, Clone, Copy, PartialEq, Eq)]
pub struct PendingLock {
    pub bbox: BBox,
    pub confidence: Confidence,
    pub source_detection_id: Option<u64>,
}

/// The policy knobs.
#[derive(Debug, Clone, Copy, PartialEq, Eq)]
pub struct Config {
    /// The lowest confidence that counts.
    pub min_conf: Confidence,
    /// The overlap at which a detection refreshes a lock.
    pub iou_threshold: Ratio,
    /// How far apart, in pixels, two batches may be and still agree.
    pub gate_px: Ratio,
    /// How long a lock lasts without a refresh, in nanoseconds.
    pub max_age_ns: i64,
}

/// The bit pattern of the default confidence floor, three tenths.
pub const DEFAULT_MIN_CONF_BITS: u32 = 0x3E99_999A;

/// The default age limit, two seconds.
pub const DEFAULT_MAX_AGE_NS: i64 = 2_000_000_000;

impl Default for Config {
    /// Reasonable starting points for a stream of about 640x480 pixels and
    /// 10 to 30 frames per second.
    fn default() -> (r: Self)
        ensures
            r.min_conf.bits() == DEFAULT_MIN_CONF_BITS,
            r.iou_threshold.num() == 3 && r.iou_threshold.den() == 10,
            r.gate_px.num() == 50 && r.gate_px.den() == 1,
            r.max_age_ns == DEFAULT_MAX_AGE_NS,
            r.min_conf.bits() == 0x3E99_999A,
            r.max_age_ns == 2_000_000_000,
    {
        Config {
            min_conf: Confidence::clamp(DEFAULT_MIN_CONF_BITS),
            iou_threshold: Ratio::of(3, 10),
            gate_px: Ratio::of(50, 1),
            max_age_ns: DEFAULT_MAX_AGE_NS,
        }
    }
}

/// What the previous tick came to.
#[derive(Debug, Clone, Copy, PartialEq, Eq, Structural)]
pub enum StateTag {
    Idle,
    Locked,
    Lost,
}

/// What a stage remembers from tick to tick, apart from its tracker.
#[derive(Debug, Clone, Copy, PartialEq, Eq)]
pub struct LockMemory {
    /// The nomination of an earlier batch that waits to be confirmed.
    pub acquire_candidate: Option<Detection>,
    /// The box that detections are associated with.
    pub current_box: Option<BBox>,
    pub current_confidence: Confidence,
    pub last_refresh_ns: i64,
    /// The last box that was reported as locked. It outlives a `Lost` tick.
    pub held: Option<HeldTrack>,
    pub prev_state: StateTag,
}

/// How the tracker answered to what a tick asked of it.
#[derive(Debug, Clone, Copy, PartialEq, Eq)]
pub enum Answer {
    /// It was not asked: nothing was nominated and it was not active.
    NotAsked,
    /// It stepped forward and found the target.
    Found(BBox),
    /// It stepped forward and reports the target lost.
    Missing,
    /// Stepping forward failed.
    Failed,
    /// It was seeded with the nominated box.
    Seeded,
    /// Seeding failed.
    Refused,
}

/// What a tick comes to: the memory afterwards, what is reported, and
/// whether the tracker has to drop its target.
pub struct Settled {
    pub memory: LockMemory,
    pub state: TrackState,
    pub drop_target: bool,
}

/// The box that an answer gives, if any. A seeded tracker is where the
/// nomination put it.
pub open spec fn fresh_box(pending: Option<PendingLock>, answer: Answer) -> Option<BBox> {
    match answer {
        Answer::Found(b) => Some(b),
        Answer::Seeded => match pending {
            Some(p) => Some(p.bbox),
            None => None,
        },
        _ => None,
    }
}

/// The tracker failed, so its target has to be dropped.
pub open spec fn is_failure(answer: Answer) -> bool {
    answer is Failed || answer is Refused
}

/// The tracker holds a target after giving this answer.
pub open spec fn keeps_target(answer: Answer) -> bool {
    answer is Found || answer is Missing || answer is Seeded
}

/// The memory without a lock. Candidate, held box and previous state stay.
pub open spec fn unlocked(m: LockMemory) -> LockMemory {
    LockMemory {
        current_box: None,
        current_confidence: Confidence::of_bits(0),
        last_refresh_ns: 0,
        ..m
    }
}

/// The memory once the answer is taken in, before the age-out.
pub open spec fn taken_in(
    m: LockMemory,
    pending: Option<PendingLock>,
    answer: Answer,
    now_ns: i64,
) -> LockMemory {
    let b = fresh_box(pending, answer);
    if is_failure(answer) {
        unlocked(m)
    } else if b is None {
        m
    } else if pending is None {
        LockMemory { current_box: b, ..m }
    } else {
        LockMemory {
            acquire_candidate: None,
            current_box: b,
            current_confidence: pending->0.confidence,
            last_refresh_ns: now_ns,
            ..m
        }
    }
}

/// The lock has not been refreshed for too long.
pub open spec fn aged_out(m: LockMemory, answer: Answer, now_ns: i64, max_age_ns: i64) -> bool {
    keeps_target(answer) && now_ns - m.last_refresh_ns > max_age_ns
}

/// The tracker failed, but a target is held that has been refreshed in time.
/// Such a failure is a loss like any other.
pub open spec fn fails_in_time(
    m: LockMemory,
    answer: Answer,
    now_ns: i64,
    max_age_ns: i64,
) -> bool {
    answer is Failed && m.held is Some && now_ns - m.last_refresh_ns <= max_age_ns
}

/// What a tick comes to, for every answer of the tracker.
pub open spec fn settled(
    m: LockMemory,
    pending: Option<PendingLock>,
    answer: Answer,
    now_ns: i64,
    max_age_ns: i64,
) -> Settled {
    let taken = taken_in(m, pending, answer, now_ns);
    let stale = aged_out(taken, answer, now_ns, max_age_ns);
    let next = if stale {
        unlocked(taken)
    } else {
        taken
    };
    let b = fresh_box(pending, answer);
    let drop_target = is_failure(answer) || stale;
    if b is Some && !stale {
        let held = HeldTrack {
            bbox: b->0,
            confidence: next.current_confidence,
            source_detection_id: match pending {
                Some(p) => p.source_detection_id,
                None => None,
            },
        };
        Settled {
            memory: LockMemory { held: Some(held), prev_state: StateTag::Locked, ..next },
            state: TrackState::Locked(held),
            drop_target,
        }
    } else if (keeps_target(answer) && !stale) || m.prev_state is Locked || fails_in_time(
        m,
        answer,
        now_ns,
        max_age_ns,
    ) {
        Settled {
            memory: LockMemory { prev_state: StateTag::Lost, ..next },
            state: match m.held {
                Some(h) => TrackState::Lost(h),
                None => TrackState::Idle,
            },
            drop_target,
        }
    } else {
        Settled {
            memory: LockMemory { held: None, prev_state: StateTag::Idle, ..next },
            state: TrackState::Idle,
            drop_target,
        }
    }
}

impl LockMemory {
    /// Nothing remembered.
    pub open spec fn blank() -> Self {
        LockMemory {
            acquire_candidate: None,
            current_box: None,
            current_confidence: Confidence::of_bits(0),
            last_refresh_ns: 0,
            held: None,
            prev_state: StateTag::Idle,
        }
    }

    pub fn new() -> (r: Self)
        ensures
            r == Self::blank(),
    {
        LockMemory {
            acquire_candidate: None,
            current_box: None,
            current_confidence: Confidence::zero(),
            last_refresh_ns: 0,
            held: None,
            prev_state: StateTag::Idle,
        }
    }

    /// Forgets the lock. Candidate, held box and previous state stay.
    fn reset_lock_state(&mut self)
        ensures
            *final(self) == unlocked(*old(self)),
    {
        self.current_box = None;
        self.current_confidence = Confidence::zero();
        self.last_refresh_ns = 0;
    }

    /// Takes in the answer of the tracker, lets a stale lock age out, and
    /// assembles what this tick reports. The second part of the result says
    /// whether the tracker has to drop its target.
    pub fn settle(
        &mut self,
        pending: Option<PendingLock>,
        answer: Answer,
        now_ns: i64,
        max_age_ns: i64,
    ) -> (r: (TrackState, bool))
        ensures
            *final(self) == settled(*old(self), pending, answer, now_ns, max_age_ns).memory,
            r.0 == settled(*old(self), pending, answer, now_ns, max_age_ns).state,
            r.1 == settled(*old(self), pending, answer, now_ns, max_age_ns).drop_target,
    {
        let mut box_out: Option<BBox> = match answer {
            Answer::Found(b) => Some(b),
            Answer::Seeded => match pending {
                Some(p) => Some(p.bbox),
                None => None,
            },
            _ => None,
        };
        let mut box_source_id: Option<u64> = None;
        let mut drop_target: bool = false;
        let mut alive: bool = false;
        // A failure drops the target, but is reported as any other loss.
        let mut failed_in_time: bool = false;
        match answer {
            Answer::Failed => {
                failed_in_time = self.held.is_some() && !is_stale(
                    self.last_refresh_ns,
                    now_ns,
                    max_age_ns,
                );
                self.reset_lock_state();
                drop_target = true;
            },
            Answer::Refused => {
                self.reset_lock_state();
                drop_target = true;
            },
            Answer::Found(_) | Answer::Missing | Answer::Seeded => {
                alive = true;
                if let Some(b) = box_out {
                    self.current_box = Some(b);
                    if let Some(p) = pending {
                        box_source_id = p.source_detection_id;
                        self.acquire_candidate = None;
                        self.current_confidence = p.confidence;
                        self.last_refresh_ns = now_ns;
                    }
                }
            },
            Answer::NotAsked => {},
        }
        if alive && is_stale(self.last_refresh_ns, now_ns, max_age_ns) {
            self.reset_lock_state();
            drop_target = true;
            alive = false;
            box_out = None;
        }
        if let Some(b) = box_out {
            let held = HeldTrack {
                bbox: b,
                confidence: self.current_confidence,
                source_detection_id: box_source_id,
            };
            self.held = Some(held);
            self.prev_state = StateTag::Locked;
            (TrackState::Locked(held), drop_target)
        } else if alive || failed_in_time || self.prev_state == StateTag::Locked {
            self.prev_state = StateTag::Lost;
            match self.held {
                Some(h) => (TrackState::Lost(h), drop_target),
                // A loss always follows a lock that set the held box, unless
                // the tracker was handed over with a target already.
                None => (TrackState::Idle, drop_target),
            }
        } else {
            self.prev_state = StateTag::Idle;
            self.held = None;
            (TrackState::Idle, drop_target)
        }
    }
}

/// Owns one lock across ticks: the tracker, the policy, and the memory.
pub struct Stage<T: Tracker> {
    tracker: T,
    frame: FrameDims,
    config: Config,
    memory: LockMemory,
}

/// The nomination, if it passes the seedability gate.
pub open spec fn nominated(pending: Option<PendingLock>, frame: FrameDims) -> Option<PendingLock> {
    if pending is Some && seedable(pending->0.bbox, frame) {
        pending
    } else {
        None
    }
}

/// A nomination has to seed the tracker anew, rather than let it step on.
pub open spec fn needs_seed(active: bool, m: LockMemory, force_reinit: bool) -> bool {
    force_reinit || !active || m.prev_state is Lost
}

/// Seeding `pre` with the box `b` may leave `post` and this answer.
pub open spec fn may_seed<T: Tracker>(
    pre: T,
    frame: FrameView<'_>,
    b: BBox,
    post: T,
    answer: Answer,
) -> bool {
    exists|seed: SeedBox, outcome: Result<(), TrackerError>| #[trigger]
        pre.may_reinit(frame, seed, &post, outcome) && seed.bbox() == b && (match outcome {
            Ok(_) => answer == Answer::Seeded && post.active(),
            Err(_) => answer == Answer::Refused,
        })
}

/// Stepping `pre` forward may leave `post` and this answer.
pub open spec fn may_step<T: Tracker>(
    pre: T,
    frame: FrameView<'_>,
    post: T,
    answer: Answer,
) -> bool {
    exists|outcome: Result<Option<BBox>, TrackerError>| #[trigger]
        pre.may_update(frame, &post, outcome) && post.active() == pre.active() && answer == (
        match outcome {
            Ok(Some(b)) => Answer::Found(b),
            Ok(None) => Answer::Missing,
            Err(_) => Answer::Failed,
        })
}

/// What a tick asks of the tracker, and how it may answer:
///
/// * Without a nomination, an active tracker steps forward and an inactive
///   one is left alone.
/// * With one that has to seed, the tracker is seeded.
/// * With any other, the tracker steps forward, and is seeded when that does
///   not find the target.
pub open spec fn may_answer<T: Tracker>(
    pre: T,
    frame: FrameView<'_>,
    pending: Option<PendingLock>,
    seed_anew: bool,
    post: T,
    answer: Answer,
) -> bool {
    match pending {
        None => if pre.active() {
            may_step(pre, frame, post, answer)
        } else {
            post == pre && answer == Answer::NotAsked
        },
        Some(p) => if seed_anew {
            may_seed(pre, frame, p.bbox, post, answer)
        } else {
            ||| answer is Found && may_step(pre, frame, post, answer)
            ||| exists|mid: T, missed: Answer| #[trigger]
                may_step(pre, frame, mid, missed) && !(missed is Found) && may_seed(
                    mid,
                    frame,
                    p.bbox,
                    post,
                    answer,
                )
        },
    }
}

/// A tick may take the stage from `pre` to `post` and report `state`.
pub open spec fn may_tick<T: Tracker>(
    pre: Stage<T>,
    frame: FrameView<'_>,
    now_ns: i64,
    pending: Option<PendingLock>,
    force_reinit: bool,
    post: Stage<T>,
    state: TrackState,
) -> bool {
    let p = nominated(pending, pre.frame());
    let seed_anew = needs_seed(pre.backend().active(), pre.memory(), force_reinit);
    &&& post.frame() == pre.frame()
    &&& post.config() == pre.config()
    &&& exists|mid: T, answer: Answer| #[trigger]
        may_answer(pre.backend(), frame, p, seed_anew, mid, answer) && ({
            let s = settled(pre.memory(), p, answer, now_ns, pre.config().max_age_ns);
            &&& post.memory() == s.memory
            &&& state == s.state
            &&& if s.drop_target {
                mid.may_reset(&post.backend()) && !post.backend().active()
            } else {
                post.backend() == mid && post.backend().active() == keeps_target(answer)
            }
        })
}

/// The nomination that a chosen detection makes.
pub open spec fn nomination(chosen: Option<Detection>) -> Option<PendingLock> {
    match chosen {
        Some(d) => Some(
            PendingLock {
                bbox: d.bbox,
                confidence: d.confidence,
                source_detection_id: Some(d.id),
            },
        ),
        None => None,
    }
}

/// The detection of a batch that is nominated, and the candidate that is
/// carried on: two-batch confirmation without a lock, overlap association
/// with one.
pub open spec fn batch_choice(
    active: bool,
    m: LockMemory,
    frame: FrameDims,
    config: Config,
    dets: Seq<Detection>,
    chosen: Option<Detection>,
    next_candidate: Option<Detection>,
) -> bool {
    if !active {
        confirmation(
            m.acquire_candidate,
            dets,
            frame.width as int,
            frame.height as int,
            config.min_conf,
            config.gate_px,
            chosen,
            next_candidate,
        )
    } else {
        next_candidate == m.acquire_candidate && match m.current_box {
            Some(cur) => associated_choice(
                cur,
                dets,
                config.min_conf,
                config.iou_threshold,
                chosen,
            ),
            None => chosen is None,
        }
    }
}

/// Folding in a batch may take the stage from `pre` to `post` and nominate
/// `pending`.
pub open spec fn may_fold<T: Tracker>(
    pre: Stage<T>,
    dets: Seq<Detection>,
    post: Stage<T>,
    pending: Option<PendingLock>,
) -> bool {
    &&& post.backend() == pre.backend()
    &&& post.frame() == pre.frame()
    &&& post.config() == pre.config()
    &&& exists|chosen: Option<Detection>, next: Option<Detection>| #[trigger]
        batch_choice(
            pre.backend().active(),
            pre.memory(),
            pre.frame(),
            pre.config(),
            dets,
            chosen,
            next,
        ) && pending == nomination(chosen) && post.memory() == (LockMemory {
            acquire_candidate: next,
            ..pre.memory()
        })
}

impl<T: Tracker> Stage<T> {
    /// The tracker.
    pub closed spec fn backend(&self) -> T {
        self.tracker
    }

    /// The dimensions of the frames.
    pub closed spec fn frame(&self) -> FrameDims {
        self.frame
    }

    /// The policy.
    pub closed spec fn config(&self) -> Config {
        self.config
    }

    /// What is remembered from tick to tick.
    pub closed spec fn memory(&self) -> LockMemory {
        self.memory
    }

    pub fn new(tracker: T, frame_w: i64, frame_h: i64, config: Config) -> (r: Self)
        ensures
            r.backend() == tracker,
            r.frame() == (FrameDims { width: frame_w, height: frame_h }),
            r.config() == config,
            r.memory() == LockMemory::blank(),
    {
        Stage {
            tracker,
            frame: FrameDims { width: frame_w, height: frame_h },
            config,
            memory: LockMemory::new(),
        }
    }

    pub fn tracker(&self) -> (r: &T)
        ensures
            *r == self.backend(),
    {
        &self.tracker
    }

    /// Folds in one detector batch and returns the nomination it leads to.
    /// With nothing locked, that is the two-batch confirmation; with a lock,
    /// the overlap association against the current box.
    pub fn on_detection_batch(&mut self, detections: &[Detection]) -> (r: Option<PendingLock>)
        ensures
            may_fold(*old(self), detections@, *final(self), r),
    {
        let chosen: Option<Detection> = if !self.tracker.is_active() {
            let (confirmed, next) = confirm_central(
                self.memory.acquire_candidate,
                detections,
                self.frame.width,
                self.frame.height,
                self.config.min_conf,
                self.config.gate_px,
            );
            self.memory.acquire_candidate = next;
            confirmed
        } else {
            match self.memory.current_box {
                Some(cur) => match_detection(
                    cur,
                    detections,
                    self.config.min_conf,
                    self.config.iou_threshold,
                ),
                None => None,
            }
        };
        assert(batch_choice(
            old(self).backend().active(),
            old(self).memory(),
            old(self).frame(),
            old(self).config(),
            detections@,
            chosen,
            self.memory.acquire_candidate,
        ));
        match chosen {
            Some(d) => Some(
                PendingLock {
                    bbox: d.bbox,
                    confidence: d.confidence,
                    source_detection_id: Some(d.id),
                },
            ),
            None => None,
        }
    }

    /// An external command to lock onto `bbox`. It beats every nomination
    /// and drops a confirmation in progress, so that this cannot leak into a
    /// later lock.
    pub fn on_force_lock(&mut self, bbox: BBox, matched_confidence: Option<Confidence>) -> (r:
        PendingLock)
        ensures
            final(self).backend() == old(self).backend(),
            final(self).frame() == old(self).frame(),
            final(self).config() == old(self).config(),
            final(self).memory() == (LockMemory {
                acquire_candidate: None,
                ..old(self).memory()
            }),
            r == forced(bbox, matched_confidence),
            r.bbox == bbox,
            matched_confidence is Some ==> r.confidence == matched_confidence->0,
            matched_confidence is None ==> r.confidence == Confidence::of_bits(0),
            r.source_detection_id is None,
    {
        self.memory.acquire_candidate = None;
        PendingLock {
            bbox,
            confidence: match matched_confidence {
                Some(c) => c,
                None => Confidence::zero(),
            },
            source_detection_id: None,
        }
    }

    /// Gates the nomination, lets the tracker do its part on `frame`, lets a
    /// stale lock age out, and reports this tick's state. `force_reinit` is
    /// meant for nominations of [`Stage::on_force_lock`].
    pub fn tick(
        &mut self,
        frame: FrameView<'_>,
        now_ns: i64,
        pending: Option<PendingLock>,
        force_reinit: bool,
    ) -> (r: TrackState)
        requires
            frame.wf(),
        ensures
            may_tick(*old(self), frame, now_ns, pending, force_reinit, *final(self), r),
    {
        // A nomination that the backend cannot seed is dropped here.
        let gated: Option<(PendingLock, SeedBox)> = match pending {
            Some(p) => match SeedBox::gate(p.bbox, self.frame) {
                Some(seed) => Some((p, seed)),
                None => None,
            },
            None => None,
        };
        let active: bool = self.tracker.is_active();
        let answer: Answer = match gated {
            Some((_, seed)) => {
                let seed_anew: bool = force_reinit || !active || self.memory.prev_state
                    == StateTag::Lost;
                let mut raw: Option<BBox> = None;
                if !seed_anew {
                    let outcome = self.tracker.update(frame);
                    proof {
                        let missed = match outcome {
                            Ok(Some(b)) => Answer::Found(b),
                            Ok(None) => Answer::Missing,
                            Err(_) => Answer::Failed,
                        };
                        assert(may_step(old(self).backend(), frame, self.tracker, missed));
                    }
                    if let Ok(Some(b)) = outcome {
                        raw = Some(b);
                    }
                }
                match raw {
                    Some(b) => Answer::Found(b),
                    None => {
                        let ghost stepped = self.tracker;
                        let seeded = self.tracker.reinit(frame, seed);
                        let answer = match seeded {
                            Ok(()) => Answer::Seeded,
                            Err(_) => Answer::Refused,
                        };
                        assert(may_seed(stepped, frame, seed.bbox(), self.tracker, answer));
                        answer
                    },
                }
            },
            None => if active {
                match self.tracker.update(frame) {
                    Ok(Some(b)) => Answer::Found(b),
                    Ok(None) => Answer::Missing,
                    Err(_) => Answer::Failed,
                }
            } else {
                Answer::NotAsked
            },
        };
        let kept: Option<PendingLock> = match gated {
            Some((p, _)) => Some(p),
            None => None,
        };
        let ghost mid = self.tracker;
        let (state, drop_target): (TrackState, bool) = self.memory.settle(
            kept,
            answer,
            now_ns,
            self.config.max_age_ns,
        );
        if drop_target {
            self.tracker.reset();
        }
        assert(may_answer(
            old(self).backend(),
            frame,
            nominated(pending, old(self).frame()),
            needs_seed(old(self).backend().active(), old(self).memory(), force_reinit),
            mid,
            answer,
        ));
        state
    }
}

/// The nomination that a command to lock makes.
pub open spec fn forced(bbox: BBox, matched_confidence: Option<Confidence>) -> PendingLock {
    PendingLock {
        bbox,
        confidence: match matched_confidence {
            Some(c) => c,
            None => Confidence::of_bits(0),
        },
        source_detection_id: None,
    }
}

/// The memory fits to a tracker that is or is not active: there is a held
/// box after a lock, and an active tracker comes with a held box, a current
/// box and a state other than idle.
pub open spec fn is_consistent<T: Tracker>(s: Stage<T>) -> bool {
    &&& s.memory().prev_state is Locked ==> s.memory().held is Some
    &&& s.backend().active() ==> {
        &&& s.memory().held is Some
        &&& s.memory().current_box is Some
        &&& !(s.memory().prev_state is Idle)
    }
}

/// A stage that is given an idle tracker starts out consistent.
pub proof fn a_new_stage_is_consistent<T: Tracker>(s: Stage<T>)
    requires
        s.memory() == LockMemory::blank(),
        !s.backend().active(),
    ensures
        is_consistent(s),
{
}

/// Folding in a batch keeps a stage consistent.
pub proof fn batches_keep_a_stage_consistent<T: Tracker>(
    pre: Stage<T>,
    dets: Seq<Detection>,
    post: Stage<T>,
    pending: Option<PendingLock>,
)
    requires
        is_consistent(pre),
        may_fold(pre, dets, post, pending),
    ensures
        is_consistent(post),
{
}

/// Every tick goes through an answer of the tracker and what the memory
/// settles on: this gives the tracker after it answered, and the answer.
pub proof fn answer_of_tick<T: Tracker>(
    pre: Stage<T>,
    frame: FrameView<'_>,
    now_ns: i64,
    pending: Option<PendingLock>,
    force_reinit: bool,
    post: Stage<T>,
    state: TrackState,
) -> (r: (T, Answer))
    requires
        may_tick(pre, frame, now_ns, pending, force_reinit, post, state),
    ensures
        ({
            let p = nominated(pending, pre.frame());
            let seed_anew = needs_seed(pre.backend().active(), pre.memory(), force_reinit);
            let s = settled(pre.memory(), p, r.1, now_ns, pre.config().max_age_ns);
            &&& may_answer(pre.backend(), frame, p, seed_anew, r.0, r.1)
            &&& post.memory() == s.memory
            &&& state == s.state
            &&& s.drop_target ==> r.0.may_reset(&post.backend()) && !post.backend().active()
            &&& !s.drop_target ==> post.backend() == r.0 && post.backend().active()
                == keeps_target(r.1)
        }),
{
    let p = nominated(pending, pre.frame());
    let seed_anew = needs_seed(pre.backend().active(), pre.memory(), force_reinit);
    choose|mid: T, answer: Answer| #[trigger]
        may_answer(pre.backend(), frame, p, seed_anew, mid, answer) && ({
            let s = settled(pre.memory(), p, answer, now_ns, pre.config().max_age_ns);
            &&& post.memory() == s.memory
            &&& state == s.state
            &&& if s.drop_target {
                mid.may_reset(&post.backend()) && !post.backend().active()
            } else {
                post.backend() == mid && post.backend().active() == keeps_target(answer)
            }
        })
}

/// A tick keeps a stage consistent. In a consistent stage a tick reports
/// `Idle` only when the stage is idle afterwards, with no held box left.
pub proof fn ticks_keep_a_stage_consistent<T: Tracker>(
    pre: Stage<T>,
    frame: FrameView<'_>,
    now_ns: i64,
    pending: Option<PendingLock>,
    force_reinit: bool,
    post: Stage<T>,
    state: TrackState,
)
    requires
        is_consistent(pre),
        may_tick(pre, frame, now_ns, pending, force_reinit, post, state),
    ensures
        is_consistent(post),
        state is Idle <==> post.memory().prev_state is Idle,
        state is Idle ==> post.memory().held is None && !post.backend().active(),
        state is Locked <==> post.memory().prev_state is Locked,
        state is Lost <==> post.memory().prev_state is Lost,
{
    let (_, answer) = answer_of_tick(pre, frame, now_ns, pending, force_reinit, post, state);
    if answer is Missing {
        assert(nominated(pending, pre.frame()) is None ==> pre.backend().active());
    }
}

/// A loss is reported with the box of the last lock, and that box stays
/// held. No tick makes up a box.
pub proof fn a_loss_carries_the_held_box<T: Tracker>(
    pre: Stage<T>,
    frame: FrameView<'_>,
    now_ns: i64,
    pending: Option<PendingLock>,
    force_reinit: bool,
    post: Stage<T>,
    state: TrackState,
)
    requires
        may_tick(pre, frame, now_ns, pending, force_reinit, post, state),
        state is Lost,
    ensures
        pre.memory().held == Some(state->Lost_0),
        post.memory().held == Some(state->Lost_0),
{
}

/// A lock is held: its box is what the next loss will carry.
pub proof fn a_lock_is_held<T: Tracker>(
    pre: Stage<T>,
    frame: FrameView<'_>,
    now_ns: i64,
    pending: Option<PendingLock>,
    force_reinit: bool,
    post: Stage<T>,
    state: TrackState,
)
    requires
        may_tick(pre, frame, now_ns, pending, force_reinit, post, state),
        state is Locked,
    ensures
        post.memory().held == Some(state->Locked_0),
        post.memory().current_box == Some(state->Locked_0.bbox),
        post.memory().current_confidence == state->Locked_0.confidence,
        post.backend().active(),
{
    let _ = answer_of_tick(pre, frame, now_ns, pending, force_reinit, post, state);
}

/// No stale lock outlives a tick.
pub proof fn no_stale_lock_survives<T: Tracker>(
    pre: Stage<T>,
    frame: FrameView<'_>,
    now_ns: i64,
    pending: Option<PendingLock>,
    force_reinit: bool,
    post: Stage<T>,
    state: TrackState,
)
    requires
        may_tick(pre, frame, now_ns, pending, force_reinit, post, state),
        post.backend().active(),
    ensures
        now_ns - post.memory().last_refresh_ns <= pre.config().max_age_ns,
{
    let _ = answer_of_tick(pre, frame, now_ns, pending, force_reinit, post, state);
}

/// Without a nomination, a lock that was not refreshed for too long is
/// dropped: it is reported as lost if it was locked until now, and as idle
/// if it was lost already.
pub proof fn a_stale_lock_ages_out<T: Tracker>(
    pre: Stage<T>,
    frame: FrameView<'_>,
    now_ns: i64,
    post: Stage<T>,
    state: TrackState,
)
    requires
        is_consistent(pre),
        pre.backend().active(),
        now_ns - pre.memory().last_refresh_ns > pre.config().max_age_ns,
        may_tick(pre, frame, now_ns, None, false, post, state),
    ensures
        !post.backend().active(),
        post.memory().current_box is None,
        pre.memory().prev_state is Locked ==> state == TrackState::Lost(pre.memory().held->0),
        pre.memory().prev_state is Lost ==> state is Idle,
{
    let _ = answer_of_tick(pre, frame, now_ns, None, false, post, state);
}

/// A tracker that reports the target lost and one that fails are reported
/// alike, whatever is remembered and nominated. After a lock, and while a
/// lost target is not stale yet, the report is a loss that carries the held
/// box.
pub proof fn a_missing_target_and_a_failure_are_reported_alike(
    m: LockMemory,
    pending: Option<PendingLock>,
    now_ns: i64,
    max_age_ns: i64,
)
    ensures
        settled(m, pending, Answer::Missing, now_ns, max_age_ns).state == settled(
            m,
            pending,
            Answer::Failed,
            now_ns,
            max_age_ns,
        ).state,
        m.held is Some && (m.prev_state is Locked || now_ns - m.last_refresh_ns <= max_age_ns)
            ==> settled(m, pending, Answer::Failed, now_ns, max_age_ns).state
            == TrackState::Lost(m.held->0),
{
}

/// A target that an active tracker does not find is a loss with the held box,
/// never idle, as long as the lock is not stale: whether the tracker reports
/// it lost or fails.
pub proof fn a_target_that_is_not_found_in_time_is_lost<T: Tracker>(
    pre: Stage<T>,
    frame: FrameView<'_>,
    now_ns: i64,
    post: Stage<T>,
    state: TrackState,
)
    requires
        is_consistent(pre),
        pre.backend().active(),
        may_tick(pre, frame, now_ns, None, false, post, state),
        !(state is Locked),
        now_ns - pre.memory().last_refresh_ns <= pre.config().max_age_ns,
    ensures
        state == TrackState::Lost(pre.memory().held->0),
{
    let _ = answer_of_tick(pre, frame, now_ns, None, false, post, state);
}

/// A nomination that cannot be seeded is as good as none, forced or not.
pub proof fn an_unseedable_nomination_is_ignored<T: Tracker>(
    pre: Stage<T>,
    frame: FrameView<'_>,
    now_ns: i64,
    pending: PendingLock,
    force_reinit: bool,
    post: Stage<T>,
    state: TrackState,
)
    requires
        !seedable(pending.bbox, pre.frame()),
    ensures
        may_tick(pre, frame, now_ns, Some(pending), force_reinit, post, state) <==> may_tick(
            pre,
            frame,
            now_ns,
            None,
            false,
            post,
            state,
        ),
{
    if may_tick(pre, frame, now_ns, Some(pending), force_reinit, post, state) {
        let (mid, answer) = answer_of_tick(
            pre,
            frame,
            now_ns,
            Some(pending),
            force_reinit,
            post,
            state,
        );
        assert(may_answer(
            pre.backend(),
            frame,
            None,
            needs_seed(pre.backend().active(), pre.memory(), false),
            mid,
            answer,
        ));
    }
    if may_tick(pre, frame, now_ns, None, false, post, state) {
        let (mid, answer) = answer_of_tick(pre, frame, now_ns, None, false, post, state);
        assert(may_answer(
            pre.backend(),
            frame,
            None,
            needs_seed(pre.backend().active(), pre.memory(), force_reinit),
            mid,
            answer,
        ));
    }
}

/// Without a nomination, a tick leaves a waiting candidate alone.
pub proof fn a_tick_without_nomination_keeps_the_candidate<T: Tracker>(
    pre: Stage<T>,
    frame: FrameView<'_>,
    now_ns: i64,
    force_reinit: bool,
    post: Stage<T>,
    state: TrackState,
)
    requires
        may_tick(pre, frame, now_ns, None, force_reinit, post, state),
    ensures
        post.memory().acquire_candidate == pre.memory().acquire_candidate,
{
}

/// A healthy refresh does not seed anew: where stepping the tracker cannot
/// miss the target, a nomination over a healthy lock only steps it, and the
/// box that it finds is reported with the nomination's confidence and id.
pub proof fn a_healthy_refresh_only_steps<T: Tracker>(
    pre: Stage<T>,
    frame: FrameView<'_>,
    now_ns: i64,
    pending: PendingLock,
    post: Stage<T>,
    state: TrackState,
)
    requires
        may_tick(pre, frame, now_ns, Some(pending), false, post, state),
        seedable(pending.bbox, pre.frame()),
        pre.backend().active(),
        !(pre.memory().prev_state is Lost),
        pre.config().max_age_ns >= 0,
        forall|mid: T, a: Answer| #[trigger]
            may_step(pre.backend(), frame, mid, a) ==> a is Found,
    ensures
        exists|b: BBox| #[trigger]
            may_step(pre.backend(), frame, post.backend(), Answer::Found(b)) && state
                == TrackState::Locked(
                HeldTrack {
                    bbox: b,
                    confidence: pending.confidence,
                    source_detection_id: pending.source_detection_id,
                },
            ),
{
    let (mid, answer) = answer_of_tick(pre, frame, now_ns, Some(pending), false, post, state);
    assert(answer is Found);
    assert(may_step(pre.backend(), frame, post.backend(), Answer::Found(answer->Found_0)));
}

/// A forced nomination that can be seeded always seeds the tracker, even
/// over a healthy lock. Unless seeding fails, the tick reports a lock on
/// exactly the nominated box; if it fails, the target is dropped.
pub proof fn a_forced_lock_always_seeds<T: Tracker>(
    pre: Stage<T>,
    frame: FrameView<'_>,
    now_ns: i64,
    pending: PendingLock,
    post: Stage<T>,
    state: TrackState,
)
    requires
        may_tick(pre, frame, now_ns, Some(pending), true, post, state),
        seedable(pending.bbox, pre.frame()),
        pre.config().max_age_ns >= 0,
    ensures
        exists|mid: T, a: Answer|
            {
                &&& #[trigger] may_seed(pre.backend(), frame, pending.bbox, mid, a)
                &&& a is Seeded ==> post.backend() == mid && state == TrackState::Locked(
                    HeldTrack {
                        bbox: pending.bbox,
                        confidence: pending.confidence,
                        source_detection_id: pending.source_detection_id,
                    },
                )
                &&& !(a is Seeded) ==> !post.backend().active() && !(state is Locked)
            },
{
    let (mid, answer) = answer_of_tick(pre, frame, now_ns, Some(pending), true, post, state);
    assert(may_seed(pre.backend(), frame, pending.bbox, mid, answer));
}

/// A batch that meets no candidate and no lock nominates nothing.
pub proof fn one_batch_never_nominates<T: Tracker>(
    pre: Stage<T>,
    dets: Seq<Detection>,
    post: Stage<T>,
    pending: Option<PendingLock>,
)
    requires
        may_fold(pre, dets, post, pending),
        !pre.backend().active(),
        pre.memory().acquire_candidate is None,
    ensures
        pending is None,
{
}

/// An empty batch nominates nothing and, without a lock, drops the
/// candidate that waits for confirmation.
pub proof fn an_empty_batch_drops_a_waiting_candidate<T: Tracker>(
    pre: Stage<T>,
    post: Stage<T>,
    pending: Option<PendingLock>,
)
    requires
        may_fold(pre, Seq::empty(), post, pending),
    ensures
        pending is None,
        !pre.backend().active() ==> post.memory().acquire_candidate is None,
        pre.backend().active() ==> post.memory() == pre.memory(),
{
}

/// What a batch nominates is one of its detections, and confident enough.
pub proof fn nominations_come_from_the_batch<T: Tracker>(
    pre: Stage<T>,
    dets: Seq<Detection>,
    post: Stage<T>,
    pending: Option<PendingLock>,
)
    requires
        may_fold(pre, dets, post, pending),
        pending is Some,
    ensures
        exists|i: int|
            0 <= i < dets.len() && pending == nomination(Some(#[trigger] dets[i]))
                && dets[i].confidence.bits() >= pre.config().min_conf.bits(),
{
    let (chosen, next) = choose|chosen: Option<Detection>, next: Option<Detection>| #[trigger]
        batch_choice(
            pre.backend().active(),
            pre.memory(),
            pre.frame(),
            pre.config(),
            dets,
            chosen,
            next,
        ) && pending == nomination(chosen);
    let config = pre.config();
    if !pre.backend().active() {
        confirmation_takes_two_agreeing_batches(
            pre.memory().acquire_candidate,
            dets,
            pre.frame().width as int,
            pre.frame().height as int,
            config.min_conf,
            config.gate_px,
            chosen,
            next,
        );
        let i = choose|i: int| 0 <= i < dets.len() && dets[i] == chosen->0;
        assert(pending == nomination(Some(dets[i])));
    } else {
        let cur = pre.memory().current_box->0;
        let i = choose|i: int| #[trigger]
            last_best(
                dets,
                associable(cur, config.min_conf, config.iou_threshold),
                overlaps_more(cur),
                i,
            ) && chosen->0 == dets[i];
        assert(pending == nomination(Some(dets[i])));
    }
}

/// What a tick without a usable nomination does to a tracker that holds a
/// target. The tracker steps forward once, and:
///
/// * A box that it gives in time is reported as locked, in all four
///   coordinates, with the confidence of the last refresh and no source. It
///   becomes the current box. It does not count as a refresh.
/// * When it gives none in time, the held box is reported as lost, and the
///   current box stays.
/// * When it fails, the target is dropped. The held box is reported as lost
///   while the last refresh is recent enough, or after a lock.
/// * When the last refresh is too long ago, the target is dropped, whatever
///   the tracker gives. After a lock the held box is reported as lost, and
///   otherwise nothing.
pub proof fn what_a_step_without_nomination_reports<T: Tracker>(
    pre: Stage<T>,
    frame: FrameView<'_>,
    now_ns: i64,
    pending: Option<PendingLock>,
    force_reinit: bool,
    post: Stage<T>,
    state: TrackState,
)
    requires
        may_tick(pre, frame, now_ns, pending, force_reinit, post, state),
        pending is None || !seedable(pending->0.bbox, pre.frame()),
        pre.backend().active(),
    ensures
        exists|mid: T, outcome: Result<Option<BBox>, TrackerError>|
            {
                let m = pre.memory();
                let in_time = now_ns - m.last_refresh_ns <= pre.config().max_age_ns;
                let lost = match m.held {
                    Some(h) => TrackState::Lost(h),
                    None => TrackState::Idle,
                };
                &&& #[trigger] pre.backend().may_update(frame, &mid, outcome)
                &&& in_time ==> match outcome {
                    Ok(Some(b)) => {
                        let held = HeldTrack {
                            bbox: b,
                            confidence: m.current_confidence,
                            source_detection_id: None,
                        };
                        &&& state == TrackState::Locked(held)
                        &&& post.backend() == mid
                        &&& post.backend().active()
                        &&& post.memory() == (LockMemory {
                            acquire_candidate: m.acquire_candidate,
                            current_box: Some(b),
                            current_confidence: m.current_confidence,
                            last_refresh_ns: m.last_refresh_ns,
                            held: Some(held),
                            prev_state: StateTag::Locked,
                        })
                    },
                    Ok(None) => {
                        &&& state == lost
                        &&& post.backend() == mid
                        &&& post.backend().active()
                        &&& post.memory() == (LockMemory {
                            acquire_candidate: m.acquire_candidate,
                            current_box: m.current_box,
                            current_confidence: m.current_confidence,
                            last_refresh_ns: m.last_refresh_ns,
                            held: m.held,
                            prev_state: StateTag::Lost,
                        })
                    },
                    Err(_) => {
                        let is_loss = m.held is Some || m.prev_state is Locked;
                        &&& state == lost
                        &&& mid.may_reset(&post.backend())
                        &&& !post.backend().active()
                        &&& post.memory() == (LockMemory {
                            acquire_candidate: m.acquire_candidate,
                            current_box: None,
                            current_confidence: Confidence::of_bits(0),
                            last_refresh_ns: 0,
                            held: m.held,
                            prev_state: if is_loss {
                                StateTag::Lost
                            } else {
                                StateTag::Idle
                            },
                        })
                    },
                }
                &&& !in_time ==> {
                    &&& mid.may_reset(&post.backend())
                    &&& !post.backend().active()
                    &&& m.prev_state is Locked ==> state == lost && post.memory() == (LockMemory {
                        acquire_candidate: m.acquire_candidate,
                        current_box: None,
                        current_confidence: Confidence::of_bits(0),
                        last_refresh_ns: 0,
                        held: m.held,
                        prev_state: StateTag::Lost,
                    })
                    &&& !(m.prev_state is Locked) ==> state == TrackState::Idle && post.memory()
                        == (LockMemory {
                        acquire_candidate: m.acquire_candidate,
                        current_box: None,
                        current_confidence: Confidence::of_bits(0),
                        last_refresh_ns: 0,
                        held: None,
                        prev_state: StateTag::Idle,
                    })
                }
            },
{
    let (mid, answer) = answer_of_tick(pre, frame, now_ns, pending, force_reinit, post, state);
    assert(may_step(pre.backend(), frame, mid, answer));
    let outcome = choose|outcome: Result<Option<BBox>, TrackerError>| #[trigger]
        pre.backend().may_update(frame, &mid, outcome) && mid.active() == pre.backend().active()
            && answer == (match outcome {
            Ok(Some(b)) => Answer::Found(b),
            Ok(None) => Answer::Missing,
            Err(_) => Answer::Failed,
        });
    assert(pre.backend().may_update(frame, &mid, outcome));
}

/// A tick without a usable nomination leaves a tracker without a target
/// alone. After a lock the held box is reported as lost once, and after that
/// nothing is reported and nothing held.
pub proof fn what_an_idle_tracker_reports<T: Tracker>(
    pre: Stage<T>,
    frame: FrameView<'_>,
    now_ns: i64,
    pending: Option<PendingLock>,
    force_reinit: bool,
    post: Stage<T>,
    state: TrackState,
)
    requires
        may_tick(pre, frame, now_ns, pending, force_reinit, post, state),
        pending is None || !seedable(pending->0.bbox, pre.frame()),
        !pre.backend().active(),
    ensures
        post.backend() == pre.backend(),
        pre.memory().prev_state is Locked ==> post.memory() == (LockMemory {
            acquire_candidate: pre.memory().acquire_candidate,
            current_box: pre.memory().current_box,
            current_confidence: pre.memory().current_confidence,
            last_refresh_ns: pre.memory().last_refresh_ns,
            held: pre.memory().held,
            prev_state: StateTag::Lost,
        }) && state == (match pre.memory().held {
            Some(h) => TrackState::Lost(h),
            None => TrackState::Idle,
        }),
        !(pre.memory().prev_state is Locked) ==> post.memory() == (LockMemory {
            acquire_candidate: pre.memory().acquire_candidate,
            current_box: pre.memory().current_box,
            current_confidence: pre.memory().current_confidence,
            last_refresh_ns: pre.memory().last_refresh_ns,
            held: None,
            prev_state: StateTag::Idle,
        }) && state == TrackState::Idle,
{
    let _ = answer_of_tick(pre, frame, now_ns, pending, force_reinit, post, state);
}

/// What a nomination does that has to seed the tracker: because it is forced,
/// because nothing is tracked, or because the target was lost on the tick
/// before. The tracker is seeded with exactly the nominated box. If that
/// works, the box is reported as locked with the confidence and the source of
/// the nomination, and this tick is its refresh. If it fails, the target is
/// dropped, and the held box is reported as lost after a lock.
pub proof fn what_a_seeding_nomination_reports<T: Tracker>(
    pre: Stage<T>,
    frame: FrameView<'_>,
    now_ns: i64,
    p: PendingLock,
    force_reinit: bool,
    post: Stage<T>,
    state: TrackState,
)
    requires
        may_tick(pre, frame, now_ns, Some(p), force_reinit, post, state),
        seedable(p.bbox, pre.frame()),
        force_reinit || !pre.backend().active() || pre.memory().prev_state is Lost,
        pre.config().max_age_ns >= 0,
    ensures
        exists|mid: T, seed: SeedBox, outcome: Result<(), TrackerError>|
            {
                &&& #[trigger] pre.backend().may_reinit(frame, seed, &mid, outcome)
                &&& seed.bbox() == p.bbox
                &&& outcome is Ok ==> post.backend() == mid && ({
                    let held = HeldTrack {
                        bbox: p.bbox,
                        confidence: p.confidence,
                        source_detection_id: p.source_detection_id,
                    };
                    &&& state == TrackState::Locked(held)
                    &&& post.backend().active()
                    &&& post.memory() == (LockMemory {
                        acquire_candidate: None,
                        current_box: Some(p.bbox),
                        current_confidence: p.confidence,
                        last_refresh_ns: now_ns,
                        held: Some(held),
                        prev_state: StateTag::Locked,
                    })
                })
                &&& outcome is Err ==> mid.may_reset(&post.backend()) && ({
                    let m = pre.memory();
                    &&& !post.backend().active()
                    &&& m.prev_state is Locked ==> state == (match m.held {
                        Some(h) => TrackState::Lost(h),
                        None => TrackState::Idle,
                    }) && post.memory() == (LockMemory {
                        acquire_candidate: m.acquire_candidate,
                        current_box: None,
                        current_confidence: Confidence::of_bits(0),
                        last_refresh_ns: 0,
                        held: m.held,
                        prev_state: StateTag::Lost,
                    })
                    &&& !(m.prev_state is Locked) ==> state == TrackState::Idle && post.memory()
                        == (LockMemory {
                        acquire_candidate: m.acquire_candidate,
                        current_box: None,
                        current_confidence: Confidence::of_bits(0),
                        last_refresh_ns: 0,
                        held: None,
                        prev_state: StateTag::Idle,
                    })
                })
            },
{
    let (mid, answer) = answer_of_tick(pre, frame, now_ns, Some(p), force_reinit, post, state);
    assert(may_seed(pre.backend(), frame, p.bbox, mid, answer));
    let (seed, outcome) = choose|seed: SeedBox, outcome: Result<(), TrackerError>| #[trigger]
        pre.backend().may_reinit(frame, seed, &mid, outcome) && seed.bbox() == p.bbox && (
        match outcome {
            Ok(_) => answer == Answer::Seeded && mid.active(),
            Err(_) => answer == Answer::Refused,
        });
    assert(pre.backend().may_reinit(frame, seed, &mid, outcome));
}

/// What a nomination does over a healthy lock. The tracker steps forward, and
/// the box that it gives is reported as locked, in all four coordinates, with
/// the confidence and the source of the nomination; this tick is its refresh.
/// When the tracker gives no box, it is seeded with the nominated one.
pub proof fn what_a_refreshing_nomination_reports<T: Tracker>(
    pre: Stage<T>,
    frame: FrameView<'_>,
    now_ns: i64,
    p: PendingLock,
    post: Stage<T>,
    state: TrackState,
)
    requires
        may_tick(pre, frame, now_ns, Some(p), false, post, state),
        seedable(p.bbox, pre.frame()),
        pre.backend().active(),
        !(pre.memory().prev_state is Lost),
        pre.config().max_age_ns >= 0,
    ensures
        exists|mid: T, outcome: Result<Option<BBox>, TrackerError>|
            {
                &&& #[trigger] pre.backend().may_update(frame, &mid, outcome)
                &&& match outcome {
                    Ok(Some(b)) => post.backend() == mid && ({
                    let held = HeldTrack {
                        bbox: b,
                        confidence: p.confidence,
                        source_detection_id: p.source_detection_id,
                    };
                    &&& state == TrackState::Locked(held)
                    &&& post.backend().active()
                    &&& post.memory() == (LockMemory {
                        acquire_candidate: None,
                        current_box: Some(b),
                        current_confidence: p.confidence,
                        last_refresh_ns: now_ns,
                        held: Some(held),
                        prev_state: StateTag::Locked,
                    })
                }),
                    _ => exists|end: T, seed: SeedBox, seeded: Result<(), TrackerError>|
                        {
                            &&& #[trigger] mid.may_reinit(frame, seed, &end, seeded)
                            &&& seed.bbox() == p.bbox
                            &&& seeded is Ok ==> post.backend() == end && ({
                    let held = HeldTrack {
                        bbox: p.bbox,
                        confidence: p.confidence,
                        source_detection_id: p.source_detection_id,
                    };
                    &&& state == TrackState::Locked(held)
                    &&& post.backend().active()
                    &&& post.memory() == (LockMemory {
                        acquire_candidate: None,
                        current_box: Some(p.bbox),
                        current_confidence: p.confidence,
                        last_refresh_ns: now_ns,
                        held: Some(held),
                        prev_state: StateTag::Locked,
                    })
                })
                            &&& seeded is Err ==> end.may_reset(&post.backend()) && ({
                    let m = pre.memory();
                    &&& !post.backend().active()
                    &&& m.prev_state is Locked ==> state == (match m.held {
                        Some(h) => TrackState::Lost(h),
                        None => TrackState::Idle,
                    }) && post.memory() == (LockMemory {
                        acquire_candidate: m.acquire_candidate,
                        current_box: None,
                        current_confidence: Confidence::of_bits(0),
                        last_refresh_ns: 0,
                        held: m.held,
                        prev_state: StateTag::Lost,
                    })
                    &&& !(m.prev_state is Locked) ==> state == TrackState::Idle && post.memory()
                        == (LockMemory {
                        acquire_candidate: m.acquire_candidate,
                        current_box: None,
                        current_confidence: Confidence::of_bits(0),
                        last_refresh_ns: 0,
                        held: None,
                        prev_state: StateTag::Idle,
                    })
                })
                        },
                }
            },
{
    let (end, answer) = answer_of_tick(pre, frame, now_ns, Some(p), false, post, state);
    let (mid, step) = if answer is Found && may_step(pre.backend(), frame, end, answer) {
        (end, answer)
    } else {
        choose|mid: T, missed: Answer| #[trigger]
            may_step(pre.backend(), frame, mid, missed) && !(missed is Found) && may_seed(
                mid,
                frame,
                p.bbox,
                end,
                answer,
            )
    };
    assert(may_step(pre.backend(), frame, mid, step));
    let outcome = choose|outcome: Result<Option<BBox>, TrackerError>| #[trigger]
        pre.backend().may_update(frame, &mid, outcome) && step == (match outcome {
            Ok(Some(b)) => Answer::Found(b),
            Ok(None) => Answer::Missing,
            Err(_) => Answer::Failed,
        });
    assert(pre.backend().may_update(frame, &mid, outcome));
    if !(step is Found) {
        let (seed, seeded) = choose|seed: SeedBox, seeded: Result<(), TrackerError>| #[trigger]
            mid.may_reinit(frame, seed, &end, seeded) && seed.bbox() == p.bbox && (match seeded {
                Ok(_) => answer == Answer::Seeded && end.active(),
                Err(_) => answer == Answer::Refused,
            });
        assert(mid.may_reinit(frame, seed, &end, seeded));
    }
}

/// Under a negative age limit a nomination locks nothing: it is stale at once.
/// After a lock the held box is reported as lost, and otherwise nothing.
pub proof fn a_negative_age_limit_locks_nothing<T: Tracker>(
    pre: Stage<T>,
    frame: FrameView<'_>,
    now_ns: i64,
    p: PendingLock,
    force_reinit: bool,
    post: Stage<T>,
    state: TrackState,
)
    requires
        may_tick(pre, frame, now_ns, Some(p), force_reinit, post, state),
        seedable(p.bbox, pre.frame()),
        pre.config().max_age_ns < 0,
    ensures
        !post.backend().active(),
        state == (if pre.memory().prev_state is Locked && pre.memory().held is Some {
            TrackState::Lost(pre.memory().held->0)
        } else {
            TrackState::Idle
        }),
        post.memory().current_box is None,
        post.memory().current_confidence == Confidence::of_bits(0),
        post.memory().last_refresh_ns == 0,
        pre.memory().prev_state is Locked ==> post.memory().held == pre.memory().held
            && post.memory().prev_state is Lost,
        !(pre.memory().prev_state is Locked) ==> post.memory().held is None
            && post.memory().prev_state is Idle,
{
    let _ = answer_of_tick(pre, frame, now_ns, Some(p), force_reinit, post, state);
}

/// A tick leaves the policy and the dimensions of the frames alone.
pub proof fn a_tick_keeps_the_policy<T: Tracker>(
    pre: Stage<T>,
    frame: FrameView<'_>,
    now_ns: i64,
    pending: Option<PendingLock>,
    force_reinit: bool,
    post: Stage<T>,
    state: TrackState,
)
    requires
        may_tick(pre, frame, now_ns, pending, force_reinit, post, state),
    ensures
        post.config() == pre.config(),
        post.frame() == pre.frame(),
{
}

/// What folding in a batch does. The tracker, the policy and the lock stay.
/// Without a target, the batch is held against the waiting candidate: what it
/// confirms is nominated, and what it leaves is the candidate from now on.
/// With one, the candidate stays, and the entry that is associated with the
/// current box is nominated. A nomination carries the box, the confidence and
/// the id of its entry.
pub proof fn what_a_batch_nominates<T: Tracker>(
    pre: Stage<T>,
    dets: Seq<Detection>,
    post: Stage<T>,
    pending: Option<PendingLock>,
)
    requires
        may_fold(pre, dets, post, pending),
    ensures
        post.backend() == pre.backend(),
        post.frame() == pre.frame(),
        post.config() == pre.config(),
        post.memory() == (LockMemory {
            acquire_candidate: post.memory().acquire_candidate,
            current_box: pre.memory().current_box,
            current_confidence: pre.memory().current_confidence,
            last_refresh_ns: pre.memory().last_refresh_ns,
            held: pre.memory().held,
            prev_state: pre.memory().prev_state,
        }),
        pre.backend().active() ==> post.memory().acquire_candidate
            == pre.memory().acquire_candidate,
        pre.backend().active() && pre.memory().current_box is None ==> pending is None,
        exists|chosen: Option<Detection>|
            {
                &&& pending is Some <==> chosen is Some
                &&& pending is Some ==> pending->0.bbox == chosen->0.bbox && pending->0.confidence
                    == chosen->0.confidence && pending->0.source_detection_id == Some(
                    chosen->0.id,
                )
                &&& !pre.backend().active() ==> #[trigger] confirmation(
                    pre.memory().acquire_candidate,
                    dets,
                    pre.frame().width as int,
                    pre.frame().height as int,
                    pre.config().min_conf,
                    pre.config().gate_px,
                    chosen,
                    post.memory().acquire_candidate,
                )
                &&& pre.backend().active() && pre.memory().current_box is Some
                    ==> associated_choice(
                    pre.memory().current_box->0,
                    dets,
                    pre.config().min_conf,
                    pre.config().iou_threshold,
                    chosen,
                )
            },
{
    let (chosen, next) = choose|chosen: Option<Detection>, next: Option<Detection>| #[trigger]
        batch_choice(
            pre.backend().active(),
            pre.memory(),
            pre.frame(),
            pre.config(),
            dets,
            chosen,
            next,
        ) && pending == nomination(chosen) && post.memory() == (LockMemory {
            acquire_candidate: next,
            ..pre.memory()
        });
    let left = confirmation(
        pre.memory().acquire_candidate,
        dets,
        pre.frame().width as int,
        pre.frame().height as int,
        pre.config().min_conf,
        pre.config().gate_px,
        chosen,
        post.memory().acquire_candidate,
    );
    assert(!pre.backend().active() ==> left);
}

/// What the memory settles on when the tracker gives a box, be it by a step
/// or by a seed: that box, with the confidence and the source of the
/// nomination, or with the confidence of the last refresh and no source when
/// nothing was nominated. Only a nomination refreshes. A lock whose last
/// refresh is too long ago is dropped instead.
pub proof fn what_a_box_settles(
    m: LockMemory,
    pending: Option<PendingLock>,
    answer: Answer,
    now_ns: i64,
    max_age_ns: i64,
    b: BBox,
)
    requires
        answer == Answer::Found(b) || (answer is Seeded && pending is Some && pending->0.bbox == b),
    ensures
        ({
            let r = settled(m, pending, answer, now_ns, max_age_ns);
            let (candidate, confidence, refreshed, source) = match pending {
                Some(p) => (None, p.confidence, now_ns, p.source_detection_id),
                None => (m.acquire_candidate, m.current_confidence, m.last_refresh_ns, None),
            };
            let held = HeldTrack { bbox: b, confidence, source_detection_id: source };
            &&& r.drop_target <==> now_ns - refreshed > max_age_ns
            &&& !r.drop_target ==> r.state == TrackState::Locked(held) && r.memory == (LockMemory {
                acquire_candidate: candidate,
                current_box: Some(b),
                current_confidence: confidence,
                last_refresh_ns: refreshed,
                held: Some(held),
                prev_state: StateTag::Locked,
            })
            &&& r.drop_target ==> !(r.state is Locked) && r.memory.current_box is None
                && r.memory.last_refresh_ns == 0 && r.memory.acquire_candidate == candidate
        }),
{
}

/// What the memory settles on when the tracker gives no box. Nothing is made
/// up: a report carries the held box, unchanged, or nothing. The target is
/// dropped by a failure, and when its last refresh is too long ago.
pub proof fn what_no_box_settles(
    m: LockMemory,
    pending: Option<PendingLock>,
    answer: Answer,
    now_ns: i64,
    max_age_ns: i64,
)
    requires
        !(answer is Found),
        answer is Seeded ==> pending is None,
    ensures
        ({
            let r = settled(m, pending, answer, now_ns, max_age_ns);
            let in_time = now_ns - m.last_refresh_ns <= max_age_ns;
            let missing = answer is Missing || answer is Seeded;
            let is_loss = m.prev_state is Locked || (in_time && (missing || (answer is Failed
                && m.held is Some)));
            let dropped = answer is Failed || answer is Refused || (missing && !in_time);
            &&& r.drop_target == dropped
            &&& r.state == (if is_loss && m.held is Some {
                TrackState::Lost(m.held->0)
            } else {
                TrackState::Idle
            })
            &&& r.memory.acquire_candidate == m.acquire_candidate
            &&& r.memory.prev_state == (if is_loss {
                StateTag::Lost
            } else {
                StateTag::Idle
            })
            &&& r.memory.held == (if is_loss {
                m.held
            } else {
                None
            })
            &&& !dropped ==> r.memory.current_box == m.current_box && r.memory.current_confidence
                == m.current_confidence && r.memory.last_refresh_ns == m.last_refresh_ns
            &&& dropped ==> r.memory.current_box is None && r.memory.current_confidence
                == Confidence::of_bits(0) && r.memory.last_refresh_ns == 0
        }),
{
}

/// To begin with, nothing is remembered: no candidate, no lock, no held box,
/// and the tick before was idle.
pub proof fn nothing_is_remembered_to_begin_with()
    ensures
        LockMemory::blank().acquire_candidate is None,
        LockMemory::blank().current_box is None,
        LockMemory::blank().current_confidence.bits() == 0,
        LockMemory::blank().last_refresh_ns == 0,
        LockMemory::blank().held is None,
        LockMemory::blank().prev_state is Idle,
{
    Confidence::score_is_its_bits(0, LockMemory::blank().current_confidence);
}

} // verus!
