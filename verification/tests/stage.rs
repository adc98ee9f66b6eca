use std::sync::{Arc, Mutex};

use tracking::ratio::Ratio;
use tracking::seed::SeedBox;
use tracking::session::TrackingSession;
use tracking::stage::{Answer, Config, LockMemory, PendingLock, Stage, StateTag};
use tracking::tracker::{FrameView, Tracker, TrackerError};
use tracking::types::{BBox, Confidence, Detection, HeldTrack, TrackState};

const SECOND: i64 = 1_000_000_000;

/// What the fake does next, shared with the test that owns it.
#[derive(Default)]
struct Script {
    next_update: Option<BBox>,
    fail_update: bool,
    fail_reinit: bool,
}

#[derive(Default)]
struct FakeTracker {
    active: bool,
    script: Arc<Mutex<Script>>,
    init_calls: u32,
    update_calls: u32,
    last_seed: Option<BBox>,
}

impl Tracker for FakeTracker {
    fn is_active(&self) -> bool {
        self.active
    }
    fn reinit(&mut self, _frame: FrameView<'_>, seed: SeedBox) -> Result<(), TrackerError> {
        self.init_calls += 1;
        if self.script.lock().unwrap().fail_reinit {
            return Err(TrackerError::Init("refused".to_string()));
        }
        self.active = true;
        self.last_seed = Some(seed.get());
        self.script.lock().unwrap().next_update = Some(seed.get());
        Ok(())
    }
    fn update(&mut self, _frame: FrameView<'_>) -> Result<Option<BBox>, TrackerError> {
        self.update_calls += 1;
        let script = self.script.lock().unwrap();
        if script.fail_update {
            return Err(TrackerError::Update("broken".to_string()));
        }
        Ok(script.next_update)
    }
    fn reset(&mut self) {
        self.active = false;
        self.script.lock().unwrap().next_update = None;
    }
}

fn frame() -> FrameView<'static> {
    const PIXELS: &[u8] = &[0; 12];
    FrameView { pixels: PIXELS, width: 2, height: 2, channels: 3 }
}

fn conf(v: f32) -> Confidence {
    Confidence::new(v.to_bits()).unwrap()
}

fn config() -> Config {
    Config {
        min_conf: conf(0.1),
        iou_threshold: Ratio::new(3, 10).unwrap(),
        gate_px: Ratio::new(50, 1).unwrap(),
        max_age_ns: 2 * SECOND,
    }
}

fn scripted() -> (Stage<FakeTracker>, Arc<Mutex<Script>>) {
    let script = Arc::new(Mutex::new(Script::default()));
    let tracker = FakeTracker { script: script.clone(), ..FakeTracker::default() };
    (Stage::new(tracker, 640, 480, config()), script)
}

fn stage() -> Stage<FakeTracker> {
    scripted().0
}

fn det(x1: i64, y1: i64, x2: i64, y2: i64, c: f32) -> Detection {
    Detection { bbox: BBox::new(x1, y1, x2, y2), confidence: conf(c), id: 1 }
}

/// Locks a stage by two agreeing batches, the second at a tenth of a second.
fn lock(s: &mut Stage<FakeTracker>) -> TrackState {
    let p1 = s.on_detection_batch(&[det(300, 220, 340, 260, 0.5)]);
    let _ = s.tick(frame(), 0, p1, false);
    let p2 = s.on_detection_batch(&[det(302, 222, 342, 262, 0.5)]);
    s.tick(frame(), SECOND / 10, p2, false)
}

#[test]
fn idle_with_no_input_stays_idle() {
    let mut s = stage();
    let state = s.tick(frame(), 0, None, false);
    assert_eq!(state, TrackState::Idle);
}

#[test]
fn a_single_batch_does_not_lock() {
    let mut s = stage();
    let pending = s.on_detection_batch(&[det(300, 220, 340, 260, 0.5)]);
    let state = s.tick(frame(), 0, pending, false);
    assert_eq!(state, TrackState::Idle);
}

#[test]
fn two_agreeing_batches_lock() {
    let mut s = stage();
    let p1 = s.on_detection_batch(&[det(300, 220, 340, 260, 0.5)]);
    let _ = s.tick(frame(), 0, p1, false);

    let p2 = s.on_detection_batch(&[det(302, 222, 342, 262, 0.5)]);
    assert!(p2.is_some(), "second agreeing batch must confirm");
    let state = s.tick(frame(), SECOND / 10, p2, false);
    assert!(matches!(state, TrackState::Locked(_)));
}

#[test]
fn healthy_refresh_does_not_reinit() {
    let (mut s, script) = scripted();
    let p1 = s.on_detection_batch(&[det(300, 220, 340, 260, 0.5)]);
    let _ = s.tick(frame(), 0, p1, false);
    let p2 = s.on_detection_batch(&[det(302, 222, 342, 262, 0.5)]);
    let _ = s.tick(frame(), SECOND / 10, p2, false);
    assert_eq!(s.tracker().init_calls, 1, "the fresh lock is the only reinit so far");

    let p3 = s.on_detection_batch(&[det(303, 223, 343, 263, 0.5)]);
    assert!(p3.is_some());
    script.lock().unwrap().next_update = Some(BBox::new(304, 224, 344, 264));
    let state = s.tick(frame(), SECOND / 5, p3, false);
    assert!(matches!(state, TrackState::Locked(_)));
    assert_eq!(s.tracker().init_calls, 1, "a healthy refresh must NOT call reinit again");
    match state {
        TrackState::Locked(h) => {
            assert_eq!(h.bbox, BBox::new(304, 224, 344, 264));
            assert_eq!(h.source_detection_id, Some(1));
        }
        other => panic!("expected Locked, got {other:?}"),
    }
}

#[test]
fn age_out_produces_lost_with_the_held_box() {
    let mut s = stage();
    let p1 = s.on_detection_batch(&[det(300, 220, 340, 260, 0.5)]);
    let _ = s.tick(frame(), 0, p1, false);
    let p2 = s.on_detection_batch(&[det(302, 222, 342, 262, 0.5)]);
    let locked = s.tick(frame(), SECOND / 10, p2, false);
    let TrackState::Locked(held) = locked else {
        panic!("expected Locked")
    };

    let state = s.tick(frame(), 100 * SECOND, None, false);
    match state {
        TrackState::Lost(h) => assert_eq!(h.bbox, held.bbox),
        other => panic!("expected Lost carrying the held box, got {other:?}"),
    }
}

#[test]
fn seed_incapable_nomination_is_dropped_not_reinit() {
    let mut s = stage();
    let pending = Some(PendingLock {
        bbox: BBox::new(10, 10, 11, 10),
        confidence: conf(0.9),
        source_detection_id: Some(1),
    });
    let state = s.tick(frame(), 0, pending, false);
    assert_eq!(state, TrackState::Idle);
    assert_eq!(s.tracker().init_calls, 0, "an unseedable nomination must never reach reinit");
}

#[test]
fn force_lock_always_reinits_even_over_a_healthy_lock() {
    let mut s = stage();
    let p1 = s.on_detection_batch(&[det(300, 220, 340, 260, 0.5)]);
    let _ = s.tick(frame(), 0, p1, false);
    let p2 = s.on_detection_batch(&[det(302, 222, 342, 262, 0.5)]);
    let _ = s.tick(frame(), SECOND / 10, p2, false);
    assert_eq!(s.tracker().init_calls, 1);

    let force = s.on_force_lock(BBox::new(10, 10, 60, 60), Some(conf(0.7)));
    let state = s.tick(frame(), SECOND / 5, Some(force), true);
    assert_eq!(s.tracker().init_calls, 2, "force-lock must reinit even over a healthy lock");
    match state {
        TrackState::Locked(h) => assert_eq!(h.bbox, BBox::new(10, 10, 60, 60)),
        other => panic!("expected Locked on the force-lock box, got {other:?}"),
    }
}

/// The box on which [`lock`] locks.
const LOCKED_ON: BBox = BBox { x1: 302, y1: 222, x2: 342, y2: 262 };

fn held(b: BBox, c: f32, id: Option<u64>) -> HeldTrack {
    HeldTrack { bbox: b, confidence: conf(c), source_detection_id: id }
}

#[test]
fn a_fresh_lock_reports_the_confirming_detection() {
    let (mut s, _) = scripted();
    assert_eq!(lock(&mut s), TrackState::Locked(held(LOCKED_ON, 0.5, Some(1))));
    assert_eq!(s.tracker().last_seed, Some(LOCKED_ON));
    assert_eq!(s.tracker().update_calls, 0);
}

#[test]
fn a_step_without_a_nomination_keeps_the_confidence() {
    let (mut s, script) = scripted();
    lock(&mut s);
    script.lock().unwrap().next_update = Some(BBox::new(310, 222, 350, 262));
    let state = s.tick(frame(), SECOND, None, false);
    assert_eq!(state, TrackState::Locked(held(BBox::new(310, 222, 350, 262), 0.5, None)));
}

#[test]
fn a_missing_target_is_lost_and_keeps_its_box() {
    let (mut s, script) = scripted();
    lock(&mut s);
    script.lock().unwrap().next_update = None;
    let lost = TrackState::Lost(held(LOCKED_ON, 0.5, Some(1)));
    assert_eq!(s.tick(frame(), SECOND, None, false), lost);
    assert_eq!(s.tick(frame(), SECOND, None, false), lost);
    assert!(s.tracker().is_active());
    // The last box is still what detections are associated with, and a
    // detection seeds a lost target anew.
    let p = s.on_detection_batch(&[det(303, 223, 343, 263, 0.9)]);
    let state = s.tick(frame(), SECOND, p, false);
    assert_eq!(state, TrackState::Locked(held(BBox::new(303, 223, 343, 263), 0.9, Some(1))));
    assert_eq!(s.tracker().init_calls, 2);
}

#[test]
fn a_failing_tracker_is_lost_and_then_idle() {
    let (mut s, script) = scripted();
    lock(&mut s);
    script.lock().unwrap().fail_update = true;
    let state = s.tick(frame(), SECOND, None, false);
    assert_eq!(state, TrackState::Lost(held(LOCKED_ON, 0.5, Some(1))));
    assert!(!s.tracker().is_active());
    assert_eq!(s.tick(frame(), SECOND, None, false), TrackState::Idle);
}

#[test]
fn a_failure_while_lost_is_still_a_loss() {
    let lost = TrackState::Lost(held(LOCKED_ON, 0.5, Some(1)));
    let (mut s, script) = scripted();
    lock(&mut s);
    script.lock().unwrap().next_update = None;
    assert_eq!(s.tick(frame(), SECOND, None, false), lost);
    script.lock().unwrap().fail_update = true;
    // Exactly at the age limit it is still in time.
    assert_eq!(s.tick(frame(), SECOND / 10 + 2 * SECOND, None, false), lost);
    assert!(!s.tracker().is_active());
    assert_eq!(s.tick(frame(), 3 * SECOND, None, false), TrackState::Idle);
}

#[test]
fn a_failure_of_a_stale_lost_target_is_idle() {
    let (mut s, script) = scripted();
    lock(&mut s);
    script.lock().unwrap().next_update = None;
    assert!(matches!(s.tick(frame(), SECOND, None, false), TrackState::Lost(_)));
    script.lock().unwrap().fail_update = true;
    assert_eq!(s.tick(frame(), SECOND / 10 + 2 * SECOND + 1, None, false), TrackState::Idle);
}

#[test]
fn failures_and_missing_targets_settle_alike() {
    let h = held(LOCKED_ON, 0.5, Some(1));
    for prev_state in [StateTag::Idle, StateTag::Locked, StateTag::Lost] {
        for held in [None, Some(h)] {
            for now_ns in [0, 10, 11, 100] {
                let m = LockMemory { held, prev_state, ..LockMemory::new() };
                let (mut a, mut b) = (m, m);
                assert_eq!(
                    a.settle(None, Answer::Missing, now_ns, 10).0,
                    b.settle(None, Answer::Failed, now_ns, 10).0,
                    "{m:?} at {now_ns}"
                );
            }
        }
    }
}

#[test]
fn a_refresh_that_misses_seeds_anew() {
    for fails in [false, true] {
        let (mut s, script) = scripted();
        lock(&mut s);
        let p = s.on_detection_batch(&[det(303, 223, 343, 263, 0.9)]);
        script.lock().unwrap().next_update = None;
        script.lock().unwrap().fail_update = fails;
        let state = s.tick(frame(), SECOND, p, false);
        assert_eq!(state, TrackState::Locked(held(BBox::new(303, 223, 343, 263), 0.9, Some(1))));
        assert_eq!((s.tracker().update_calls, s.tracker().init_calls), (1, 2));
    }
}

#[test]
fn a_refused_seed_drops_the_target() {
    let (mut s, script) = scripted();
    script.lock().unwrap().fail_reinit = true;
    assert_eq!(lock(&mut s), TrackState::Idle);
    assert!(!s.tracker().is_active());

    // Over a lock it is a loss with the held box.
    let (mut s, script) = scripted();
    lock(&mut s);
    script.lock().unwrap().fail_reinit = true;
    let p = s.on_force_lock(BBox::new(10, 10, 60, 60), None);
    let state = s.tick(frame(), SECOND, Some(p), true);
    assert_eq!(state, TrackState::Lost(held(LOCKED_ON, 0.5, Some(1))));
    assert!(!s.tracker().is_active());
}

#[test]
fn a_stale_lock_is_lost_once_and_idle_afterwards() {
    let mut s = stage();
    lock(&mut s);
    // Exactly at the limit the lock holds.
    let limit = SECOND / 10 + 2 * SECOND;
    assert!(matches!(s.tick(frame(), limit, None, false), TrackState::Locked(_)));
    assert!(matches!(s.tick(frame(), limit + 1, None, false), TrackState::Lost(_)));
    assert!(!s.tracker().is_active());
    assert_eq!(s.tick(frame(), limit + 2, None, false), TrackState::Idle);
}

#[test]
fn a_lost_target_ages_out_to_idle() {
    let (mut s, script) = scripted();
    lock(&mut s);
    script.lock().unwrap().next_update = None;
    assert!(matches!(s.tick(frame(), SECOND, None, false), TrackState::Lost(_)));
    assert_eq!(s.tick(frame(), 3 * SECOND, None, false), TrackState::Idle);
}

#[test]
fn a_refresh_restarts_the_clock() {
    let mut s = stage();
    lock(&mut s);
    let p = s.on_detection_batch(&[det(302, 222, 342, 262, 0.5)]);
    s.tick(frame(), 2 * SECOND, p, false);
    assert!(matches!(s.tick(frame(), 4 * SECOND, None, false), TrackState::Locked(_)));
    assert!(matches!(s.tick(frame(), 4 * SECOND + 1, None, false), TrackState::Lost(_)));
}

#[test]
fn a_negative_age_limit_never_holds_a_lock() {
    let config = Config { max_age_ns: -1, ..config() };
    let mut s = Stage::new(FakeTracker::default(), 640, 480, config);
    assert_eq!(lock(&mut s), TrackState::Idle);
    assert_eq!(s.tracker().init_calls, 1);
    assert!(!s.tracker().is_active());
}

#[test]
fn an_unseedable_command_lets_the_lock_step_on() {
    let mut s = stage();
    lock(&mut s);
    let p = s.on_force_lock(BBox::new(10, 10, 11, 10), Some(conf(0.9)));
    let state = s.tick(frame(), SECOND, Some(p), true);
    assert_eq!(state, TrackState::Locked(held(LOCKED_ON, 0.5, None)));
    assert_eq!(s.tracker().init_calls, 1);
}

#[test]
fn a_command_without_a_confidence_has_none() {
    let mut s = stage();
    let p = s.on_force_lock(BBox::new(10, 10, 60, 60), None);
    assert_eq!(
        p,
        PendingLock {
            bbox: BBox::new(10, 10, 60, 60),
            confidence: Confidence::zero(),
            source_detection_id: None
        }
    );
}

#[test]
fn a_command_drops_a_confirmation_in_progress() {
    let mut s = stage();
    assert!(s.on_detection_batch(&[det(300, 220, 340, 260, 0.5)]).is_none());
    s.on_force_lock(BBox::new(10, 10, 60, 60), None);
    assert!(s.on_detection_batch(&[det(302, 222, 342, 262, 0.5)]).is_none());
    assert!(s.on_detection_batch(&[det(302, 222, 342, 262, 0.5)]).is_some());
}

#[test]
fn a_tracker_that_comes_with_a_target_makes_up_no_box() {
    let tracker = FakeTracker { active: true, ..FakeTracker::default() };
    let mut s = Stage::new(tracker, 640, 480, config());
    // Nothing is held, so there is nothing to report.
    assert_eq!(s.tick(frame(), 0, None, false), TrackState::Idle);
    assert!(s.tracker().is_active());
}

#[test]
fn the_memory_settles_without_a_tracker() {
    let mut m = LockMemory::new();
    let p = PendingLock {
        bbox: LOCKED_ON,
        confidence: conf(0.5),
        source_detection_id: Some(9),
    };
    let locked = held(LOCKED_ON, 0.5, Some(9));
    assert_eq!(m.settle(Some(p), Answer::Seeded, 7, 10), (TrackState::Locked(locked), false));
    assert_eq!((m.held, m.prev_state), (Some(locked), StateTag::Locked));
    assert_eq!((m.current_box, m.last_refresh_ns), (Some(LOCKED_ON), 7));
    assert_eq!(m.settle(None, Answer::Missing, 8, 10), (TrackState::Lost(locked), false));
    assert_eq!(m.settle(None, Answer::Missing, 18, 10), (TrackState::Idle, true));
    assert_eq!(m, LockMemory::new());
    assert_eq!(m.settle(None, Answer::NotAsked, 18, 10), (TrackState::Idle, false));
    assert_eq!(m.settle(None, Answer::Failed, 18, 10), (TrackState::Idle, true));
}

#[test]
fn the_default_policy() {
    let c = Config::default();
    assert_eq!(f32::from_bits(c.min_conf.value()), 0.3);
    assert_eq!((c.iou_threshold.numerator(), c.iou_threshold.denominator()), (3, 10));
    assert_eq!((c.gate_px.numerator(), c.gate_px.denominator()), (50, 1));
    assert_eq!(c.max_age_ns, 2 * SECOND);
}

fn session() -> TrackingSession<FakeTracker> {
    TrackingSession::new(FakeTracker::default(), 640, 480, config())
}

#[test]
fn a_session_steps_from_idle_to_locked() {
    let mut s = session();
    assert_eq!(s.step(frame(), Some(&[det(300, 220, 340, 260, 0.5)]), 0), TrackState::Idle);
    let state = s.step(frame(), Some(&[det(302, 222, 342, 262, 0.5)]), SECOND);
    assert_eq!(state, TrackState::Locked(held(LOCKED_ON, 0.5, Some(1))));
    assert!(matches!(s.step(frame(), None, 2 * SECOND), TrackState::Locked(_)));
}

#[test]
fn a_skipped_batch_keeps_the_candidate_waiting() {
    let mut s = session();
    s.step(frame(), Some(&[det(300, 220, 340, 260, 0.5)]), 0);
    assert_eq!(s.step(frame(), None, 1), TrackState::Idle);
    assert_eq!(s.step(frame(), None, 2), TrackState::Idle);
    let state = s.step(frame(), Some(&[det(302, 222, 342, 262, 0.5)]), 3);
    assert!(matches!(state, TrackState::Locked(_)));
}

#[test]
fn an_empty_batch_drops_the_waiting_candidate() {
    let mut s = session();
    s.step(frame(), Some(&[det(300, 220, 340, 260, 0.5)]), 0);
    assert_eq!(s.step(frame(), Some(&[]), 1), TrackState::Idle);
    let state = s.step(frame(), Some(&[det(302, 222, 342, 262, 0.5)]), 2);
    assert_eq!(state, TrackState::Idle);
}

#[test]
fn a_session_can_be_forced_to_lock() {
    let mut s = session();
    let b = BBox::new(10, 10, 60, 60);
    let state = s.force_lock(frame(), b, 0, Some(conf(0.7)));
    assert_eq!(state, TrackState::Locked(held(b, 0.7, None)));
    assert_eq!(s.force_lock(frame(), BBox::new(0, 0, 1, 1), 1, None), TrackState::Locked(held(b, 0.7, None)));
}

#[test]
fn the_stage_of_a_session_can_be_driven_in_two_phases() {
    let mut s = session();
    assert!(s.stage_mut().on_detection_batch(&[det(300, 220, 340, 260, 0.5)]).is_none());
    let p = s.stage_mut().on_detection_batch(&[det(302, 222, 342, 262, 0.5)]);
    assert!(p.is_some());
    assert!(matches!(s.stage_mut().tick(frame(), 0, p, false), TrackState::Locked(_)));
    assert_eq!(s.stage_mut().tracker().init_calls, 1);
    assert!(matches!(s.step(frame(), None, 1), TrackState::Locked(_)));
}
