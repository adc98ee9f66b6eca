use tracking::acquisition::Iou;
use tracking::metrics::score;
use tracking::synthetic::{GroundTruth, Sequence};
use tracking::{BBox, Confidence, HeldTrack, TrackState};

const TARGET: BBox = BBox { x1: 0, y1: 0, x2: 10, y2: 10 };
const DECOY: BBox = BBox { x1: 30, y1: 0, x2: 40, y2: 10 };

fn held(b: BBox) -> HeldTrack {
    HeldTrack { bbox: b, confidence: Confidence::zero(), source_detection_id: None }
}

fn locked(b: BBox) -> TrackState {
    TrackState::Locked(held(b))
}

fn lost(b: BBox) -> TrackState {
    TrackState::Lost(held(b))
}

/// A sequence in which only the ground truth matters.
fn sequence(visible: &[bool], decoy: bool) -> Sequence {
    let n = visible.len();
    let truth = |b: BBox| GroundTruth { bbox: b, visible: true };
    Sequence {
        name: "scripted",
        width: 0,
        height: 0,
        frames: vec![Vec::new(); n],
        target_gt: visible.iter().map(|v| GroundTruth { bbox: TARGET, visible: *v }).collect(),
        distractor_gt: vec![if decoy { Some(truth(DECOY)) } else { None }; n],
        detections: vec![None; n],
    }
}

#[test]
fn successes_are_hits_on_visible_ticks() {
    let half = BBox::new(0, 0, 10, 5);
    let less = BBox::new(0, 0, 10, 4);
    let seq = sequence(&[true, true, true, true, false, true], false);
    let states =
        [TrackState::Idle, locked(TARGET), lost(half), locked(less), locked(TARGET), lost(TARGET)];
    let r = score(&seq, &states);
    assert_eq!(r.scenario, "scripted");
    assert_eq!((r.num_ticks, r.visible_ticks, r.success_ticks), (6, 5, 3));
    assert_eq!(r.success_rate(), (3, 5));
    assert!(r.is_acceptable());
    // Only locks on visible ticks count for the accuracy.
    assert_eq!(
        r.locked_ious,
        vec![Iou { shared: 100, covered: 100 }, Iou { shared: 40, covered: 100 }]
    );
    assert_eq!(r.time_to_lock, Some(1));
}

#[test]
fn a_target_that_is_never_visible_is_a_full_success() {
    let r = score(&sequence(&[false, false], false), &[TrackState::Idle, locked(TARGET)]);
    assert_eq!((r.visible_ticks, r.success_rate()), (0, (1, 1)));
    assert!(r.is_acceptable());
    assert!(r.locked_ious.is_empty());
}

#[test]
fn half_of_the_visible_ticks_are_enough() {
    let seq = sequence(&[true, true, true, true], false);
    let two = [locked(TARGET), locked(TARGET), TrackState::Idle, TrackState::Idle];
    assert!(score(&seq, &two).is_acceptable());
    let one = [locked(TARGET), TrackState::Idle, TrackState::Idle, TrackState::Idle];
    assert!(!score(&seq, &one).is_acceptable());
}

#[test]
fn reacquisition_counts_from_the_end_of_the_first_occlusion() {
    let seq = sequence(&[true, false, false, true, true, true, false, true], false);
    let mut states = vec![locked(TARGET); 8];
    assert_eq!(score(&seq, &states).reacquisition_ticks, Some(0));
    states[3] = TrackState::Idle;
    states[4] = lost(TARGET);
    assert_eq!(score(&seq, &states).reacquisition_ticks, Some(2));
    for s in states.iter_mut().skip(3) {
        *s = lost(TARGET);
    }
    assert_eq!(score(&seq, &states).reacquisition_ticks, None);
    // Without a reappearance there is nothing to count.
    let gone = sequence(&[true, false], false);
    assert_eq!(score(&gone, &[locked(TARGET), locked(TARGET)]).reacquisition_ticks, None);
    // A target that starts out hidden reappears too.
    let late = sequence(&[false, true], false);
    assert_eq!(score(&late, &[TrackState::Idle, locked(TARGET)]).reacquisition_ticks, Some(0));
}

#[test]
fn a_run_that_never_locks_has_no_time_to_lock() {
    let r = score(&sequence(&[true, true], false), &[TrackState::Idle, lost(TARGET)]);
    assert_eq!(r.time_to_lock, None);
}

#[test]
fn a_run_of_ticks_on_the_distractor_counts_once() {
    let seq = sequence(&[true; 8], true);
    let states = [
        locked(TARGET),
        locked(DECOY),
        locked(DECOY),
        lost(DECOY),
        locked(TARGET),
        locked(DECOY),
        TrackState::Idle,
        locked(DECOY),
    ];
    assert_eq!(score(&seq, &states).id_switches, 2);
}

#[test]
fn any_excess_over_the_target_is_a_switch() {
    let seq = sequence(&[true], true);
    // A tenth of the distractor, and nothing of the target.
    assert_eq!(score(&seq, &[locked(BBox::new(30, 0, 40, 1))]).id_switches, 1);
    assert_eq!(score(&seq, &[locked(BBox::new(39, 0, 49, 10))]).id_switches, 1);
    // Between the two, the target counts as long as it overlaps as much.
    assert_eq!(score(&seq, &[locked(BBox::new(0, 0, 40, 10))]).id_switches, 0);
    assert_eq!(score(&seq, &[locked(BBox::new(1, 0, 40, 10))]).id_switches, 1);
    // On neither there is no switch.
    assert_eq!(score(&seq, &[locked(BBox::new(15, 0, 25, 10))]).id_switches, 0);
}

#[test]
fn a_slight_overlap_far_from_the_target_is_a_switch() {
    let mut seq = sequence(&[true], true);
    seq.target_gt[0].bbox = BBox::new(200, 200, 210, 210);
    seq.distractor_gt[0] = Some(GroundTruth { bbox: BBox::new(0, 0, 10, 10), visible: true });
    assert_eq!(score(&seq, &[locked(BBox::new(9, 0, 19, 10))]).id_switches, 1);
}

#[test]
fn without_a_distractor_there_is_no_switch() {
    let seq = sequence(&[true, true], false);
    assert_eq!(score(&seq, &[locked(DECOY), locked(TARGET)]).id_switches, 0);
    // A list that is too short has no distractor either.
    let mut short = sequence(&[true, true], true);
    short.distractor_gt.truncate(1);
    assert_eq!(score(&short, &[locked(TARGET), locked(DECOY)]).id_switches, 0);
}
