use tracking::footage::build_sequence;
use tracking::harness::{
    all_acceptable, evaluate, parse_command, parse_real_args, run, run_synthetic, Command, RealArgs,
};
use tracking::metrics::Report;
use tracking::synthetic::{occlusion_and_sparse_detections, straight_line};
use tracking::{Config, TrackState};

fn texts(args: &[&str]) -> Vec<String> {
    args.iter().map(|a| a.to_string()).collect()
}

fn mean_iou(r: &Report) -> f64 {
    let sum: f64 = r.locked_ious.iter().map(|i| i.shared as f64 / i.covered as f64).sum();
    sum / r.locked_ious.len() as f64
}

fn line(r: &Report) -> String {
    let (hits, ticks) = r.success_rate();
    format!(
        "{} {} {:.1}% {:.3} {:?} {:?} {}",
        r.scenario,
        r.num_ticks,
        hits as f64 / ticks as f64 * 100.0,
        mean_iou(r),
        r.time_to_lock,
        r.reacquisition_ticks,
        r.id_switches
    )
}

#[test]
fn the_scenarios_score_as_documented() {
    let reports = run_synthetic(Config::default());
    assert_eq!(reports.len(), 3);
    assert_eq!(line(&reports[0]), "straight_line 90 98.9% 0.868 Some(1) None 0");
    assert_eq!(
        line(&reports[1]),
        "occlusion_and_sparse_detections 90 72.0% 0.819 Some(3) Some(18) 0"
    );
    assert_eq!(line(&reports[2]), "distractor_crossing 90 93.3% 0.759 Some(1) None 1");
    assert!(all_acceptable(&reports));
}

#[test]
fn runs_repeat_themselves() {
    let (p, q) = (straight_line(12, 4), straight_line(12, 4));
    let (a, b) = (run(&p, Config::default()), run(&q, Config::default()));
    assert_eq!(a, b);
    assert_eq!(a.len(), 12);
    assert_eq!(a[0], TrackState::Idle);
    assert!(matches!(a[1], TrackState::Locked(_)));
}

#[test]
fn a_loss_repeats_the_box_before_it() {
    let seq = occlusion_and_sparse_detections(60, 2);
    let states = run(&seq, Config::default());
    let mut losses = 0;
    for t in 0..states.len() {
        if let TrackState::Lost(h) = states[t] {
            losses += 1;
            match states[t - 1] {
                TrackState::Locked(g) | TrackState::Lost(g) => assert_eq!(g, h),
                TrackState::Idle => panic!("a loss out of nothing at tick {t}"),
            }
        }
    }
    assert!(losses > 0);
}

#[test]
fn the_size_of_the_footage_counts() {
    // The box is outside of a 64x48 frame, so it never seeds.
    let frames = vec![vec![0u8; 64 * 48 * 3]; 3];
    let gt = "0,0,200,100,230,130\n1,0,200,100,230,130\n2,0,200,100,230,130\n";
    let seq = build_sequence("outside", frames, 64, 48, gt).unwrap();
    let report = evaluate(&seq, Config::default());
    assert_eq!((report.success_ticks, report.visible_ticks), (0, 3));
    assert_eq!(report.time_to_lock, None);
    assert!(!report.is_acceptable());
    assert!(!all_acceptable(&vec![report]));
    assert!(all_acceptable(&Vec::new()));
}

#[test]
fn the_arguments_of_the_real_mode_are_read() {
    assert_eq!(
        parse_real_args(&texts(&["--video", "v.mp4", "--frames", "dir", "--gt", "g.csv"])),
        Ok(RealArgs {
            frames: "dir".to_string(),
            gt: Some("g.csv".to_string()),
            video: Some("v.mp4".to_string())
        })
    );
    // A later option replaces an earlier one, and a value may look like an
    // option.
    assert_eq!(
        parse_real_args(&texts(&["--frames", "a", "--frames", "--gt"])),
        Ok(RealArgs { frames: "--gt".to_string(), gt: None, video: None })
    );
}

#[test]
fn wrong_arguments_are_named() {
    let err = |args: &[&str]| parse_real_args(&texts(args)).unwrap_err();
    assert_eq!(err(&[]), "real mode needs --frames <dir>");
    assert_eq!(err(&["--gt", "g.csv"]), "real mode needs --frames <dir>");
    assert_eq!(err(&["--frames"]), "--frames needs a value");
    assert_eq!(err(&["--frames", "d", "--gt"]), "--gt needs a value");
    assert_eq!(err(&["--video"]), "--video needs a value");
    assert_eq!(err(&["--frames", "d", "extra"]), "unrecognised argument: extra");
}

#[test]
fn the_first_argument_decides_the_mode() {
    assert_eq!(parse_command(&[]), Command::Synthetic);
    assert_eq!(parse_command(&texts(&["synthetic"])), Command::Unknown);
    assert_eq!(
        parse_command(&texts(&["real"])),
        Command::BadRealArgs("real mode needs --frames <dir>".to_string())
    );
    assert_eq!(
        parse_command(&texts(&["real", "--frames", "d"])),
        Command::Real(RealArgs { frames: "d".to_string(), gt: None, video: None })
    );
}
