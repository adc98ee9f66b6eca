//! Single-target visual tracking: detection association, the seeding and
//! stepping of a tracker backend, and the state machine that takes a target
//! through lock, refresh, loss and age-out. There is no I/O in it.
//!
//! Start with [`TrackingSession`]: push a frame and this tick's detections
//! in, get a [`TrackState`] out. [`Stage`] is the same state machine in two
//! phases. A computer-vision backend plugs in through [`Tracker`];
//! [`SimpleTracker`] is a reference one.
//!
//! Around the algorithm stands a harness that evaluates it: generated
//! sequences ([`synthetic`]) or annotated footage ([`footage`], [`frames`])
//! run through a session ([`harness`]) and are scored against their ground
//! truth ([`metrics`]).

use vstd::prelude::*;

pub mod acquisition;
pub mod correlation;
pub mod footage;
pub mod frames;
pub mod harness;
pub mod metrics;
pub mod ratio;
pub mod replay;
pub mod rng;
pub mod seed;
pub mod session;
pub mod simple_tracker;
pub mod stage;
pub mod synthetic;
pub mod text;
pub mod tracker;
pub mod types;
pub mod wide;

pub use acquisition::{confirm_central, iou, match_detection, select_central};
pub use seed::{force_lock_box_error, FrameDims, SeedBox, SeedError};
pub use session::TrackingSession;
pub use simple_tracker::SimpleTracker;
pub use stage::{Config, PendingLock, Stage};
pub use tracker::{FrameView, Tracker, TrackerError};
pub use types::{BBox, Confidence, Detection, HeldTrack, TrackState};

verus! {

/// Whether a lock last refreshed at `last_refresh_ns` has gone longer than
/// `max_age_ns` without a refresh. Such a lock must be dropped.
pub fn is_stale(last_refresh_ns: i64, now_ns: i64, max_age_ns: i64) -> (r: bool)
    ensures
        r == (now_ns - last_refresh_ns > max_age_ns),
{
    now_ns as i128 - last_refresh_ns as i128 > max_age_ns as i128
}

} // verus!
