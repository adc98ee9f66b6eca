//! The visual-tracker seam.
//!
//! The state machine in [`crate::stage::Stage`] treats every [`Tracker`]
//! alike, a real computer-vision backend or a test fake. The crate brings
//! one reference implementation, [`crate::simple_tracker::SimpleTracker`].

use crate::seed::SeedBox;
use crate::types::BBox;
use vstd::prelude::*;

verus! {

/// A read-only view of one decoded frame, row-major, without padding.
///
/// It is borrowed: an implementation must not keep a pointer into it past
/// the call that handed it over.
#[derive(Debug, Clone, Copy)]
pub struct FrameView<'a> {
    pub pixels: &'a [u8],
    pub width: u32,
    pub height: u32,
    /// Bytes per pixel, three for RGB8.
    pub channels: u32,
}

impl<'a> FrameView<'a> {
    /// The buffer holds every pixel of the frame, and a byte offset into it
    /// is an `i64`.
    pub open spec fn wf(self) -> bool {
        &&& self.channels >= 1
        &&& self.width * self.height * self.channels <= self.pixels@.len()
        &&& self.width * self.height * self.channels <= i64::MAX
    }
}

/// A failure inside a tracker backend.
#[derive(Debug, Clone)]
pub enum TrackerError {
    /// Seeding or re-seeding failed.
    Init(String),
    /// Stepping forward failed.
    Update(String),
}

/// A single-target visual tracker that is stepped frame by frame.
///
/// The spec functions describe a backend: whether it is active, and which
/// outcomes of a call are possible. A backend that is verified defines them
/// as precisely as it can; one that is not need not mention them.
pub trait Tracker: Send {
    /// The tracker holds a target.
    open spec fn active(&self) -> bool {
        arbitrary()
    }

    /// Seeding on this frame may leave the tracker as `post` and give this
    /// outcome.
    open spec fn may_reinit(
        &self,
        frame: FrameView<'_>,
        seed: SeedBox,
        post: &Self,
        outcome: Result<(), TrackerError>,
    ) -> bool {
        arbitrary()
    }

    /// Stepping to this frame may leave the tracker as `post` and give this
    /// outcome.
    open spec fn may_update(
        &self,
        frame: FrameView<'_>,
        post: &Self,
        outcome: Result<Option<BBox>, TrackerError>,
    ) -> bool {
        arbitrary()
    }

    /// Dropping the target may leave the tracker as `post`.
    open spec fn may_reset(&self, post: &Self) -> bool {
        arbitrary()
    }

    /// `true` once [`Tracker::reinit`] has locked a target, until
    /// [`Tracker::reset`].
    fn is_active(&self) -> (r: bool)
        ensures
            r == self.active(),
    ;

    /// Locks onto a new target, or refreshes the current one: the expensive
    /// step. Only boxes that passed the seedability gates are accepted.
    fn reinit(&mut self, frame: FrameView<'_>, seed: SeedBox) -> (r: Result<(), TrackerError>)
        requires
            frame.wf(),
        ensures
            old(self).may_reinit(frame, seed, final(self), r),
            r is Ok ==> final(self).active(),
    ;

    /// Steps forward one frame: the cheap step. `Ok(None)` reports the
    /// target lost in this frame, `Err` a failure inside the backend. Callers
    /// must treat both the same way: transition to `Lost` with the held box,
    /// and never panic. [`crate::stage::Stage::tick`] does so.
    fn update(&mut self, frame: FrameView<'_>) -> (r: Result<Option<BBox>, TrackerError>)
        requires
            frame.wf(),
        ensures
            old(self).may_update(frame, final(self), r),
            final(self).active() == old(self).active(),
    ;

    /// Drops the target.
    fn reset(&mut self)
        ensures
            old(self).may_reset(final(self)),
            !final(self).active(),
    ;
}

} // verus!
