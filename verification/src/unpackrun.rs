//! The order of the steps of restoring a folder from its archive, as a step
//! function from the run's state and what the last step found to the next state
//! and step. The archive is unpacked into a staging folder next to the
//! destination; only once that worked is the destination moved aside, the
//! staging folder moved into its place, and the old copy dropped. A failed move
//! into place puts the old copy back, and every failure removes the staging
//! folder before the run ends.
use vstd::prelude::*;

verus! {

/// Where a restore run stands.
#[derive(PartialEq, Eq, Structural, Clone, Copy, Debug)]
pub enum UnpackPhase {
    /// The archive is being opened.
    Open,
    /// The archive is being unpacked into the staging folder.
    Unpack,
    /// Leftover copies from earlier restores are being settled.
    Settle,
    /// The destination is being moved aside.
    Aside,
    /// The staging folder is being moved into the destination's place.
    Into,
    /// The old copy is being put back after a failed move into place.
    PutBack,
    /// The staging folder is being removed after a failure.
    Clean,
    /// The old copy is being removed after success.
    DropOld,
    /// The run has finished.
    Done,
}

/// How a restore run ended.
#[derive(PartialEq, Eq, Structural, Clone, Copy, Debug)]
pub enum UnpackEnd {
    /// Not finished yet.
    Running,
    CannotOpen,
    /// Unpacking failed, with and without the archive's metadata.
    ExtractFailed,
    /// The destination could not be moved aside (locked).
    CannotSwap,
    /// The staging folder could not be moved into place.
    SwapFailed,
    Restored,
    /// An answer that does not fit the step that was asked for.
    Aborted,
}

/// What the last step found.
#[derive(PartialEq, Eq, Structural, Clone, Copy, Debug)]
pub enum UnpackEvent {
    /// Whether the archive could be opened.
    Opened(bool),
    /// Whether the archive was unpacked.
    Unpacked(bool),
    Settled,
    /// Whether the destination is out of the way (moved aside, or absent).
    MovedAside(bool),
    /// Whether the staging folder was moved into place.
    MovedIn(bool),
    PutBack,
    StagingRemoved,
    OldRemoved,
}

/// The next step of a restore run.
#[derive(PartialEq, Eq, Structural, Clone, Copy, Debug)]
pub enum UnpackAction {
    /// Unpack into a fresh staging folder; whether to keep the archive's metadata.
    Unpack(bool),
    SettleLeftovers,
    MoveDestAside,
    MoveIntoPlace,
    PutOldBack,
    RemoveStaging,
    RemoveOld,
    Finish(UnpackEnd),
}

/// The state of a restore run.
#[derive(PartialEq, Eq, Structural, Clone, Copy, Debug)]
pub struct UnpackRun {
    pub phase: UnpackPhase,
    /// Unpacking was retried without metadata.
    pub retried: bool,
    /// The archive was unpacked into the staging folder.
    pub unpacked: bool,
    /// The destination was moved out of the way.
    pub cleared: bool,
    /// The staging folder is in the destination's place.
    pub placed: bool,
    /// The old copy was put back.
    pub put_back: bool,
    /// The staging folder was removed.
    pub staging_removed: bool,
    /// How the run ends once the staging folder is removed.
    pub pending: UnpackEnd,
    pub end: UnpackEnd,
}

/// The ends of a run that failed.
pub open spec fn is_failure(e: UnpackEnd) -> bool {
    e is CannotOpen || e is ExtractFailed || e is CannotSwap || e is SwapFailed
}

pub open spec fn unpack_finish(s: UnpackRun, e: UnpackEnd) -> (UnpackRun, UnpackAction) {
    (UnpackRun { phase: UnpackPhase::Done, end: e, ..s }, UnpackAction::Finish(e))
}

pub open spec fn unpack_fail(s: UnpackRun, e: UnpackEnd) -> (UnpackRun, UnpackAction) {
    (UnpackRun { phase: UnpackPhase::Clean, pending: e, ..s }, UnpackAction::RemoveStaging)
}

/// One step of a restore run.
pub open spec fn unpack_step(s: UnpackRun, e: UnpackEvent) -> (UnpackRun, UnpackAction) {
    match (s.phase, e) {
        (UnpackPhase::Done, _) => (s, UnpackAction::Finish(s.end)),
        (UnpackPhase::Open, UnpackEvent::Opened(ok)) => if ok {
            (UnpackRun { phase: UnpackPhase::Unpack, ..s }, UnpackAction::Unpack(true))
        } else {
            unpack_fail(s, UnpackEnd::CannotOpen)
        },
        (UnpackPhase::Unpack, UnpackEvent::Unpacked(ok)) => if ok {
            (UnpackRun { phase: UnpackPhase::Settle, unpacked: true, ..s }, UnpackAction::SettleLeftovers)
        } else if !s.retried {
            (UnpackRun { retried: true, ..s }, UnpackAction::Unpack(false))
        } else {
            unpack_fail(s, UnpackEnd::ExtractFailed)
        },
        (UnpackPhase::Settle, UnpackEvent::Settled) => (
            UnpackRun { phase: UnpackPhase::Aside, ..s },
            UnpackAction::MoveDestAside,
        ),
        (UnpackPhase::Aside, UnpackEvent::MovedAside(ok)) => if ok {
            (UnpackRun { phase: UnpackPhase::Into, cleared: true, ..s }, UnpackAction::MoveIntoPlace)
        } else {
            unpack_fail(s, UnpackEnd::CannotSwap)
        },
        (UnpackPhase::Into, UnpackEvent::MovedIn(ok)) => if ok {
            (UnpackRun { phase: UnpackPhase::DropOld, placed: true, ..s }, UnpackAction::RemoveOld)
        } else {
            (UnpackRun { phase: UnpackPhase::PutBack, ..s }, UnpackAction::PutOldBack)
        },
        (UnpackPhase::PutBack, UnpackEvent::PutBack) => unpack_fail(
            UnpackRun { put_back: true, ..s },
            UnpackEnd::SwapFailed,
        ),
        (UnpackPhase::Clean, UnpackEvent::StagingRemoved) => unpack_finish(
            UnpackRun { staging_removed: true, ..s },
            s.pending,
        ),
        (UnpackPhase::DropOld, UnpackEvent::OldRemoved) => unpack_finish(s, UnpackEnd::Restored),
        _ => unpack_finish(s, UnpackEnd::Aborted),
    }
}

impl UnpackRun {
    /// The run's rules hold of the state: the destination is touched only after
    /// the archive was unpacked; the old copy is dropped only once the new one
    /// is in place; a failed run has removed its staging folder, and one whose
    /// move into place failed has put the old copy back.
    pub open spec fn wf(&self) -> bool {
        &&& (self.phase is Open || self.phase is Unpack) ==> !self.unpacked && !self.cleared && !self.placed
        &&& (self.phase is Settle || self.phase is Aside) ==> self.unpacked && !self.cleared && !self.placed
        &&& (self.phase is Into || self.phase is PutBack) ==> self.unpacked && self.cleared && !self.placed
        &&& self.phase is DropOld ==> self.placed
        &&& self.cleared ==> self.unpacked
        &&& self.placed ==> self.cleared
        &&& self.phase is Clean ==> is_failure(self.pending) && !self.placed
        &&& self.pending is SwapFailed ==> self.put_back
        &&& self.phase is Open ==> !self.retried
        &&& (self.phase is Done) == !(self.end is Running)
        &&& is_failure(self.end) ==> self.staging_removed && !self.placed
        &&& self.end is SwapFailed ==> self.put_back
        &&& self.end is Restored ==> self.placed
    }

    /// A new run; the archive is to be opened first.
    pub fn new() -> (r: UnpackRun)
        ensures
            r.wf(),
            r == (UnpackRun {
                phase: UnpackPhase::Open,
                retried: false,
                unpacked: false,
                cleared: false,
                placed: false,
                put_back: false,
                staging_removed: false,
                pending: UnpackEnd::Running,
                end: UnpackEnd::Running,
            }),
    {
        UnpackRun {
            phase: UnpackPhase::Open,
            retried: false,
            unpacked: false,
            cleared: false,
            placed: false,
            put_back: false,
            staging_removed: false,
            pending: UnpackEnd::Running,
            end: UnpackEnd::Running,
        }
    }

    fn finish_with(&mut self, e: UnpackEnd) -> (r: UnpackAction)
        ensures
            (*final(self), r) == unpack_finish(*old(self), e),
    {
        self.phase = UnpackPhase::Done;
        self.end = e;
        UnpackAction::Finish(e)
    }

    fn fail_with(&mut self, e: UnpackEnd) -> (r: UnpackAction)
        ensures
            (*final(self), r) == unpack_fail(*old(self), e),
    {
        self.phase = UnpackPhase::Clean;
        self.pending = e;
        UnpackAction::RemoveStaging
    }

    /// Takes what the last step found and gives the next step (see
    /// `unpack_step`). The destination is moved aside only after a successful
    /// unpack; the old copy is removed only once the new one is in place; a
    /// failed move into place is followed by putting the old copy back; a run
    /// ends in failure only after its staging folder was removed.
    pub fn step(&mut self, e: UnpackEvent) -> (r: UnpackAction)
        requires
            old(self).wf(),
        ensures
            (*final(self), r) == unpack_step(*old(self), e),
            final(self).wf(),
            old(self).phase is Done ==> r == UnpackAction::Finish(old(self).end) && *final(self) == *old(self),
            r is MoveDestAside ==> final(self).unpacked,
            r is MoveIntoPlace ==> final(self).unpacked && final(self).cleared,
            r is RemoveOld ==> final(self).placed,
            r is PutOldBack ==> final(self).cleared && !final(self).placed,
            r matches UnpackAction::Finish(end) && is_failure(end) ==> final(self).staging_removed
                && !final(self).placed,
            r == UnpackAction::Finish(UnpackEnd::SwapFailed) ==> final(self).put_back,
    {
        match (self.phase, e) {
            (UnpackPhase::Done, _) => UnpackAction::Finish(self.end),
            (UnpackPhase::Open, UnpackEvent::Opened(ok)) => if ok {
                self.phase = UnpackPhase::Unpack;
                UnpackAction::Unpack(true)
            } else {
                self.fail_with(UnpackEnd::CannotOpen)
            },
            (UnpackPhase::Unpack, UnpackEvent::Unpacked(ok)) => if ok {
                self.phase = UnpackPhase::Settle;
                self.unpacked = true;
                UnpackAction::SettleLeftovers
            } else if !self.retried {
                self.retried = true;
                UnpackAction::Unpack(false)
            } else {
                self.fail_with(UnpackEnd::ExtractFailed)
            },
            (UnpackPhase::Settle, UnpackEvent::Settled) => {
                self.phase = UnpackPhase::Aside;
                UnpackAction::MoveDestAside
            },
            (UnpackPhase::Aside, UnpackEvent::MovedAside(ok)) => if ok {
                self.phase = UnpackPhase::Into;
                self.cleared = true;
                UnpackAction::MoveIntoPlace
            } else {
                self.fail_with(UnpackEnd::CannotSwap)
            },
            (UnpackPhase::Into, UnpackEvent::MovedIn(ok)) => if ok {
                self.phase = UnpackPhase::DropOld;
                self.placed = true;
                UnpackAction::RemoveOld
            } else {
                self.phase = UnpackPhase::PutBack;
                UnpackAction::PutOldBack
            },
            (UnpackPhase::PutBack, UnpackEvent::PutBack) => {
                self.put_back = true;
                self.fail_with(UnpackEnd::SwapFailed)
            },
            (UnpackPhase::Clean, UnpackEvent::StagingRemoved) => {
                self.staging_removed = true;
                let p = self.pending;
                self.finish_with(p)
            },
            (UnpackPhase::DropOld, UnpackEvent::OldRemoved) => self.finish_with(UnpackEnd::Restored),
            _ => self.finish_with(UnpackEnd::Aborted),
        }
    }
}

} // verus!
