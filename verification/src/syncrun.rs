//! The order of the steps of backing one folder up, as a step function from the
//! run's state and what the last step found to the next state and step. Its
//! contract holds the order's rules: nothing is written once the run has
//! finished; a refusal or a "no changes" comes before anything is written; the
//! archive is replaced only after the old one was kept as a snapshot; the
//! manifest is written only after the new archive is in place.
use vstd::prelude::*;
use crate::sync::{change_check, empty_source_guard, spec_change_check, spec_empty_guard, ChangeCheck, EmptyGuard};

verus! {

/// Where a backup run stands.
#[derive(PartialEq, Eq, Structural, Clone, Copy, Debug)]
pub enum SyncPhase {
    /// The source's existence is being checked.
    Start,
    /// The lock is being taken.
    Lock,
    /// The source is being walked.
    Walk,
    /// The stored archive and its sidecar are being read.
    Store,
    /// The content is being compared with the stored manifest.
    Compare,
    /// The old archive is being kept as a snapshot.
    Snapshot,
    /// The new archive is being written to a temporary file.
    Compress,
    /// The temporary archive is being renamed into place.
    Swap,
    /// The temporary archive is being copied into place (the rename failed).
    Copy,
    /// The manifest is being written.
    Write,
    /// The run has finished.
    Done,
}

/// How a backup run ended.
#[derive(PartialEq, Eq, Structural, Clone, Copy, Debug)]
pub enum SyncEnd {
    /// Not finished yet.
    Running,
    SourceMissing,
    LockBusy,
    /// The source could not be read.
    Unreadable,
    /// Everything walked lies in the application's home.
    HomeOnly,
    /// The source reads as empty while the backup holds this many files.
    RefuseEmpty(usize),
    NoChanges,
    CompressFailed,
    /// Neither the rename nor the copy put the new archive in place.
    RenameFailed,
    /// The copy was torn (see `copy_fallback_verdict`).
    CopyDamaged,
    /// Backed up; whether the old archive was kept as a snapshot.
    BackedUp(bool),
    /// An answer that does not fit the step that was asked for.
    Aborted,
}

/// What the last step found.
#[derive(PartialEq, Eq, Structural, Clone, Copy, Debug)]
pub enum SyncEvent {
    /// Whether the source exists.
    SourceChecked(bool),
    /// Whether the lock was taken.
    Locked(bool),
    /// The source could not be read.
    WalkFailed,
    /// The walk's byte total, file count, and file count before the home's
    /// members were left out.
    Walked(u64, usize, usize),
    /// Whether the archive exists, the size and count its sidecar records, and
    /// whether the sidecar holds a manifest.
    StoreRead(bool, u64, usize, bool),
    /// Whether the content differs from the stored manifest.
    Compared(bool),
    SnapshotTaken,
    /// Whether the temporary archive was written.
    Compressed(bool),
    /// Whether the rename succeeded.
    Renamed(bool),
    /// Whether the copy succeeded, and whether it was verified intact.
    Copied(bool, bool),
    ManifestWritten,
}

/// The next step of a backup run.
#[derive(PartialEq, Eq, Structural, Clone, Copy, Debug)]
pub enum SyncAction {
    TakeLock,
    Walk,
    ReadStore,
    CompareContent,
    TakeSnapshot,
    Compress,
    RenameIntoPlace,
    CopyIntoPlace,
    WriteManifest,
    Finish(SyncEnd),
}

/// The state of a backup run.
#[derive(PartialEq, Eq, Structural, Clone, Copy, Debug)]
pub struct SyncRun {
    pub phase: SyncPhase,
    /// Back up even without a change (an explicit re-add).
    pub force: bool,
    pub size: u64,
    pub count: usize,
    pub raw_count: usize,
    pub archive_exists: bool,
    /// The old archive was kept as a snapshot.
    pub snapshotted: bool,
    /// The new archive is in place.
    pub swapped: bool,
    /// A step that writes to the backup store was asked for.
    pub wrote: bool,
    pub end: SyncEnd,
}

/// The steps that write to the backup store.
pub open spec fn writes(a: SyncAction) -> bool {
    a is TakeSnapshot || a is RenameIntoPlace || a is CopyIntoPlace || a is WriteManifest
}

/// The ends that leave the backup store as it was.
pub open spec fn is_refusal(e: SyncEnd) -> bool {
    e is SourceMissing || e is LockBusy || e is Unreadable || e is HomeOnly || e is RefuseEmpty || e is NoChanges
}

pub open spec fn finish(s: SyncRun, e: SyncEnd) -> (SyncRun, SyncAction) {
    (SyncRun { phase: SyncPhase::Done, end: e, ..s }, SyncAction::Finish(e))
}

/// A backup is due: the old archive is kept first when there is one.
pub open spec fn start_backup(s: SyncRun) -> (SyncRun, SyncAction) {
    if s.archive_exists {
        (SyncRun { phase: SyncPhase::Snapshot, wrote: true, ..s }, SyncAction::TakeSnapshot)
    } else {
        (SyncRun { phase: SyncPhase::Compress, ..s }, SyncAction::Compress)
    }
}

/// One step of a backup run.
pub open spec fn sync_step(s: SyncRun, e: SyncEvent) -> (SyncRun, SyncAction) {
    match (s.phase, e) {
        (SyncPhase::Done, _) => (s, SyncAction::Finish(s.end)),
        (SyncPhase::Start, SyncEvent::SourceChecked(ok)) => if ok {
            (SyncRun { phase: SyncPhase::Lock, ..s }, SyncAction::TakeLock)
        } else {
            finish(s, SyncEnd::SourceMissing)
        },
        (SyncPhase::Lock, SyncEvent::Locked(ok)) => if ok {
            (SyncRun { phase: SyncPhase::Walk, ..s }, SyncAction::Walk)
        } else {
            finish(s, SyncEnd::LockBusy)
        },
        (SyncPhase::Walk, SyncEvent::WalkFailed) => finish(s, SyncEnd::Unreadable),
        (SyncPhase::Walk, SyncEvent::Walked(size, count, raw)) => (
            SyncRun { phase: SyncPhase::Store, size, count, raw_count: raw, ..s },
            SyncAction::ReadStore,
        ),
        (SyncPhase::Store, SyncEvent::StoreRead(exists, stored_size, stored_count, has_manifest)) => {
            let s1 = SyncRun { archive_exists: exists, ..s };
            let guard = if s.count == 0 && exists {
                spec_empty_guard(s.count as nat, s.raw_count as nat, exists, stored_count as nat, s.force)
            } else {
                EmptyGuard::Proceed
            };
            match guard {
                EmptyGuard::HomeOnly => finish(s1, SyncEnd::HomeOnly),
                EmptyGuard::Refuse => finish(s1, SyncEnd::RefuseEmpty(stored_count)),
                _ => match spec_change_check(
                    s.force,
                    exists,
                    s.size as nat,
                    s.count as nat,
                    stored_size as nat,
                    stored_count as nat,
                ) {
                    ChangeCheck::CompareContent => if has_manifest {
                        (SyncRun { phase: SyncPhase::Compare, ..s1 }, SyncAction::CompareContent)
                    } else {
                        start_backup(s1)
                    },
                    ChangeCheck::Changed => start_backup(s1),
                },
            }
        },
        (SyncPhase::Compare, SyncEvent::Compared(changed)) => if changed {
            start_backup(s)
        } else {
            finish(s, SyncEnd::NoChanges)
        },
        (SyncPhase::Snapshot, SyncEvent::SnapshotTaken) => (
            SyncRun { phase: SyncPhase::Compress, snapshotted: true, ..s },
            SyncAction::Compress,
        ),
        (SyncPhase::Compress, SyncEvent::Compressed(ok)) => if ok {
            (SyncRun { phase: SyncPhase::Swap, wrote: true, ..s }, SyncAction::RenameIntoPlace)
        } else {
            finish(s, SyncEnd::CompressFailed)
        },
        (SyncPhase::Swap, SyncEvent::Renamed(ok)) => if ok {
            (SyncRun { phase: SyncPhase::Write, swapped: true, ..s }, SyncAction::WriteManifest)
        } else {
            (SyncRun { phase: SyncPhase::Copy, ..s }, SyncAction::CopyIntoPlace)
        },
        (SyncPhase::Copy, SyncEvent::Copied(copied, intact)) => if !copied {
            finish(s, SyncEnd::RenameFailed)
        } else if intact {
            (SyncRun { phase: SyncPhase::Write, swapped: true, ..s }, SyncAction::WriteManifest)
        } else {
            finish(s, SyncEnd::CopyDamaged)
        },
        (SyncPhase::Write, SyncEvent::ManifestWritten) => finish(s, SyncEnd::BackedUp(s.snapshotted)),
        _ => finish(s, SyncEnd::Aborted),
    }
}

/// A fresh run.
pub open spec fn fresh_run(force: bool) -> SyncRun {
    SyncRun {
        phase: SyncPhase::Start,
        force,
        size: 0,
        count: 0,
        raw_count: 0,
        archive_exists: false,
        snapshotted: false,
        swapped: false,
        wrote: false,
        end: SyncEnd::Running,
    }
}

/// The run after the given answers, in order.
pub open spec fn run_events(s: SyncRun, es: Seq<SyncEvent>) -> SyncRun
    decreases es.len(),
{
    if es.len() == 0 {
        s
    } else {
        sync_step(run_events(s, es.drop_last()), es.last()).0
    }
}

/// A folder whose size, count and content match its backup (as right after a
/// restore) is not backed up again: the run ends with "no changes" and writes
/// nothing.
pub proof fn lemma_unchanged_folder_not_rewritten(size: u64, count: usize, raw: usize)
    ensures
        ({
            let es = seq![
                SyncEvent::SourceChecked(true),
                SyncEvent::Locked(true),
                SyncEvent::Walked(size, count, raw),
                SyncEvent::StoreRead(true, size, count, true),
                SyncEvent::Compared(false),
            ];
            let s = run_events(fresh_run(false), es);
            s.phase == SyncPhase::Done && s.end == SyncEnd::NoChanges && !s.wrote
        }),
{
    let es = seq![
        SyncEvent::SourceChecked(true),
        SyncEvent::Locked(true),
        SyncEvent::Walked(size, count, raw),
        SyncEvent::StoreRead(true, size, count, true),
        SyncEvent::Compared(false),
    ];
    assert(es.drop_last().drop_last().drop_last().drop_last().drop_last() =~= Seq::<SyncEvent>::empty());
    assert(es.drop_last().drop_last().drop_last().drop_last() =~= seq![SyncEvent::SourceChecked(true)]);
    assert(es.drop_last().drop_last().drop_last() =~= seq![SyncEvent::SourceChecked(true), SyncEvent::Locked(true)]);
    assert(es.drop_last().drop_last() =~= seq![
        SyncEvent::SourceChecked(true),
        SyncEvent::Locked(true),
        SyncEvent::Walked(size, count, raw),
    ]);
    reveal_with_fuel(run_events, 6);
}

/// Once the content comparison has run, a change found is always backed up:
/// the next step keeps the old archive as a snapshot when there is one, else
/// compresses the new archive; only "no change" ends the run with nothing
/// written.
pub proof fn lemma_found_change_is_backed_up(s: SyncRun)
    requires
        s.phase == SyncPhase::Compare,
    ensures
        sync_step(s, SyncEvent::Compared(true)).1 == (if s.archive_exists {
            SyncAction::TakeSnapshot
        } else {
            SyncAction::Compress
        }),
        sync_step(s, SyncEvent::Compared(true)).0.phase != SyncPhase::Done,
        sync_step(s, SyncEvent::Compared(false)).1 == SyncAction::Finish(SyncEnd::NoChanges),
        sync_step(s, SyncEvent::Compared(false)).0.wrote == s.wrote,
{
}

/// A folder whose walk differs in size or file count from what the sidecar
/// records is backed up, without a content comparison: the next step keeps the
/// old archive as a snapshot.
pub proof fn lemma_size_change_is_backed_up(s: SyncRun, stored_size: u64, stored_count: usize, has_manifest: bool)
    requires
        s.phase == SyncPhase::Store,
        s.count > 0,
        s.size != stored_size || s.count != stored_count,
    ensures
        sync_step(s, SyncEvent::StoreRead(true, stored_size, stored_count, has_manifest)).1 == SyncAction::TakeSnapshot,
{
}

/// A folder that changed in size or file count, with an archive already
/// stored, is backed up in this order: snapshot of the old archive, compression,
/// rename into place, manifest; the run ends backed up with the snapshot kept.
pub proof fn lemma_backup_order(size: u64, count: usize, raw: usize, ss: u64, sc: usize, m: bool)
    requires
        count > 0,
        size != ss || count != sc,
    ensures
        ({
            let s1 = sync_step(fresh_run(false), SyncEvent::SourceChecked(true));
            let s2 = sync_step(s1.0, SyncEvent::Locked(true));
            let s3 = sync_step(s2.0, SyncEvent::Walked(size, count, raw));
            let s4 = sync_step(s3.0, SyncEvent::StoreRead(true, ss, sc, m));
            let s5 = sync_step(s4.0, SyncEvent::SnapshotTaken);
            let s6 = sync_step(s5.0, SyncEvent::Compressed(true));
            let s7 = sync_step(s6.0, SyncEvent::Renamed(true));
            let s8 = sync_step(s7.0, SyncEvent::ManifestWritten);
            &&& s1.1 == SyncAction::TakeLock
            &&& s2.1 == SyncAction::Walk
            &&& s3.1 == SyncAction::ReadStore
            &&& s4.1 == SyncAction::TakeSnapshot
            &&& s5.1 == SyncAction::Compress
            &&& s6.1 == SyncAction::RenameIntoPlace
            &&& s7.1 == SyncAction::WriteManifest
            &&& s8.1 == SyncAction::Finish(SyncEnd::BackedUp(true))
            &&& s8.0.snapshotted && s8.0.swapped && s8.0.wrote
        }),
{
}

/// How each step that can fail ends: a missing source, a busy lock or a failed
/// compression end the run with that reason and nothing put in place; a failed
/// rename falls back to a copy; a failed copy, or a torn one, ends the run; an
/// intact copy goes on to the manifest.
pub proof fn lemma_failures_end_run(s: SyncRun)
    ensures
        s.phase == SyncPhase::Start ==> sync_step(s, SyncEvent::SourceChecked(false)).1 == SyncAction::Finish(
            SyncEnd::SourceMissing,
        ),
        s.phase == SyncPhase::Lock ==> sync_step(s, SyncEvent::Locked(false)).1 == SyncAction::Finish(
            SyncEnd::LockBusy,
        ),
        s.phase == SyncPhase::Walk ==> sync_step(s, SyncEvent::WalkFailed).1 == SyncAction::Finish(SyncEnd::Unreadable),
        s.phase == SyncPhase::Compress ==> sync_step(s, SyncEvent::Compressed(false)).1 == SyncAction::Finish(
            SyncEnd::CompressFailed,
        ) && sync_step(s, SyncEvent::Compressed(false)).0.swapped == s.swapped,
        s.phase == SyncPhase::Swap ==> sync_step(s, SyncEvent::Renamed(false)).1 == SyncAction::CopyIntoPlace,
        s.phase == SyncPhase::Copy ==> sync_step(s, SyncEvent::Copied(false, false)).1 == SyncAction::Finish(
            SyncEnd::RenameFailed,
        ) && sync_step(s, SyncEvent::Copied(true, false)).1 == SyncAction::Finish(SyncEnd::CopyDamaged)
            && sync_step(s, SyncEvent::Copied(true, true)).1 == SyncAction::WriteManifest,
{
}

/// Each step keeps the run's rules (see `SyncRun::wf`).
pub proof fn lemma_step_keeps_rules(s: SyncRun, e: SyncEvent)
    requires
        s.wf(),
    ensures
        sync_step(s, e).0.wf(),
{
    let (n, a) = sync_step(s, e);
    match s.phase {
        SyncPhase::Start => { assert(n.wf()); },
        SyncPhase::Lock => { assert(n.wf()); },
        SyncPhase::Walk => { assert(n.wf()); },
        SyncPhase::Store => { assert(n.wf()); },
        SyncPhase::Compare => { assert(n.wf()); },
        SyncPhase::Snapshot => { assert(n.wf()); },
        SyncPhase::Compress => { assert(n.wf()); },
        SyncPhase::Swap => { assert(n.wf()); },
        SyncPhase::Copy => { assert(n.wf()); },
        SyncPhase::Write => { assert(n.wf()); },
        SyncPhase::Done => { assert(n.wf()); },
    }
}

impl SyncRun {
    /// The run's rules hold of the state: before the store is read nothing was
    /// written; a snapshot exists only of an existing archive; the archive is in
    /// place only after it was kept as a snapshot (when there was one).
    pub open spec fn wf(&self) -> bool {
        &&& (self.phase is Start || self.phase is Lock || self.phase is Walk || self.phase is Store
            || self.phase is Compare) ==> !self.wrote && !self.snapshotted && !self.swapped
        &&& self.snapshotted ==> self.archive_exists && self.wrote
        &&& self.phase is Snapshot ==> self.archive_exists && self.wrote
        &&& (self.phase is Compress || self.phase is Swap || self.phase is Copy || self.phase is Write)
            ==> (self.archive_exists ==> self.snapshotted)
        &&& (self.phase is Swap || self.phase is Copy || self.phase is Write) ==> self.wrote
        &&& self.swapped ==> (self.phase is Write || self.phase is Done)
        &&& (self.phase is Write) ==> self.swapped
        &&& (self.phase is Done) == !(self.end is Running)
        &&& is_refusal(self.end) ==> !self.wrote
    }

    /// A new run; `force` backs up even without a change.
    pub fn new(force: bool) -> (r: SyncRun)
        ensures
            r.wf(),
            r == (SyncRun {
                phase: SyncPhase::Start,
                force,
                size: 0,
                count: 0,
                raw_count: 0,
                archive_exists: false,
                snapshotted: false,
                swapped: false,
                wrote: false,
                end: SyncEnd::Running,
            }),
    {
        SyncRun {
            phase: SyncPhase::Start,
            force,
            size: 0,
            count: 0,
            raw_count: 0,
            archive_exists: false,
            snapshotted: false,
            swapped: false,
            wrote: false,
            end: SyncEnd::Running,
        }
    }

    fn finish_with(&mut self, e: SyncEnd) -> (r: SyncAction)
        ensures
            (*final(self), r) == finish(*old(self), e),
    {
        self.phase = SyncPhase::Done;
        self.end = e;
        SyncAction::Finish(e)
    }

    fn start_backup_exec(&mut self) -> (r: SyncAction)
        ensures
            (*final(self), r) == start_backup(*old(self)),
    {
        if self.archive_exists {
            self.phase = SyncPhase::Snapshot;
            self.wrote = true;
            SyncAction::TakeSnapshot
        } else {
            self.phase = SyncPhase::Compress;
            SyncAction::Compress
        }
    }

    /// Takes what the last step found and gives the next step (see `sync_step`).
    /// Once finished, a run only repeats how it ended. A refusal or "no changes"
    /// comes before any write; the archive is replaced only after the old one
    /// was kept; the manifest is written only once the new archive is in place.
    pub fn step(&mut self, e: SyncEvent) -> (r: SyncAction)
        requires
            old(self).wf(),
        ensures
            (*final(self), r) == sync_step(*old(self), e),
            final(self).wf(),
            old(self).phase is Done ==> r == SyncAction::Finish(old(self).end) && *final(self) == *old(self),
            r matches SyncAction::Finish(end) && is_refusal(end) ==> !final(self).wrote,
            (r is RenameIntoPlace || r is CopyIntoPlace) ==> (final(self).archive_exists ==> final(self).snapshotted),
            r is WriteManifest ==> final(self).swapped,
            writes(r) ==> final(self).wrote,
    {
        proof {
            lemma_step_keeps_rules(*self, e);
        }
        match (self.phase, e) {
            (SyncPhase::Done, _) => SyncAction::Finish(self.end),
            (SyncPhase::Start, SyncEvent::SourceChecked(ok)) => if ok {
                self.phase = SyncPhase::Lock;
                SyncAction::TakeLock
            } else {
                self.finish_with(SyncEnd::SourceMissing)
            },
            (SyncPhase::Lock, SyncEvent::Locked(ok)) => if ok {
                self.phase = SyncPhase::Walk;
                SyncAction::Walk
            } else {
                self.finish_with(SyncEnd::LockBusy)
            },
            (SyncPhase::Walk, SyncEvent::WalkFailed) => self.finish_with(SyncEnd::Unreadable),
            (SyncPhase::Walk, SyncEvent::Walked(size, count, raw)) => {
                self.phase = SyncPhase::Store;
                self.size = size;
                self.count = count;
                self.raw_count = raw;
                SyncAction::ReadStore
            },
            (SyncPhase::Store, SyncEvent::StoreRead(exists, stored_size, stored_count, has_manifest)) => {
                self.archive_exists = exists;
                let guard = if self.count == 0 && exists {
                    empty_source_guard(self.count, self.raw_count, exists, stored_count, self.force)
                } else {
                    EmptyGuard::Proceed
                };
                match guard {
                    EmptyGuard::HomeOnly => self.finish_with(SyncEnd::HomeOnly),
                    EmptyGuard::Refuse => self.finish_with(SyncEnd::RefuseEmpty(stored_count)),
                    _ => match change_check(self.force, exists, self.size, self.count, stored_size, stored_count) {
                        ChangeCheck::CompareContent => if has_manifest {
                            self.phase = SyncPhase::Compare;
                            SyncAction::CompareContent
                        } else {
                            self.start_backup_exec()
                        },
                        ChangeCheck::Changed => self.start_backup_exec(),
                    },
                }
            },
            (SyncPhase::Compare, SyncEvent::Compared(changed)) => if changed {
                self.start_backup_exec()
            } else {
                self.finish_with(SyncEnd::NoChanges)
            },
            (SyncPhase::Snapshot, SyncEvent::SnapshotTaken) => {
                self.phase = SyncPhase::Compress;
                self.snapshotted = true;
                SyncAction::Compress
            },
            (SyncPhase::Compress, SyncEvent::Compressed(ok)) => if ok {
                self.phase = SyncPhase::Swap;
                self.wrote = true;
                SyncAction::RenameIntoPlace
            } else {
                self.finish_with(SyncEnd::CompressFailed)
            },
            (SyncPhase::Swap, SyncEvent::Renamed(ok)) => if ok {
                self.phase = SyncPhase::Write;
                self.swapped = true;
                SyncAction::WriteManifest
            } else {
                self.phase = SyncPhase::Copy;
                SyncAction::CopyIntoPlace
            },
            (SyncPhase::Copy, SyncEvent::Copied(copied, intact)) => if !copied {
                self.finish_with(SyncEnd::RenameFailed)
            } else if intact {
                self.phase = SyncPhase::Write;
                self.swapped = true;
                SyncAction::WriteManifest
            } else {
                self.finish_with(SyncEnd::CopyDamaged)
            },
            (SyncPhase::Write, SyncEvent::ManifestWritten) => {
                let sn = self.snapshotted;
                self.finish_with(SyncEnd::BackedUp(sn))
            },
            _ => self.finish_with(SyncEnd::Aborted),
        }
    }
}

} // verus!
