use lrgex_restore::syncrun::{SyncAction, SyncEnd, SyncEvent, SyncRun};

fn walked_run(force: bool, size: u64, count: usize, raw: usize) -> SyncRun {
    let mut r = SyncRun::new(force);
    assert_eq!(r.step(SyncEvent::SourceChecked(true)), SyncAction::TakeLock);
    assert_eq!(r.step(SyncEvent::Locked(true)), SyncAction::Walk);
    assert_eq!(r.step(SyncEvent::Walked(size, count, raw)), SyncAction::ReadStore);
    r
}

#[test]
fn missing_source_and_busy_lock_finish_at_once() {
    let mut r = SyncRun::new(false);
    assert_eq!(r.step(SyncEvent::SourceChecked(false)), SyncAction::Finish(SyncEnd::SourceMissing));
    assert_eq!(r.step(SyncEvent::Locked(true)), SyncAction::Finish(SyncEnd::SourceMissing));
    assert!(!r.wrote);
    let mut r = SyncRun::new(false);
    r.step(SyncEvent::SourceChecked(true));
    assert_eq!(r.step(SyncEvent::Locked(false)), SyncAction::Finish(SyncEnd::LockBusy));
    let mut r = SyncRun::new(false);
    r.step(SyncEvent::SourceChecked(true));
    r.step(SyncEvent::Locked(true));
    assert_eq!(r.step(SyncEvent::WalkFailed), SyncAction::Finish(SyncEnd::Unreadable));
}

#[test]
fn empty_source_is_refused_before_any_write() {
    let mut r = walked_run(false, 0, 0, 0);
    assert_eq!(r.step(SyncEvent::StoreRead(true, 100, 5, true)), SyncAction::Finish(SyncEnd::RefuseEmpty(5)));
    assert!(!r.wrote);
    let mut r = walked_run(false, 0, 0, 3);
    assert_eq!(r.step(SyncEvent::StoreRead(true, 100, 5, true)), SyncAction::Finish(SyncEnd::HomeOnly));
    let mut r = walked_run(true, 0, 0, 0);
    assert_eq!(r.step(SyncEvent::StoreRead(true, 100, 5, true)), SyncAction::TakeSnapshot);
}

#[test]
fn backup_keeps_the_old_archive_before_replacing_it() {
    let mut r = walked_run(false, 10, 2, 2);
    assert_eq!(r.step(SyncEvent::StoreRead(true, 9, 2, true)), SyncAction::TakeSnapshot);
    assert_eq!(r.step(SyncEvent::SnapshotTaken), SyncAction::Compress);
    assert_eq!(r.step(SyncEvent::Compressed(true)), SyncAction::RenameIntoPlace);
    assert_eq!(r.step(SyncEvent::Renamed(true)), SyncAction::WriteManifest);
    assert_eq!(r.step(SyncEvent::ManifestWritten), SyncAction::Finish(SyncEnd::BackedUp(true)));
    assert!(r.snapshotted && r.swapped);
}

#[test]
fn first_backup_has_no_snapshot() {
    let mut r = walked_run(false, 10, 2, 2);
    assert_eq!(r.step(SyncEvent::StoreRead(false, 0, 0, false)), SyncAction::Compress);
    assert_eq!(r.step(SyncEvent::Compressed(false)), SyncAction::Finish(SyncEnd::CompressFailed));
}

#[test]
fn unchanged_content_is_not_backed_up() {
    let mut r = walked_run(false, 10, 2, 2);
    assert_eq!(r.step(SyncEvent::StoreRead(true, 10, 2, true)), SyncAction::CompareContent);
    assert_eq!(r.step(SyncEvent::Compared(false)), SyncAction::Finish(SyncEnd::NoChanges));
    assert!(!r.wrote);
    let mut r = walked_run(false, 10, 2, 2);
    assert_eq!(r.step(SyncEvent::StoreRead(true, 10, 2, false)), SyncAction::TakeSnapshot);
}

#[test]
fn copy_fallback_and_mismatched_answers() {
    let mut r = walked_run(false, 10, 2, 2);
    r.step(SyncEvent::StoreRead(false, 0, 0, false));
    r.step(SyncEvent::Compressed(true));
    assert_eq!(r.step(SyncEvent::Renamed(false)), SyncAction::CopyIntoPlace);
    assert_eq!(r.step(SyncEvent::Copied(true, false)), SyncAction::Finish(SyncEnd::CopyDamaged));
    let mut r = walked_run(false, 10, 2, 2);
    r.step(SyncEvent::StoreRead(false, 0, 0, false));
    r.step(SyncEvent::Compressed(true));
    r.step(SyncEvent::Renamed(false));
    assert_eq!(r.step(SyncEvent::Copied(true, true)), SyncAction::WriteManifest);
    let mut r = SyncRun::new(false);
    assert_eq!(r.step(SyncEvent::Locked(true)), SyncAction::Finish(SyncEnd::Aborted));
}
