use lrgex_restore::unpackrun::{UnpackAction, UnpackEnd, UnpackEvent, UnpackRun};

fn drive(events: &[UnpackEvent]) -> Vec<UnpackAction> {
    let mut run = UnpackRun::new();
    events.iter().map(|e| run.step(*e)).collect()
}

#[test]
fn restore_swaps_in_then_drops_old_copy() {
    let acts = drive(&[
        UnpackEvent::Opened(true),
        UnpackEvent::Unpacked(true),
        UnpackEvent::Settled,
        UnpackEvent::MovedAside(true),
        UnpackEvent::MovedIn(true),
        UnpackEvent::OldRemoved,
    ]);
    assert_eq!(
        acts,
        vec![
            UnpackAction::Unpack(true),
            UnpackAction::SettleLeftovers,
            UnpackAction::MoveDestAside,
            UnpackAction::MoveIntoPlace,
            UnpackAction::RemoveOld,
            UnpackAction::Finish(UnpackEnd::Restored),
        ]
    );
}

#[test]
fn unpack_retries_once_without_metadata() {
    let acts = drive(&[
        UnpackEvent::Opened(true),
        UnpackEvent::Unpacked(false),
        UnpackEvent::Unpacked(false),
        UnpackEvent::StagingRemoved,
    ]);
    assert_eq!(
        acts,
        vec![
            UnpackAction::Unpack(true),
            UnpackAction::Unpack(false),
            UnpackAction::RemoveStaging,
            UnpackAction::Finish(UnpackEnd::ExtractFailed),
        ]
    );
}

#[test]
fn failed_move_into_place_puts_old_copy_back() {
    let mut run = UnpackRun::new();
    run.step(UnpackEvent::Opened(true));
    run.step(UnpackEvent::Unpacked(true));
    run.step(UnpackEvent::Settled);
    run.step(UnpackEvent::MovedAside(true));
    assert_eq!(run.step(UnpackEvent::MovedIn(false)), UnpackAction::PutOldBack);
    assert_eq!(run.step(UnpackEvent::PutBack), UnpackAction::RemoveStaging);
    assert_eq!(run.step(UnpackEvent::StagingRemoved), UnpackAction::Finish(UnpackEnd::SwapFailed));
    assert!(run.put_back && run.staging_removed && !run.placed);
    assert_eq!(run.step(UnpackEvent::OldRemoved), UnpackAction::Finish(UnpackEnd::SwapFailed));
}

#[test]
fn unopenable_archive_or_locked_destination_fail_cleanly() {
    let acts = drive(&[UnpackEvent::Opened(false), UnpackEvent::StagingRemoved]);
    assert_eq!(acts, vec![UnpackAction::RemoveStaging, UnpackAction::Finish(UnpackEnd::CannotOpen)]);
    let acts = drive(&[
        UnpackEvent::Opened(true),
        UnpackEvent::Unpacked(true),
        UnpackEvent::Settled,
        UnpackEvent::MovedAside(false),
        UnpackEvent::StagingRemoved,
    ]);
    assert_eq!(acts[3], UnpackAction::RemoveStaging);
    assert_eq!(acts[4], UnpackAction::Finish(UnpackEnd::CannotSwap));
}
