use rommy::protocol::{write_action, write_advance, write_start, WriteAction, WriteStage};

fn drive(outcomes: &[bool]) -> (Vec<WriteAction>, WriteStage) {
    let mut stage = write_start();
    let mut actions = vec![write_action(stage)];
    for &ok in outcomes {
        stage = write_advance(stage, ok);
        actions.push(write_action(stage));
    }
    (actions, stage)
}

#[test]
fn successful_write_replaces_then_releases() {
    let (actions, stage) = drive(&[true, true, true, true, true]);
    assert_eq!(
        actions,
        vec![
            WriteAction::CreateTemp,
            WriteAction::WriteTemp,
            WriteAction::SyncTemp,
            WriteAction::ReplaceDest,
            WriteAction::ReleaseLock,
            WriteAction::Finish { succeeded: true },
        ]
    );
    assert_eq!(stage, WriteStage::Done { replaced: true });
}

#[test]
fn failed_sync_never_replaces() {
    let (actions, stage) = drive(&[true, true, false, true, true]);
    assert_eq!(
        actions,
        vec![
            WriteAction::CreateTemp,
            WriteAction::WriteTemp,
            WriteAction::SyncTemp,
            WriteAction::RemoveTemp,
            WriteAction::ReleaseLock,
            WriteAction::Finish { succeeded: false },
        ]
    );
    assert_eq!(stage, WriteStage::Done { replaced: false });
}

#[test]
fn failed_create_and_failed_rename_clean_up() {
    let (actions, _) = drive(&[false, false, true]);
    assert_eq!(actions[1], WriteAction::RemoveTemp);
    assert_eq!(actions[3], WriteAction::Finish { succeeded: false });
    let (actions, stage) = drive(&[true, true, true, false, true, true]);
    assert_eq!(actions[4], WriteAction::RemoveTemp);
    assert_eq!(stage, WriteStage::Done { replaced: false });
    assert!(!actions[4..].contains(&WriteAction::ReplaceDest));
}
