//! The decisions of the write protocol. The caller holds the lock, performs each action and
//! reports whether it succeeded; the destination is replaced only by a successful `ReplaceDest`.
use vstd::prelude::*;

verus! {

/// Where a write stands: the action last asked for, or the end.
#[derive(Clone, Copy, Debug, PartialEq, Eq, Structural)]
pub enum WriteStage {
    CreateTemp,
    WriteTemp,
    SyncTemp,
    ReplaceDest,
    RemoveTemp,
    ReleaseLock { replaced: bool },
    Done { replaced: bool },
}

/// What the caller does next.
#[derive(Clone, Copy, Debug, PartialEq, Eq, Structural)]
pub enum WriteAction {
    /// Create the temporary file, failing if it exists.
    CreateTemp,
    /// Write the prior contents (in append mode) and the record to the temporary file.
    WriteTemp,
    /// Flush and sync the temporary file.
    SyncTemp,
    /// Rename the temporary file over the destination.
    ReplaceDest,
    /// Delete the temporary file, best effort.
    RemoveTemp,
    /// Release the lock.
    ReleaseLock,
    /// Stop: the write succeeded or failed.
    Finish { succeeded: bool },
}

/// The stage after the action of `stage` ended, successfully or not.
pub open spec fn next_stage(stage: WriteStage, ok: bool) -> WriteStage {
    match stage {
        WriteStage::CreateTemp => if ok {
            WriteStage::WriteTemp
        } else {
            WriteStage::RemoveTemp
        },
        WriteStage::WriteTemp => if ok {
            WriteStage::SyncTemp
        } else {
            WriteStage::RemoveTemp
        },
        WriteStage::SyncTemp => if ok {
            WriteStage::ReplaceDest
        } else {
            WriteStage::RemoveTemp
        },
        WriteStage::ReplaceDest => if ok {
            WriteStage::ReleaseLock { replaced: true }
        } else {
            WriteStage::RemoveTemp
        },
        WriteStage::RemoveTemp => WriteStage::ReleaseLock { replaced: false },
        WriteStage::ReleaseLock { replaced } => WriteStage::Done { replaced },
        WriteStage::Done { replaced } => WriteStage::Done { replaced },
    }
}

pub open spec fn action_for(stage: WriteStage) -> WriteAction {
    match stage {
        WriteStage::CreateTemp => WriteAction::CreateTemp,
        WriteStage::WriteTemp => WriteAction::WriteTemp,
        WriteStage::SyncTemp => WriteAction::SyncTemp,
        WriteStage::ReplaceDest => WriteAction::ReplaceDest,
        WriteStage::RemoveTemp => WriteAction::RemoveTemp,
        WriteStage::ReleaseLock { .. } => WriteAction::ReleaseLock,
        WriteStage::Done { replaced } => WriteAction::Finish { succeeded: replaced },
    }
}

/// The first stage, once the lock is held.
pub fn write_start() -> (r: WriteStage)
    ensures
        r == WriteStage::CreateTemp,
{
    WriteStage::CreateTemp
}

/// The stage that follows when the action of `stage` ended with `ok`.
pub fn write_advance(stage: WriteStage, ok: bool) -> (r: WriteStage)
    ensures
        r == next_stage(stage, ok),
{
    match stage {
        WriteStage::CreateTemp => if ok {
            WriteStage::WriteTemp
        } else {
            WriteStage::RemoveTemp
        },
        WriteStage::WriteTemp => if ok {
            WriteStage::SyncTemp
        } else {
            WriteStage::RemoveTemp
        },
        WriteStage::SyncTemp => if ok {
            WriteStage::ReplaceDest
        } else {
            WriteStage::RemoveTemp
        },
        WriteStage::ReplaceDest => if ok {
            WriteStage::ReleaseLock { replaced: true }
        } else {
            WriteStage::RemoveTemp
        },
        WriteStage::RemoveTemp => WriteStage::ReleaseLock { replaced: false },
        WriteStage::ReleaseLock { replaced } => WriteStage::Done { replaced },
        WriteStage::Done { replaced } => WriteStage::Done { replaced },
    }
}

/// The action to perform in `stage`.
pub fn write_action(stage: WriteStage) -> (r: WriteAction)
    ensures
        r == action_for(stage),
{
    match stage {
        WriteStage::CreateTemp => WriteAction::CreateTemp,
        WriteStage::WriteTemp => WriteAction::WriteTemp,
        WriteStage::SyncTemp => WriteAction::SyncTemp,
        WriteStage::ReplaceDest => WriteAction::ReplaceDest,
        WriteStage::RemoveTemp => WriteAction::RemoveTemp,
        WriteStage::ReleaseLock { .. } => WriteAction::ReleaseLock,
        WriteStage::Done { replaced } => WriteAction::Finish { succeeded: replaced },
    }
}

/// The stages passed through from the start, one for each reported outcome.
pub open spec fn stage_after(outcomes: Seq<bool>) -> WriteStage
    decreases outcomes.len(),
{
    if outcomes.len() == 0 {
        WriteStage::CreateTemp
    } else {
        next_stage(stage_after(outcomes.drop_last()), outcomes.last())
    }
}

/// The destination's contents after the actions: `before`, until a `ReplaceDest` succeeds and
/// puts `new` in its place.
pub open spec fn dest_after(outcomes: Seq<bool>, before: Seq<u8>, new: Seq<u8>) -> Seq<u8>
    decreases outcomes.len(),
{
    if outcomes.len() == 0 {
        before
    } else {
        let p = outcomes.drop_last();
        if stage_after(p) == WriteStage::ReplaceDest && outcomes.last() {
            new
        } else {
            dest_after(p, before, new)
        }
    }
}

proof fn lemma_dest_tracks_stage(outcomes: Seq<bool>, before: Seq<u8>, new: Seq<u8>)
    ensures
        stage_after(outcomes) == (WriteStage::ReleaseLock { replaced: true }) || stage_after(
            outcomes,
        ) == (WriteStage::Done { replaced: true }) ==> dest_after(outcomes, before, new) == new,
        !(stage_after(outcomes) == (WriteStage::ReleaseLock { replaced: true }) || stage_after(
            outcomes,
        ) == (WriteStage::Done { replaced: true })) ==> dest_after(outcomes, before, new)
            == before,
    decreases outcomes.len(),
{
    if outcomes.len() > 0 {
        lemma_dest_tracks_stage(outcomes.drop_last(), before, new);
    }
}

/// A write that ends in failure leaves the destination exactly as it was; one that ends in
/// success leaves the new contents there.
pub proof fn lemma_failed_write_keeps_destination(outcomes: Seq<bool>, before: Seq<u8>, new: Seq<u8>)
    ensures
        stage_after(outcomes) == (WriteStage::Done { replaced: false }) ==> dest_after(
            outcomes,
            before,
            new,
        ) == before,
        stage_after(outcomes) == (WriteStage::Done { replaced: true }) ==> dest_after(
            outcomes,
            before,
            new,
        ) == new,
{
    lemma_dest_tracks_stage(outcomes, before, new);
}

/// Every failure of the actions that fill and place the temporary file leads to removing it and
/// then releasing the lock, and the write reports failure.
pub proof fn lemma_failure_cleans_up(stage: WriteStage)
    requires
        stage == WriteStage::CreateTemp || stage == WriteStage::WriteTemp || stage
            == WriteStage::SyncTemp || stage == WriteStage::ReplaceDest,
    ensures
        next_stage(stage, false) == WriteStage::RemoveTemp,
        next_stage(WriteStage::RemoveTemp, true) == (WriteStage::ReleaseLock { replaced: false }),
        next_stage(WriteStage::RemoveTemp, false) == (WriteStage::ReleaseLock { replaced: false }),
        next_stage(WriteStage::ReleaseLock { replaced: false }, true) == (WriteStage::Done {
            replaced: false,
        }),
{
}

} // verus!
