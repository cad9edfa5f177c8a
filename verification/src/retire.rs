//! Retirement of one segment, step by step.
//!
//! The caller performs each action that the machine hands out and reports
//! whether it succeeded; the machine decides what comes next. The delta-log
//! object is stored first and the segment's data is deleted last, so that a
//! crash in between leaves a tombstone for data that still exists, and never
//! a live entry for data that is gone.

use crate::error::FileListError;
use crate::key::{check_segment_key, delta_log_name, is_segment_key};
use crate::meta::{batch_view, FileKey, FileMeta, Record};
use crate::writer::{holds_batch, prepare_log, LogObject};
use vstd::prelude::*;

verus! {

/// How far the retirement of a segment has come.
#[derive(Clone, Copy, Debug, PartialEq, Eq, Structural)]
pub enum RetireState {
    /// The delta-log object is ready and has yet to be stored.
    Requested,
    /// The delta-log object is stored.
    LogPersisted,
    /// The progress store holds the tombstone.
    ProgressRecorded,
    /// The tombstone has been sent to the peers.
    Broadcast,
    /// The deletion of the segment's data has been attempted: retirement
    /// has succeeded.
    PhysicallyDeleted,
    /// The key is no segment key: nothing was done, and nothing will be.
    Skipped,
    /// A durable write failed: retirement has failed.
    Failed(FileListError),
}

/// What the caller has to do next.
#[derive(Debug, PartialEq, Eq)]
pub enum RetireAction {
    /// Store the delta-log object `bytes` under `name`.
    PutLog { name: String, bytes: Vec<u8> },
    /// Record in the progress store what the record says.
    RecordProgress { record: FileKey },
    /// Send the batch to the peers.
    Send { batch: Vec<FileKey> },
    /// Delete the data of the segment `key`.
    DeleteObject { key: String },
    /// Nothing is left to do: report `result`.
    Finish { result: Result<(), FileListError> },
}

/// An action, with its texts as sequences of characters.
pub enum Step {
    PutLog { name: Seq<char>, bytes: Seq<u8> },
    RecordProgress { record: Record },
    Send { batch: Seq<Record> },
    DeleteObject { key: Seq<char> },
    Finish { result: Result<(), FileListError> },
}

impl View for RetireAction {
    type V = Step;

    open spec fn view(&self) -> Step {
        match self {
            RetireAction::PutLog { name, bytes } => Step::PutLog { name: name@, bytes: bytes@ },
            RetireAction::RecordProgress { record } => Step::RecordProgress { record: record@ },
            RetireAction::Send { batch } => Step::Send { batch: batch_view(batch@) },
            RetireAction::DeleteObject { key } => Step::DeleteObject { key: key@ },
            RetireAction::Finish { result } => Step::Finish { result: *result },
        }
    }
}

/// The tombstone for `key`.
pub open spec fn tombstone_of(key: Seq<char>) -> Record {
    Record { key, meta: FileMeta::zero(), deleted: true }
}

/// Whether no action can follow `state`.
pub open spec fn is_terminal(state: RetireState) -> bool {
    state is PhysicallyDeleted || state is Skipped || state is Failed
}

/// What a retirement that has ended in `state` reports.
pub open spec fn outcome_of(state: RetireState) -> Result<(), FileListError> {
    match state {
        RetireState::Failed(error) => Err(error),
        _ => Ok(()),
    }
}

/// The state that follows `state` once the action that was handed out in
/// `state` has succeeded or failed. Only the two durable writes can fail
/// the retirement.
pub open spec fn next_state(state: RetireState, succeeded: bool) -> RetireState {
    match state {
        RetireState::Requested => if succeeded {
            RetireState::LogPersisted
        } else {
            RetireState::Failed(FileListError::LogWrite)
        },
        RetireState::LogPersisted => if succeeded {
            RetireState::ProgressRecorded
        } else {
            RetireState::Failed(FileListError::ProgressWrite)
        },
        RetireState::ProgressRecorded => RetireState::Broadcast,
        RetireState::Broadcast => RetireState::PhysicallyDeleted,
        _ => state,
    }
}

/// The action that is handed out on reaching `state` in the retirement of
/// `key`. On reaching `Requested` it is the storing of the delta-log
/// object, which `Retirement::begin` hands out.
pub open spec fn action_in(state: RetireState, key: Seq<char>) -> Step {
    match state {
        RetireState::LogPersisted => Step::RecordProgress { record: tombstone_of(key) },
        RetireState::ProgressRecorded => Step::Send { batch: seq![tombstone_of(key)] },
        RetireState::Broadcast => Step::DeleteObject { key },
        _ => Step::Finish { result: outcome_of(state) },
    }
}

/// The state after the outcomes `outcomes`, the first of them that of
/// storing the delta-log object.
pub open spec fn state_after(outcomes: Seq<bool>) -> RetireState
    decreases outcomes.len(),
{
    if outcomes.len() == 0 {
        RetireState::Requested
    } else {
        next_state(state_after(outcomes.drop_last()), outcomes.last())
    }
}

/// The retirement of one segment.
pub struct Retirement {
    key: String,
    state: RetireState,
}

impl Retirement {
    /// The key of the segment.
    pub closed spec fn key(&self) -> Seq<char> {
        self.key@
    }

    /// How far the retirement has come.
    pub closed spec fn state(&self) -> RetireState {
        self.state
    }

    /// How far the retirement has come.
    pub fn current(&self) -> (state: RetireState)
        ensures
            state == self.state(),
    {
        self.state
    }

    /// Whether nothing is left to do.
    pub fn is_done(&self) -> (done: bool)
        ensures
            done == is_terminal(self.state()),
    {
        match self.state {
            RetireState::PhysicallyDeleted => true,
            RetireState::Skipped => true,
            RetireState::Failed(_) => true,
            _ => false,
        }
    }

    /// Begins the retirement of `key`, given what preparing the delta-log
    /// object for its tombstone gave. A key that is no segment key is
    /// skipped, with success and without any action. Else the object is
    /// to be stored, or, where it could not be prepared, the retirement has
    /// failed.
    pub fn begin(key: &str, prepared: Result<Option<LogObject>, FileListError>) -> (started: (
        Retirement,
        RetireAction,
    ))
        ensures
            started.0.key() == key@,
            !is_segment_key(key@) ==> started.0.state() == RetireState::Skipped && started.1@ == (
            Step::Finish { result: Ok(()) }),
            is_segment_key(key@) ==> match prepared {
                Ok(Some(object)) => started.0.state() == RetireState::Requested && started.1@ == (
                Step::PutLog { name: object.name@, bytes: object.bytes@ }),
                Ok(None) => started.0.state() == RetireState::Skipped && started.1@ == (
                Step::Finish { result: Ok(()) }),
                Err(error) => started.0.state() == RetireState::Failed(error) && started.1@ == (
                Step::Finish { result: Err(error) }),
            },
    {
        if !check_segment_key(key) {
            let skipped = Retirement { key: key.to_owned(), state: RetireState::Skipped };
            return (skipped, RetireAction::Finish { result: Ok(()) });
        }
        match prepared {
            Ok(Some(object)) => {
                let retirement = Retirement { key: key.to_owned(), state: RetireState::Requested };
                (retirement, RetireAction::PutLog { name: object.name, bytes: object.bytes })
            },
            Ok(None) => {
                let skipped = Retirement { key: key.to_owned(), state: RetireState::Skipped };
                (skipped, RetireAction::Finish { result: Ok(()) })
            },
            Err(error) => {
                let failed = Retirement { key: key.to_owned(), state: RetireState::Failed(error) };
                (failed, RetireAction::Finish { result: Err(error) })
            },
        }
    }

    /// Begins the retirement of `key`: prepares the delta-log object for its
    /// tombstone, named after the segment's hour and `unique_id`, and hands
    /// it out to be stored. A key that is no segment key is skipped, with
    /// success and without any action.
    pub fn start(key: &str, unique_id: &str) -> (started: (Retirement, RetireAction))
        ensures
            started.0.key() == key@,
            !is_segment_key(key@) ==> started.0.state() == RetireState::Skipped && started.1@ == (
            Step::Finish { result: Ok(()) }),
            is_segment_key(key@) ==> (started.0.state() == RetireState::Requested && (
            started.1@ matches Step::PutLog { name, bytes } && name == delta_log_name(
                key@,
                unique_id@,
            ) && holds_batch(bytes, seq![tombstone_of(key@)]))) || (started.0.state()
                == RetireState::Failed(FileListError::Compression) && started.1@ == (
            Step::Finish { result: Err(FileListError::Compression) })),
    {
        let mut batch: Vec<FileKey> = Vec::new();
        batch.push(FileKey::tombstone(key));
        assert(batch_view(batch@) == seq![tombstone_of(key@)]);
        let prepared = prepare_log(batch.as_slice(), unique_id);
        Retirement::begin(key, prepared)
    }

    /// Takes up the retirement of `key` after its delta-log object has been
    /// stored, as a caller does whose first try ran out of time after that
    /// step: the object is not stored again, and the tombstone is to be
    /// recorded in the progress store. A key that is no segment key is
    /// skipped.
    pub fn resume(key: &str) -> (resumed: (Retirement, RetireAction))
        ensures
            resumed.0.key() == key@,
            resumed.0.state() == (if is_segment_key(key@) {
                RetireState::LogPersisted
            } else {
                RetireState::Skipped
            }),
            resumed.1@ == action_in(resumed.0.state(), key@),
    {
        if check_segment_key(key) {
            let retirement = Retirement { key: key.to_owned(), state: RetireState::LogPersisted };
            (retirement, RetireAction::RecordProgress { record: FileKey::tombstone(key) })
        } else {
            let skipped = Retirement { key: key.to_owned(), state: RetireState::Skipped };
            (skipped, RetireAction::Finish { result: Ok(()) })
        }
    }

    /// Takes the outcome of the action that was handed out last and hands
    /// out the next one. A failure to store the delta-log object or to
    /// record progress fails the retirement; a failure to reach the peers or
    /// to delete the data does not.
    pub fn step(&mut self, succeeded: bool) -> (action: RetireAction)
        ensures
            final(self).key() == old(self).key(),
            final(self).state() == next_state(old(self).state(), succeeded),
            action@ == action_in(final(self).state(), old(self).key()),
    {
        let next = match self.state {
            RetireState::Requested => if succeeded {
                RetireState::LogPersisted
            } else {
                RetireState::Failed(FileListError::LogWrite)
            },
            RetireState::LogPersisted => if succeeded {
                RetireState::ProgressRecorded
            } else {
                RetireState::Failed(FileListError::ProgressWrite)
            },
            RetireState::ProgressRecorded => RetireState::Broadcast,
            RetireState::Broadcast => RetireState::PhysicallyDeleted,
            other => other,
        };
        self.state = next;
        match next {
            RetireState::LogPersisted => RetireAction::RecordProgress {
                record: FileKey::tombstone(self.key.as_str()),
            },
            RetireState::ProgressRecorded => {
                let mut batch: Vec<FileKey> = Vec::new();
                batch.push(FileKey::tombstone(self.key.as_str()));
                assert(batch_view(batch@) == seq![tombstone_of(self.key@)]);
                RetireAction::Send { batch }
            },
            RetireState::Broadcast => RetireAction::DeleteObject { key: self.key.clone() },
            RetireState::Failed(error) => RetireAction::Finish { result: Err(error) },
            _ => RetireAction::Finish { result: Ok(()) },
        }
    }
}

/// The state after given outcomes, case by case: each durable write has to
/// succeed for the retirement to go on, and after four outcomes at the most
/// the retirement has ended.
pub proof fn lemma_state_after(outcomes: Seq<bool>)
    ensures
        state_after(outcomes) == (if outcomes.len() == 0 {
            RetireState::Requested
        } else if !outcomes[0] {
            RetireState::Failed(FileListError::LogWrite)
        } else if outcomes.len() == 1 {
            RetireState::LogPersisted
        } else if !outcomes[1] {
            RetireState::Failed(FileListError::ProgressWrite)
        } else if outcomes.len() == 2 {
            RetireState::ProgressRecorded
        } else if outcomes.len() == 3 {
            RetireState::Broadcast
        } else {
            RetireState::PhysicallyDeleted
        }),
    decreases outcomes.len(),
{
    if outcomes.len() > 0 {
        let rest = outcomes.drop_last();
        lemma_state_after(rest);
        if rest.len() > 0 {
            assert(rest[0] == outcomes[0]);
        }
        if rest.len() > 1 {
            assert(rest[1] == outcomes[1]);
        }
    }
}

/// The data of a segment is deleted only after its tombstone is durable:
/// whatever the outcomes, where the action handed out after them is the
/// deletion of the data, the delta-log object has been stored and the
/// progress store updated, both with success, and the deletion was not
/// handed out before.
pub proof fn lemma_delete_comes_last(outcomes: Seq<bool>, key: Seq<char>)
    requires
        action_in(state_after(outcomes), key) is DeleteObject,
    ensures
        outcomes.len() == 3,
        outcomes[0],
        outcomes[1],
        state_after(outcomes.take(1)) == RetireState::LogPersisted,
        state_after(outcomes.take(2)) == RetireState::ProgressRecorded,
        forall|n: int|
            0 <= n < outcomes.len() ==> !(action_in(
                #[trigger] state_after(outcomes.take(n)),
                key,
            ) is DeleteObject),
{
    lemma_state_after(outcomes);
    lemma_state_after(outcomes.take(1));
    lemma_state_after(outcomes.take(2));
    assert forall|n: int| 0 <= n < outcomes.len() implies !(action_in(
        #[trigger] state_after(outcomes.take(n)),
        key,
    ) is DeleteObject) by {
        lemma_state_after(outcomes.take(n));
    }
}

/// A retirement that fails has deleted nothing: where the state after given
/// outcomes is a failure, no action handed out on the way was the deletion
/// of the data.
pub proof fn lemma_failure_deletes_nothing(outcomes: Seq<bool>, key: Seq<char>)
    requires
        state_after(outcomes) is Failed,
    ensures
        forall|n: int|
            0 <= n <= outcomes.len() ==> !(action_in(
                #[trigger] state_after(outcomes.take(n)),
                key,
            ) is DeleteObject),
{
    lemma_state_after(outcomes);
    assert forall|n: int| 0 <= n <= outcomes.len() implies !(action_in(
        #[trigger] state_after(outcomes.take(n)),
        key,
    ) is DeleteObject) by {
        lemma_state_after(outcomes.take(n));
        if n > 0 {
            assert(outcomes.take(n)[0] == outcomes[0]);
        }
        if n > 1 {
            assert(outcomes.take(n)[1] == outcomes[1]);
        }
    }
}

} // verus!
