//! Updating and clearing the cache: what to do next, and what has changed.
//!
//! An update fetches the archive, unpacks it entry by entry into a staging
//! directory of its own, and only when every entry is stored puts the staging
//! directory in the place of the cache. The front end does the work and
//! reports how each piece of it went; the decisions are made here. Nothing is
//! tried twice.

use vstd::prelude::*;
use crate::cache::{age_spec, CacheMetadata};
use crate::error::CoreError;

verus! {

/// How far an update has come.
#[derive(Debug, Clone, Copy, PartialEq, Eq, Structural)]
pub enum UpdatePhase {
    /// Nothing has been asked for yet.
    Idle,
    /// The archive is being fetched.
    Fetching,
    /// The entries of the archive are being stored in the staging directory.
    Extracting,
    /// The staging directory is being put in the place of the cache.
    Replacing,
    /// The cache holds the new pages.
    Succeeded,
    /// The update was given up, and the cache is as it was.
    Failed(CoreError),
}

/// What the front end reports.
#[derive(Debug, Clone, Copy, PartialEq, Eq, Structural)]
pub enum UpdateEvent {
    /// An update is asked for.
    Requested,
    /// The archive has arrived.
    Fetched,
    /// The archive could not be fetched.
    FetchFailed,
    /// One more entry of the archive is stored in the staging directory.
    EntryStored,
    /// An entry could not be read or stored.
    EntryFailed,
    /// The archive has no more entries.
    ArchiveEnded,
    /// The staging directory has taken the place of the cache.
    Replaced,
    /// The staging directory could not take the place of the cache.
    ReplaceFailed { cause: i32 },
}

/// What the front end is to do next.
#[derive(Debug, Clone, Copy, PartialEq, Eq, Structural)]
pub enum UpdateAction {
    /// Ask for the archive, once.
    Fetch,
    /// Store the next entry of the archive in the staging directory.
    StoreEntry,
    /// Put the staging directory in the place of the cache, in one move.
    Replace,
    /// Remove the staging directory and leave the cache alone.
    Discard,
    /// Stop: the phase says how the update ended.
    Finish,
    /// The report does not belong to this phase; nothing follows from it.
    Ignore,
}

/// Whether a report tells of a failure.
pub open spec fn is_failure(event: UpdateEvent) -> bool {
    event is FetchFailed || event is EntryFailed || event is ReplaceFailed
}

/// The transition of an update: from a phase and a report to the next phase
/// and what to do.
pub open spec fn advance_spec(phase: UpdatePhase, event: UpdateEvent) -> (UpdatePhase, UpdateAction) {
    match (phase, event) {
        (UpdatePhase::Idle, UpdateEvent::Requested) => (UpdatePhase::Fetching, UpdateAction::Fetch),
        (UpdatePhase::Fetching, UpdateEvent::Fetched) => (
            UpdatePhase::Extracting,
            UpdateAction::StoreEntry,
        ),
        (UpdatePhase::Fetching, UpdateEvent::FetchFailed) => (
            UpdatePhase::Failed(CoreError::NetworkError),
            UpdateAction::Finish,
        ),
        (UpdatePhase::Extracting, UpdateEvent::EntryStored) => (
            UpdatePhase::Extracting,
            UpdateAction::StoreEntry,
        ),
        (UpdatePhase::Extracting, UpdateEvent::EntryFailed) => (
            UpdatePhase::Failed(CoreError::ArchiveError),
            UpdateAction::Discard,
        ),
        (UpdatePhase::Extracting, UpdateEvent::ArchiveEnded) => (
            UpdatePhase::Replacing,
            UpdateAction::Replace,
        ),
        (UpdatePhase::Replacing, UpdateEvent::Replaced) => (
            UpdatePhase::Succeeded,
            UpdateAction::Finish,
        ),
        (UpdatePhase::Replacing, UpdateEvent::ReplaceFailed { cause }) => (
            UpdatePhase::Failed(CoreError::FilesystemError { cause }),
            UpdateAction::Discard,
        ),
        _ => (phase, UpdateAction::Ignore),
    }
}

/// The phase that an update is in after a sequence of reports.
pub open spec fn phase_after(start: UpdatePhase, events: Seq<UpdateEvent>) -> UpdatePhase
    decreases events.len(),
{
    if events.len() == 0 {
        start
    } else {
        advance_spec(phase_after(start, events.drop_last()), events.last()).0
    }
}

/// What the report at `i` leads to, in an update that starts in `start`.
pub open spec fn action_at(start: UpdatePhase, events: Seq<UpdateEvent>, i: int) -> UpdateAction {
    advance_spec(phase_after(start, events.take(i)), events[i]).1
}

/// The transition of an update.
pub fn advance(phase: UpdatePhase, event: UpdateEvent) -> (next: (UpdatePhase, UpdateAction))
    ensures
        next == advance_spec(phase, event),
{
    match phase {
        UpdatePhase::Idle => match event {
            UpdateEvent::Requested => (UpdatePhase::Fetching, UpdateAction::Fetch),
            _ => (phase, UpdateAction::Ignore),
        },
        UpdatePhase::Fetching => match event {
            UpdateEvent::Fetched => (UpdatePhase::Extracting, UpdateAction::StoreEntry),
            UpdateEvent::FetchFailed => (
                UpdatePhase::Failed(CoreError::NetworkError),
                UpdateAction::Finish,
            ),
            _ => (phase, UpdateAction::Ignore),
        },
        UpdatePhase::Extracting => match event {
            UpdateEvent::EntryStored => (UpdatePhase::Extracting, UpdateAction::StoreEntry),
            UpdateEvent::EntryFailed => (
                UpdatePhase::Failed(CoreError::ArchiveError),
                UpdateAction::Discard,
            ),
            UpdateEvent::ArchiveEnded => (UpdatePhase::Replacing, UpdateAction::Replace),
            _ => (phase, UpdateAction::Ignore),
        },
        UpdatePhase::Replacing => match event {
            UpdateEvent::Replaced => (UpdatePhase::Succeeded, UpdateAction::Finish),
            UpdateEvent::ReplaceFailed { cause } => (
                UpdatePhase::Failed(CoreError::FilesystemError { cause }),
                UpdateAction::Discard,
            ),
            _ => (phase, UpdateAction::Ignore),
        },
        _ => (phase, UpdateAction::Ignore),
    }
}

/// How an update has ended: `None` while it is under way.
pub fn outcome(phase: UpdatePhase) -> (r: Option<Result<(), CoreError>>)
    ensures
        r == match phase {
            UpdatePhase::Succeeded => Some(Ok::<(), CoreError>(())),
            UpdatePhase::Failed(e) => Some(Err::<(), CoreError>(e)),
            _ => None::<Result<(), CoreError>>,
        },
{
    match phase {
        UpdatePhase::Succeeded => Some(Ok(())),
        UpdatePhase::Failed(e) => Some(Err(e)),
        _ => None,
    }
}

/// When the cache was last replaced, after an update that is in `phase` at the
/// time `now`: an update that succeeded has replaced it just now, and any
/// other has left it alone.
pub open spec fn modified_after_update(
    modified: Option<u64>,
    phase: UpdatePhase,
    now: u64,
) -> Option<u64> {
    if phase is Succeeded {
        Some(now)
    } else {
        modified
    }
}

/// When the cache was last replaced, after its removal was tried: there is no
/// cache once the removal has succeeded.
pub open spec fn modified_after_clear(modified: Option<u64>, removal: Result<(), i32>) -> Option<
    u64,
> {
    if removal is Ok {
        None
    } else {
        modified
    }
}

impl CacheMetadata {
    /// Takes note of how an update ended, at the time `now`.
    pub fn note_update(&mut self, phase: UpdatePhase, now: u64)
        ensures
            final(self).root == old(self).root,
            final(self).modified == modified_after_update(old(self).modified, phase, now),
    {
        match phase {
            UpdatePhase::Succeeded => {
                self.modified = Some(now);
            },
            _ => {},
        }
    }

    /// Takes note of how the removal of the cache went: `Ok` where all of it is
    /// gone, else the error code of the operating system.
    ///
    /// A removal that failed is reported as `FilesystemError` with that code,
    /// and is not taken for a success.
    pub fn note_clear(&mut self, removal: Result<(), i32>) -> (r: Result<(), CoreError>)
        ensures
            final(self).root == old(self).root,
            final(self).modified == modified_after_clear(old(self).modified, removal),
            match removal {
                Ok(_) => r is Ok,
                Err(cause) => r == Err::<(), CoreError>(CoreError::FilesystemError { cause }),
            },
    {
        match removal {
            Ok(_) => {
                self.modified = None;
                Ok(())
            },
            Err(cause) => Err(CoreError::FilesystemError { cause }),
        }
    }
}

/// An update that has ended stays as it ended, whatever is reported after.
pub proof fn lemma_ended_is_final(phase: UpdatePhase, events: Seq<UpdateEvent>)
    requires
        phase is Succeeded || phase is Failed,
    ensures
        phase_after(phase, events) == phase,
        forall|i: int| 0 <= i < events.len() ==> action_at(phase, events, i) is Ignore,
    decreases events.len(),
{
    if events.len() > 0 {
        lemma_ended_is_final(phase, events.drop_last());
        assert forall|i: int| 0 <= i < events.len() implies action_at(phase, events, i) is Ignore by {
            lemma_ended_is_final(phase, events.take(i));
        }
    }
}

/// Once the cache is being replaced, the update can only succeed or fail on
/// the file system.
pub proof fn lemma_after_replacing(events: Seq<UpdateEvent>)
    ensures
        ({
            let end = phase_after(UpdatePhase::Replacing, events);
            end is Replacing || end is Succeeded || (end matches UpdatePhase::Failed(e)
                && e is FilesystemError)
        }),
    decreases events.len(),
{
    if events.len() > 0 {
        lemma_after_replacing(events.drop_last());
    }
}

/// The phase after some reports and then some more is the phase that the
/// later ones lead to from where the earlier ones ended.
pub proof fn lemma_phase_after_split(start: UpdatePhase, events: Seq<UpdateEvent>, k: int)
    requires
        0 <= k <= events.len(),
    ensures
        phase_after(start, events) == phase_after(
            phase_after(start, events.take(k)),
            events.skip(k),
        ),
    decreases events.len() - k,
{
    if k == events.len() {
        assert(events.take(k) == events);
        assert(events.skip(k).len() == 0);
    } else {
        let front = events.drop_last();
        lemma_phase_after_split(start, front, k);
        assert(front.take(k) == events.take(k));
        assert(front.skip(k) == events.skip(k).drop_last());
        assert(events.skip(k).last() == events.last());
    }
}

/// An update that fails before the cache is to be replaced never asks for the
/// cache to be replaced: where fetching or unpacking fails, the cache stays as
/// it was.
pub proof fn lemma_failed_update_spares_cache(events: Seq<UpdateEvent>, i: int)
    requires
        0 <= i < events.len(),
        phase_after(UpdatePhase::Idle, events) == UpdatePhase::Failed(CoreError::NetworkError)
            || phase_after(UpdatePhase::Idle, events) == UpdatePhase::Failed(
            CoreError::ArchiveError,
        ),
    ensures
        !(action_at(UpdatePhase::Idle, events, i) is Replace),
{
    if action_at(UpdatePhase::Idle, events, i) is Replace {
        let upto = events.take(i + 1);
        assert(upto.drop_last() == events.take(i));
        assert(upto.last() == events[i]);
        assert(phase_after(UpdatePhase::Idle, upto) is Replacing);
        lemma_phase_after_split(UpdatePhase::Idle, events, i + 1);
        lemma_after_replacing(events.skip(i + 1));
    }
}

/// The cache is replaced only when an archive has been fetched and its last
/// entry is stored, and the failure that ends an update is of the kind of the
/// step that failed.
pub proof fn lemma_steps_in_order(phase: UpdatePhase, event: UpdateEvent)
    ensures
        advance_spec(phase, event).1 is Replace ==> phase is Extracting && event is ArchiveEnded,
        advance_spec(phase, event).0 is Extracting ==> phase is Extracting || (phase is Fetching
            && event is Fetched),
        advance_spec(phase, event).0 is Failed && !(phase is Failed) ==> is_failure(event) && (
        advance_spec(phase, event).0->Failed_0 == match event {
            UpdateEvent::FetchFailed => CoreError::NetworkError,
            UpdateEvent::EntryFailed => CoreError::ArchiveError,
            UpdateEvent::ReplaceFailed { cause } => CoreError::FilesystemError { cause },
            _ => CoreError::ConfigError,
        }),
{
}

/// A cache that was just removed has no age. A cache that was just replaced
/// is as old as the time that has passed since, which grows with the clock.
/// And an update that did not succeed leaves the age as it was.
pub proof fn lemma_staleness(
    modified: Option<u64>,
    phase: UpdatePhase,
    updated: u64,
    earlier: u64,
    later: u64,
)
    requires
        updated <= earlier <= later,
    ensures
        age_spec(modified_after_clear(modified, Ok(())), later) is None,
        age_spec(modified_after_update(modified, UpdatePhase::Succeeded, updated), earlier) == Some(
            (earlier - updated) as u64,
        ),
        age_spec(modified_after_update(modified, UpdatePhase::Succeeded, updated), later) == Some(
            (later - updated) as u64,
        ),
        !(phase is Succeeded) ==> age_spec(modified_after_update(modified, phase, updated), later)
            == age_spec(modified, later),
{
}

/// How far a phase is along the way of an update.
pub open spec fn progress(phase: UpdatePhase) -> nat {
    match phase {
        UpdatePhase::Idle => 0,
        UpdatePhase::Fetching => 1,
        UpdatePhase::Extracting => 2,
        UpdatePhase::Replacing => 3,
        UpdatePhase::Succeeded => 4,
        UpdatePhase::Failed(_) => 4,
    }
}

/// An update never goes back.
pub proof fn lemma_progress_grows(start: UpdatePhase, events: Seq<UpdateEvent>)
    ensures
        progress(start) <= progress(phase_after(start, events)),
    decreases events.len(),
{
    if events.len() > 0 {
        lemma_progress_grows(start, events.drop_last());
    }
}

/// Nothing is tried twice: in the course of an update the archive is asked
/// for at most once, and the cache is replaced at most once.
pub proof fn lemma_nothing_is_tried_twice(events: Seq<UpdateEvent>, i: int, j: int)
    requires
        0 <= i < j < events.len(),
    ensures
        !(action_at(UpdatePhase::Idle, events, i) is Fetch && action_at(
            UpdatePhase::Idle,
            events,
            j,
        ) is Fetch),
        !(action_at(UpdatePhase::Idle, events, i) is Replace && action_at(
            UpdatePhase::Idle,
            events,
            j,
        ) is Replace),
{
    let upto = events.take(i + 1);
    assert(upto.drop_last() == events.take(i));
    assert(upto.last() == events[i]);
    let before = events.take(j);
    assert(before.take(i + 1) == upto);
    lemma_phase_after_split(UpdatePhase::Idle, before, i + 1);
    lemma_progress_grows(phase_after(UpdatePhase::Idle, upto), before.skip(i + 1));
}

} // verus!
