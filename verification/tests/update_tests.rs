use tealdeer::cache::CacheMetadata;
use tealdeer::error::CoreError;
use tealdeer::update::{advance, outcome, UpdateAction, UpdateEvent, UpdatePhase};

fn run(events: &[UpdateEvent]) -> (UpdatePhase, Vec<UpdateAction>) {
    let mut phase = UpdatePhase::Idle;
    let mut actions = Vec::new();
    for event in events {
        let (next, action) = advance(phase, *event);
        phase = next;
        actions.push(action);
    }
    (phase, actions)
}

fn meta(modified: Option<u64>) -> CacheMetadata {
    CacheMetadata { root: b"/cache".to_vec(), modified }
}

#[test]
fn update_fetches_stores_and_replaces() {
    let (phase, actions) = run(&[
        UpdateEvent::Requested,
        UpdateEvent::Fetched,
        UpdateEvent::EntryStored,
        UpdateEvent::EntryStored,
        UpdateEvent::ArchiveEnded,
        UpdateEvent::Replaced,
    ]);
    assert_eq!(phase, UpdatePhase::Succeeded);
    assert_eq!(
        actions,
        vec![
            UpdateAction::Fetch,
            UpdateAction::StoreEntry,
            UpdateAction::StoreEntry,
            UpdateAction::StoreEntry,
            UpdateAction::Replace,
            UpdateAction::Finish,
        ]
    );
    assert_eq!(outcome(phase), Some(Ok(())));
}

#[test]
fn failed_fetch_is_a_network_error() {
    let (phase, actions) = run(&[UpdateEvent::Requested, UpdateEvent::FetchFailed]);
    assert_eq!(phase, UpdatePhase::Failed(CoreError::NetworkError));
    assert_eq!(actions, vec![UpdateAction::Fetch, UpdateAction::Finish]);
    assert_eq!(outcome(phase), Some(Err(CoreError::NetworkError)));
}

#[test]
fn truncated_archive_leaves_the_cache_alone() {
    let (phase, actions) = run(&[
        UpdateEvent::Requested,
        UpdateEvent::Fetched,
        UpdateEvent::EntryStored,
        UpdateEvent::EntryFailed,
        UpdateEvent::ArchiveEnded,
        UpdateEvent::Replaced,
    ]);
    assert_eq!(phase, UpdatePhase::Failed(CoreError::ArchiveError));
    assert_eq!(
        actions,
        vec![
            UpdateAction::Fetch,
            UpdateAction::StoreEntry,
            UpdateAction::StoreEntry,
            UpdateAction::Discard,
            UpdateAction::Ignore,
            UpdateAction::Ignore,
        ]
    );
    assert!(!actions.contains(&UpdateAction::Replace));
    let mut cache = meta(Some(100));
    cache.note_update(phase, 900);
    assert_eq!(cache, meta(Some(100)));
    assert_eq!(cache.last_update(900), Some(800));
}

#[test]
fn failed_replacement_carries_its_cause() {
    let (phase, actions) = run(&[
        UpdateEvent::Requested,
        UpdateEvent::Fetched,
        UpdateEvent::ArchiveEnded,
        UpdateEvent::ReplaceFailed { cause: 13 },
    ]);
    assert_eq!(phase, UpdatePhase::Failed(CoreError::FilesystemError { cause: 13 }));
    assert_eq!(actions[3], UpdateAction::Discard);
    assert_eq!(outcome(phase), Some(Err(CoreError::FilesystemError { cause: 13 })));
}

#[test]
fn report_out_of_turn_is_ignored() {
    assert_eq!(
        advance(UpdatePhase::Idle, UpdateEvent::Fetched),
        (UpdatePhase::Idle, UpdateAction::Ignore)
    );
    assert_eq!(
        advance(UpdatePhase::Fetching, UpdateEvent::ArchiveEnded),
        (UpdatePhase::Fetching, UpdateAction::Ignore)
    );
    assert_eq!(
        advance(UpdatePhase::Extracting, UpdateEvent::Replaced),
        (UpdatePhase::Extracting, UpdateAction::Ignore)
    );
    assert_eq!(
        advance(UpdatePhase::Replacing, UpdateEvent::EntryFailed),
        (UpdatePhase::Replacing, UpdateAction::Ignore)
    );
}

#[test]
fn ended_update_is_not_tried_again() {
    let failed = UpdatePhase::Failed(CoreError::NetworkError);
    for event in [
        UpdateEvent::Requested,
        UpdateEvent::Fetched,
        UpdateEvent::FetchFailed,
        UpdateEvent::EntryStored,
        UpdateEvent::EntryFailed,
        UpdateEvent::ArchiveEnded,
        UpdateEvent::Replaced,
        UpdateEvent::ReplaceFailed { cause: 1 },
    ] {
        assert_eq!(advance(failed, event), (failed, UpdateAction::Ignore));
        assert_eq!(
            advance(UpdatePhase::Succeeded, event),
            (UpdatePhase::Succeeded, UpdateAction::Ignore)
        );
    }
}

#[test]
fn update_under_way_has_no_outcome() {
    assert_eq!(outcome(UpdatePhase::Idle), None);
    assert_eq!(outcome(UpdatePhase::Fetching), None);
    assert_eq!(outcome(UpdatePhase::Extracting), None);
    assert_eq!(outcome(UpdatePhase::Replacing), None);
}

#[test]
fn successful_update_sets_the_time() {
    let mut cache = meta(None);
    cache.note_update(UpdatePhase::Succeeded, 1_000);
    assert_eq!(cache, meta(Some(1_000)));
    assert_eq!(cache.last_update(1_000), Some(0));
    assert_eq!(cache.last_update(1_060), Some(60));
}

#[test]
fn repeated_update_gives_the_same_cache() {
    let mut once = meta(Some(5));
    once.note_update(UpdatePhase::Succeeded, 1_000);
    let mut twice = meta(Some(5));
    twice.note_update(UpdatePhase::Succeeded, 1_000);
    twice.note_update(UpdatePhase::Succeeded, 1_000);
    assert_eq!(once, twice);
}

#[test]
fn only_success_moves_the_time() {
    for phase in [
        UpdatePhase::Idle,
        UpdatePhase::Fetching,
        UpdatePhase::Extracting,
        UpdatePhase::Replacing,
        UpdatePhase::Failed(CoreError::NetworkError),
        UpdatePhase::Failed(CoreError::ArchiveError),
        UpdatePhase::Failed(CoreError::FilesystemError { cause: 2 }),
    ] {
        let mut cache = meta(Some(100));
        cache.note_update(phase, 900);
        assert_eq!(cache, meta(Some(100)));
    }
}

#[test]
fn cleared_cache_has_no_age() {
    let mut cache = meta(Some(100));
    assert_eq!(cache.note_clear(Ok(())), Ok(()));
    assert_eq!(cache, meta(None));
    assert_eq!(cache.last_update(200), None);
}

#[test]
fn failed_clearing_is_a_filesystem_error() {
    let mut cache = meta(Some(100));
    assert_eq!(cache.note_clear(Err(39)), Err(CoreError::FilesystemError { cause: 39 }));
    assert_eq!(cache, meta(Some(100)));
}
