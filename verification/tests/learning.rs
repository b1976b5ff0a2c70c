use serial_mcp::learning::is_conflict;

#[test]
fn conflict_classification() {
    assert!(is_conflict(
        "Profile 'dev' revision conflict: expected 1, found 2"
    ));
    assert!(is_conflict("Profile 'dev' not found"));
    assert!(!is_conflict("Cannot create temp file: Permission denied"));
    assert!(!is_conflict("Failed to commit profiles: I/O error"));
}


use serial_mcp::learning::{
    learn_finish, learn_start, LearnStart, ProfileBinding, ProfilePersistenceOperation,
    ProfilePersistenceState, StoreUpdate,
};

fn binding(persistent: bool, stale: bool) -> ProfileBinding {
    ProfileBinding {
        profile_name: "dev".to_string(),
        persistent,
        revision: Some(3),
        dirty: false,
        stale,
        last_persistence_error: None,
    }
}

#[test]
fn learn_without_binding_is_transient() {
    match learn_start(None, ProfilePersistenceOperation::Learned) {
        LearnStart::Finished { binding, report } => {
            assert!(binding.is_none());
            assert_eq!(report.state, ProfilePersistenceState::Transient);
        }
        other => panic!("unexpected: {:?}", other),
    }
    match learn_start(Some(binding(false, false)), ProfilePersistenceOperation::Learned) {
        LearnStart::Finished { binding, report } => {
            assert!(binding.is_some());
            assert_eq!(report.state, ProfilePersistenceState::Transient);
        }
        other => panic!("unexpected: {:?}", other),
    }
}

#[test]
fn learn_on_stale_binding_fails_without_store_access() {
    match learn_start(Some(binding(true, true)), ProfilePersistenceOperation::Learned) {
        LearnStart::Finished { binding, report } => {
            let b = binding.unwrap();
            assert!(b.dirty);
            assert_eq!(
                b.last_persistence_error.as_deref(),
                Some("profile revision changed externally; connection binding is stale")
            );
            assert_eq!(report.state, ProfilePersistenceState::Failed);
            assert_eq!(report.revision, Some(3));
        }
        other => panic!("unexpected: {:?}", other),
    }
}

#[test]
fn learn_on_persistent_binding_persists_at_revision() {
    match learn_start(Some(binding(true, false)), ProfilePersistenceOperation::Learned) {
        LearnStart::Persist { profile_name, expected_revision } => {
            assert_eq!(profile_name, "dev");
            assert_eq!(expected_revision, 3);
        }
        other => panic!("unexpected: {:?}", other),
    }
}

#[test]
fn learn_finish_updates_revision_or_marks_stale() {
    let (b, r) = learn_finish(
        binding(true, false),
        StoreUpdate::Updated { changed: true, profile_name: "dev".to_string(), revision: 4 },
        ProfilePersistenceOperation::Learned,
    );
    assert_eq!(b.revision, Some(4));
    assert!(!b.dirty && !b.stale);
    assert_eq!(r.state, ProfilePersistenceState::Persisted);
    let (b, r) = learn_finish(
        binding(true, false),
        StoreUpdate::Updated { changed: false, profile_name: "dev".to_string(), revision: 3 },
        ProfilePersistenceOperation::Learned,
    );
    assert_eq!(b.revision, Some(3));
    assert_eq!(r.state, ProfilePersistenceState::NotNeeded);
    let (b, r) = learn_finish(
        binding(true, false),
        StoreUpdate::Failed { error: "Profile 'dev' revision conflict: expected 3, found 4".to_string() },
        ProfilePersistenceOperation::Learned,
    );
    assert!(b.dirty && b.stale);
    assert_eq!(r.state, ProfilePersistenceState::Failed);
    let (b, _) = learn_finish(
        binding(true, false),
        StoreUpdate::Failed { error: "disk full".to_string() },
        ProfilePersistenceOperation::Learned,
    );
    assert!(b.dirty && !b.stale);
}

#[test]
fn report_carries_the_operation() {
    match learn_start(Some(binding(true, true)), ProfilePersistenceOperation::OpenOverride) {
        LearnStart::Finished { report, .. } => {
            assert_eq!(report.operation, ProfilePersistenceOperation::OpenOverride)
        }
        other => panic!("unexpected: {:?}", other),
    }
    let (_, r) = learn_finish(
        binding(true, false),
        StoreUpdate::Failed { error: "disk full".to_string() },
        ProfilePersistenceOperation::OpenOverride,
    );
    assert_eq!(r.operation, ProfilePersistenceOperation::OpenOverride);
}
