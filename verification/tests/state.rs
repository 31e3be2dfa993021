use codex_mem9::state::{
    default_state_path, legacy_state_candidates, migration_source, same_path,
    state_migration_candidates, SyncState, MAX_IMPORTED_FINGERPRINTS,
};

#[test]
fn evicts_oldest_fingerprint_when_capacity_is_exceeded() {
    let mut state = SyncState::default();
    for idx in 0..50_001 {
        state.mark_imported(format!("item-{idx}"));
    }

    assert!(!state.contains("item-0"));
    assert!(state.contains("item-50000"));
}

#[test]
fn marking_twice_keeps_one_entry_in_first_place() {
    let mut state = SyncState::new();
    state.mark_imported("a".to_string());
    state.mark_imported("b".to_string());
    state.mark_imported("a".to_string());
    let set = state.imported_fingerprints();
    assert_eq!(set.len(), 2);
    assert_eq!(set[0], "a");
    assert_eq!(set[1], "b");
    assert!(state.contains("a"));
    assert!(!state.contains("c"));
}

#[test]
fn full_record_drops_only_the_oldest() {
    let mut state = SyncState::new();
    for idx in 0..MAX_IMPORTED_FINGERPRINTS {
        state.mark_imported(format!("f-{idx}"));
    }
    assert_eq!(state.imported_fingerprints().len(), MAX_IMPORTED_FINGERPRINTS);
    state.mark_imported("newest".to_string());
    let set = state.imported_fingerprints();
    assert_eq!(set.len(), MAX_IMPORTED_FINGERPRINTS);
    assert_eq!(set[0], "f-1");
    assert_eq!(set[MAX_IMPORTED_FINGERPRINTS - 1], "newest");
}

#[test]
fn replace_imported_fingerprints_swaps_the_record() {
    let mut state = SyncState::new();
    state.mark_imported("old".to_string());
    let mut other = SyncState::new();
    other.mark_imported("new".to_string());
    state.replace_imported_fingerprints(other.imported_fingerprints().clone());
    assert!(state.contains("new"));
    assert!(!state.contains("old"));
}

#[test]
fn default_and_legacy_state_paths() {
    assert_eq!(default_state_path("/home/u"), "/home/u/.codex/codex-mem9/state.json");
    assert_eq!(default_state_path("/home/u/"), "/home/u/.codex/codex-mem9/state.json");
    assert_eq!(
        legacy_state_candidates("/home/u"),
        vec![
            "/home/u/Library/Application Support/ai.dmego.codex-mem9/state.json".to_string(),
            "/home/u/.local/share/codex-mem9/state.json".to_string(),
        ]
    );
}

#[test]
fn migration_applies_only_to_the_default_path() {
    assert_eq!(
        state_migration_candidates(Some("/h"), "/h/.codex//codex-mem9/state.json"),
        legacy_state_candidates("/h")
    );
    assert!(state_migration_candidates(Some("/h"), "/elsewhere/state.json").is_empty());
    assert!(state_migration_candidates(None, "/h/.codex/codex-mem9/state.json").is_empty());
    assert!(same_path("/a/./b/", "/a/b"));
    assert!(!same_path("/a/b", "a/b"));
}

#[test]
fn migration_source_picks_first_existing_legacy_file() {
    // The record is missing and the first legacy location exists.
    assert_eq!(migration_source(false, &[true, false]), Some(0));
    assert_eq!(migration_source(false, &[false, true]), Some(1));
    assert_eq!(migration_source(false, &[false, false]), None);
    assert_eq!(migration_source(true, &[true, true]), None);
}

#[test]
fn a_run_of_marks_records_each_fingerprint() {
    let mut state = SyncState::new();
    state.mark_imported("old".to_string());
    for f in ["a", "b", "a", "c"] {
        state.mark_imported(f.to_string());
    }
    for f in ["old", "a", "b", "c"] {
        assert!(state.contains(f));
    }
    assert_eq!(state.imported_fingerprints().len(), 4);
}
