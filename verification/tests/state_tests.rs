use rust_rag::state::{FileMetadata, IndexState};

fn pairs(v: &[(&str, &str)]) -> Vec<(String, String)> {
    v.iter().map(|(a, b)| (a.to_string(), b.to_string())).collect()
}

fn meta(h: &str) -> FileMetadata {
    FileMetadata { sha256: h.to_string() }
}

#[test]
fn test_incremental_detects_changes() {
    let mut state = IndexState::new();
    state.insert_file("/ws/src/lib.rs".to_string(), meta("old_hash_for_lib"));
    state.insert_file("/ws/src/other.rs".to_string(), meta("h_other"));
    let current = pairs(&[("/ws/src/lib.rs", "h_lib"), ("/ws/src/other.rs", "h_other")]);
    let (_, changed_files, _) = state.compare(&current);
    assert!(changed_files.contains(&"/ws/src/lib.rs".to_string()), "lib.rs should be detected as changed");
    assert!(!changed_files.contains(&"/ws/src/other.rs".to_string()));
}

#[test]
fn test_incremental_skips_unchanged() {
    let mut state = IndexState::new();
    state.insert_file("/ws/src/lib.rs".to_string(), meta("a"));
    state.insert_file("/ws/src/other.rs".to_string(), meta("b"));
    let current = pairs(&[("/ws/src/lib.rs", "a"), ("/ws/src/other.rs", "b")]);
    let (_, changed, _) = state.compare(&current);
    assert!(changed.is_empty());
    assert!(!state.has_changes(&current));
}

#[test]
fn test_incremental_removes_deleted() {
    let mut state = IndexState::new();
    state.insert_file("/ws/src/lib.rs".to_string(), meta("a"));
    state.insert_file("/ws/src/other.rs".to_string(), meta("b"));
    state.chunk_ids.push("chunk_/ws/src/other.rs_".to_string());
    state.chunk_ids.push("chunk_/ws/src/lib.rs_0".to_string());
    let current = pairs(&[("/ws/src/lib.rs", "a")]);
    let (_, _, removed_ids) = state.compare(&current);
    assert!(removed_ids.contains(&"chunk_/ws/src/other.rs_".to_string()));
    assert_eq!(removed_ids.len(), 1);
}

#[test]
fn test_incremental_detects_new_files() {
    let mut state = IndexState::new();
    state.insert_file("/ws/lib.rs".to_string(), meta("a"));
    let current = pairs(&[("/ws/lib.rs", "a"), ("/ws/new_module.rs", "n")]);
    let (new_files, _, _) = state.compare(&current);
    assert_eq!(new_files, vec!["/ws/new_module.rs".to_string()]);
    assert!(state.has_changes(&current));
}

#[test]
fn test_update_then_no_changes() {
    let mut state = IndexState::default();
    let current = pairs(&[("a.rs", "1"), ("b.rs", "2")]);
    assert!(state.has_changes(&current));
    state.update_files(current.clone());
    assert!(!state.has_changes(&current));
    assert_eq!(state.chunk_ids, vec!["chunk_a.rs_0".to_string(), "chunk_b.rs_0".to_string()]);
    assert_eq!(state.version, 1);
}

#[test]
fn test_insert_file_replaces_hash() {
    let mut state = IndexState::new();
    state.insert_file("a".to_string(), meta("1"));
    state.insert_file("a".to_string(), meta("2"));
    assert_eq!(state.files.len(), 1);
    assert_eq!(state.saved_hash(&"a".to_string()), Some(&"2".to_string()));
    assert_eq!(state.saved_hash(&"b".to_string()), None);
}
