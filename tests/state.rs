use caching_scanners::state::{DirEntry, FileEntry, LoadOutcome, ScanState};

fn entry(mtime: i64) -> DirEntry {
    DirEntry { dir_mtime: mtime, files: vec![] }
}

#[test]
fn insert_keeps_paths_in_order() {
    let mut state = ScanState::new();
    for p in ["/z_dir", "/a_dir", "/m_dir", "/a_dir/sub", "/a-dir"] {
        state.insert(p.to_string(), entry(1));
    }
    let keys: Vec<String> = (0..state.len()).map(|i| state.entry_at(i).0.clone()).collect();
    assert_eq!(keys, vec!["/a-dir", "/a_dir", "/a_dir/sub", "/m_dir", "/z_dir"]);
}

#[test]
fn insert_replaces_existing_record() {
    let mut state = ScanState::new();
    state.insert("/test".to_string(), entry(1));
    state.insert("/test".to_string(), entry(42));
    assert_eq!(state.len(), 1);
    assert_eq!(state.get("/test").unwrap().dir_mtime, 42);
}

#[test]
fn get_missing_is_none() {
    let mut state = ScanState::default();
    assert!(state.is_empty());
    assert!(state.get("/nope").is_none());
    state.insert("/yes".to_string(), entry(3));
    assert!(state.get("/nope").is_none());
    assert!(!state.contains_key("/ye"));
    assert!(state.contains_key("/yes"));
}

#[test]
fn lower_bound_counts_earlier_paths() {
    let mut state = ScanState::new();
    for p in ["/b", "/d", "/f"] {
        state.insert(p.to_string(), entry(1));
    }
    assert_eq!(state.lower_bound("/a"), 0);
    assert_eq!(state.lower_bound("/b"), 0);
    assert_eq!(state.lower_bound("/c"), 1);
    assert_eq!(state.lower_bound("/z"), 3);
}

#[test]
fn load_outcome_falls_back_to_empty_state() {
    let mut s = ScanState::new();
    s.insert("/a".to_string(), DirEntry { dir_mtime: 5, files: vec![FileEntry { filename: "x".to_string(), size: 1, ctime: 2, mtime: 3 }] });
    let (loaded, warning) = LoadOutcome::Loaded(s).into_state();
    assert_eq!(loaded.len(), 1);
    assert!(warning.is_none());
    let (fresh, warning) = LoadOutcome::NotFound.into_state();
    assert!(fresh.is_empty());
    assert!(warning.is_none());
    let (fresh, warning) = LoadOutcome::Invalid("truncated state file".to_string()).into_state();
    assert!(fresh.is_empty());
    assert_eq!(warning.as_deref(), Some("truncated state file"));
}
