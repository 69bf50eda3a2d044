use caching_scanners::state::{DirEntry, FileEntry, ScanState};
use caching_scanners::table::csv_rows;

fn f(name: &str, size: u64, ctime: i64, mtime: i64) -> FileEntry {
    FileEntry { filename: name.to_string(), size, ctime, mtime }
}

#[test]
fn empty_state_produces_header_only() {
    let state = ScanState::new();
    assert!(csv_rows(&state).is_empty());
}

#[test]
fn state_with_entries_produces_correct_csv() {
    let mut state = ScanState::new();
    state.insert("/data".to_string(), DirEntry { dir_mtime: 100, files: vec![f("file.txt", 42, 1000, 2000)] });
    let rows = csv_rows(&state);
    assert_eq!(rows.len(), 1);
    let r = &rows[0];
    assert_eq!(format!("{},{},{},{}", r.path, r.size, r.ctime, r.mtime), "/data/file.txt,42,1000,2000");
}

#[test]
fn directories_sorted_lexicographically() {
    let mut state = ScanState::new();
    for name in ["/z_dir", "/a_dir", "/m_dir"] {
        state.insert(name.to_string(), DirEntry { dir_mtime: 100, files: vec![f("f.txt", 1, 0, 0)] });
    }
    let rows = csv_rows(&state);
    assert_eq!(rows.len(), 3);
    assert!(rows[0].path.starts_with("/a_dir/"));
    assert!(rows[1].path.starts_with("/m_dir/"));
    assert!(rows[2].path.starts_with("/z_dir/"));
}

#[test]
fn files_appear_in_stored_order() {
    let mut state = ScanState::new();
    state.insert(
        "/dir".to_string(),
        DirEntry {
            dir_mtime: 100,
            files: vec![f("second.txt", 1, 0, 0), f("first.txt", 2, 0, 0), f("third.txt", 3, 0, 0)],
        },
    );
    let rows = csv_rows(&state);
    assert_eq!(rows.len(), 3);
    assert!(rows[0].path.contains("second.txt"));
    assert!(rows[1].path.contains("first.txt"));
    assert!(rows[2].path.contains("third.txt"));
}

#[test]
fn negative_times_and_root_directory() {
    let mut state = ScanState::new();
    state.insert("/".to_string(), DirEntry { dir_mtime: 1, files: vec![f("x", 0, -5, i64::MIN)] });
    let rows = csv_rows(&state);
    assert_eq!(rows[0].path, "/x");
    assert_eq!(rows[0].size, "0");
    assert_eq!(rows[0].ctime, "-5");
    assert_eq!(rows[0].mtime, "-9223372036854775808");
}
