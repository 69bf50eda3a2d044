use caching_scanners::scanner::{is_excluded, sort_files, store_listing, ScanSession, ScanStats};
use caching_scanners::state::{FileEntry, ScanState};

fn file(name: &str, size: u64) -> FileEntry {
    FileEntry { filename: name.to_string(), size, ctime: 10, mtime: 20 }
}

/// A directory of the simulated tree: its path, modification time, files,
/// and name (for the exclusion test).
struct Dir {
    path: &'static str,
    name: &'static str,
    mtime: i64,
    files: Vec<FileEntry>,
}

/// The tree of the scanner tests: a.txt at the root, sub/b.txt, and
/// sub/deeper/c.txt.
fn make_tree() -> Vec<Dir> {
    vec![
        Dir { path: "/t", name: "t", mtime: 100, files: vec![file("a.txt", 5)] },
        Dir { path: "/t/sub", name: "sub", mtime: 200, files: vec![file("b.txt", 5)] },
        Dir { path: "/t/sub/deeper", name: "deeper", mtime: 300, files: vec![file("c.txt", 4)] },
    ]
}

/// Runs one scan the way the walker drives the session: excluded names are
/// skipped with everything beneath them.
fn scan(tree: &[Dir], state: &mut ScanState, exclude: &[String]) -> ScanStats {
    let mut session = ScanSession::new();
    let mut skipped: Vec<&str> = Vec::new();
    for d in tree {
        if skipped.iter().any(|s| d.path.starts_with(&format!("{}/", s))) {
            continue;
        }
        if is_excluded(d.name, exclude) {
            skipped.push(d.path);
            continue;
        }
        let hit = session.visit(state, d.path.to_string(), d.mtime);
        if !hit {
            store_listing(state, d.path.to_string(), d.mtime, d.files.clone());
        }
    }
    session.finish(state)
}

#[test]
fn fresh_scan_all_dirs_scanned() {
    let tree = make_tree();
    let mut state = ScanState::new();
    let stats = scan(&tree, &mut state, &[]);
    assert_eq!(stats.dirs_scanned, 3);
    assert_eq!(stats.dirs_cached, 0);
    assert_eq!(stats.dirs_removed, 0);
    assert_eq!(state.len(), 3);
}

#[test]
fn second_scan_no_changes_all_cached() {
    let tree = make_tree();
    let mut state = ScanState::new();
    scan(&tree, &mut state, &[]);
    let stats = scan(&tree, &mut state, &[]);
    assert_eq!(stats.dirs_scanned, 0);
    assert_eq!(stats.dirs_cached, 3);
    assert_eq!(stats.dirs_removed, 0);
}

#[test]
fn modified_dir_is_rescanned() {
    let tree = make_tree();
    let mut state = ScanState::new();
    scan(&tree, &mut state, &[]);
    let mut entry = state.get("/t/sub").unwrap().clone();
    entry.dir_mtime -= 1;
    state.insert("/t/sub".to_string(), entry);
    let stats = scan(&tree, &mut state, &[]);
    assert_eq!(stats.dirs_scanned, 1);
    assert_eq!(stats.dirs_cached, 2);
    assert_eq!(stats.dirs_removed, 0);
    assert_eq!(state.get("/t/sub").unwrap().dir_mtime, 200);
}

#[test]
fn remove_subdir_shows_removed() {
    let mut tree = make_tree();
    let mut state = ScanState::new();
    scan(&tree, &mut state, &[]);
    assert!(state.contains_key("/t/sub/deeper"));
    tree.pop();
    tree[1].mtime = 201;
    let stats = scan(&tree, &mut state, &[]);
    assert_eq!(stats.dirs_removed, 1);
    assert!(!state.contains_key("/t/sub/deeper"));
}

#[test]
fn exclude_list_skips_directories() {
    let mut tree = make_tree();
    tree.insert(1, Dir { path: "/t/@eaDir", name: "@eaDir", mtime: 50, files: vec![file("junk.txt", 4)] });
    tree.insert(2, Dir { path: "/t/@eaDir/inner", name: "inner", mtime: 51, files: vec![] });
    let mut state = ScanState::new();
    let exclude = vec!["@eaDir".to_string()];
    let stats = scan(&tree, &mut state, &exclude);
    assert!(!state.contains_key("/t/@eaDir"));
    assert!(!state.contains_key("/t/@eaDir/inner"));
    assert_eq!(stats.dirs_scanned, 3);
}

#[test]
fn newly_excluded_directory_is_pruned() {
    let mut tree = make_tree();
    tree.insert(1, Dir { path: "/t/@eaDir", name: "@eaDir", mtime: 50, files: vec![] });
    let mut state = ScanState::new();
    scan(&tree, &mut state, &[]);
    assert!(state.contains_key("/t/@eaDir"));
    let stats = scan(&tree, &mut state, &["@eaDir".to_string()]);
    assert!(!state.contains_key("/t/@eaDir"));
    assert_eq!(stats.dirs_removed, 1);
    assert_eq!(stats.dirs_cached, 3);
}

#[test]
fn files_sorted_by_filename() {
    let mut state = ScanState::new();
    let files = vec![file("z.txt", 1), file("m.txt", 1), file("a.txt", 1)];
    store_listing(&mut state, "/t".to_string(), 7, files);
    let entry = state.get("/t").unwrap();
    let names: Vec<&str> = entry.files.iter().map(|f| f.filename.as_str()).collect();
    assert_eq!(names, vec!["a.txt", "m.txt", "z.txt"]);
}

#[test]
fn sort_files_uses_byte_order() {
    let files = vec![file("b", 1), file("B", 2), file("a-b", 3), file("a", 4), file("é", 5)];
    let sorted = sort_files(files);
    let names: Vec<&str> = sorted.iter().map(|f| f.filename.as_str()).collect();
    assert_eq!(names, vec!["B", "a", "a-b", "b", "é"]);
}

#[test]
fn empty_directory_produces_empty_files() {
    let tree = vec![Dir { path: "/empty", name: "empty", mtime: 1, files: vec![] }];
    let mut state = ScanState::new();
    let stats = scan(&tree, &mut state, &[]);
    assert_eq!(state.len(), 1);
    assert!(state.get("/empty").unwrap().files.is_empty());
    assert_eq!(stats.dirs_scanned, 1);
}

#[test]
fn exclusion_is_exact_name_match() {
    let exclude = vec!["@eaDir".to_string(), ".git".to_string()];
    assert!(is_excluded("@eaDir", &exclude));
    assert!(is_excluded(".git", &exclude));
    assert!(!is_excluded("@eaDir2", &exclude));
    assert!(!is_excluded("eaDir", &exclude));
    assert!(!is_excluded("anything", &[]));
}

#[test]
fn session_counts_visits() {
    let state = ScanState::new();
    let mut session = ScanSession::new();
    assert_eq!(session.visit_count(), 0);
    assert!(!session.visit(&state, "/x".to_string(), 1));
    assert_eq!(session.visit_count(), 1);
}
