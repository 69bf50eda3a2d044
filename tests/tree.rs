use caching_scanners::scanner::{store_listing, ScanSession};
use caching_scanners::state::{DirEntry, FileEntry, ScanState};
use caching_scanners::tree::{maybe_escape, parse_ignore_patterns, render_tree, Entry, IgnorePattern};

fn files(names: &[&str]) -> Vec<FileEntry> {
    names
        .iter()
        .map(|n| FileEntry { filename: n.to_string(), size: 1, ctime: 0, mtime: 0 })
        .collect()
}

fn sample() -> ScanState {
    let mut s = ScanState::new();
    s.insert("/r".to_string(), DirEntry { dir_mtime: 1, files: files(&["b.txt", ".hidden", "A.txt"]) });
    s.insert("/r/sub".to_string(), DirEntry { dir_mtime: 1, files: files(&["c.txt"]) });
    s.insert("/r/sub/deeper".to_string(), DirEntry { dir_mtime: 1, files: files(&["d.txt"]) });
    s.insert("/r/zed".to_string(), DirEntry { dir_mtime: 1, files: vec![] });
    s
}

#[test]
fn empty_directory_renders_one_directory_no_files() {
    let mut s = ScanState::new();
    s.insert("/e".to_string(), DirEntry { dir_mtime: 1, files: vec![] });
    let t = render_tree(&s, "/e", &[], false, false);
    assert_eq!(t.lines, vec!["/e".to_string()]);
    assert_eq!(t.summary(), "1 directories, 0 files");
}

#[test]
fn tree_lists_merged_collated_entries() {
    let t = render_tree(&sample(), "/r", &[], false, false);
    let expected = vec![
        "/r",
        "├── A.txt",
        "├── b.txt",
        "├── sub",
        "│\u{a0}\u{a0} ├── c.txt",
        "│\u{a0}\u{a0} └── deeper",
        "│\u{a0}\u{a0}     └── d.txt",
        "└── zed",
    ];
    assert_eq!(t.lines, expected);
    assert_eq!(t.dir_count, 4);
    assert_eq!(t.file_count, 4);
    assert_eq!(t.summary(), "4 directories, 4 files");
}

#[test]
fn tree_output_is_deterministic() {
    let s = sample();
    let a = render_tree(&s, "/r", &[], false, true);
    let b = render_tree(&s, "/r", &[], false, true);
    assert_eq!(a.lines, b.lines);
    assert_eq!((a.dir_count, a.file_count), (b.dir_count, b.file_count));
}

#[test]
fn hidden_entries_shown_on_request() {
    let t = render_tree(&sample(), "/r", &[], false, true);
    assert_eq!(t.lines[1..4].to_vec(), vec!["├── A.txt", "├── b.txt", "├── .hidden"]);
    assert_eq!(t.file_count, 5);
}

#[test]
fn ignore_patterns_filter_entries() {
    let (patterns, warnings) = parse_ignore_patterns(&["*.txt".to_string(), "[".to_string()]);
    assert_eq!(patterns.len(), 1);
    assert_eq!(warnings.len(), 1);
    assert!(warnings[0].starts_with("invalid glob pattern '['"), "{}", warnings[0]);
    let t = render_tree(&sample(), "/r", &patterns, false, false);
    assert_eq!(t.lines, vec!["/r", "├── sub", "│\u{a0}\u{a0} └── deeper", "└── zed"]);
    assert_eq!(t.summary(), "4 directories, 0 files");
}

#[test]
fn ignore_pattern_matches_directory_names() {
    let pattern = match IgnorePattern::new("sub") {
        Ok(p) => p,
        Err(m) => panic!("{m}"),
    };
    let t = render_tree(&sample(), "/r", &[pattern], false, false);
    assert_eq!(t.lines, vec!["/r", "├── A.txt", "├── b.txt", "└── zed"]);
    assert_eq!(t.dir_count, 2);
}

#[test]
fn root_without_record_lists_its_subdirectories() {
    let mut s = ScanState::new();
    s.insert("/top/a".to_string(), DirEntry { dir_mtime: 1, files: files(&["f"]) });
    let t = render_tree(&s, "/top", &[], false, false);
    assert_eq!(t.lines, vec!["/top", "└── a", "    └── f"]);
}

#[test]
fn names_are_escaped_unless_asked_not_to() {
    assert_eq!(maybe_escape("caf\u{e9} x\t", false), "caf? x?");
    assert_eq!(maybe_escape("caf\u{e9} x\t", true), "caf\u{e9} x\t");
    let mut s = ScanState::new();
    s.insert("/n".to_string(), DirEntry { dir_mtime: 1, files: files(&["\u{e9}t\u{e9}"]) });
    let t = render_tree(&s, "/n", &[], false, false);
    assert_eq!(t.lines[1], "└── ?t?");
    let t = render_tree(&s, "/n", &[], true, false);
    assert_eq!(t.lines[1], "└── \u{e9}t\u{e9}");
}

#[test]
fn entry_name_of_both_kinds() {
    assert_eq!(Entry::File("f".to_string()).name(), "f");
    assert_eq!(Entry::Dir("d".to_string()).name(), "d");
}

#[test]
fn collation_ignores_case_first() {
    let mut s = ScanState::new();
    s.insert("/c".to_string(), DirEntry { dir_mtime: 1, files: files(&["b", "a", "B", "C"]) });
    let t = render_tree(&s, "/c", &[], false, false);
    assert_eq!(t.lines[1..].to_vec(), vec!["├── a", "├── b", "├── B", "└── C"]);
}

#[test]
fn empty_directory_scan_then_tree_summary() {
    let mut state = ScanState::new();
    let mut session = ScanSession::new();
    if !session.visit(&state, "/fresh".to_string(), 9) {
        store_listing(&mut state, "/fresh".to_string(), 9, vec![]);
    }
    let stats = session.finish(&mut state);
    assert_eq!(stats.dirs_scanned, 1);
    assert_eq!(state.len(), 1);
    assert!(state.get("/fresh").unwrap().files.is_empty());
    let t = render_tree(&state, "/fresh", &[], false, false);
    assert_eq!((t.dir_count, t.file_count), (1, 0));
    assert_eq!(t.summary(), "1 directories, 0 files");
}

#[test]
fn trailing_slash_root_finds_children() {
    let mut s = ScanState::new();
    s.insert("/r/".to_string(), DirEntry { dir_mtime: 1, files: files(&["f"]) });
    s.insert("/r/sub".to_string(), DirEntry { dir_mtime: 1, files: vec![] });
    let t = render_tree(&s, "/r/", &[], false, false);
    assert_eq!(t.lines, vec!["/r/", "├── f", "└── sub"]);
}
