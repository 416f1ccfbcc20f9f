//! Extraction scenarios over in-memory entry sequences.

use zip_extract::driver::extract_entries;
use zip_extract::entry::ArchiveEntry;
use zip_extract::fs_tree::FsNodeKind;
use zip_extract::fs_tree::FsTree;
use zip_extract::materialize::FailCause;
use zip_extract::paths::RejectReason;

fn file_entry(path: &str, content: &[u8]) -> ArchiveEntry {
    ArchiveEntry {
        declared_path: path.to_string(),
        size: content.len() as u64,
        comment: String::new(),
        mode_bits: None,
        content: content.to_vec(),
    }
}

fn dir_entry(path: &str) -> ArchiveEntry {
    ArchiveEntry {
        declared_path: path.to_string(),
        size: 0,
        comment: String::new(),
        mode_bits: None,
        content: Vec::new(),
    }
}

fn segs(parts: &[&str]) -> Vec<String> {
    parts.iter().map(|p| p.to_string()).collect()
}

#[test]
fn scenario_dir_and_file() {
    let entries = vec![dir_entry("a/"), file_entry("a/b.txt", b"hi")];
    let mut tree = FsTree::new();
    let report = extract_entries(&entries, &mut tree, true);
    assert_eq!(report.processed_count, 2);
    assert!(report.skipped.is_empty());
    assert!(report.failed.is_empty());
    assert_eq!(report.bytes_written, 2);
    assert_eq!(tree.get(&segs(&["a"])), Some(&FsNodeKind::Directory));
    assert_eq!(
        tree.get(&segs(&["a", "b.txt"])),
        Some(&FsNodeKind::File { content: b"hi".to_vec(), mode: None })
    );
}

#[test]
fn scenario_traversal_entry() {
    let entries = vec![file_entry("../outside.txt", b"evil")];
    let mut tree = FsTree::new();
    let report = extract_entries(&entries, &mut tree, true);
    assert_eq!(report.skipped, vec![(0, RejectReason::TraversalAttempt)]);
    assert!(report.failed.is_empty());
    assert_eq!(report.processed_count, 1);
    assert_eq!(report.bytes_written, 0);
    assert!(tree.nodes.is_empty());
}

#[test]
fn skip_continues_after_malicious_entry() {
    let entries = vec![
        file_entry("../../evil.txt", b"evil"),
        file_entry("ok1.txt", b"one"),
        file_entry("nested/ok2.txt", b"two"),
    ];
    let mut tree = FsTree::new();
    let report = extract_entries(&entries, &mut tree, true);
    assert_eq!(report.skipped, vec![(0, RejectReason::TraversalAttempt)]);
    assert!(report.failed.is_empty());
    assert_eq!(report.processed_count, 3);
    assert_eq!(report.bytes_written, 6);
    assert_eq!(
        tree.get(&segs(&["ok1.txt"])),
        Some(&FsNodeKind::File { content: b"one".to_vec(), mode: None })
    );
    assert_eq!(tree.get(&segs(&["nested"])), Some(&FsNodeKind::Directory));
    assert_eq!(
        tree.get(&segs(&["nested", "ok2.txt"])),
        Some(&FsNodeKind::File { content: b"two".to_vec(), mode: None })
    );
}

#[test]
fn extraction_is_idempotent() {
    let entries = vec![
        dir_entry("a/"),
        file_entry("a/x.txt", b"first"),
        file_entry("a/x.txt", b"second"),
        file_entry("top.txt", b"t"),
    ];
    let mut once = FsTree::new();
    extract_entries(&entries, &mut once, true);
    let mut twice = FsTree::new();
    extract_entries(&entries, &mut twice, true);
    extract_entries(&entries, &mut twice, true);
    assert_eq!(once, twice);
    assert_eq!(
        once.get(&segs(&["a", "x.txt"])),
        Some(&FsNodeKind::File { content: b"second".to_vec(), mode: None })
    );
}

#[test]
fn truncated_write_is_recorded() {
    let mut entry = file_entry("short.txt", b"hi");
    entry.size = 5;
    let entries = vec![entry];
    let mut tree = FsTree::new();
    let report = extract_entries(&entries, &mut tree, true);
    assert_eq!(report.failed.len(), 1);
    assert_eq!(report.failed[0].0, 0);
    assert_eq!(report.failed[0].1, "short.txt".to_string());
    assert_eq!(report.failed[0].2, FailCause::TruncatedWrite);
    assert_eq!(report.bytes_written, 0);
    // the content was still written before the mismatch was seen
    assert_eq!(
        tree.get(&segs(&["short.txt"])),
        Some(&FsNodeKind::File { content: b"hi".to_vec(), mode: None })
    );
}

#[test]
fn file_blocks_directory_chain() {
    let entries = vec![file_entry("a", b"x"), file_entry("a/b.txt", b"y")];
    let mut tree = FsTree::new();
    let report = extract_entries(&entries, &mut tree, true);
    assert_eq!(report.failed.len(), 1);
    assert_eq!(report.failed[0].2, FailCause::DirectoryConflict);
    assert_eq!(report.bytes_written, 1);
    assert_eq!(
        tree.get(&segs(&["a"])),
        Some(&FsNodeKind::File { content: b"x".to_vec(), mode: None })
    );
    assert_eq!(tree.get(&segs(&["a", "b.txt"])), None);
}

#[test]
fn directory_blocks_file() {
    let entries = vec![dir_entry("d/"), file_entry("d", b"x")];
    let mut tree = FsTree::new();
    let report = extract_entries(&entries, &mut tree, true);
    assert_eq!(report.failed.len(), 1);
    assert_eq!(report.failed[0].2, FailCause::FileConflict);
    assert_eq!(tree.get(&segs(&["d"])), Some(&FsNodeKind::Directory));
}

#[test]
fn later_file_overwrites_earlier() {
    let entries = vec![file_entry("f", b"one"), file_entry("f", b"two")];
    let mut tree = FsTree::new();
    let report = extract_entries(&entries, &mut tree, true);
    assert!(report.failed.is_empty());
    assert_eq!(report.bytes_written, 6);
    assert_eq!(
        tree.get(&segs(&["f"])),
        Some(&FsNodeKind::File { content: b"two".to_vec(), mode: None })
    );
}

#[test]
fn mode_bits_follow_the_capability() {
    let mut entry = file_entry("bin", b"#!");
    entry.mode_bits = Some(0o755);
    let mut with_modes = FsTree::new();
    extract_entries(&vec![entry], &mut with_modes, true);
    assert_eq!(
        with_modes.get(&segs(&["bin"])),
        Some(&FsNodeKind::File { content: b"#!".to_vec(), mode: Some(0o755) })
    );
    let mut entry = file_entry("bin", b"#!");
    entry.mode_bits = Some(0o755);
    let mut without_modes = FsTree::new();
    extract_entries(&vec![entry], &mut without_modes, false);
    assert_eq!(
        without_modes.get(&segs(&["bin"])),
        Some(&FsNodeKind::File { content: b"#!".to_vec(), mode: None })
    );
}

#[test]
fn missing_parents_are_created() {
    let entries = vec![file_entry("x/y/z.txt", b"deep")];
    let mut tree = FsTree::new();
    let report = extract_entries(&entries, &mut tree, true);
    assert!(report.failed.is_empty());
    assert_eq!(tree.get(&segs(&["x"])), Some(&FsNodeKind::Directory));
    assert_eq!(tree.get(&segs(&["x", "y"])), Some(&FsNodeKind::Directory));
    assert_eq!(
        tree.get(&segs(&["x", "y", "z.txt"])),
        Some(&FsNodeKind::File { content: b"deep".to_vec(), mode: None })
    );
}

#[test]
fn empty_archive_reports_nothing() {
    let entries: Vec<ArchiveEntry> = Vec::new();
    let mut tree = FsTree::new();
    let report = extract_entries(&entries, &mut tree, true);
    assert_eq!(report.processed_count, 0);
    assert!(report.skipped.is_empty());
    assert!(report.failed.is_empty());
    assert_eq!(report.bytes_written, 0);
    assert!(tree.nodes.is_empty());
}

#[test]
fn directory_recreation_is_a_no_op() {
    let entries = vec![dir_entry("a/"), dir_entry("a/"), dir_entry("a/b/")];
    let mut tree = FsTree::new();
    let report = extract_entries(&entries, &mut tree, true);
    assert!(report.skipped.is_empty());
    assert!(report.failed.is_empty());
    assert_eq!(tree.nodes.len(), 2);
    assert_eq!(tree.get(&segs(&["a"])), Some(&FsNodeKind::Directory));
    assert_eq!(tree.get(&segs(&["a", "b"])), Some(&FsNodeKind::Directory));
    assert_eq!(tree.get(&segs(&["missing"])), None);
}
