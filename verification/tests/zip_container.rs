//! Extraction from real zip containers, built in memory.

use std::io::Cursor;
use std::io::Write;

use zip_extract::fs_tree::FsNodeKind;
use zip_extract::fs_tree::FsTree;
use zip_extract::paths::RejectReason;
use zip_extract::zip_source::FatalError;
use zip_extract::zip_source::extract_zip_bytes;

fn segs(parts: &[&str]) -> Vec<String> {
    parts.iter().map(|p| p.to_string()).collect()
}

fn build_zip(entries: &[(&str, Option<&[u8]>)]) -> Vec<u8> {
    let mut w = zip::ZipWriter::new(Cursor::new(Vec::new()));
    let options = zip::write::FileOptions::default();
    for (name, content) in entries {
        match content {
            Some(bytes) => {
                w.start_file(*name, options).unwrap();
                w.write_all(bytes).unwrap();
            },
            None => {
                w.add_directory(*name, options).unwrap();
            },
        }
    }
    w.finish().unwrap().into_inner()
}

#[test]
fn extracts_a_real_zip() {
    let bytes = build_zip(&[("a", None), ("a/b.txt", Some(b"hi"))]);
    let mut tree = FsTree::new();
    let report = extract_zip_bytes(bytes, &mut tree, true).unwrap();
    assert_eq!(report.processed_count, 2);
    assert!(report.skipped.is_empty());
    assert!(report.failed.is_empty());
    assert_eq!(report.bytes_written, 2);
    assert_eq!(tree.get(&segs(&["a"])), Some(&FsNodeKind::Directory));
    match tree.get(&segs(&["a", "b.txt"])) {
        Some(FsNodeKind::File { content, .. }) => assert_eq!(content, &b"hi".to_vec()),
        other => panic!("expected a file node, found {:?}", other),
    }
}

#[test]
fn skips_traversal_names_from_a_real_zip() {
    let bytes = build_zip(&[("../evil.txt", Some(b"evil")), ("fine.txt", Some(b"ok"))]);
    let mut tree = FsTree::new();
    let report = extract_zip_bytes(bytes, &mut tree, true).unwrap();
    assert_eq!(report.skipped, vec![(0, RejectReason::TraversalAttempt)]);
    assert_eq!(report.bytes_written, 2);
    assert_eq!(tree.nodes.len(), 1);
    match tree.get(&segs(&["fine.txt"])) {
        Some(FsNodeKind::File { content, .. }) => assert_eq!(content, &b"ok".to_vec()),
        other => panic!("expected a file node, found {:?}", other),
    }
}

#[test]
fn refuses_bytes_that_are_no_archive() {
    let mut tree = FsTree::new();
    let r = extract_zip_bytes(b"this is not a zip container".to_vec(), &mut tree, true);
    assert_eq!(r.unwrap_err(), FatalError::ArchiveUnreadable);
    assert!(tree.nodes.is_empty());
}
