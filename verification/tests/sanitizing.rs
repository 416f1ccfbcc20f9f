//! The path sanitizer on its own: verdicts and resolved targets.

use zip_extract::paths::RejectReason;
use zip_extract::paths::sanitize;

#[test]
fn rejects_parent_traversal() {
    assert_eq!(sanitize("../x").unwrap_err(), RejectReason::TraversalAttempt);
    assert_eq!(sanitize("a/../b").unwrap_err(), RejectReason::TraversalAttempt);
    assert_eq!(sanitize("..").unwrap_err(), RejectReason::TraversalAttempt);
}

#[test]
fn rejects_absolute_markers() {
    assert_eq!(sanitize("/etc/passwd").unwrap_err(), RejectReason::AbsolutePath);
    assert_eq!(sanitize("/").unwrap_err(), RejectReason::AbsolutePath);
    assert_eq!(sanitize("c:/windows").unwrap_err(), RejectReason::AbsolutePath);
    assert_eq!(sanitize("a/d:evil").unwrap_err(), RejectReason::AbsolutePath);
}

#[test]
fn rejects_empty_and_current_segments() {
    assert_eq!(sanitize("").unwrap_err(), RejectReason::EmptySegment);
    assert_eq!(sanitize("a//b").unwrap_err(), RejectReason::EmptySegment);
    assert_eq!(sanitize("./x").unwrap_err(), RejectReason::EmptySegment);
    assert_eq!(sanitize(".").unwrap_err(), RejectReason::EmptySegment);
    assert_eq!(sanitize("a//").unwrap_err(), RejectReason::EmptySegment);
}

#[test]
fn first_violation_wins() {
    // the leading separator is seen before the empty and `..` segments
    assert_eq!(sanitize("/..//x").unwrap_err(), RejectReason::AbsolutePath);
    // scanning is left to right
    assert_eq!(sanitize("a//../x").unwrap_err(), RejectReason::EmptySegment);
}

#[test]
fn accepts_well_formed_relative_paths() {
    let rp = sanitize("a/b/c.txt").unwrap();
    assert_eq!(rp.segments, vec!["a".to_string(), "b".to_string(), "c.txt".to_string()]);
    let rp = sanitize("plain.txt").unwrap();
    assert_eq!(rp.segments, vec!["plain.txt".to_string()]);
    // a trailing separator marks a directory and contributes no segment
    let rp = sanitize("d/e/").unwrap();
    assert_eq!(rp.segments, vec!["d".to_string(), "e".to_string()]);
    // dots inside a segment are ordinary characters
    let rp = sanitize("...x/..y").unwrap();
    assert_eq!(rp.segments, vec!["...x".to_string(), "..y".to_string()]);
}

#[test]
fn resolved_targets_stay_under_the_root() {
    let rp = sanitize("a/b/c.txt").unwrap();
    assert!(rp.needs_parent());
    let target = rp.absolute_target("dest");
    assert_eq!(target, "dest/a/b/c.txt".to_string());
    assert!(target.starts_with("dest/"));
    let rp = sanitize("top.txt").unwrap();
    assert!(!rp.needs_parent());
    assert_eq!(rp.absolute_target("dest"), "dest/top.txt".to_string());
}
