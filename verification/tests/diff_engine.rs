use docversion::diff::{apply_diff, compute_diff, hash_content, parse_hunk_header, reconstruct_content, DiffError};
use docversion::records::VersionRecord;
use std::collections::hash_map::DefaultHasher;
use std::hash::{Hash, Hasher};

#[test]
fn test_diff_roundtrip() {
    let original = "line1\nline2\nline3\nline4\nline5\n";
    let modified = "line1\nline2 modified\nline3\nline4 new\nline5\n";
    let diff = compute_diff(original, modified);
    let result = apply_diff(original, &diff).unwrap();
    assert_eq!(result, modified);
}

#[test]
fn test_empty_diff() {
    let text = "hello\nworld\n";
    let diff = compute_diff(text, text);
    assert!(diff.is_empty());
}

#[test]
fn diff_of_changed_text_is_not_empty() {
    let diff = compute_diff("a\n", "b\n");
    assert!(!diff.is_empty());
    assert!(diff.contains("-a"));
    assert!(diff.contains("+b"));
}

#[test]
fn apply_empty_patch_keeps_text() {
    assert_eq!(apply_diff("x\ny\n", "").unwrap(), "x\ny\n");
    assert_eq!(apply_diff("", "").unwrap(), "");
}

#[test]
fn apply_unchanged_diff_gives_back_text() {
    let text = "one\ntwo\n";
    let d = compute_diff(text, text);
    assert_eq!(apply_diff(text, &d).unwrap(), text);
}

#[test]
fn roundtrip_insert_and_delete() {
    let a = "a\nb\nc\nd\ne\nf\ng\nh\ni\nj\n";
    let b = "a\nB\nc\nd\ne\nf\ng\nh\nj\nk\n";
    let d = compute_diff(a, b);
    assert_eq!(apply_diff(a, &d).unwrap(), b);
}

#[test]
fn patch_on_empty_text_round_trips() {
    let d = compute_diff("", "first\nsecond\n");
    assert_eq!(apply_diff("", &d).unwrap(), "first\nsecond\n");
}

#[test]
fn insertion_into_empty_text_keeps_final_newline() {
    assert_eq!(apply_diff("", "@@ -0,0 +1,2 @@\n+x\n+y\n").unwrap(), "x\ny\n");
}

#[test]
fn two_hunk_patch() {
    let original = "a\nb\nc\nd\ne\nf\ng\nh\ni\nj\n";
    let patch = "@@ -1,4 +1,4 @@\n-a\n+A\n b\n c\n d\n@@ -7,4 +7,4 @@\n g\n h\n i\n-j\n+J\n";
    assert_eq!(apply_diff(original, patch).unwrap(), "A\nb\nc\nd\ne\nf\ng\nh\ni\nJ\n");
}

#[test]
fn roundtrip_far_apart_changes() {
    let a: String = (1..=30).map(|i| format!("line {}\n", i)).collect();
    let b = a.replace("line 2\n", "line two\n").replace("line 28\n", "line twenty-eight\n");
    let d = compute_diff(&a, &b);
    assert_eq!(d.matches("@@ -").count(), 2);
    assert_eq!(apply_diff(&a, &d).unwrap(), b);
}

#[test]
fn roundtrip_without_final_newline() {
    let d = compute_diff("a\n", "b");
    assert!(d.contains("\\ No newline at end of file"));
    assert_eq!(apply_diff("a\n", &d).unwrap(), "b");
}

#[test]
fn hand_written_patch() {
    let patch = "--- a\n+++ b\n@@ -2,1 +2,1 @@\n-two\n+TWO\n";
    assert_eq!(apply_diff("one\ntwo\nthree\n", patch).unwrap(), "one\nTWO\nthree\n");
}

#[test]
fn hunk_header_values() {
    assert_eq!(parse_hunk_header("@@ -1,3 +1,4 @@"), Some((0, 3, 0, 4)));
    assert_eq!(parse_hunk_header("@@ -5 +7 @@"), Some((4, 1, 6, 1)));
    assert_eq!(parse_hunk_header("@@ -0,0 +1,2 @@"), Some((0, 0, 0, 2)));
    assert_eq!(parse_hunk_header("@@ -1,x +1 @@"), None);
    assert_eq!(parse_hunk_header("-1,3 +1,4"), None);
    assert_eq!(parse_hunk_header("@@ -1,3 @@"), None);
}

fn version(n: i64, patch: &str, snapshot: Option<&str>) -> VersionRecord {
    VersionRecord {
        id: n,
        file_id: 1,
        version_number: n,
        timestamp: 0,
        diff_patch: patch.to_string(),
        prev_content_hash: String::new(),
        new_content_hash: String::new(),
        content_snapshot: snapshot.map(|s| s.to_string()),
        is_full_snapshot: snapshot.is_some(),
        file_size: 0,
        block_count: 0,
    }
}

#[test]
fn reconstruct_of_nothing_fails() {
    assert_eq!(reconstruct_content(&[]), Err(DiffError::EmptyVersionList));
}

#[test]
fn reconstruct_chain() {
    let v1 = "a\nb\n";
    let v2 = "a\nb\nc\n";
    let v3 = "a\nc\n";
    let versions = vec![
        version(1, "", Some(v1)),
        version(2, &compute_diff(v1, v2), None),
        version(3, &compute_diff(v2, v3), None),
    ];
    assert_eq!(reconstruct_content(&versions).unwrap(), v3);
}

#[test]
fn reconstruct_unchanged_chain_keeps_snapshot() {
    let versions = vec![version(1, "", Some("s\n")), version(2, "", None), version(3, "", None)];
    assert_eq!(reconstruct_content(&versions).unwrap(), "s\n");
}

#[test]
fn reconstruct_first_patch_applies_to_empty() {
    let d = compute_diff("", "x\n");
    let versions = vec![version(1, &d, None)];
    assert_eq!(reconstruct_content(&versions).unwrap(), "x\n");
}

#[test]
fn hash_content_is_sixteen_hex_digits() {
    let h = hash_content("hello");
    assert_eq!(h.len(), 16);
    assert!(h.chars().all(|c| c.is_ascii_hexdigit() && !c.is_ascii_uppercase()));
    assert_eq!(h, hash_content("hello"));
    assert_ne!(h, hash_content("hello!"));
}

#[test]
fn hash_content_matches_default_hasher() {
    let mut hasher = DefaultHasher::new();
    "some text".hash(&mut hasher);
    assert_eq!(hash_content("some text"), format!("{:016x}", hasher.finish()));
}
