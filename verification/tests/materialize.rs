use pkg_extractor::fstree::{FsTree, Node};
use pkg_extractor::pipeline::{apply_entries, apply_entry, PayloadEntry};

fn dir_entry(name: &str) -> PayloadEntry {
    PayloadEntry { name: name.to_string(), size: 0, mode: 0o040755, content: Vec::new() }
}

fn file_entry(name: &str, size: u64, content: &[u8]) -> PayloadEntry {
    PayloadEntry { name: name.to_string(), size, mode: 0o100644, content: content.to_vec() }
}

#[test]
fn regular_round_trip() {
    let mut t = FsTree::new();
    let content = b"some file content".to_vec();
    let e = file_entry("Payload/data/file.txt", content.len() as u64, &content);
    assert_eq!(apply_entry(&mut t, &e, "Payload"), Ok(content.len() as u64));
    assert_eq!(t.read_file("data/file.txt"), Some(&content));
    assert!(matches!(t.node_at("data"), Some(Node::Dir)));
}

#[test]
fn early_truncation_keeps_partial_bytes() {
    let mut t = FsTree::new();
    let partial = vec![7u8; 40];
    let e = file_entry("Payload/big", 100, &partial);
    assert_eq!(apply_entry(&mut t, &e, "Payload"), Ok(40));
    assert_eq!(t.read_file("big"), Some(&partial));
}

#[test]
fn zero_size_regular_creates_no_file() {
    let mut t = FsTree::new();
    let e = file_entry("Payload/empty", 0, b"");
    assert_eq!(apply_entry(&mut t, &e, "Payload"), Ok(0));
    assert!(t.node_at("empty").is_none());
}

#[test]
fn special_kinds_are_skipped() {
    let mut t = FsTree::new();
    let e = PayloadEntry {
        name: "Payload/link".to_string(),
        size: 4,
        mode: 0o120777,
        content: b"dest".to_vec(),
    };
    assert_eq!(apply_entry(&mut t, &e, "Payload"), Ok(0));
    assert!(t.node_at("link").is_none());
}

#[test]
fn directory_entry_twice_never_fails() {
    let mut t = FsTree::new();
    let e = dir_entry("Payload/usr/share");
    assert_eq!(apply_entry(&mut t, &e, "Payload"), Ok(0));
    let len_after_first = t.len();
    assert_eq!(apply_entry(&mut t, &e, "Payload"), Ok(0));
    assert_eq!(t.len(), len_after_first);
}

#[test]
fn end_to_end_component_stream() {
    let mut t = FsTree::new();
    let entries = vec![
        dir_entry("Payload"),
        dir_entry("Payload/bin/"),
        file_entry("Payload/bin/tool", 3, b"abc"),
    ];
    assert_eq!(apply_entries(&mut t, &entries, "Payload"), Ok(3));
    assert!(matches!(t.node_at("bin/"), Some(Node::Dir)));
    assert!(matches!(t.node_at("bin"), Some(Node::Dir)));
    assert_eq!(t.read_file("bin/tool"), Some(&b"abc".to_vec()));
    assert!(t.node_at("Payload").is_none());
}

#[test]
fn collision_last_write_wins() {
    let mut t = FsTree::new();
    let first = vec![dir_entry("Payload/bin"), file_entry("Payload/bin/tool", 5, b"first")];
    let second = vec![dir_entry("Payload/bin"), file_entry("Payload/bin/tool", 6, b"second")];
    assert_eq!(apply_entries(&mut t, &first, "Payload"), Ok(5));
    assert_eq!(apply_entries(&mut t, &second, "Payload"), Ok(6));
    assert_eq!(t.read_file("bin/tool"), Some(&b"second".to_vec()));
}

#[test]
fn extraction_is_deterministic() {
    let entries = vec![
        dir_entry("Payload"),
        dir_entry("Payload/a"),
        file_entry("Payload/a/f", 2, b"xy"),
        file_entry("Payload/a/f", 1, b"z"),
    ];
    let mut t1 = FsTree::new();
    let mut t2 = FsTree::new();
    assert_eq!(apply_entries(&mut t1, &entries, "Payload"), apply_entries(&mut t2, &entries, "Payload"));
    assert_eq!(t1, t2);
}

#[test]
fn conflict_stops_with_error() {
    let mut t = FsTree::new();
    let entries = vec![file_entry("Payload/x", 1, b"a"), dir_entry("Payload/x")];
    assert!(apply_entries(&mut t, &entries, "Payload").is_err());
}

#[test]
fn parent_occupied_by_file_is_conflict() {
    let mut t = FsTree::new();
    let entries = vec![file_entry("Payload/a", 1, b"a"), file_entry("Payload/a/b", 1, b"b")];
    assert!(apply_entries(&mut t, &entries, "Payload").is_err());
}

#[test]
fn oversized_content_is_cut_to_declared_size() {
    let mut t = FsTree::new();
    let e = file_entry("Payload/f", 2, b"abcdef");
    assert_eq!(apply_entry(&mut t, &e, "Payload"), Ok(2));
    assert_eq!(t.read_file("f"), Some(&b"ab".to_vec()));
}

#[test]
fn replaying_extraction_changes_nothing() {
    let entries = vec![
        dir_entry("Payload"),
        dir_entry("Payload/a"),
        file_entry("Payload/a/f", 3, b"xyz"),
    ];
    let mut t = FsTree::new();
    assert_eq!(apply_entries(&mut t, &entries, "Payload"), Ok(3));
    // A second run over the tree the first one produced succeeds and
    // leaves every path as it was.
    assert_eq!(apply_entries(&mut t, &entries, "Payload"), Ok(3));
    assert_eq!(t.read_file("a/f"), Some(&b"xyz".to_vec()));
    assert!(matches!(t.node_at("a"), Some(Node::Dir)));
    assert!(t.node_at("Payload").is_none());
}
