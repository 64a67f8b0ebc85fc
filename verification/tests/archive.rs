use pkg_extractor::extractor::{extract_payload_archive, ExtractError, PkgExtractor};
use pkg_extractor::fstree::{FsTree, Node};

/// One entry of a cpio "new ASCII" (newc) archive: magic, thirteen
/// 8-digit hex fields, NUL-terminated name padded to 4 bytes, then the
/// content padded to 4 bytes.
fn entry_bytes(name: &str, mode: u32, declared_size: u64, content: &[u8]) -> Vec<u8> {
    let mut out = Vec::new();
    out.extend_from_slice(b"070701");
    let name_len = (name.len() + 1) as u64;
    let fields = [
        1u64,          // inode
        mode as u64,   // mode
        0,             // uid
        0,             // gid
        1,             // nlink
        0,             // mtime
        declared_size, // file size
        0,             // dev major
        0,             // dev minor
        0,             // rdev major
        0,             // rdev minor
        name_len,      // name length including NUL
        0,             // checksum
    ];
    for v in fields {
        out.extend_from_slice(format!("{:08x}", v).as_bytes());
    }
    out.extend_from_slice(name.as_bytes());
    out.push(0);
    let pad = (4 - ((name.len() + 1 + 2) % 4)) % 4;
    out.extend(vec![0u8; pad]);
    out.extend_from_slice(content);
    let cpad = (4 - (content.len() % 4)) % 4;
    out.extend(vec![0u8; cpad]);
    out
}

fn archive(entries: &[(&str, u32, &[u8])]) -> Vec<u8> {
    let mut out = Vec::new();
    for (name, mode, content) in entries {
        out.extend(entry_bytes(name, *mode, content.len() as u64, content));
    }
    out.extend(entry_bytes("TRAILER!!!", 0, 0, b""));
    out
}

#[test]
fn payload_archive_end_to_end() {
    let payload = archive(&[
        ("Payload", 0o040755, b""),
        ("Payload/bin/", 0o040755, b""),
        ("Payload/bin/tool", 0o100644, b"abc"),
    ]);
    let mut tree = FsTree::new();
    let report = extract_payload_archive(payload, &mut tree);
    assert_eq!(report.bytes_written, 3);
    assert_eq!(report.conflicts, 0);
    assert!(matches!(tree.node_at("bin/"), Some(Node::Dir)));
    assert_eq!(tree.read_file("bin/tool"), Some(&b"abc".to_vec()));
    assert!(tree.node_at("Payload").is_none());
    assert!(tree.read_file("tool").is_none());
}

#[test]
fn payload_archive_skips_special_entries() {
    let payload = archive(&[
        ("Payload/link", 0o120777, b"dest"),
        ("Payload/file", 0o100644, b"data"),
    ]);
    let mut tree = FsTree::new();
    let report = extract_payload_archive(payload, &mut tree);
    assert_eq!(report.bytes_written, 4);
    assert!(tree.node_at("link").is_none());
    assert_eq!(tree.read_file("file"), Some(&b"data".to_vec()));
}

#[test]
fn truncated_stream_keeps_partial_file() {
    // The entry declares 100 bytes but the archive ends after 40.
    let mut payload = Vec::new();
    payload.extend(entry_bytes("Payload/big", 0o100644, 100, &[7u8; 40]));
    let mut tree = FsTree::new();
    let report = extract_payload_archive(payload, &mut tree);
    assert_eq!(report.bytes_written, 40);
    assert_eq!(tree.read_file("big"), Some(&vec![7u8; 40]));
}

#[test]
fn collision_across_payloads_last_wins() {
    let first = archive(&[("Payload/bin/tool", 0o100644, b"first")]);
    let second = archive(&[("Payload/bin/tool", 0o100644, b"second")]);
    let mut tree = FsTree::new();
    extract_payload_archive(first, &mut tree);
    extract_payload_archive(second, &mut tree);
    assert_eq!(tree.read_file("bin/tool"), Some(&b"second".to_vec()));
}

#[test]
fn payload_extraction_is_idempotent() {
    let payload = archive(&[
        ("Payload/d", 0o040755, b""),
        ("Payload/d/f", 0o100644, b"xyz"),
    ]);
    let mut t1 = FsTree::new();
    extract_payload_archive(payload.clone(), &mut t1);
    let mut t2 = FsTree::new();
    extract_payload_archive(payload, &mut t2);
    assert_eq!(t1, t2);
}

#[test]
fn unreadable_payload_contributes_nothing() {
    // A payload that is not a cpio archive is skipped, not fatal.
    let mut tree = FsTree::new();
    let report = extract_payload_archive(b"not a cpio archive".to_vec(), &mut tree);
    assert_eq!(report.bytes_written, 0);
    assert_eq!(tree.len(), 0);
}

#[test]
fn garbage_container_is_fatal() {
    // Too short to hold a container header: opening must fail cleanly.
    let extractor = PkgExtractor::new(vec![0u8; 10], None);
    let r = extractor.extract();
    assert!(matches!(r, Err(ExtractError::Container(_))));
}

#[test]
fn output_dir_default_and_explicit() {
    let d = PkgExtractor::new(Vec::new(), None);
    assert_eq!(d.output_dir(), "extracted_pkg");
    let e = PkgExtractor::new(Vec::new(), Some("out".to_string()));
    assert_eq!(e.output_dir(), "out");
}

#[test]
fn empty_archive_extracts_nothing() {
    // An archive holding only the trailer: no entries, no output.
    let payload = archive(&[]);
    let mut tree = FsTree::new();
    let report = extract_payload_archive(payload, &mut tree);
    assert_eq!(report.bytes_written, 0);
    assert_eq!(tree.len(), 0);
    assert!(report.info.is_none());
}

#[test]
fn undersized_header_field_is_fatal_not_a_crash() {
    // 28 zero bytes: the header-size field says 0, which the parser
    // would subtract from blindly; the admissibility check refuses it.
    let extractor = PkgExtractor::new(vec![0u8; 28], None);
    let r = extractor.extract();
    assert!(matches!(r, Err(ExtractError::Container(_))));
}

#[test]
fn admissible_junk_header_is_fatal() {
    // A header the parser can allocate for (size field 28, small
    // declared lengths) but whose table of contents is garbage.
    let mut data = vec![0u8; 32];
    data[4] = 0;
    data[5] = 28;
    let extractor = PkgExtractor::new(data, None);
    let r = extractor.extract();
    assert!(matches!(r, Err(ExtractError::Container(_))));
}

#[test]
fn conflicting_entry_is_skipped_and_counted() {
    // A file at "x", then a directory entry at the same path (skipped,
    // counted), then another file: extraction carries on.
    let payload = archive(&[
        ("Payload/x", 0o100644, b"aa"),
        ("Payload/x", 0o040755, b""),
        ("Payload/y", 0o100644, b"bbb"),
    ]);
    let mut tree = FsTree::new();
    let report = extract_payload_archive(payload, &mut tree);
    assert_eq!(report.conflicts, 1);
    assert_eq!(report.bytes_written, 5);
    assert_eq!(tree.read_file("x"), Some(&b"aa".to_vec()));
    assert_eq!(tree.read_file("y"), Some(&b"bbb".to_vec()));
}
