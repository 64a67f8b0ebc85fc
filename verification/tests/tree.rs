use pkg_extractor::fstree::{FsError, FsTree, Node};

#[test]
fn empty_tree() {
    let t = FsTree::new();
    assert_eq!(t.len(), 0);
    assert!(t.node_at("a").is_none());
}

#[test]
fn dir_twice_is_idempotent() {
    let mut t = FsTree::new();
    assert_eq!(t.ensure_dir("a"), Ok(()));
    let len_after_first = t.len();
    assert_eq!(t.ensure_dir("a"), Ok(()));
    assert_eq!(t.len(), len_after_first);
    assert!(matches!(t.node_at("a"), Some(Node::Dir)));
}

#[test]
fn dir_over_file_is_refused() {
    let mut t = FsTree::new();
    assert_eq!(t.write_file("a", vec![1u8]), Ok(()));
    assert_eq!(t.ensure_dir("a"), Err(FsError::OccupiedByFile("a".to_string())));
}

#[test]
fn file_over_dir_is_refused() {
    let mut t = FsTree::new();
    assert_eq!(t.ensure_dir("a"), Ok(()));
    assert_eq!(t.write_file("a", vec![1u8]), Err(FsError::OccupiedByDir("a".to_string())));
}

#[test]
fn file_read_back() {
    let mut t = FsTree::new();
    assert_eq!(t.write_file("f", vec![1u8, 2, 3]), Ok(()));
    assert_eq!(t.read_file("f"), Some(&vec![1u8, 2, 3]));
    assert_eq!(t.read_file("g"), None);
}

#[test]
fn later_write_shadows_earlier() {
    let mut t = FsTree::new();
    assert_eq!(t.write_file("f", vec![1u8]), Ok(()));
    assert_eq!(t.write_file("f", vec![2u8, 2]), Ok(()));
    assert_eq!(t.read_file("f"), Some(&vec![2u8, 2]));
}
