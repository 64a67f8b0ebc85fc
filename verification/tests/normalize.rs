use pkg_extractor::paths::{is_safe_path, normalize, str_eq};

#[test]
fn skip_degenerate_names() {
    assert_eq!(normalize("", "Payload"), None);
    assert_eq!(normalize(".", "Payload"), None);
    assert_eq!(normalize("Payload", "Payload"), None);
}

#[test]
fn strip_root_prefix() {
    assert_eq!(normalize("Payload/a/b", "Payload"), Some("a/b".to_string()));
    assert_eq!(normalize("Payload/bin/", "Payload"), Some("bin/".to_string()));
}

#[test]
fn no_prefix_passes_through() {
    assert_eq!(normalize("etc/hosts", "Payload"), Some("etc/hosts".to_string()));
    assert_eq!(normalize("Payloads", "Payload"), Some("Payloads".to_string()));
}

#[test]
fn reject_escaping_paths() {
    assert_eq!(normalize("/etc/passwd", "Payload"), None);
    assert_eq!(normalize("Payload//etc/passwd", "Payload"), None);
    assert_eq!(normalize("../x", "Payload"), None);
    assert_eq!(normalize("Payload/../x", "Payload"), None);
    assert_eq!(normalize("a/../b", "Payload"), None);
    assert_eq!(normalize("a/..", "Payload"), None);
    assert_eq!(normalize("..", "Payload"), None);
}

#[test]
fn dotdot_only_as_whole_segment() {
    assert_eq!(normalize("a..b/c", "Payload"), Some("a..b/c".to_string()));
    assert_eq!(normalize("a/..b", "Payload"), Some("a/..b".to_string()));
    assert_eq!(normalize("a/b..", "Payload"), Some("a/b..".to_string()));
}

#[test]
fn safe_path_checks() {
    assert!(is_safe_path(""));
    assert!(is_safe_path("a/b/c"));
    assert!(!is_safe_path("/a"));
    assert!(!is_safe_path("a/../b"));
}

#[test]
fn str_eq_checks() {
    assert!(str_eq("", ""));
    assert!(str_eq("abc", "abc"));
    assert!(!str_eq("abc", "abd"));
    assert!(!str_eq("abc", "ab"));
}
