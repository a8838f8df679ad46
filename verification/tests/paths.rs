use haystack::paths::{file_name, is_absolute_path, join_path, parent_path, path_starts_with, PathStyle};

const U: PathStyle = PathStyle::Unix;
const W: PathStyle = PathStyle::Windows;

#[test]
fn starts_with_compares_components() {
    assert!(path_starts_with(U, "/Users/me/docs/a.txt", "/Users/me"));
    assert!(path_starts_with(U, "/Users/me", "/Users/me/"));
    assert!(path_starts_with(U, "/Users//me/./docs", "/Users/me/docs"));
    assert!(!path_starts_with(U, "/Users/meow", "/Users/me"));
    assert!(!path_starts_with(U, "/Users", "/Users/me"));
    assert!(path_starts_with(U, "./a/b", "./a"));
    assert!(!path_starts_with(U, "a/b", "/a"));
}

#[test]
fn parent_references_are_resolved_before_comparing() {
    assert!(!path_starts_with(U, "/Users/me/../other/x", "/Users/me"));
    assert!(!path_starts_with(U, "/Users/me/..", "/Users/me"));
    assert!(!path_starts_with(U, "/Users/me/a/../../other", "/Users/me"));
    assert!(path_starts_with(U, "/Users/me/a/../b", "/Users/me"));
    assert!(path_starts_with(U, "/../Users/me/x", "/Users/me"));
    assert!(path_starts_with(U, "/Users/me/x", "/Users/you/../me"));
}

#[test]
fn windows_paths() {
    assert!(path_starts_with(W, r"C:\Users\me\x", r"C:\Users\me"));
    assert!(path_starts_with(W, r"c:\Users\me\x", r"C:\Users\me"));
    assert!(path_starts_with(W, "C:/Users/me/x", r"C:\Users\me\"));
    assert!(!path_starts_with(W, r"C:\Users\me\..\other\x", r"C:\Users\me"));
    assert!(!path_starts_with(W, r"D:\Users\me\x", r"C:\Users\me"));
    assert!(!path_starts_with(W, r"C:\Users\meow", r"C:\Users\me"));
    assert!(path_starts_with(W, r"\\server\share\a", r"\\server\share"));
    assert!(!path_starts_with(W, r"\\server\other\a", r"\\server\share"));
    assert!(is_absolute_path(W, r"C:\Users\me"));
    assert!(is_absolute_path(W, "C:/Users/me"));
    assert!(is_absolute_path(W, r"\\server\share"));
    assert!(!is_absolute_path(W, r"C:Users"));
    assert!(!is_absolute_path(W, r"\Users"));
    assert!(!is_absolute_path(U, r"C:\Users\me"));
    assert_eq!(join_path(W, r"C:\a", "b"), r"C:\a\b");
    assert_eq!(join_path(W, r"C:\a\", "b"), r"C:\a\b");
    assert_eq!(join_path(W, "C:", "b"), "C:b");
    assert_eq!(join_path(W, r"C:\a", r"\b"), r"C:\b");
    assert_eq!(join_path(W, r"C:\a", r"D:\x"), r"D:\x");
    assert_eq!(file_name(W, r"C:\a\b.txt"), Some("b.txt".to_string()));
    assert_eq!(file_name(W, r"C:\"), None);
    assert_eq!(parent_path(W, r"C:\a\b"), Some(r"C:\a".to_string()));
    assert_eq!(parent_path(W, r"C:\a"), Some(r"C:\".to_string()));
    assert_eq!(parent_path(W, r"C:\"), None);
    assert_eq!(parent_path(W, r"\\server\share"), None);
}

#[test]
fn join_appends_or_replaces() {
    assert_eq!(join_path(U, "/a", "b"), "/a/b");
    assert_eq!(join_path(U, "/a/", "b"), "/a/b");
    assert_eq!(join_path(U, "/a", "/etc/passwd"), "/etc/passwd");
    assert_eq!(join_path(U, "", "b"), "b");
    assert_eq!(join_path(U, "/a", ""), "/a/");
}

#[test]
fn file_name_and_parent() {
    assert_eq!(file_name(U, "/a/b.txt"), Some("b.txt".to_string()));
    assert_eq!(file_name(U, "/a/b/"), Some("b".to_string()));
    assert_eq!(file_name(U, "/a/b/."), Some("b".to_string()));
    assert_eq!(file_name(U, "/a/.."), None);
    assert_eq!(file_name(U, "/"), None);
    assert_eq!(file_name(U, ""), None);
    assert_eq!(parent_path(U, "/a/b"), Some("/a".to_string()));
    assert_eq!(parent_path(U, "/a"), Some("/".to_string()));
    assert_eq!(parent_path(U, "/"), None);
    assert_eq!(parent_path(U, "a"), Some("".to_string()));
    assert_eq!(parent_path(U, "./a"), Some(".".to_string()));
    assert_eq!(parent_path(U, "/a//b/c"), Some("/a//b".to_string()));
    assert_eq!(parent_path(U, "a/./b"), Some("a".to_string()));
    assert_eq!(parent_path(U, "/a/b/./"), Some("/a".to_string()));
    assert_eq!(parent_path(U, "//a"), Some("/".to_string()));
    assert_eq!(parent_path(U, "../x"), Some("..".to_string()));
    assert_eq!(parent_path(U, "."), Some("".to_string()));
    assert!(is_absolute_path(U, "/x"));
    assert!(!is_absolute_path(U, "x/y"));
}
