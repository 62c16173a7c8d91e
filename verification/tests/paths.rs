use rs_dotfiles::paths::{join, path_eq, path_starts_with, string_order};

#[test]
fn join_follows_path_join() {
    assert_eq!(join("/repo", "vimrc"), "/repo/vimrc");
    assert_eq!(join("/repo/", "vimrc"), "/repo/vimrc");
    assert_eq!(join("/repo", "/etc/x"), "/etc/x");
    assert_eq!(join("", "x"), "x");
    assert_eq!(join("/repo", ""), "/repo/");
}

#[test]
fn starts_with_by_components() {
    assert!(path_starts_with("/a/b/c", "/a/b"));
    assert!(path_starts_with("/a/b", "/a/b/"));
    assert!(path_starts_with("/a//b/./c", "/a/b"));
    assert!(!path_starts_with("/a/bc", "/a/b"));
    assert!(!path_starts_with("a/b", "/a"));
    assert!(path_starts_with("./a", "."));
    assert!(!path_starts_with("a", "."));
    assert!(path_starts_with("/x", ""));
}

#[test]
fn equal_paths_by_components() {
    assert!(path_eq("/a/b/", "/a//b"));
    assert!(path_eq("a/./b", "a/b"));
    assert!(!path_eq("./a", "a"));
    assert!(!path_eq("/a/../b", "/b"));
}

#[test]
fn strings_order_by_code_point() {
    assert_eq!(string_order("a", "b"), -1);
    assert_eq!(string_order("b", "a"), 1);
    assert_eq!(string_order("ab", "ab"), 0);
    assert_eq!(string_order("ab", "abc"), -1);
    assert_eq!(string_order("B", "a"), -1);
}

#[test]
fn joined_path_starts_with_its_base() {
    for base in ["/repo", "/repo/", ".", "./dots", "dots", "/"] {
        for rel in ["vimrc", "./x", "a/../b", ""] {
            assert!(path_starts_with(&join(base, rel), base), "{} {}", base, rel);
        }
    }
}
