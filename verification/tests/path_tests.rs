use orbits::paths::{base_name_of, check_path, is_ancestor_path, join_paths, parent_of};

#[test]
fn path_validity() {
    assert!(check_path("a"));
    assert!(check_path("a/b/c.txt"));
    assert!(!check_path(""));
    assert!(!check_path("/a"));
    assert!(!check_path("a/"));
    assert!(!check_path("a//b"));
}

#[test]
fn path_components() {
    assert_eq!(base_name_of("a/b/c.txt"), "c.txt");
    assert_eq!(base_name_of("solo"), "solo");
    assert_eq!(parent_of("a/b/c.txt"), "a/b");
    assert_eq!(parent_of("solo"), "");
}

#[test]
fn path_join() {
    assert_eq!(join_paths("/root", "a/b"), "/root/a/b");
    assert_eq!(join_paths("", "a/b"), "a/b");
}

#[test]
fn path_ancestry() {
    assert!(is_ancestor_path("a", "a/b"));
    assert!(is_ancestor_path("a/b", "a/b/c.txt"));
    assert!(!is_ancestor_path("a/b", "a/b"));
    assert!(!is_ancestor_path("a", "ab/c"));
    assert!(!is_ancestor_path("a/b/c", "a/b"));
}
