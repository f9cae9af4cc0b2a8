use orbits::loader::FileLoader;
use orbits::tree::loader::{MemoryLoader, StandardLoader};
use orbits::tree::node::Node;
use orbits::tree::{self, TreeError, TypeFilter};

#[test]
fn basic_add_test() {
    let mut tree = tree::Tree::new(StandardLoader {});
    assert!(tree.insert_path("/mnt/c/Users", "coe_a/Downloads").is_none());
}

#[test]
fn multi_add_test() {
    let mut tree = tree::Tree::new(StandardLoader {});
    assert!(tree.insert_path("/mnt/c/Users", "coe_a/Downloads").is_none());
    assert!(tree
        .insert_file("/mnt/c/Users", "coe_a/Downloads/some_file.txt")
        .is_none());
    assert!(tree.insert_path("/mnt/c/Users", "coe_a/Documents").is_none());
    let (root, local) = tree
        .insert_directory("/mnt/c/Users/something_else", "coe_a/Downloads")
        .unwrap();
    assert!(root == "");
    assert!(local == "coe_a/Downloads");
}

#[test]
fn remove_test() {
    let mut tree = tree::Tree::new(StandardLoader {});
    assert!(tree.insert_path("/mnt/c/Users", "coe_a/Downloads").is_none());
    assert!(tree
        .insert_file("/mnt/c/Users", "coe_a/Downloads/some_file.txt")
        .is_none());
    assert!(tree.insert_path("/mnt/c/Users", "coe_a/Documents").is_none());
    assert!(tree.remove_path("coe_a/Documents").is_some());
    for (node, _) in tree.walk_paths() {
        assert!(node.local_path != "coe_a/Documents");
    }
}

#[test]
fn remove_root_test() {
    let mut tree = tree::Tree::new(StandardLoader {});
    assert!(tree.insert_path("/mnt/c/Users", "coe_a/Downloads").is_none());
    assert!(tree
        .insert_file("/mnt/c/Users", "coe_a/Downloads/some_file.txt")
        .is_none());
    assert!(tree.insert_path("/mnt/c/Users", "coe_a/Documents").is_none());
    assert!(tree
        .insert_directory("/mnt/c/Users/test", "coe_a/Documents/test")
        .is_none());
    assert!(tree.remove_paths_by_root("/mnt/c/Users").len() == 1);
    for (node, _) in tree.walk_paths() {
        assert!(node.root_path != "/mnt/c/Users");
    }
}

#[test]
fn filter_walk_paths_test() {
    let mut tree = tree::Tree::new(StandardLoader {});
    assert!(tree.insert_path("/mnt/c/Users", "coe_a/Downloads").is_none());
    assert!(tree
        .insert_file("/mnt/c/Users", "coe_a/Downloads/some_file.txt")
        .is_none());
    assert!(tree.insert_path("/mnt/c/Users", "coe_a/Documents").is_none());
    assert!(tree
        .insert_directory("/mnt/c/Users/test", "coe_a/Documents/test")
        .is_none());
    assert!(
        tree.filter_walk_paths(&TypeFilter {
            reject_files: true,
            reject_directories: false
        })
        .len()
            == 1
    );
    for (_, entry_type) in tree.walk_paths() {
        assert!(entry_type.is_dir());
    }
}

#[test]
fn purify_test() {
    let mut tree = tree::Tree::new(StandardLoader {});
    assert!(tree.insert_path("/mnt/c/Users", "coe_a/Downloads").is_none());
    assert!(tree
        .insert_file("/mnt/c/Users", "coe_a/Downloads/some_file.txt")
        .is_none());
    assert!(tree.insert_path("/mnt/c/Users", "coe_a/Documents").is_none());
    assert!(tree
        .insert_directory("/mnt/c/Users/test", "coe_a/Documents/test")
        .is_none());
    tree.purify();
    for (node, _) in tree.walk_paths() {
        assert!(node.local_path != "coe_a/Documents/test");
        assert!(node.local_path != "coe_a/Downloads/some_file.txt");
    }
}

#[test]
fn ancestors_created_on_insert() {
    let mut tree = tree::Tree::new(StandardLoader {});
    assert!(tree.insert_file("R", "a/b/c.txt").is_none());
    assert!(tree.contains_path("a"));
    assert!(tree.contains_path("a/b"));
    assert!(tree.contains_path("a/b/c.txt"));
    assert!(!tree.contains_path("a/b/c"));
    // auto-created ancestors are directories with no physical backing
    assert_eq!(tree.get_root_for_path("a").unwrap(), "");
    assert_eq!(tree.get_root_for_path("a/b").unwrap(), "");
    // the empty path names the always-present tree root
    assert!(tree.contains_path(""));
}

#[test]
fn walk_visits_parents_first() {
    let mut tree = tree::Tree::new(StandardLoader {});
    assert!(tree.insert_file("R", "x/y/z.txt").is_none());
    let walked: Vec<String> = tree
        .walk_paths()
        .into_iter()
        .map(|(n, _)| n.local_path)
        .collect();
    assert_eq!(walked, vec!["x".to_string(), "x/y".to_string(), "x/y/z.txt".to_string()]);
}

#[test]
fn insert_overwrite_replaces_subtree() {
    let mut tree = tree::Tree::new(StandardLoader {});
    assert!(tree.insert_directory("", "a").is_none());
    assert!(tree.insert_file("R1", "a/x.txt").is_none());
    // overwriting the directory drops everything under it
    let (old_root, old_local) = tree.insert_file("R2", "a").unwrap();
    assert_eq!(old_root, "");
    assert_eq!(old_local, "a");
    assert!(!tree.contains_path("a/x.txt"));
    assert_eq!(tree.get_root_for_path("a").unwrap(), "R2");
    assert_eq!(tree.walk_paths().len(), 1);
}

#[test]
fn insert_round_trip() {
    let mut tree = tree::Tree::new(StandardLoader {});
    assert!(tree.insert_file("/data/base", "dir/file.bin").is_none());
    assert_eq!(tree.get_root_for_path("dir/file.bin").unwrap(), "/data/base");
    let again = tree.insert_file("/data/other", "dir/file.bin").unwrap();
    assert_eq!(again, ("/data/base".to_string(), "dir/file.bin".to_string()));
    assert_eq!(tree.get_root_for_path("dir/file.bin").unwrap(), "/data/other");
}

#[test]
fn removal_unreaches_descendants() {
    let mut tree = tree::Tree::new(StandardLoader {});
    assert!(tree.insert_file("R", "a/b/c.txt").is_none());
    assert!(tree.insert_file("R", "a/d.txt").is_none());
    let removed = tree.remove_path("a/b").unwrap();
    assert_eq!(removed, ("".to_string(), "a/b".to_string()));
    assert!(!tree.contains_path("a/b"));
    assert!(!tree.contains_path("a/b/c.txt"));
    assert!(tree.contains_path("a"));
    assert!(tree.contains_path("a/d.txt"));
    assert!(tree.remove_path("a/b").is_none());
}

#[test]
fn directory_insert_is_idempotent() {
    let mut tree = tree::Tree::new(StandardLoader {});
    assert!(tree.insert_directory("r1", "shared").is_none());
    let replaced = tree.insert_directory("r2", "shared").unwrap();
    // the directory never records a physical root, so the replaced entry and
    // the new one both carry the empty sentinel
    assert_eq!(replaced, ("".to_string(), "shared".to_string()));
    assert_eq!(tree.get_root_for_path("shared").unwrap(), "");
    assert_eq!(tree.walk_paths().len(), 1);
}

#[test]
fn purify_removes_stale_keeps_backed() {
    let mut loader = MemoryLoader::new();
    loader.add_file("", "a", Vec::new());
    loader.add_file("R", "a/keep.txt", vec![1, 2, 3]);
    let mut tree = tree::Tree::new(loader);
    assert!(tree.insert_file("R", "a/keep.txt").is_none());
    assert!(tree.insert_file("R", "a/gone.txt").is_none());
    tree.purify();
    assert!(tree.contains_path("a"));
    assert!(tree.contains_path("a/keep.txt"));
    assert!(!tree.contains_path("a/gone.txt"));
}

#[test]
fn purify_cascades_through_vanished_directory() {
    let mut loader = MemoryLoader::new();
    // the directory "a" has no backing, so it vanishes and takes its
    // still-backed child with it
    loader.add_file("R", "a/keep.txt", vec![1]);
    let mut tree = tree::Tree::new(loader);
    assert!(tree.insert_file("R", "a/keep.txt").is_none());
    tree.purify();
    assert!(!tree.contains_path("a"));
    assert!(!tree.contains_path("a/keep.txt"));
}

#[test]
fn load_reads_through_stored_root() {
    let mut loader = MemoryLoader::new();
    loader.add_file("R", "f.bin", vec![7, 8, 9]);
    let mut tree = tree::Tree::new(loader);
    assert!(tree.insert_file("R", "f.bin").is_none());
    assert_eq!(tree.load("f.bin").unwrap().unwrap(), vec![7, 8, 9]);
    // an absent path is a soft miss, not an error
    assert_eq!(tree.load("missing.bin").unwrap(), None);
    // a present path whose backing fails is an error
    assert!(tree.insert_file("R", "broken.bin").is_none());
    match tree.load("broken.bin") {
        Err(TreeError::PathDoesNotExist(p)) => assert_eq!(p, "broken.bin"),
        other => panic!("unexpected load outcome: {:?}", other.map(|_| ())),
    }
}

#[test]
fn load_absent_path_skips_loader() {
    // the loader could resolve the pair under the empty root, but an absent
    // path is a soft miss and the loader is not asked
    let mut loader = MemoryLoader::new();
    loader.add_file("", "ghost.bin", vec![1, 2]);
    let tree = tree::Tree::new(loader);
    assert_eq!(tree.load("ghost.bin").unwrap(), None);
}

#[test]
fn query_filesize_reports_loader_size() {
    let mut loader = MemoryLoader::new();
    loader.add_file("R", "f.bin", vec![0, 1, 2, 3]);
    let mut tree = tree::Tree::new(loader);
    assert!(tree.insert_file("R", "f.bin").is_none());
    assert_eq!(tree.query_filesize("f.bin"), Some(4));
    assert_eq!(tree.query_filesize("absent.bin"), None);
}

#[test]
fn get_children_lists_direct_children_only() {
    let mut tree = tree::Tree::new(StandardLoader {});
    assert!(tree.insert_file("R", "a/b/deep.txt").is_none());
    assert!(tree.insert_file("R", "a/c.txt").is_none());
    assert!(tree.insert_directory("", "d").is_none());
    let top = tree.get_children("");
    assert_eq!(top.len(), 2);
    assert!(top.contains(&"a".to_string()));
    assert!(top.contains(&"d".to_string()));
    let under_a = tree.get_children("a");
    assert_eq!(under_a.len(), 2);
    assert!(under_a.contains(&"a/b".to_string()));
    assert!(under_a.contains(&"a/c.txt".to_string()));
    assert!(tree.get_children("missing").is_empty());
}

#[test]
fn filter_reports_root_local_and_reason() {
    let mut tree = tree::Tree::new(StandardLoader {});
    assert!(tree.insert_file("R", "a/b.txt").is_none());
    let rejected = tree.filter_walk_paths(&TypeFilter {
        reject_files: true,
        reject_directories: false,
    });
    assert_eq!(rejected, vec![("R".to_string(), "a/b.txt".to_string(), ())]);
    assert!(tree.contains_path("a"));
    assert!(!tree.contains_path("a/b.txt"));
}

#[test]
fn filter_rejected_directory_swallows_descendants() {
    let mut tree = tree::Tree::new(StandardLoader {});
    assert!(tree.insert_file("R", "a/b/c.txt").is_none());
    let rejected = tree.filter_walk_paths(&TypeFilter {
        reject_files: false,
        reject_directories: true,
    });
    // only the top-level directory is reported; its subtree is gone silently
    assert_eq!(rejected.len(), 1);
    assert_eq!(rejected[0].1, "a");
    assert_eq!(tree.walk_paths().len(), 0);
}

#[test]
fn standard_loader_classifies_by_name() {
    let loader = StandardLoader {};
    assert!(loader.get_path_type("r", "notes.txt").unwrap().is_file());
    assert!(loader.get_path_type("r", "plain").unwrap().is_dir());
    assert!(loader.get_path_type("r", "dir/archive.tar.gz").unwrap().is_file());
    match loader.get_path_type("r", "") {
        Err(TreeError::NoFileName(p)) => assert_eq!(p, ""),
        other => panic!("unexpected classification: {:?}", other),
    }
    assert!(!loader.path_exists("r", "notes.txt"));
    assert_eq!(loader.get_actual_path("r", "notes.txt").unwrap(), "r/notes.txt");
}

#[test]
fn get_path_type_prefers_tree_authority() {
    let mut loader = MemoryLoader::new();
    loader.add_file("R", "a/f.bin", vec![1]);
    let mut tree = tree::Tree::new(loader);
    assert!(tree.insert_file("R", "a/f.bin").is_none());
    // a present entry with an empty stored root is a directory on the
    // tree's own authority
    assert!(tree.get_path_type("a").unwrap().is_dir());
    // a present file is classified by the loader
    assert!(tree.get_path_type("a/f.bin").unwrap().is_file());
    // the empty path names the tree root, a directory
    assert!(tree.get_path_type("").unwrap().is_dir());
    // an absent path is classified through the empty root, which this
    // loader cannot do
    assert!(tree.get_path_type("nope").is_err());
}

#[test]
fn loader_access() {
    let mut tree = tree::Tree::new(MemoryLoader::new());
    tree.loader_mut().add_file("R", "f.bin", vec![5]);
    assert!(tree.loader().path_exists("R", "f.bin"));
    assert!(tree.insert_file("R", "f.bin").is_none());
    assert_eq!(tree.load("f.bin").unwrap().unwrap(), vec![5]);
}

#[test]
fn node_new_derives_key() {
    let node = Node::new("/root/x", "dir/sub/name.ext").unwrap();
    assert_eq!(node.name, "name.ext");
    assert_eq!(node.local_path, "dir/sub/name.ext");
    assert_eq!(node.root_path, "/root/x");
    assert_eq!(node.full_path(), "/root/x/dir/sub/name.ext");
    match Node::new("/root/x", "") {
        Err(TreeError::NoFileName(p)) => assert_eq!(p, ""),
        other => panic!("unexpected node outcome: {:?}", other.map(|_| ())),
    }
    assert!(Node::new("/root/x", "a//b").is_err());
}

#[test]
fn node_change_root_keeps_place() {
    let mut node = Node::new("old", "a/b").unwrap();
    assert!(node.change_root("new").is_ok());
    assert_eq!(node.root_path, "new");
    assert_eq!(node.local_path, "a/b");
    assert_eq!(node.name, "b");
    assert_eq!(node.full_path(), "new/a/b");
}

#[test]
fn full_path_with_empty_root_is_local() {
    let node = Node::new("", "a/b").unwrap();
    assert_eq!(node.full_path(), "a/b");
}
