use orbits::orbit::{ConflictKind, DiscoverSystem, ExactPredicate, LaunchPad};
use orbits::tree::loader::{MemoryLoader, StandardLoader};
use orbits::tree::{Tree, TreeError};
use orbits::{ConflictHandler, FileEntryType};

fn tree_with_occupant() -> Tree<StandardLoader> {
    let mut tree = Tree::new(StandardLoader {});
    assert!(tree.insert_file("R1", "a/b.txt").is_none());
    tree
}

#[test]
fn policy_strict_aborts_without_mutation() {
    let mut sys = DiscoverSystem::from_tree(tree_with_occupant(), ConflictHandler::Strict);
    match sys.handle_conflict("R2", "a/b.txt") {
        Err(TreeError::OwnedPath(incoming, occupant)) => {
            assert_eq!(incoming, "R2/a/b.txt");
            assert_eq!(occupant, "R1/a/b.txt");
        },
        other => panic!("unexpected strict outcome: {:?}", other.map(|_| ())),
    }
    assert_eq!(sys.tree.get_root_for_path("a/b.txt").unwrap(), "R1");
}

#[test]
fn policy_first_keeps_occupant() {
    let mut sys = DiscoverSystem::from_tree(tree_with_occupant(), ConflictHandler::First);
    match sys.handle_conflict("R2", "a/b.txt") {
        Ok(Some(ConflictKind::StandardConflict(incoming, kept))) => {
            assert_eq!(incoming, "R2/a/b.txt");
            assert_eq!(kept, "R1/a/b.txt");
        },
        other => panic!("unexpected first outcome: {:?}", other.map(|_| ())),
    }
    assert_eq!(sys.tree.get_root_for_path("a/b.txt").unwrap(), "R1");
}

#[test]
fn policy_noroot_evicts_occupant_root() {
    let mut tree = tree_with_occupant();
    assert!(tree.insert_file("R1", "other/file.txt").is_none());
    assert!(tree.insert_file("R3", "third.txt").is_none());
    let mut sys = DiscoverSystem::from_tree(tree, ConflictHandler::NoRoot);
    match sys.handle_conflict("R2", "a/b.txt") {
        Ok(Some(ConflictKind::RootConflict(evicted, contested))) => {
            assert_eq!(evicted, "R1");
            assert_eq!(contested, "a/b.txt");
        },
        other => panic!("unexpected noroot outcome: {:?}", other.map(|_| ())),
    }
    for (node, _) in sys.tree.walk_paths() {
        assert!(node.root_path != "R1");
    }
    assert!(sys.tree.contains_path("third.txt"));
}

#[test]
fn policy_last_overwrites_during_discovery() {
    let mut sys = DiscoverSystem::from_tree(tree_with_occupant(), ConflictHandler::Last);
    let entries = vec![("a/b.txt".to_string(), FileEntryType::File)];
    let conflicts = sys.discover_entries("R2", &entries).unwrap();
    assert!(conflicts.is_empty());
    assert_eq!(sys.tree.get_root_for_path("a/b.txt").unwrap(), "R2");
}

#[test]
fn discovery_inserts_new_entries() {
    let mut sys = DiscoverSystem::new(StandardLoader {}, ConflictHandler::Strict);
    let entries = vec![
        ("docs".to_string(), FileEntryType::Directory),
        ("docs/readme.txt".to_string(), FileEntryType::File),
    ];
    let conflicts = sys.discover_entries("R", &entries).unwrap();
    assert!(conflicts.is_empty());
    assert!(sys.tree.contains_path("docs"));
    assert_eq!(sys.tree.get_root_for_path("docs/readme.txt").unwrap(), "R");
}

#[test]
fn discovery_directory_insert_bypasses_policy() {
    // a directory that is already present is skipped, never treated as a
    // collision, even under the strict policy
    let mut sys = DiscoverSystem::new(StandardLoader {}, ConflictHandler::Strict);
    let first = vec![("docs".to_string(), FileEntryType::Directory)];
    assert!(sys.discover_entries("R1", &first).unwrap().is_empty());
    let second = vec![("docs".to_string(), FileEntryType::Directory)];
    assert!(sys.discover_entries("R2", &second).unwrap().is_empty());
    assert_eq!(sys.tree.get_root_for_path("docs").unwrap(), "");
}

#[test]
fn discovery_strict_aborts_run() {
    let mut sys = DiscoverSystem::from_tree(tree_with_occupant(), ConflictHandler::Strict);
    let entries = vec![
        ("a/b.txt".to_string(), FileEntryType::File),
        ("later.txt".to_string(), FileEntryType::File),
    ];
    match sys.discover_entries("R2", &entries) {
        Err(TreeError::OwnedPath(incoming, occupant)) => {
            assert_eq!(incoming, "R2/a/b.txt");
            assert_eq!(occupant, "R1/a/b.txt");
        },
        other => panic!("unexpected run outcome: {:?}", other.map(|_| ())),
    }
    // the run aborted before the later entry
    assert!(!sys.tree.contains_path("later.txt"));
}

#[test]
fn discovery_noroot_stops_run_with_single_conflict() {
    let mut tree = tree_with_occupant();
    assert!(tree.insert_file("R2", "c/d.txt").is_none());
    let mut sys = DiscoverSystem::from_tree(tree, ConflictHandler::NoRoot);
    let entries = vec![
        // first a standard-free insert, then the collision, then a casualty
        ("fresh.txt".to_string(), FileEntryType::File),
        ("c/d.txt".to_string(), FileEntryType::File),
        ("never.txt".to_string(), FileEntryType::File),
    ];
    let conflicts = sys.discover_entries("R9", &entries).unwrap();
    assert_eq!(conflicts.len(), 1);
    match &conflicts[0] {
        ConflictKind::RootConflict(evicted, contested) => {
            assert_eq!(evicted, "R2");
            assert_eq!(contested, "c/d.txt");
        },
        other => panic!("unexpected conflict kind: {:?}", other),
    }
    assert!(!sys.tree.contains_path("c/d.txt"));
    assert!(!sys.tree.contains_path("never.txt"));
}

#[test]
fn discovery_first_gathers_conflicts_and_goes_on() {
    let mut sys = DiscoverSystem::from_tree(tree_with_occupant(), ConflictHandler::First);
    let entries = vec![
        ("a/b.txt".to_string(), FileEntryType::File),
        ("after.txt".to_string(), FileEntryType::File),
    ];
    let conflicts = sys.discover_entries("R2", &entries).unwrap();
    assert_eq!(conflicts.len(), 1);
    assert_eq!(sys.tree.get_root_for_path("a/b.txt").unwrap(), "R1");
    assert!(sys.tree.contains_path("after.txt"));
}

#[test]
fn discovery_ignores_and_collects() {
    let sys = DiscoverSystem::new(StandardLoader {}, ConflictHandler::Strict);
    let sys = sys.ignoring(ExactPredicate { path: "skip.txt".to_string() });
    let mut sys = sys.collecting(ExactPredicate { path: "notes.txt".to_string() });
    let entries = vec![
        ("skip.txt".to_string(), FileEntryType::File),
        ("notes.txt".to_string(), FileEntryType::File),
        ("kept.txt".to_string(), FileEntryType::File),
    ];
    let conflicts = sys.discover_entries("R", &entries).unwrap();
    assert!(conflicts.is_empty());
    assert!(!sys.tree.contains_path("skip.txt"));
    assert!(!sys.tree.contains_path("notes.txt"));
    assert!(sys.tree.contains_path("kept.txt"));
    assert_eq!(sys.collected, vec![("R".to_string(), "notes.txt".to_string())]);
}

#[test]
fn collect_takes_precedence_over_ignore() {
    let sys = DiscoverSystem::new(StandardLoader {}, ConflictHandler::Strict);
    let sys = sys.ignoring(ExactPredicate { path: "both.txt".to_string() });
    let mut sys = sys.collecting(ExactPredicate { path: "both.txt".to_string() });
    let entries = vec![("both.txt".to_string(), FileEntryType::File)];
    let conflicts = sys.discover_entries("R", &entries).unwrap();
    assert!(conflicts.is_empty());
    // a path matched by both predicates is collected, not ignored
    assert_eq!(sys.collected, vec![("R".to_string(), "both.txt".to_string())]);
    assert!(!sys.tree.contains_path("both.txt"));
}

#[test]
fn listed_roots_inner_stop_is_local() {
    let mut tree = Tree::new(StandardLoader {});
    assert!(tree.insert_file("R1", "a.txt").is_none());
    let mut sys = DiscoverSystem::from_tree(tree, ConflictHandler::NoRoot);
    let runs = vec![
        ("R8".to_string(), vec![("a.txt".to_string(), FileEntryType::File)]),
        ("R9".to_string(), vec![("b.txt".to_string(), FileEntryType::File)]),
    ];
    let conflicts = sys.discover_listed_roots(&runs).unwrap();
    // the first run stopped on a root conflict; the second still ran
    assert_eq!(
        conflicts,
        vec![ConflictKind::RootConflict("R1".to_string(), "a.txt".to_string())]
    );
    assert!(!sys.tree.contains_path("a.txt"));
    assert!(sys.tree.contains_path("b.txt"));
}

#[test]
fn listed_roots_strict_aborts_all() {
    let mut tree = Tree::new(StandardLoader {});
    assert!(tree.insert_file("R1", "a.txt").is_none());
    let mut sys = DiscoverSystem::from_tree(tree, ConflictHandler::Strict);
    let runs = vec![
        ("R8".to_string(), vec![("a.txt".to_string(), FileEntryType::File)]),
        ("R9".to_string(), vec![("b.txt".to_string(), FileEntryType::File)]),
    ];
    match sys.discover_listed_roots(&runs) {
        Err(TreeError::OwnedPath(incoming, occupant)) => {
            assert_eq!(incoming, "R8/a.txt");
            assert_eq!(occupant, "R1/a.txt");
        },
        other => panic!("unexpected runs outcome: {:?}", other),
    }
    // the abort ended the whole call before the second run
    assert!(!sys.tree.contains_path("b.txt"));
}

#[test]
fn overlay_miss_does_not_shadow_lower_layers() {
    // the virtual tree does not claim the path, so its loader is never
    // consulted, even though it could resolve the pair under the empty root
    let mut virt_loader = MemoryLoader::new();
    virt_loader.add_file("", "cfg.ini", vec![9u8; 5]);
    let virt = DiscoverSystem::new(virt_loader, ConflictHandler::Last);
    let mut patch_loader = MemoryLoader::new();
    patch_loader.add_file("patch_root", "cfg.ini", vec![2u8; 20]);
    let mut patch_tree = Tree::new(patch_loader);
    assert!(patch_tree.insert_file("patch_root", "cfg.ini").is_none());
    let patch = DiscoverSystem::from_tree(patch_tree, ConflictHandler::Last);
    let orbit = LaunchPad::new(patch, virt).launch(MemoryLoader::new());
    assert_eq!(orbit.load("cfg.ini").unwrap(), vec![2u8; 20]);
}

#[test]
fn orbit_layer_priority() {
    // physical holds cfg.ini with 10 bytes, patch holds it with 20 bytes,
    // virtual does not hold it: the patch layer answers
    let mut patch_loader = MemoryLoader::new();
    patch_loader.add_file("patch_root", "cfg.ini", vec![2u8; 20]);
    let mut patch_tree = Tree::new(patch_loader);
    assert!(patch_tree.insert_file("patch_root", "cfg.ini").is_none());
    let patch = DiscoverSystem::from_tree(patch_tree, ConflictHandler::Last);
    let virt = DiscoverSystem::new(MemoryLoader::new(), ConflictHandler::Last);

    let mut physical_loader = MemoryLoader::new();
    physical_loader.add_file("", "cfg.ini", vec![1u8; 10]);
    let orbit = LaunchPad::new(patch, virt).launch(physical_loader);

    assert_eq!(orbit.load("cfg.ini").unwrap(), vec![2u8; 20]);
    assert_eq!(orbit.query_max_filesize("cfg.ini"), Some(20));
    assert_eq!(orbit.query_max_layered_filesize("cfg.ini"), Some(20));
    assert_eq!(orbit.patch_filesize("cfg.ini"), Some(20));
    assert_eq!(orbit.virtual_filesize("cfg.ini"), None);
}

#[test]
fn orbit_virtual_layer_wins() {
    let mut virt_loader = MemoryLoader::new();
    virt_loader.add_file("virt_root", "cfg.ini", vec![9u8; 5]);
    let mut virt_tree = Tree::new(virt_loader);
    assert!(virt_tree.insert_file("virt_root", "cfg.ini").is_none());
    let virt = DiscoverSystem::from_tree(virt_tree, ConflictHandler::Last);

    let mut patch_loader = MemoryLoader::new();
    patch_loader.add_file("patch_root", "cfg.ini", vec![2u8; 20]);
    let mut patch_tree = Tree::new(patch_loader);
    assert!(patch_tree.insert_file("patch_root", "cfg.ini").is_none());
    let patch = DiscoverSystem::from_tree(patch_tree, ConflictHandler::Last);

    let orbit = LaunchPad::new(patch, virt).launch(MemoryLoader::new());
    assert_eq!(orbit.load("cfg.ini").unwrap(), vec![9u8; 5]);
}

#[test]
fn orbit_falls_back_to_physical() {
    let patch = DiscoverSystem::new(MemoryLoader::new(), ConflictHandler::Last);
    let virt = DiscoverSystem::new(MemoryLoader::new(), ConflictHandler::Last);
    let mut physical_loader = MemoryLoader::new();
    physical_loader.add_file("", "base.bin", vec![4, 5]);
    let orbit = LaunchPad::new(patch, virt).launch(physical_loader);
    assert_eq!(orbit.load("base.bin").unwrap(), vec![4, 5]);
    assert_eq!(orbit.physical_filesize("base.bin"), Some(2));
}

#[test]
fn orbit_insert_virtual_and_walk() {
    let patch = DiscoverSystem::new(MemoryLoader::new(), ConflictHandler::Last);
    let virt = DiscoverSystem::new(MemoryLoader::new(), ConflictHandler::Last);
    let mut orbit = LaunchPad::new(patch, virt).launch(MemoryLoader::new());
    assert!(orbit.insert_virtual_file("V", "synth/data.bin").is_none());
    assert!(orbit.insert_virtual_directory("", "synth/empty").is_none());
    let virt_paths: Vec<String> = orbit
        .walk_virtual()
        .into_iter()
        .map(|(n, _)| n.local_path)
        .collect();
    assert!(virt_paths.contains(&"synth".to_string()));
    assert!(virt_paths.contains(&"synth/data.bin".to_string()));
    assert!(virt_paths.contains(&"synth/empty".to_string()));
    assert!(orbit.walk_patch().is_empty());
}

#[test]
fn orbit_children_union_without_duplicates() {
    let mut patch_tree = Tree::new(MemoryLoader::new());
    assert!(patch_tree.insert_file("P", "cfg/shared.txt").is_none());
    assert!(patch_tree.insert_file("P", "cfg/only_patch.txt").is_none());
    let patch = DiscoverSystem::from_tree(patch_tree, ConflictHandler::Last);
    let mut virt_tree = Tree::new(MemoryLoader::new());
    assert!(virt_tree.insert_file("V", "cfg/shared.txt").is_none());
    assert!(virt_tree.insert_file("V", "cfg/only_virtual.txt").is_none());
    let virt = DiscoverSystem::from_tree(virt_tree, ConflictHandler::Last);
    let orbit = LaunchPad::new(patch, virt).launch(MemoryLoader::new());
    let children = orbit.get_children("cfg");
    assert_eq!(children.len(), 3);
    assert!(children.contains(&"cfg/shared.txt".to_string()));
    assert!(children.contains(&"cfg/only_virtual.txt".to_string()));
    assert!(children.contains(&"cfg/only_patch.txt".to_string()));
}

#[test]
fn orbit_query_actual_path_prefers_overlays() {
    let mut patch_tree = Tree::new(MemoryLoader::new());
    assert!(patch_tree.insert_file("/patch", "cfg.ini").is_none());
    let patch = DiscoverSystem::from_tree(patch_tree, ConflictHandler::Last);
    let virt = DiscoverSystem::new(MemoryLoader::new(), ConflictHandler::Last);
    let orbit = LaunchPad::new(patch, virt).launch(MemoryLoader::new());
    assert_eq!(orbit.query_actual_path("cfg.ini").unwrap(), "/patch/cfg.ini");
    assert_eq!(orbit.query_actual_layered_path("cfg.ini").unwrap(), "/patch/cfg.ini");
}
