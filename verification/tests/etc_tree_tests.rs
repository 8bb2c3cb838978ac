use etc_tree::tree::EtcTree;
use etc_tree::EtcFileStatus;

fn p(parts: &[&str]) -> Vec<String> {
    parts.iter().map(|s| s.to_string()).collect()
}

fn sorted_names(tree: &EtcTree) -> Vec<String> {
    let mut names = tree.child_names();
    names.sort();
    names
}

#[test]
fn etc_tree_get_status() {
    let tree1 = EtcTree::root_node()
        .register_managed_entry(&p(&["foo", "bar"]))
        .register_managed_entry(&p(&["foo2"]))
        .register_managed_entry(&p(&["foo2", "baz"]))
        .register_managed_entry(&p(&["foo2", "baz", "bar"]))
        .register_managed_entry(&p(&["foo2", "baz2"]))
        .register_managed_entry(&p(&["foo2", "baz2", "bar"]))
        .register_managed_entry(&p(&["foo3", "baz2", "bar"]))
        .register_managed_entry(&p(&["foo4"]))
        .register_managed_entry(&p(&["foo4", "baz"]))
        .register_managed_entry(&p(&["foo4", "baz", "bar"]))
        .register_managed_entry(&p(&["foo5"]))
        .register_managed_entry(&p(&["foo5", "baz"]))
        .register_managed_entry(&p(&["foo5", "baz2"]))
        .register_managed_entry(&p(&["foo5", "baz", "bar"]));

    assert!(tree1.is_managed(&p(&["foo5", "baz", "bar"])));
    assert!(!tree1.is_managed(&p(&["foo"])));
    assert!(!tree1.is_managed(&p(&["foo", "nonexistent"])));
}

#[test]
fn etc_tree_register() {
    let tree = EtcTree::root_node()
        .register_managed_entry(&p(&["foo", "bar"]))
        .register_managed_entry(&p(&["foo2", "baz", "bar"]))
        .register_managed_entry(&p(&["foo2", "baz2", "bar"]));
    assert_eq!(sorted_names(&tree), p(&["foo", "foo2"]));
    assert_eq!(
        *tree
            .child(&"foo2".to_string())
            .unwrap()
            .child(&"baz".to_string())
            .unwrap()
            .child(&"bar".to_string())
            .unwrap()
            .node_path(),
        p(&["foo2", "baz", "bar"])
    );
}

#[test]
fn etc_tree_deactivate() {
    let tree1 = EtcTree::root_node()
        .register_managed_entry(&p(&["foo", "bar"]))
        .register_managed_entry(&p(&["foo2"]))
        .register_managed_entry(&p(&["foo2", "baz"]))
        .register_managed_entry(&p(&["foo2", "baz", "bar"]))
        .register_managed_entry(&p(&["foo2", "baz2"]))
        .register_managed_entry(&p(&["foo2", "baz2", "bar"]))
        .register_managed_entry(&p(&["foo3", "baz2", "bar"]))
        .register_managed_entry(&p(&["foo4"]))
        .register_managed_entry(&p(&["foo4", "baz"]))
        .register_managed_entry(&p(&["foo4", "baz", "bar"]))
        .register_managed_entry(&p(&["foo5"]))
        .register_managed_entry(&p(&["foo5", "baz"]))
        .register_managed_entry(&p(&["foo5", "baz2"]))
        .register_managed_entry(&p(&["foo5", "baz", "bar"]));
    let tree2 = tree1
        .clone()
        .deactivate_managed_entry(&p(&["foo4"]), &|path: &Vec<String>,
                                                   _status: &EtcFileStatus| {
            println!("Deactivating: {}", path.join("/"));
            false
        })
        .deactivate_managed_entry(&p(&["foo2"]), &|path: &Vec<String>,
                                                   _status: &EtcFileStatus| {
            println!("Deactivating: {}", path.join("/"));
            true
        })
        .deactivate_managed_entry(&p(&["foo3"]), &|path: &Vec<String>,
                                                   _status: &EtcFileStatus| {
            println!("Deactivating: {}", path.join("/"));
            true
        })
        .deactivate_managed_entry(&p(&["foo5", "baz"]), &|path: &Vec<String>,
                                                          _status: &EtcFileStatus| {
            println!("Deactivating: {}", path.join("/"));
            true
        });
    assert_eq!(sorted_names(&tree2), p(&["foo", "foo4", "foo5"]));
    assert!(tree2
        .child(&"foo5".to_string())
        .unwrap()
        .child(&"baz2".to_string())
        .unwrap()
        .child_names()
        .is_empty());
    assert_eq!(
        sorted_names(&tree1),
        p(&["foo", "foo2", "foo3", "foo4", "foo5"])
    );
}

#[test]
fn etc_tree_update_state() {
    let tree1 = EtcTree::root_node()
        .register_managed_entry(&p(&["foo", "bar"]))
        .register_managed_entry(&p(&["foo2"]))
        .register_managed_entry(&p(&["foo2", "baz"]))
        .register_managed_entry(&p(&["foo2", "baz", "bar"]))
        .register_managed_entry(&p(&["foo2", "baz2"]))
        .register_managed_entry(&p(&["foo2", "baz2", "bar"]))
        .register_managed_entry(&p(&["foo3", "baz2", "bar"]));
    let tree2 = EtcTree::root_node()
        .register_managed_entry(&p(&["foo", "bar"]))
        .register_managed_entry(&p(&["foo3", "bar"]))
        .register_managed_entry(&p(&["foo4"]))
        .register_managed_entry(&p(&["foo4", "bar"]))
        .register_managed_entry(&p(&["foo5"]))
        .register_managed_entry(&p(&["foo5", "bar"]));
    let new_tree = tree1.update_state(tree2, &|path: &Vec<String>, _status: &EtcFileStatus| {
        println!("Deactivating path: {}", path.join("/"));
        *path != p(&["foo5", "bar"])
    });
    assert_eq!(
        sorted_names(&new_tree.unwrap()),
        p(&["foo", "foo2", "foo3", "foo5"])
    );
}

#[test]
fn merge_is_or_over_managed() {
    let managed = EtcFileStatus::Managed;
    let unmanaged = EtcFileStatus::Unmanaged;
    assert_eq!(unmanaged.merge(&unmanaged), EtcFileStatus::Unmanaged);
    assert_eq!(managed.merge(&unmanaged), EtcFileStatus::Managed);
    assert_eq!(unmanaged.merge(&managed), EtcFileStatus::Managed);
    assert_eq!(managed.merge(&managed), EtcFileStatus::Managed);
}

#[test]
fn fresh_tree_manages_nothing() {
    let tree = EtcTree::root_node();
    assert!(!tree.is_managed(&p(&["foo"])));
    assert!(!tree.is_managed(&p(&["a", "b", "c"])));
    assert!(!tree.is_managed(&p(&[])));
    let tree = EtcTree::default();
    assert!(!tree.is_managed(&p(&["etc"])));
    assert!(tree.node_path().is_empty());
}

#[test]
fn register_twice_is_idempotent() {
    let once = EtcTree::root_node().register_managed_entry(&p(&["a", "b"]));
    let twice = EtcTree::root_node()
        .register_managed_entry(&p(&["a", "b"]))
        .register_managed_entry(&p(&["a", "b"]));
    assert!(once.is_managed(&p(&["a", "b"])));
    assert!(twice.is_managed(&p(&["a", "b"])));
    assert_eq!(sorted_names(&once), sorted_names(&twice));
    assert_eq!(
        sorted_names(once.child(&"a".to_string()).unwrap()),
        sorted_names(twice.child(&"a".to_string()).unwrap())
    );
}

#[test]
fn intermediate_nodes_stay_unmanaged() {
    let tree = EtcTree::root_node().register_managed_entry(&p(&["a", "b"]));
    assert!(!tree.is_managed(&p(&["a"])));
    assert!(tree.is_managed(&p(&["a", "b"])));
    assert_eq!(tree.get_status(&p(&["a"])), EtcFileStatus::Unmanaged);
    assert_eq!(tree.get_status(&p(&["a", "b"])), EtcFileStatus::Managed);
}

#[test]
fn deactivate_with_granted_removal_empties_the_tree() {
    let tree = EtcTree::root_node()
        .register_managed_entry(&p(&["a", "b"]))
        .register_managed_entry(&p(&["c"]));
    let gone = tree.deactivate(&|_path: &Vec<String>, _status: &EtcFileStatus| true);
    assert!(gone.is_none());
}

#[test]
fn deactivate_removes_empty_unmanaged_ancestors_but_keeps_busy_ones() {
    let tree = EtcTree::root_node()
        .register_managed_entry(&p(&["a", "b"]))
        .register_managed_entry(&p(&["a", "c", "d"]));
    let after = tree.deactivate_managed_entry(&p(&["a", "c"]), &|_p: &Vec<String>,
                                                                 _s: &EtcFileStatus| {
        true
    });
    assert!(!after.is_managed(&p(&["a", "c", "d"])));
    assert!(after.is_managed(&p(&["a", "b"])));
    assert!(after
        .child(&"a".to_string())
        .unwrap()
        .child(&"c".to_string())
        .is_none());
}

#[test]
fn blocked_deletion_keeps_exactly_that_node() {
    let tree = EtcTree::root_node()
        .register_managed_entry(&p(&["a", "b"]))
        .register_managed_entry(&p(&["a", "c"]));
    let kept = tree
        .deactivate(&|path: &Vec<String>, _status: &EtcFileStatus| *path != p(&["a", "b"]))
        .unwrap();
    assert!(kept.is_managed(&p(&["a", "b"])));
    assert!(!kept.is_managed(&p(&["a", "c"])));
    assert!(kept.child(&"a".to_string()).unwrap().child(&"c".to_string()).is_none());
}

#[test]
fn update_state_keeps_blocked_leftovers_tracked() {
    let new_gen = EtcTree::root_node().register_managed_entry(&p(&["x"]));
    let old_gen = EtcTree::root_node()
        .register_managed_entry(&p(&["y"]))
        .register_managed_entry(&p(&["z"]));
    let merged = new_gen
        .update_state(old_gen, &|path: &Vec<String>, _s: &EtcFileStatus| {
            *path != p(&["y"])
        })
        .unwrap();
    assert!(merged.is_managed(&p(&["x"])));
    assert!(merged.is_managed(&p(&["y"])));
    assert!(!merged.is_managed(&p(&["z"])));
}

#[test]
fn update_state_merges_statuses_of_retained_children() {
    let new_gen = EtcTree::root_node().register_managed_entry(&p(&["a", "b"]));
    let old_gen = EtcTree::root_node().register_managed_entry(&p(&["a"]));
    let merged = new_gen
        .update_state(old_gen, &|_p: &Vec<String>, _s: &EtcFileStatus| true)
        .unwrap();
    assert!(merged.is_managed(&p(&["a"])));
    assert!(merged.is_managed(&p(&["a", "b"])));
}

#[test]
fn generation_built_from_declared_paths() {
    let declared = vec![p(&["a"]), p(&["a", "b"]), p(&["c", "d"])];
    let tree = EtcTree::from_managed_paths(&declared);
    assert!(tree.is_managed(&p(&["a"])));
    assert!(tree.is_managed(&p(&["a", "b"])));
    assert!(tree.is_managed(&p(&["c", "d"])));
    assert!(!tree.is_managed(&p(&["c"])));
    assert!(!tree.is_managed(&p(&["d"])));
}
