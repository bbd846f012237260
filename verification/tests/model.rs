use rcdu::model::{Excluded, NodeKind, Tree};
use rcdu::scan::{Batch, NewNode};

fn dir(name: &str, id: u64) -> NewNode {
    NewNode {
        name: name.into(),
        kind: NodeKind::Dir,
        apparent: 100,
        disk: 100,
        dev: 1,
        ino: id,
        hlink: false,
        shared: false,
        excluded: Excluded::No,
        read_error: false,
        dir_id: Some(id),
    }
}

fn file(name: &str, apparent: u64, disk: u64) -> NewNode {
    NewNode { kind: NodeKind::File, apparent, disk, dir_id: None, ..dir(name, 7) }
}

fn batch(parent_id: u64, nodes: Vec<NewNode>) -> Batch {
    Batch { parent_id, nodes, error: None }
}

/// A directory is not deletable until its entire subtree has been scanned.
#[test]
fn delete_gate_tracks_unscanned_subtree() {
    let mut t = Tree::new("/r".into(), 100, 100, 1, 1);
    // Root not scanned yet → incomplete.
    assert!(!t.subtree_complete(t.root));

    // Apply root's batch: it declares one subdir `a` (id 1), still unscanned.
    t.apply(batch(0, vec![dir("a", 1)]));
    let a = t.nodes[t.root].children[0];
    assert!(!t.subtree_complete(t.root), "root has an unscanned child dir");
    assert!(!t.subtree_complete(a), "a itself not scanned yet");

    // `a` declares a nested subdir `b` (id 2): still incomplete deeper.
    t.apply(batch(1, vec![dir("b", 2)]));
    assert!(!t.subtree_complete(a), "a has an unscanned child b");

    // `b` is empty and now scanned → everything is complete.
    t.apply(batch(2, vec![]));
    assert!(t.subtree_complete(t.nodes[a].children[0]), "b complete");
    assert!(t.subtree_complete(a), "a complete");
    assert!(t.subtree_complete(t.root), "root complete");
}

/// The same tree, whatever the order in which its directories were read.
#[test]
fn early_batches_wait_for_their_directory() {
    let batches = || {
        vec![
            batch(0, vec![dir("a", 1), file("f", 10, 20)]),
            batch(1, vec![dir("b", 2)]),
            batch(2, vec![file("g", 5, 6)]),
        ]
    };
    let mut in_order = Tree::new("/r".into(), 1, 2, 1, 1);
    for b in batches() {
        in_order.apply(b);
    }
    let mut reversed = Tree::new("/r".into(), 1, 2, 1, 1);
    for b in batches().into_iter().rev() {
        assert!(reversed.nodes.len() == 1 && !reversed.subtree_complete(0));
        reversed.apply(b);
    }
    assert!(reversed.orphans_is_empty());
    for t in [&in_order, &reversed] {
        assert_eq!(t.nodes.len(), 5);
        assert_eq!(t.nodes[0].apparent, 1 + 100 + 10 + 100 + 5);
        assert_eq!(t.nodes[0].disk, 2 + 100 + 20 + 100 + 6);
        assert_eq!((t.total_dirs, t.total_files), (3, 2));
        assert_eq!(t.own_apparent(0), 1);
        assert_eq!(t.own_disk(0), 2);
        assert!(t.subtree_complete(0));
    }
    assert_eq!(in_order.path_of(4), "/r/a/b/g");
}

#[test]
fn shared_and_excluded_entries_do_not_count() {
    let mut t = Tree::new("/r".into(), 0, 0, 1, 1);
    let mut dup = file("dup", 1000, 1000);
    dup.shared = true;
    let mut out = file("out", 1000, 1000);
    out.excluded = Excluded::Pattern;
    t.apply(batch(0, vec![dup, out, file("in", 3, 4)]));
    assert_eq!((t.nodes[0].apparent, t.nodes[0].disk), (3, 4));
    assert_eq!(t.nodes.iter().filter(|n| n.counts()).count(), 2);
}

#[test]
fn unreadable_directories_are_marked() {
    let mut t = Tree::new("/r".into(), 0, 0, 1, 1);
    t.apply(Batch { parent_id: 0, nodes: vec![], error: Some("denied".to_string()) });
    assert!(t.nodes[0].read_error && t.nodes[0].scanned);
    assert!(t.subtree_complete(0));
}

#[test]
fn batches_without_room_are_refused() {
    let mut t = Tree::new("/r".into(), 5, 5, 1, 1);
    assert!(!t.try_apply(batch(0, vec![file("f", u64::MAX, 1)])));
    assert_eq!(t.nodes[0].apparent, 5);
    assert!(t.try_apply(batch(0, vec![file("f", u64::MAX - 5, 1)])));
    assert_eq!(t.nodes[0].apparent, u64::MAX);
}

#[test]
fn deleting_takes_everything_below_out_of_the_totals() {
    let mut t = Tree::new("/r".into(), 1, 1, 1, 1);
    t.apply(batch(0, vec![dir("a", 1), file("f", 10, 10)]));
    t.apply(batch(1, vec![dir("b", 2), file("g", 20, 20)]));
    t.apply(batch(2, vec![file("h", 30, 30)]));
    assert_eq!(t.nodes[0].apparent, 1 + 100 + 10 + 100 + 20 + 30);
    let a = t.nodes[0].children[0];
    assert_eq!(t.delete_subtree(a), (2, 2));
    assert_eq!(t.nodes[0].apparent, 11);
    assert_eq!(t.nodes[0].children.len(), 1);
    assert_eq!((t.total_dirs, t.total_files), (1, 1));
}

#[test]
fn refreshing_keeps_the_totals_above() {
    let mut t = Tree::new("/r".into(), 1, 1, 1, 1);
    t.apply(batch(0, vec![dir("a", 1), file("f", 10, 10)]));
    t.apply(batch(1, vec![file("g", 20, 20)]));
    t.finish_scan();
    let a = t.nodes[0].children[0];
    assert!(t.can_refresh(a));
    t.begin_refresh(a, 1000);
    assert_eq!(t.nodes[a].apparent, 100);
    assert_eq!(t.nodes[0].apparent, 111);
    assert!(!t.subtree_complete(0), "what is above waits for it too");
    t.apply(batch(1000, vec![file("g", 25, 25), file("h", 1, 1)]));
    assert!(t.subtree_complete(0));
    assert_eq!(t.nodes[0].apparent, 137);
    assert_eq!((t.total_dirs, t.total_files), (2, 3));
}

#[test]
fn paths_join_below_the_root() {
    let mut t = Tree::new_imported("/".into(), 0, 0, 1, 1);
    let root = t.root;
    let a = t.import_child(
        root,
        "a".into(),
        NodeKind::Dir,
        1,
        1,
        1,
        1,
        false,
        false,
        Excluded::No,
        false,
    );
    assert_eq!(t.path_of(root), "/");
    assert_eq!(t.path_of(a), "/a");
    assert!(t.can_import(a, u64::MAX - 1, 0));
    assert!(!t.can_import(a, u64::MAX, 0));
}

#[test]
fn imports_below_what_is_excluded_do_not_count_further_up() {
    let mut t = Tree::new_imported("/r".into(), 0, 0, 1, 1);
    let x = t.import_child(
        t.root, "x".into(), NodeKind::Dir, 10, 10, 1, 2, false, false, Excluded::Pattern, false,
    );
    let f = t.import_child(
        x, "f".into(), NodeKind::File, 7, 7, 1, 3, false, false, Excluded::No, false,
    );
    assert_eq!((t.nodes[t.root].apparent, t.nodes[t.root].disk), (0, 0));
    assert_eq!((t.nodes[x].apparent, t.own_apparent(x)), (17, 10));
    assert_eq!((t.total_files, t.total_dirs), (1, 2));
    assert_eq!(t.own_apparent(t.root), 0);
    // There is room below it for what the root could not take.
    let big = t.import_child(
        t.root, "big".into(), NodeKind::File, u64::MAX, 1, 1, 4, false, false, Excluded::No, false,
    );
    assert!(t.can_import(x, 100, 0));
    assert!(!t.can_import(t.root, 1, 0));
    // Removing what is below it leaves the rest alone, too.
    t.delete_subtree(f);
    assert_eq!(t.nodes[x].apparent, 10);
    assert_eq!(t.nodes[t.root].apparent, u64::MAX);
    t.delete_subtree(big);
    assert_eq!(t.nodes[t.root].apparent, 0);
}

#[test]
fn own_sizes_stay_as_they_were_found() {
    let mut t = Tree::new("/r".into(), 5, 6, 1, 1);
    t.apply(batch(0, vec![dir("d", 1), file("f", 4, 4)]));
    t.apply(batch(1, vec![file("g", 8, 9)]));
    let own: Vec<u64> = (0..t.nodes.len()).map(|i| t.own_apparent(i)).collect();
    assert_eq!(own, vec![5, 100, 4, 8]);
    assert_eq!(t.nodes[t.root].apparent, own.iter().sum::<u64>());
}

#[test]
fn an_early_batch_makes_no_difference() {
    let shape = |t: &Tree| -> Vec<(String, u64, u32, Vec<usize>)> {
        t.nodes
            .iter()
            .map(|n| (n.name.as_str().to_string(), n.apparent, n.unscanned, n.children.clone()))
            .collect()
    };
    // Something waits for a directory that comes before the one in question.
    let start = || {
        let mut t = Tree::new("/r".into(), 1, 1, 1, 1);
        t.apply(batch(1, vec![file("early", 3, 3)]));
        t
    };
    let parent = || batch(0, vec![dir("a", 1), dir("b", 2), dir("c", 3)]);
    let child = || batch(2, vec![dir("d", 4), file("f", 10, 10)]);
    let mut plain = start();
    plain.apply(parent());
    plain.apply(child());
    let mut turned = start();
    let before = shape(&turned);
    turned.apply(child());
    assert_eq!(shape(&turned), before, "it waits");
    assert_eq!((turned.total_files, turned.total_dirs), (0, 1));
    turned.apply(parent());
    assert_eq!(shape(&turned), shape(&plain));
    assert_eq!((turned.total_files, turned.total_dirs), (plain.total_files, plain.total_dirs));
    assert!(turned.orphans_is_empty());
}

#[test]
fn batches_may_come_in_any_order() {
    // Everything that is to be seen of an entry but for its number.
    let shape = |t: &Tree| {
        let mut all: Vec<_> = (0..t.nodes.len())
            .map(|i| {
                let n = &t.nodes[i];
                let own = (t.own_apparent(i), t.own_disk(i));
                (t.path_of(i), (n.apparent, n.disk, n.unscanned), own, (n.scanned, n.read_error))
            })
            .collect();
        all.sort();
        all
    };
    let batches = || {
        let mut dup = file("dup", 9, 9);
        dup.shared = true;
        vec![
            batch(0, vec![dir("a", 1), dir("b", 2), file("f", 1, 2)]),
            batch(1, vec![dir("c", 3), dup]),
            batch(2, vec![file("g", 3, 4), file("h", 5, 6)]),
            Batch { parent_id: 3, nodes: vec![], error: Some("denied".to_string()) },
        ]
    };
    let mut plain = Tree::new("/r".into(), 1, 1, 1, 1);
    for b in batches() {
        plain.apply(b);
    }
    let mut numberings = 0;
    for order in [[0, 2, 1, 3], [1, 2, 0, 3], [3, 2, 1, 0], [2, 3, 0, 1], [0, 3, 2, 1]] {
        let mut mixed = Tree::new("/r".into(), 1, 1, 1, 1);
        for k in order {
            mixed.apply(batches().swap_remove(k));
        }
        assert!(mixed.orphans_is_empty());
        assert_eq!(shape(&mixed), shape(&plain), "{order:?}");
        assert_eq!((mixed.total_files, mixed.nodes[0].unscanned), (4, 0));
        assert_eq!((mixed.total_files, mixed.total_dirs), (plain.total_files, plain.total_dirs));
        assert_eq!(mixed.nodes[0].apparent, 1 + 3 * 100 + 1 + 3 + 5);
        if (0..mixed.nodes.len()).any(|i| mixed.path_of(i) != plain.path_of(i)) {
            numberings += 1;
        }
    }
    assert!(numberings > 0, "only the numbers differ");
}

#[test]
fn a_build_of_batches_and_imports_sums_up() {
    let mut t = Tree::new_imported("/r".into(), 5, 6, 1, 1);
    let add = |t: &mut Tree, p: usize, name: &str, kind: NodeKind, size: u64| {
        t.import_child(p, name.into(), kind, size, size, 1, 1, false, false, Excluded::No, false)
    };
    let d = add(&mut t, 0, "d", NodeKind::Dir, 10);
    t.apply(batch(1, vec![file("x", 40, 50)]));
    add(&mut t, d, "f", NodeKind::File, 20);
    t.apply(batch(0, vec![dir("e", 1)]));
    add(&mut t, d, "g", NodeKind::File, 30);
    let own: Vec<u64> = (0..t.nodes.len()).map(|i| t.own_apparent(i)).collect();
    assert_eq!(own, vec![5, 10, 20, 100, 40, 30]);
    assert_eq!(t.nodes[0].apparent, own.iter().sum::<u64>());
    let own: Vec<u64> = (0..t.nodes.len()).map(|i| t.own_disk(i)).collect();
    assert_eq!(own, vec![6, 10, 20, 100, 50, 30]);
    assert_eq!(t.nodes[0].disk, own.iter().sum::<u64>());
}

#[test]
fn attached_means_in_reach_of_the_root() {
    let mut t = Tree::new("/r".into(), 0, 0, 1, 1);
    t.apply(batch(0, vec![dir("a", 1), file("f", 1, 1)]));
    t.apply(batch(1, vec![dir("b", 2)]));
    t.apply(batch(2, vec![file("g", 1, 1)]));
    assert!((0..t.nodes.len()).all(|i| t.is_attached(i)));
    t.delete_subtree(1);
    // The file is still listed in its own directory, but nothing leads there.
    assert_eq!(t.nodes[3].children, vec![4]);
    let reach: Vec<bool> = (0..t.nodes.len()).map(|i| t.is_attached(i)).collect();
    assert_eq!(reach, vec![true, false, true, false, false]);
}

#[test]
fn early_batches_without_entries_change_no_number() {
    let shape = |t: &Tree| -> Vec<(String, u64, u32, bool, Vec<usize>)> {
        t.nodes
            .iter()
            .map(|n| {
                let name = n.name.as_str().to_string();
                (name, n.apparent, n.unscanned, n.scanned, n.children.clone())
            })
            .collect()
    };
    let parent = || batch(0, vec![dir("a", 1), dir("b", 2), dir("c", 3)]);
    // Either the early batch holds nothing, or what waits behind its directory.
    for (waiting, early) in [
        (batch(3, vec![file("w", 3, 3), dir("x", 4)]), vec![]),
        (batch(3, vec![]), vec![file("e", 5, 5), dir("y", 5)]),
    ] {
        let again = |b: &Batch| batch(b.parent_id, b.nodes.iter().map(copy).collect());
        let mut plain = Tree::new("/r".into(), 1, 1, 1, 1);
        plain.apply(again(&waiting));
        let mut turned = Tree::new("/r".into(), 1, 1, 1, 1);
        turned.apply(again(&waiting));
        plain.apply(parent());
        plain.apply(batch(2, early.iter().map(copy).collect()));
        turned.apply(batch(2, early.iter().map(copy).collect()));
        turned.apply(parent());
        assert_eq!(shape(&turned), shape(&plain));
        assert!(turned.orphans_is_empty());
    }
}

fn copy(n: &NewNode) -> NewNode {
    match n.dir_id {
        Some(id) => dir(n.name.as_str(), id),
        None => file(n.name.as_str(), n.apparent, n.disk),
    }
}
