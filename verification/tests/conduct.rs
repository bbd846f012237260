use std::collections::HashSet;

use rcdu::app::{App, Effect, Modal};
use rcdu::keys::{decode_key, Key};
use rcdu::model::{Excluded, NodeKind, Tree};
use rcdu::rows::display_order;
use rcdu::scan::{start_at, Batch, Found, Meta, NewNode, Opts, SCAN_ID_STRIDE};
use rcdu::state::{KeyAction, SortKey};

const KEYS: [KeyAction; 26] = [
    KeyAction::Up,
    KeyAction::Down,
    KeyAction::Top,
    KeyAction::Bottom,
    KeyAction::Enter,
    KeyAction::Leave,
    KeyAction::ToggleSort,
    KeyAction::ToggleUsage,
    KeyAction::Help,
    KeyAction::Delete,
    KeyAction::Open,
    KeyAction::Confirm,
    KeyAction::Cancel,
    KeyAction::Search,
    KeyAction::FilterChar('b'),
    KeyAction::FilterBackspace,
    KeyAction::FilterConfirm,
    KeyAction::FilterCancel,
    KeyAction::TopFiles,
    KeyAction::Refresh,
    KeyAction::Info,
    KeyAction::PageDown(3),
    KeyAction::PageUp(3),
    KeyAction::Export,
    KeyAction::NextError,
    KeyAction::Quit,
];

fn child(t: &mut Tree, parent: usize, name: &str, kind: NodeKind, size: u64) -> usize {
    t.import_child(parent, name.into(), kind, size, size, 1, 1, false, false, Excluded::No, false)
}

fn app(read_only: bool) -> App {
    let mut t = Tree::new_imported("/r".into(), 1, 1, 1, 1);
    let root = t.root;
    let d = child(&mut t, root, "bd", NodeKind::Dir, 50);
    child(&mut t, d, "b1", NodeKind::File, 10);
    let e = child(&mut t, d, "be", NodeKind::Dir, 5);
    child(&mut t, e, "b2", NodeKind::File, 20);
    child(&mut t, root, "bf", NodeKind::File, 30);
    App::new(t, true, read_only, false)
}

fn sizes(app: &App) -> Vec<(u64, u64, usize)> {
    app.tree.nodes.iter().map(|n| (n.apparent, n.disk, n.children.len())).collect()
}

/// A stretch of keys that reaches every overlay, deterministic but without a pattern.
fn presses(n: usize) -> impl Iterator<Item = KeyAction> {
    let mut x: u64 = 0x9e37_79b9_7f4a_7c15;
    (0..n).map(move |_| {
        x ^= x << 13;
        x ^= x >> 7;
        x ^= x << 17;
        KEYS[(x % 25) as usize]
    })
}

#[test]
fn read_only_mode_never_deletes() {
    let mut app = app(true);
    for key in presses(5_000) {
        let effect = app.on_key(key);
        assert!(!matches!(effect, Effect::Delete(..)));
        assert!(!matches!(app.modal, Modal::ConfirmDelete(_)));
    }
}

#[test]
fn keys_leave_the_tree() {
    let mut app = app(false);
    let before = sizes(&app);
    let mut deletions = 0;
    for key in presses(5_000) {
        let asked = match app.modal {
            Modal::ConfirmDelete(idx) => Some(idx),
            _ => None,
        };
        let busy = app.is_deleting();
        if let Effect::Delete(path, is_dir, _) = app.on_key(key) {
            assert_eq!(key, KeyAction::Confirm);
            assert_eq!(path, app.tree.path_of(asked.unwrap()));
            assert_eq!(is_dir, app.tree.nodes[asked.unwrap()].is_dir());
            assert!(!busy);
            deletions += 1;
        }
        assert_eq!(sizes(&app), before);
        assert!(!app.quit);
    }
    assert_eq!(deletions, 1, "one at a time");
}

#[test]
fn every_key_closes_help_and_info() {
    let keys = [Key::Char('z'), Key::Char('q'), Key::Esc, Key::Enter, Key::Other, Key::PageUp];
    for open in [KeyAction::Help, KeyAction::Info] {
        for key in keys {
            let mut app = app(false);
            app.on_key(open);
            let action = decode_key(key, false, app.key_mode(), 5).expect("a meaning");
            assert!(matches!(app.on_key(action), Effect::Nothing));
            assert!(matches!(app.modal, Modal::Closed));
            assert!(!app.quit);
        }
    }
}

#[test]
fn a_cancelled_filter_leaves_no_trace() {
    let mut app = app(false);
    app.on_key(KeyAction::Down);
    let (selected, cur) = (app.selected, app.cur);
    app.on_key(KeyAction::Search);
    for c in "be?".chars() {
        app.on_key(KeyAction::FilterChar(c));
    }
    app.on_key(KeyAction::FilterBackspace);
    app.on_key(KeyAction::FilterCancel);
    assert_eq!((app.selected, app.cur), (selected, cur));
    assert!(app.filter.is_none() && !app.searching);
}

#[test]
fn everything_is_displayed_once() {
    let mut t = app(false).tree;
    let gone = t.nodes[1].children[1];
    for (sort, disk_usage) in [(SortKey::Size, true), (SortKey::Name, false)] {
        let order = display_order(&t, sort, disk_usage);
        assert_eq!(order.len(), t.nodes.len());
        assert_eq!(order.iter().collect::<HashSet<_>>().len(), t.nodes.len());
        assert_eq!(order[0], t.root);
    }
    t.delete_subtree(gone);
    let order = display_order(&t, SortKey::Size, true);
    assert_eq!(order.len(), t.nodes.len() - 2);
    assert!(!order.contains(&gone));
}

#[test]
fn the_highlight_stays_while_batches_come_in() {
    let mut app = App::new(Tree::new("/r".into(), 1, 1, 1, 1), true, false, true);
    let file = |name: &str, size: u64| NewNode {
        name: name.into(),
        kind: NodeKind::File,
        apparent: size,
        disk: size,
        dev: 1,
        ino: 1,
        hlink: false,
        shared: false,
        excluded: Excluded::No,
        read_error: false,
        dir_id: None,
    };
    let dir = |name: &str, id: u64| NewNode {
        kind: NodeKind::Dir,
        dir_id: Some(id),
        ..file(name, 1)
    };
    assert!(app.take_batch(Batch {
        parent_id: 0,
        nodes: vec![file("a", 9), dir("d", 1)],
        error: None
    }));
    app.on_key(KeyAction::Top);
    let a = app.selected;
    assert_eq!(app.sorted_children()[0], a.unwrap());
    assert!(app.take_batch(Batch { parent_id: 1, nodes: vec![file("big", 99)], error: None }));
    assert_eq!(app.selected, a);
    assert_eq!(app.sorted_children()[1], a.unwrap(), "another row, the same entry");
    app.on_key(KeyAction::Info);
    assert_eq!(app.selected, a);
}

#[test]
fn frames_are_shorter_while_something_happens() {
    let mut app = app(false);
    assert_eq!(app.frame_millis(), 250);
    app.scanning = true;
    assert_eq!(app.frame_millis(), 80);
}

#[test]
fn directory_ids_are_fresh_in_every_generation() {
    let rules = || Opts {
        threads: 1,
        one_file_system: false,
        excludes: Vec::new(),
        root_dev: 1,
        older_than: None,
        newer_than: None,
    };
    let meta = |ino: u64| Meta {
        is_dir: true,
        is_symlink: false,
        is_file: false,
        dev: 1,
        ino,
        len: 0,
        blocks: 0,
        mtime: 0,
        nlink: 2,
    };
    let mut seen = HashSet::new();
    for generation in 0..3u64 {
        let base = generation * SCAN_ID_STRIDE;
        let (_, mut workers) = start_at(b"/t".to_vec(), rules(), base);
        assert!(seen.insert(base));
        for listing in 0..4u64 {
            let found = (0..5u64)
                .map(|k| Found {
                    name: format!("d{k}"),
                    path: format!("/t/{listing}/d{k}").into_bytes(),
                    meta: Some(meta(listing * 10 + k)),
                })
                .collect();
            let (batch, jobs) = workers.ledger.listed(&workers.rules, base, Ok(found));
            assert_eq!(jobs.len(), 5);
            for n in &batch.nodes {
                assert!(seen.insert(n.dir_id.unwrap()));
            }
        }
    }
}
