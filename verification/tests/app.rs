use std::time::Instant;

use crossbeam_channel::unbounded;

use rcdu::app::{open_outcome, App, Effect, Modal, PendingDelete, PendingOpen};
use rcdu::clock::fmt_time;
use rcdu::dump;
use rcdu::info::{indicator, DiskInfo};
use rcdu::model::{Excluded, NodeKind, Tree};
use rcdu::names::next_export_path;
use rcdu::outside::Polled;
use rcdu::rows::contains_ci;
use rcdu::scan::{self, Batch, NewNode, Opts};
use rcdu::state::{KeyAction, SortKey};

fn app() -> App {
    App::new(Tree::new("/r".into(), 0, 0, 1, 1), true, false, false)
}

fn child(t: &mut Tree, parent: usize, name: &str, kind: NodeKind, size: u64, err: bool) -> usize {
    t.import_child(parent, name.into(), kind, size, size, 1, 1, false, false, Excluded::No, err)
}

fn app_with_entries() -> App {
    let mut t = Tree::new_imported("/r".into(), 0, 0, 1, 1);
    for (name, kind, size) in [
        ("alpha", NodeKind::File, 10u64),
        ("Beta", NodeKind::File, 30),
        ("banner", NodeKind::File, 20),
        ("gamma", NodeKind::Dir, 5),
    ] {
        let root = t.root;
        child(&mut t, root, name, kind, size, false);
    }
    App::new(t, true, false, false)
}

fn shown_names(app: &App) -> Vec<&str> {
    app.sorted_children().iter().map(|&k| app.tree.nodes[k].name.as_str()).collect()
}

fn selected_name(app: &App) -> &str {
    app.tree.nodes[app.selected.unwrap()].name.as_str()
}

#[test]
fn contains_ci_matches_ascii_case_insensitively() {
    assert!(contains_ci("Hello, World", "WORLD"));
    assert!(contains_ci("node_modules", "ODE_MOD"));
    assert!(contains_ci("anything", ""));
    assert!(!contains_ci("short", "shorter"));
    assert!(!contains_ci("résumé", "RESUME"), "non-ASCII compares exactly");
    assert!(contains_ci("résumé", "sum"));
}

#[test]
fn contains_ci_edges() {
    assert!(contains_ci("", ""));
    assert!(!contains_ci("", "a"));
    assert!(contains_ci("xyZ", "yz"));
    assert!(contains_ci("aaab", "AAB"));
    assert!(!contains_ci("[", "{"), "only letters fold");
}

#[test]
fn filter_narrows_live_and_applies_on_enter() {
    let mut app = app_with_entries();
    // Opening the filter (empty query) hides nothing.
    app.on_key(KeyAction::Search);
    assert_eq!(app.sorted_children().len(), 4);
    app.on_key(KeyAction::FilterChar('b'));
    assert_eq!(shown_names(&app), vec!["Beta", "banner"]);
    assert_eq!(selected_name(&app), "Beta");
    assert!(app.searching);

    app.on_key(KeyAction::FilterChar('a'));
    assert_eq!(shown_names(&app), vec!["banner"]);
    assert_eq!(selected_name(&app), "banner");

    app.on_key(KeyAction::FilterConfirm);
    assert!(!app.searching);
    assert_eq!(shown_names(&app), vec!["banner"], "filter persists");
}

#[test]
fn filter_cancel_restores_previous_selection() {
    let mut app = app_with_entries();
    app.on_key(KeyAction::Down); // select "banner" (2nd by size: 30, 20, 10, 5)
    let before = app.selected;
    app.on_key(KeyAction::Search);
    app.on_key(KeyAction::FilterChar('g')); // only "gamma" matches
    assert_eq!(shown_names(&app), vec!["gamma"]);
    assert_ne!(app.selected, before);

    app.on_key(KeyAction::FilterCancel);
    assert!(app.filter.is_none());
    assert_eq!(app.selected, before, "selection restored");
    assert_eq!(shown_names(&app).len(), 4);
}

#[test]
fn empty_query_confirms_to_no_filter() {
    let mut app = app_with_entries();
    app.on_key(KeyAction::Search);
    app.on_key(KeyAction::FilterChar('z'));
    assert!(app.sorted_children().is_empty());
    app.on_key(KeyAction::FilterBackspace);
    app.on_key(KeyAction::FilterConfirm);
    assert!(app.filter.is_none(), "empty query clears the filter");
    assert_eq!(app.sorted_children().len(), 4);
}

fn app_with_tree_for_top_files() -> App {
    let mut t = Tree::new_imported("/r".into(), 0, 0, 1, 1);
    let root = t.root;
    child(&mut t, root, "big.bin", NodeKind::File, 900, false);
    let sub = child(&mut t, root, "sub", NodeKind::Dir, 500, false);
    child(&mut t, sub, "mid.bin", NodeKind::File, 500, false);
    child(&mut t, root, "ln", NodeKind::Link, 100, false);
    App::new(t, true, false, false)
}

#[test]
fn top_files_lists_files_largest_first_with_relative_paths() {
    let app = app_with_tree_for_top_files();
    let top = app.top_files(app.tree.root, 10);
    assert_eq!(
        top.iter().map(|e| e.path.as_str()).collect::<Vec<_>>(),
        vec!["big.bin", "sub/mid.bin"],
        "files only (no dirs, no symlinks), largest first, relative paths"
    );
    assert_eq!(top[0].size, 900);
    assert_eq!(app.top_files(app.tree.root, 1).len(), 1, "limit applies");
    assert!(app.top_files(app.tree.root, 0).is_empty());
}

#[test]
fn top_files_popup_navigation_and_jump() {
    let mut app = app_with_tree_for_top_files();
    app.on_key(KeyAction::TopFiles);
    let items = match &app.modal {
        Modal::TopFiles(tf) => tf.items.len(),
        _ => panic!("top-files popup did not open"),
    };
    assert_eq!(items, 2);
    app.on_key(KeyAction::Down); // select the second row (sub/mid.bin)
    app.on_key(KeyAction::Enter);
    assert!(matches!(app.modal, Modal::Closed), "jump closes the popup");
    assert_eq!(app.tree.nodes[app.cur].name.as_str(), "sub", "landed in the parent dir");
    assert_eq!(selected_name(&app), "mid.bin", "file is selected");
}

#[test]
fn top_files_ties_go_by_path_and_deep_paths_are_relative() {
    let mut t = Tree::new_imported("/r".into(), 0, 0, 1, 1);
    let root = t.root;
    let a = child(&mut t, root, "a", NodeKind::Dir, 0, false);
    let b = child(&mut t, a, "b", NodeKind::Dir, 0, false);
    child(&mut t, b, "z", NodeKind::File, 7, false);
    child(&mut t, b, "c", NodeKind::File, 7, false);
    child(&mut t, root, "y", NodeKind::File, 7, false);
    let app = App::new(t, true, false, false);
    let paths = |from: usize| -> Vec<String> {
        app.top_files(from, 10).into_iter().map(|e| e.path).collect()
    };
    assert_eq!(paths(app.tree.root), vec!["a/b/c", "a/b/z", "y"]);
    assert_eq!(paths(a), vec!["b/c", "b/z"]);
    assert_eq!(paths(b), vec!["c", "z"]);
}

#[test]
fn top_files_popup_moves_within_its_rows_and_ignores_other_keys() {
    let mut app = app_with_tree_for_top_files();
    app.on_key(KeyAction::TopFiles);
    let at = |app: &App| match &app.modal {
        Modal::TopFiles(tf) => tf.selected,
        _ => panic!("popup closed"),
    };
    app.on_key(KeyAction::Up);
    assert_eq!(at(&app), 0);
    app.on_key(KeyAction::Bottom);
    assert_eq!(at(&app), 1);
    app.on_key(KeyAction::Down);
    assert_eq!(at(&app), 1);
    app.on_key(KeyAction::Delete);
    assert_eq!(at(&app), 1);
    app.on_key(KeyAction::Top);
    assert_eq!(at(&app), 0);
    app.on_key(KeyAction::Quit);
    assert!(matches!(app.modal, Modal::Closed));
    assert!(!app.quit);
}

#[test]
fn top_files_popup_notices_entries_that_are_gone() {
    let mut app = app_with_tree_for_top_files();
    app.on_key(KeyAction::TopFiles);
    let idx = match &app.modal {
        Modal::TopFiles(tf) => tf.items[0].idx,
        _ => panic!("popup did not open"),
    };
    app.tree.delete_subtree(idx);
    app.on_key(KeyAction::Enter);
    assert_eq!(app.status.as_deref(), Some("that entry is no longer in the tree"));
    assert_eq!(app.cur, app.tree.root);
}

#[test]
fn top_files_popup_needs_files() {
    let mut app = app();
    app.on_key(KeyAction::TopFiles);
    assert!(matches!(app.modal, Modal::Closed));
    assert_eq!(app.status.as_deref(), Some("no files under this directory"));
}

/// A finished open lands in the status line and drains its slot, so the UI thread never waited on
/// the opener.
#[test]
fn finished_open_reports_result_and_drains() {
    let mut a = app();
    let (tx, rx) = unbounded();
    tx.send(Err(std::io::Error::other("no handler"))).unwrap();
    drop(tx);
    a.pending_open.push(PendingOpen { path: "/r/a".into(), rx });

    a.poll_open();
    assert_eq!(a.status.as_deref(), Some("open failed: no handler"));
    assert!(a.pending_open.is_empty());
}

/// An opener that hasn't exited yet keeps its slot (and reports nothing), then resolves on a later
/// frame.
#[test]
fn in_flight_open_waits_and_then_resolves() {
    let mut a = app();
    let (tx, rx) = unbounded();
    a.pending_open.push(PendingOpen { path: "/r/a".into(), rx });

    a.poll_open();
    assert_eq!(a.pending_open.len(), 1);
    assert_eq!(a.status, None);

    tx.send(Ok(())).unwrap();
    drop(tx);
    a.poll_open();
    assert_eq!(a.status.as_deref(), Some("opened /r/a"));
    assert!(a.pending_open.is_empty());
}

#[test]
fn opens_settle_in_order_and_keep_the_rest() {
    let mut a = app();
    for name in ["/r/a", "/r/b", "/r/c"] {
        let (_tx, rx) = unbounded();
        a.pending_open.push(PendingOpen { path: name.into(), rx });
    }
    a.settle_opens(&vec![Some(Ok(())), None, Some(Err("gone".to_string()))]);
    assert_eq!(a.pending_open.len(), 1);
    assert_eq!(a.pending_open[0].path, "/r/b");
    assert_eq!(a.status.as_deref(), Some("open failed: gone"));
    // A worker that went away without a word.
    a.poll_open();
    assert!(a.pending_open.is_empty());
    assert_eq!(a.status.as_deref(), Some("open failed: open worker exited unexpectedly"));
}

/// PageUp/PageDown jump by the given page size and clamp at the ends.
#[test]
fn page_keys_jump_and_clamp() {
    let mut app = app_with_entries();
    // Sorted by size: Beta(30), banner(20), alpha(10), gamma(5).
    app.on_key(KeyAction::PageDown(2));
    assert_eq!(selected_name(&app), "alpha");
    app.on_key(KeyAction::PageDown(99));
    assert_eq!(selected_name(&app), "gamma");
    app.on_key(KeyAction::PageUp(2));
    assert_eq!(selected_name(&app), "banner");
    app.on_key(KeyAction::PageUp(99));
    assert_eq!(selected_name(&app), "Beta");
    app.on_key(KeyAction::PageDown(usize::MAX));
    assert_eq!(selected_name(&app), "gamma");
}

#[test]
fn plain_moves_top_and_bottom() {
    let mut app = app_with_entries();
    app.on_key(KeyAction::Bottom);
    assert_eq!(selected_name(&app), "gamma");
    app.on_key(KeyAction::Up);
    assert_eq!(selected_name(&app), "alpha");
    app.on_key(KeyAction::Top);
    assert_eq!(selected_name(&app), "Beta");
    app.on_key(KeyAction::ToggleSort);
    assert!(app.sort == SortKey::Name);
    assert_eq!(shown_names(&app), vec!["Beta", "alpha", "banner", "gamma"]);
    app.on_key(KeyAction::ToggleUsage);
    assert!(!app.disk_usage);
}

/// The footer's throughput figure: bytes/sec while a scan runs, none otherwise.
#[test]
fn scan_rate_reports_bytes_per_second_while_scanning() {
    let mut app = app_with_entries();
    assert_eq!(app.scan_rate(), None, "no scan attached yet");

    app.scanning = true;
    app.scan_started = Some(Instant::now());
    app.bytes_seen = 4_000_000;
    // Elapsed is sub-second, so the rate is the bytes seen in the first second.
    assert_eq!(app.scan_rate(), Some(4_000_000));

    app.scanning = false;
    assert_eq!(app.scan_rate(), None);
}

#[test]
fn rate_divides_by_whole_seconds() {
    let mut app = app_with_entries();
    app.bytes_seen = 1001;
    assert_eq!(app.rate_after(0), 1001);
    assert_eq!(app.rate_after(1), 1001);
    assert_eq!(app.rate_after(10), 100);
}

/// The info popup's timestamps (dependency-free UTC formatting, leap days included).
#[test]
fn fmt_time_formats_utc() {
    assert_eq!(fmt_time(0), "1970-01-01 00:00:00 UTC");
    assert_eq!(fmt_time(86_400), "1970-01-02 00:00:00 UTC");
    assert_eq!(fmt_time(951_782_400), "2000-02-29 00:00:00 UTC");
    assert_eq!(fmt_time(1_000_000_000), "2001-09-09 01:46:40 UTC");
    assert_eq!(fmt_time(1_700_000_000), "2023-11-14 22:13:20 UTC");
}

#[test]
fn fmt_time_before_the_epoch_and_far_away() {
    assert_eq!(fmt_time(-1), "1969-12-31 23:59:59 UTC");
    assert_eq!(fmt_time(-62_167_219_200), "0000-01-01 00:00:00 UTC");
    assert_eq!(fmt_time(253_402_300_800), "10000-01-01 00:00:00 UTC");
}

/// With nothing found on disk the popup shows tree data and degrades gracefully instead of failing.
#[test]
fn info_rows_show_tree_data_and_note_missing_disk_entry() {
    let app = app_with_entries();
    let beta = app.tree.nodes[app.tree.root].children[1];
    let rows = app.info_pairs(beta, None);
    assert!(rows.contains(&("path".to_string(), "/r/Beta".to_string())));
    assert!(rows.contains(&("type".to_string(), "file".to_string())));
    let on_disk = rows.iter().find(|(k, _)| k == "on disk").expect("on-disk row present");
    assert!(on_disk.1.starts_with("unavailable"), "got {on_disk:?}");
}

/// For a live file, the on-disk section is filled: octal permissions, owner uid:gid, and a formatted
/// modification time.
#[test]
fn info_rows_stat_live_files() {
    let mut t = Tree::new("/tmp/rcdu_info".into(), 4096, 8 * 512, 1, 2);
    let root = t.root;
    let f = t.import_child(
        root,
        "f".into(),
        NodeKind::File,
        10,
        4096,
        1,
        1,
        false,
        false,
        Excluded::No,
        false,
    );
    let app = App::new(t, true, false, false);
    let meta = DiskInfo {
        mode: 0o100644,
        uid: 1000,
        gid: 100,
        mtime: 1_700_000_000,
        ino: 77,
        nlink: 1,
    };
    let rows = app.info_pairs(f, Some(meta));

    let perms = rows.iter().find(|(k, _)| k == "permissions").unwrap();
    assert!(i64::from_str_radix(&perms.1, 8).is_ok(), "got {perms:?}");
    assert_eq!(perms.1, "644");
    let owner = rows.iter().find(|(k, _)| k == "owner").unwrap();
    assert!(owner.1.contains(':'), "got {owner:?}");
    assert_eq!(owner.1, "1000:100");
    let modified = rows.iter().find(|(k, _)| k == "modified").unwrap();
    assert_eq!(modified.1.len(), 23, "YYYY-MM-DD HH:MM:SS UTC: {modified:?}");
    assert!(
        rows.iter().all(|(k, _)| k != "entries" && k != "on disk"),
        "no dir-only or error rows for a live file"
    );
    assert!(rows.contains(&("inode".to_string(), "77".to_string())));
    assert!(rows.contains(&("links".to_string(), "1".to_string())));
    assert!(rows.contains(&("total size".to_string(), "4.0 KiB".to_string())));
}

#[test]
fn info_rows_say_what_is_special() {
    let mut t = Tree::new_imported("/r".into(), 0, 0, 1, 1);
    let root = t.root;
    let kinds = [
        (Excluded::Pattern, "matched --exclude pattern"),
        (Excluded::OtherFs, "different filesystem (-x)"),
        (Excluded::Age, "outside the --older-than/--newer-than window"),
    ];
    for (excluded, words) in kinds {
        let i = t.import_child(
            root,
            "e".into(),
            NodeKind::Other,
            1,
            1,
            1,
            1,
            true,
            true,
            excluded,
            true,
        );
        let app = App::new(t, true, false, false);
        let rows = app.info_pairs(i, None);
        for (k, v) in [
            ("type", "special"),
            ("hard links", "yes"),
            ("duplicate", "hard link already counted elsewhere"),
            ("excluded", words),
            ("read error", "yes"),
        ] {
            assert!(rows.contains(&(k.to_string(), v.to_string())), "{k}: {rows:?}");
        }
        t = app.tree;
    }
    let app = App::new(t, true, false, false);
    assert!(app.info_pairs(root, None).contains(&("entries".to_string(), "3".to_string())));
}

/// The info popup is read-only: any key closes it, and q must not quit through it.
#[test]
fn info_modal_closes_on_any_key_without_quitting() {
    let mut app = app_with_entries();
    app.on_key(KeyAction::Info);
    assert!(matches!(app.modal, Modal::Info(_)));
    app.on_key(KeyAction::Quit);
    assert!(matches!(app.modal, Modal::Closed));
    assert!(!app.quit, "closing info must not quit");
}

/// An exported dump is readable again by the importer, with the same totals and children.
#[test]
fn export_writes_an_importable_dump() {
    let app = app_with_entries();
    let mut bytes = Vec::new();
    dump::export(&app.tree, 1_700_000_000, &mut bytes);
    let re = match dump::import(&bytes) {
        Ok(tree) => tree,
        Err(e) => panic!("{}", e.message()),
    };
    assert_eq!(
        re.nodes[re.root].apparent, app.tree.nodes[app.tree.root].apparent,
        "totals survive the round-trip"
    );
    assert_eq!(re.nodes[re.root].children.len(), 4);
}

/// Consecutive exports pick the first free name instead of clobbering.
#[test]
fn export_paths_avoid_clobbering() {
    let mut taken: Vec<String> = Vec::new();
    assert_eq!(next_export_path(&taken), "rcdu-dump.json");
    taken.push("rcdu-dump.json".to_string());
    assert_eq!(next_export_path(&taken), "rcdu-dump-2.json");
    taken.push("rcdu-dump-2.json".to_string());
    assert_eq!(next_export_path(&taken), "rcdu-dump-3.json");
    taken.remove(0);
    assert_eq!(next_export_path(&taken), "rcdu-dump.json");
}

#[test]
fn export_key_and_its_outcome() {
    let mut app = app_with_entries();
    assert!(matches!(app.on_key(KeyAction::Export), Effect::Export));
    app.finish_export("./rcdu-dump.json", Ok(()));
    assert_eq!(app.status.as_deref(), Some("exported 5 entries to ./rcdu-dump.json"));
    app.finish_export("x", Err("disk full".to_string()));
    assert_eq!(app.status.as_deref(), Some("export failed: disk full"));
}

/// An app whose entries include read errors, in display order (by size):
/// big(500), broken(400, error), brokendir(300, error), small(100).
fn app_with_errors() -> App {
    let mut t = Tree::new_imported("/r".into(), 0, 0, 1, 1);
    for (name, kind, size, err) in [
        ("big", NodeKind::File, 500u64, false),
        ("broken", NodeKind::File, 400, true),
        ("brokendir", NodeKind::Dir, 300, true),
        ("small", NodeKind::File, 100, false),
    ] {
        let root = t.root;
        child(&mut t, root, name, kind, size, err);
    }
    App::new(t, true, false, false)
}

/// The jump lands on each error entry in display order, moves the view to its parent, and wraps
/// around after the last one.
#[test]
fn next_error_jumps_in_display_order_and_wraps() {
    let mut app = app_with_errors();
    // Initial selection is the first row ("big"); the first error after it is "broken".
    app.on_key(KeyAction::NextError);
    assert_eq!(selected_name(&app), "broken");
    assert_eq!(app.tree.nodes[app.cur].name.as_str(), "/r");
    assert_eq!(app.status.as_deref(), Some("read error: /r/broken"));

    app.on_key(KeyAction::NextError);
    assert_eq!(selected_name(&app), "brokendir");

    // Wrapped: both errors seen, back to the first.
    app.on_key(KeyAction::NextError);
    assert_eq!(selected_name(&app), "broken");
}

/// With no errors anywhere, nothing moves and the footer says so.
#[test]
fn next_error_without_errors_reports_none() {
    let mut app = app_with_entries();
    app.on_key(KeyAction::Down); // settle the selection (first key always selects)
    let before = app.selected;
    app.on_key(KeyAction::NextError);
    assert_eq!(app.selected, before);
    assert_eq!(app.status.as_deref(), Some("no read errors"));
}

#[test]
fn next_error_goes_into_other_directories_and_to_the_root() {
    let mut t = Tree::new_imported("/r".into(), 0, 0, 1, 1);
    let root = t.root;
    let a = child(&mut t, root, "a", NodeKind::Dir, 50, false);
    child(&mut t, a, "x", NodeKind::File, 5, true);
    child(&mut t, root, "b", NodeKind::File, 10, false);
    t.nodes[0].read_error = true;
    let mut app = App::new(t, true, false, false);
    app.on_key(KeyAction::NextError);
    assert_eq!(app.cur, a);
    assert_eq!(selected_name(&app), "x");
    app.on_key(KeyAction::NextError);
    assert_eq!(app.cur, root);
    assert_eq!(app.selected, None);
    assert_eq!(app.status.as_deref(), Some("read error: /r"));
}

#[test]
fn indicators() {
    assert_eq!(indicator(NodeKind::Dir, false, false, false), '/');
    assert_eq!(indicator(NodeKind::Link, false, false, false), '@');
    assert_eq!(indicator(NodeKind::Other, false, false, false), '*');
    assert_eq!(indicator(NodeKind::File, false, false, false), ' ');
    assert_eq!(indicator(NodeKind::File, true, false, false), 'H');
    assert_eq!(indicator(NodeKind::Dir, true, true, false), '<');
    assert_eq!(indicator(NodeKind::Dir, true, true, true), '!');
}

#[test]
fn entering_and_leaving() {
    let mut app = app_with_tree_for_top_files();
    app.on_key(KeyAction::Top);
    assert_eq!(selected_name(&app), "sub");
    assert!(matches!(app.on_key(KeyAction::Enter), Effect::Nothing));
    assert_eq!(app.tree.nodes[app.cur].name.as_str(), "sub");
    assert_eq!(selected_name(&app), "mid.bin");
    app.on_key(KeyAction::Enter);
    assert_eq!(app.tree.nodes[app.cur].name.as_str(), "sub", "a file cannot be entered");
    app.on_key(KeyAction::Leave);
    assert_eq!(app.cur, app.tree.root);
    assert_eq!(selected_name(&app), "sub");
    app.on_key(KeyAction::Leave);
    assert_eq!(app.cur, app.tree.root);
    // While a scan runs, navigation directs it.
    app.scanning = true;
    match app.on_key(KeyAction::Enter) {
        Effect::Focus(path) => assert_eq!(path, b"/r/sub".to_vec()),
        _ => panic!("no focus"),
    }
}

#[test]
fn deleting_asks_first_and_takes_the_entry_out() {
    let mut app = app_with_entries();
    app.on_key(KeyAction::Delete);
    assert!(matches!(app.modal, Modal::ConfirmDelete(_)));
    app.on_key(KeyAction::Down);
    assert!(matches!(app.modal, Modal::ConfirmDelete(_)), "other keys wait");
    app.on_key(KeyAction::Cancel);
    assert_eq!(app.status.as_deref(), Some("delete cancelled"));
    app.on_key(KeyAction::Delete);
    let tx = match app.on_key(KeyAction::Confirm) {
        Effect::Delete(path, is_dir, tx) => {
            assert_eq!(path, "/r/Beta");
            assert!(!is_dir);
            tx
        }
        _ => panic!("no deletion"),
    };
    assert!(app.is_deleting());
    app.poll_delete();
    assert!(app.is_deleting(), "still working");
    // The entry is locked meanwhile.
    app.on_key(KeyAction::Enter);
    assert_eq!(app.status.as_deref(), Some("can't enter: this directory is being deleted"));
    app.on_key(KeyAction::Open);
    assert_eq!(app.status.as_deref(), Some("can't open: this entry is being deleted"));
    app.on_key(KeyAction::Delete);
    assert_eq!(app.status.as_deref(), Some("a deletion is already in progress — please wait"));
    // Quitting takes two presses.
    app.on_key(KeyAction::Quit);
    assert!(!app.quit && app.quit_armed);
    tx.send(Ok(())).unwrap();
    app.poll_delete();
    assert!(!app.is_deleting() && !app.quit_armed);
    assert_eq!(app.status.as_deref(), Some("deleted /r/Beta"));
    assert_eq!(shown_names(&app), vec!["banner", "alpha", "gamma"]);
    assert_eq!(selected_name(&app), "banner", "the highlight lands on a neighbour");
    assert_eq!(app.tree.nodes[app.tree.root].apparent, 35);
}

#[test]
fn a_second_quit_aborts_a_deletion() {
    let mut app = app_with_entries();
    app.on_key(KeyAction::Delete);
    app.on_key(KeyAction::Confirm);
    app.on_key(KeyAction::Quit);
    app.on_key(KeyAction::Down);
    assert!(!app.quit_armed, "any other key disarms");
    app.on_key(KeyAction::Quit);
    app.on_key(KeyAction::Quit);
    assert!(app.quit);
}

#[test]
fn failed_deletions_leave_the_tree() {
    let mut app = app_with_entries();
    let (tx, rx) = unbounded();
    let idx = app.tree.nodes[app.tree.root].children[0];
    app.pending_delete = Some(PendingDelete { idx, path: "/r/alpha".into(), rx });
    tx.send(Err(std::io::Error::other("busy"))).unwrap();
    app.poll_delete();
    assert_eq!(app.status.as_deref(), Some("delete failed: busy"));
    assert_eq!(app.sorted_children().len(), 4);

    let (tx, rx) = unbounded::<Result<(), std::io::Error>>();
    drop(tx);
    app.pending_delete = Some(PendingDelete { idx, path: "/r/alpha".into(), rx });
    app.poll_delete();
    assert_eq!(
        app.status.as_deref(),
        Some("delete failed: delete worker exited unexpectedly")
    );
}

#[test]
fn what_a_worker_offers_is_acted_on() {
    let mut app = app_with_entries();
    app.settle_delete(Polled::Closed);
    assert_eq!(app.status, None, "nothing is being deleted");

    let idx = app.tree.nodes[app.tree.root].children[0];
    let (_tx, rx) = unbounded();
    app.pending_delete = Some(PendingDelete { idx, path: "/r/alpha".into(), rx });
    app.quit_armed = true;
    app.settle_delete(Polled::Empty);
    assert!(app.is_deleting() && app.quit_armed);
    assert_eq!(app.status, None);
    app.settle_delete(Polled::Closed);
    assert!(!app.is_deleting() && !app.quit_armed);
    assert_eq!(
        app.status.as_deref(),
        Some("delete failed: delete worker exited unexpectedly")
    );
    assert_eq!(app.sorted_children().len(), 4);

    let (_tx, rx) = unbounded();
    app.pending_delete = Some(PendingDelete { idx, path: "/r/alpha".into(), rx });
    app.settle_delete(Polled::Ready(Ok(())));
    assert_eq!(app.status.as_deref(), Some("deleted /r/alpha"));
    assert_eq!(shown_names(&app), vec!["Beta", "banner", "gamma"]);

    assert_eq!(open_outcome(Polled::Empty), None);
    assert_eq!(open_outcome(Polled::Ready(Ok(()))), Some(Ok(())));
    assert_eq!(
        open_outcome(Polled::Closed),
        Some(Err("open worker exited unexpectedly".to_string()))
    );
}

#[test]
fn what_a_stream_offers_is_acted_on() {
    let mut app = App::new(Tree::new("/r".into(), 0, 0, 1, 1), true, false, true);
    let (scan, workers) = scan::start(b"/r".to_vec(), opts());
    app.attach_scan(scan, opts());
    let one = |name: &str| Batch {
        parent_id: 0,
        nodes: vec![NewNode {
            name: name.into(),
            kind: NodeKind::File,
            apparent: 5,
            disk: 5,
            dev: 1,
            ino: 2,
            hlink: false,
            shared: false,
            excluded: Excluded::No,
            read_error: false,
            dir_id: None,
        }],
        error: None,
    };
    assert!(app.settle_stream(0, Polled::Empty));
    assert!(app.scans[0].alive && app.scanning);
    assert_eq!(app.tree.nodes.len(), 1);
    assert!(app.settle_stream(0, Polled::Ready(one("a"))));
    assert_eq!((app.tree.nodes.len(), app.bytes_seen), (2, 5));
    // What is beyond the cap stays where it is.
    for name in ["b", "c", "d"] {
        workers.events.send(one(name)).unwrap();
    }
    assert!(app.poll_scans(0));
    assert_eq!(app.tree.nodes.len(), 2);
    assert!(app.poll_scans(2));
    assert_eq!(app.tree.nodes.len(), 4);
    assert!(app.poll_scans(2));
    assert_eq!(app.tree.nodes.len(), 5);
    assert!(app.scanning, "an empty stream is no ended one");
    assert!(app.settle_stream(0, Polled::Closed));
    assert!(!app.scans[0].alive);
    app.settle_scans();
    assert!(!app.scanning);
}

#[test]
fn deletion_is_refused_where_it_is_not_safe() {
    let mut app = app_with_entries();
    app.read_only = true;
    app.on_key(KeyAction::Delete);
    assert_eq!(app.status.as_deref(), Some("read-only mode (-r): deletion disabled"));

    let mut app = scanning_app();
    app.on_key(KeyAction::Delete);
    assert_eq!(
        app.status.as_deref(),
        Some("cannot delete: directory is still being scanned — wait for it to finish")
    );
    let sel = app.selected.unwrap();
    app.modal = Modal::ConfirmDelete(sel);
    app.on_key(KeyAction::Confirm);
    assert_eq!(app.status.as_deref(), Some("cannot delete: subtree not fully scanned"));
    assert!(!app.is_deleting());
}

fn dir(name: &str, id: u64) -> NewNode {
    NewNode {
        name: name.into(),
        kind: NodeKind::Dir,
        apparent: 100,
        disk: 100,
        dev: 1,
        ino: id,
        hlink: false,
        shared: false,
        excluded: Excluded::No,
        read_error: false,
        dir_id: Some(id),
    }
}

fn file(name: &str, size: u64) -> NewNode {
    NewNode { kind: NodeKind::File, apparent: size, disk: size, dir_id: None, ..dir(name, 9) }
}

fn opts() -> Opts {
    Opts {
        threads: 2,
        one_file_system: false,
        excludes: Vec::new(),
        root_dev: 1,
        older_than: None,
        newer_than: None,
    }
}

/// An app whose scan has found one directory and not read it yet.
fn scanning_app() -> App {
    let mut app = App::new(Tree::new("/r".into(), 10, 10, 1, 1), true, false, true);
    let (started, workers) = scan::start(b"/r".to_vec(), opts());
    let control = app.attach_scan(started, opts());
    assert_eq!(control.frontier.focus, Some(b"/r".to_vec()));
    workers.events.send(Batch { parent_id: 0, nodes: vec![dir("d", 1)], error: None }).unwrap();
    assert!(app.poll_scans(10));
    app
}

#[test]
fn scans_stream_into_the_tree_until_they_end() {
    let mut app = App::new(Tree::new("/r".into(), 10, 10, 1, 1), true, false, true);
    let (started, workers) = scan::start(b"/r".to_vec(), opts());
    app.attach_scan(started, opts());
    let tx = workers.events;
    tx.send(Batch { parent_id: 0, nodes: vec![dir("d", 1), file("f", 7)], error: None }).unwrap();
    tx.send(Batch { parent_id: 1, nodes: vec![file("g", 5)], error: None }).unwrap();
    assert!(app.poll_scans(1), "no more than the cap");
    assert_eq!(app.tree.nodes.len(), 3);
    assert_eq!(app.bytes_seen, 107);
    assert!(app.poll_scans(10));
    assert_eq!(app.tree.nodes.len(), 4);
    assert_eq!(app.bytes_seen, 112);
    assert!(app.scanning);
    drop(tx);
    assert!(app.poll_scans(10));
    assert!(!app.scanning);
    assert_eq!(app.tree.nodes[app.tree.root].apparent, 122);
    assert!(app.tree.dir_index.is_empty());
}

#[test]
fn totals_without_room_are_reported() {
    let mut app = App::new(Tree::new("/r".into(), 10, 10, 1, 1), true, false, true);
    assert!(!app.take_batch(Batch {
        parent_id: 0,
        nodes: vec![file("f", u64::MAX)],
        error: None
    }));
    assert!(!app.take_batch(Batch {
        parent_id: 0,
        nodes: vec![file("f", u64::MAX), file("g", 1)],
        error: None
    }));
    assert_eq!(app.tree.nodes[0].apparent, 10);
}

#[test]
fn rescan_tears_down_and_reads_again() {
    let mut app = App::new(Tree::new("/r".into(), 10, 10, 1, 1), true, false, true);
    let (started, workers) = scan::start(b"/r".to_vec(), opts());
    app.attach_scan(started, opts());
    let tx = workers.events;
    tx.send(Batch { parent_id: 0, nodes: vec![dir("d", 1), file("f", 7)], error: None }).unwrap();
    assert!(app.poll_scans(10));
    assert!(app.key_fits(KeyAction::Refresh));
    app.on_key(KeyAction::Refresh);
    assert_eq!(
        app.status.as_deref(),
        Some("cannot rescan: directory is still being scanned")
    );
    tx.send(Batch { parent_id: 1, nodes: vec![file("g", 5)], error: None }).unwrap();
    drop(tx);
    assert!(app.poll_scans(10));
    assert!(!app.scanning);
    let d = app.selected.unwrap();
    let (control, workers) = match app.on_key(KeyAction::Refresh) {
        Effect::Rescan(control, workers) => (control, workers),
        _ => panic!("no rescan"),
    };
    assert_eq!(app.status.as_deref(), Some("rescanning /r/d…"));
    assert_eq!(control.frontier.cold[0].id, scan::SCAN_ID_STRIDE);
    assert_eq!(control.frontier.cold[0].path, b"/r/d".to_vec());
    assert_eq!(workers.ledger.next_id, scan::SCAN_ID_STRIDE + 1);
    assert_eq!(app.refreshing_idx, Some(d));
    assert!(app.tree.nodes[d].children.is_empty());
    assert_eq!(app.bytes_seen, 0);
    app.on_key(KeyAction::Refresh);
    assert_eq!(app.status.as_deref(), Some("a rescan is already in progress — please wait"));
    workers
        .events
        .send(Batch {
            parent_id: scan::SCAN_ID_STRIDE,
            nodes: vec![file("g", 5), file("h", 6)],
            error: None,
        })
        .unwrap();
    drop(workers);
    assert!(app.poll_scans(10));
    assert_eq!(app.status.as_deref(), Some("rescanned /r/d"));
    assert_eq!(app.refreshing_idx, None);
    assert!(!app.scanning);
    assert_eq!(app.tree.nodes[d].apparent, 111);
    assert_eq!(app.next_scan_base, 2);
}

#[test]
fn rescans_are_refused_with_a_reason() {
    let mut app = app_with_entries();
    app.on_key(KeyAction::Refresh);
    assert_eq!(
        app.status.as_deref(),
        Some("rescan unavailable: browsing an imported dump")
    );
    app.scan_opts = Some(opts());
    app.on_key(KeyAction::Refresh);
    assert_eq!(app.status.as_deref(), Some("select a directory to rescan"));
    app.on_key(KeyAction::Bottom);
    let gamma = app.selected.unwrap();
    let (_tx, rx) = unbounded();
    app.pending_delete = Some(PendingDelete { idx: gamma, path: "/r/gamma".into(), rx });
    app.on_key(KeyAction::Refresh);
    assert_eq!(
        app.status.as_deref(),
        Some("can't rescan: a deletion is in progress here")
    );
    // No ids are left for one more scan, which matters only if it would start.
    app.next_scan_base = 16_777_216;
    assert!(app.key_fits(KeyAction::Refresh));
    app.pending_delete = None;
    assert!(!app.key_fits(KeyAction::Refresh));
    assert!(app.key_fits(KeyAction::Down));
}

#[test]
fn opening_hands_out_the_path() {
    let mut app = app_with_entries();
    match app.on_key(KeyAction::Open) {
        Effect::Open(path, tx) => {
            assert_eq!(path, "/r/Beta");
            tx.send(Ok(())).unwrap();
        }
        _ => panic!("no open"),
    }
    assert_eq!(app.status.as_deref(), Some("opening /r/Beta"));
    app.poll_open();
    assert_eq!(app.status.as_deref(), Some("opened /r/Beta"));
}

#[test]
fn help_closes_on_any_key() {
    let mut app = app_with_entries();
    app.on_key(KeyAction::Help);
    assert!(matches!(app.modal, Modal::Help));
    app.on_key(KeyAction::Delete);
    assert!(matches!(app.modal, Modal::Closed));
    app.on_key(KeyAction::Quit);
    assert!(app.quit);
}

#[test]
fn later_times_are_later_texts() {
    let times = [
        -62_167_219_200i64,
        -62_167_219_199,
        -1,
        0,
        59,
        60,
        86_399,
        86_400,
        951_782_399,
        951_782_400,
        1_700_000_000,
        253_402_300_799,
    ];
    let texts: Vec<String> = times.iter().map(|&t| fmt_time(t)).collect();
    assert_eq!(texts[0], "0000-01-01 00:00:00 UTC");
    assert_eq!(texts[11], "9999-12-31 23:59:59 UTC");
    for pair in texts.windows(2) {
        assert!(pair[0].len() == 23 && pair[1].len() == 23 && pair[0] < pair[1], "{pair:?}");
    }
}

#[test]
fn leaving_undoes_entering() {
    let mut app = app_with_entries();
    app.on_key(KeyAction::Bottom);
    let (cur, selected) = (app.cur, app.selected);
    app.on_key(KeyAction::Enter);
    assert_eq!(Some(app.cur), selected);
    app.on_key(KeyAction::Leave);
    assert_eq!((app.cur, app.selected), (cur, selected));
    // There is nothing above the root.
    app.on_key(KeyAction::Leave);
    assert_eq!((app.cur, app.selected), (cur, selected));
}

#[test]
fn top_files_popup_does_not_jump_into_what_was_cut_off() {
    let mut app = app_with_tree_for_top_files();
    app.on_key(KeyAction::TopFiles);
    app.on_key(KeyAction::Down);
    let (idx, sub) = match &app.modal {
        Modal::TopFiles(tf) => (tf.items[1].idx, app.tree.nodes[tf.items[1].idx].parent.unwrap()),
        _ => panic!("popup did not open"),
    };
    app.tree.delete_subtree(sub);
    assert!(app.tree.nodes[sub].children.contains(&idx), "still listed where it was");
    app.on_key(KeyAction::Enter);
    assert_eq!(app.status.as_deref(), Some("that entry is no longer in the tree"));
    assert_eq!(app.cur, app.tree.root);
}

#[test]
fn ascending_undoes_descending() {
    let mut app = app_with_entries();
    app.on_key(KeyAction::Bottom);
    let (cur, selected) = (app.cur, app.selected);
    // No scan is running, so there is none to be steered.
    assert!(matches!(app.descend(), Effect::Nothing));
    assert_eq!(Some(app.cur), selected);
    assert!(matches!(app.ascend(), Effect::Nothing));
    assert_eq!((app.cur, app.selected), (cur, selected));
    assert!(matches!(app.ascend(), Effect::Nothing));
    assert_eq!((app.cur, app.selected), (cur, selected));
}
