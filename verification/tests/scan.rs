use std::collections::{BTreeMap, HashSet, VecDeque};

use rcdu::frontier::{DirJob, Frontier, Next};
use rcdu::model::{Excluded, NodeKind, Tree};
use rcdu::scan::{
    age_excluded, default_threads, inode_key, start, start_at, Batch, Found, Meta, Opts, Scan,
    ScanControl, SCAN_ID_STRIDE,
};

fn opts(threads: usize, root_dev: u64) -> Opts {
    Opts {
        threads,
        one_file_system: false,
        excludes: Vec::new(),
        root_dev,
        older_than: None,
        newer_than: None,
    }
}

const NOW: i64 = 1_700_000_000;

/// A disk that holds directories with their listings.
struct Disk {
    dirs: BTreeMap<String, Vec<(String, Meta)>>,
    next_ino: u64,
}

impl Disk {
    fn new(base: &str) -> Disk {
        let mut dirs = BTreeMap::new();
        dirs.insert(base.to_string(), Vec::new());
        Disk { dirs, next_ino: 100 }
    }

    fn meta(&mut self, is_dir: bool, len: u64) -> Meta {
        self.next_ino += 1;
        Meta {
            is_dir,
            is_symlink: false,
            is_file: !is_dir,
            dev: 1,
            ino: self.next_ino,
            len,
            blocks: (len + 511) / 512,
            mtime: NOW,
            nlink: 1,
        }
    }

    fn put(&mut self, path: &str, meta: Meta) {
        let (parent, name) = path.rsplit_once('/').unwrap();
        self.dirs.get_mut(parent).unwrap().push((name.to_string(), meta));
        if meta.is_dir {
            self.dirs.insert(path.to_string(), Vec::new());
        }
    }

    fn mkdir(&mut self, path: &str) {
        let meta = self.meta(true, 4096);
        self.put(path, meta);
    }

    fn write(&mut self, path: &str, len: u64) {
        let meta = self.meta(false, len);
        self.put(path, meta);
    }

    fn read(&self, path: &[u8]) -> Result<Vec<Found>, String> {
        let dir = String::from_utf8(path.to_vec()).unwrap();
        match self.dirs.get(&dir) {
            Some(entries) => Ok(entries
                .iter()
                .map(|(name, meta)| Found {
                    name: name.clone(),
                    path: format!("{dir}/{name}").into_bytes(),
                    meta: Some(*meta),
                })
                .collect()),
            None => Err("no such directory".to_string()),
        }
    }

    /// Run a scan to its end and give its batches in the order in which they were published.
    fn scan(&self, path: &str, opts: Opts, id_base: u64, focus: Option<&str>) -> Vec<Batch> {
        let (scan, mut workers) = start_at(path.as_bytes().to_vec(), opts, id_base);
        let Scan { events, mut control } = scan;
        if let Some(focus) = focus {
            control.set_focus(Some(focus.as_bytes().to_vec()));
        }
        loop {
            match control.frontier.take() {
                Next::Job(job) => {
                    let read = self.read(&job.path);
                    let jobs =
                        workers.ledger.process(&workers.rules, &workers.events, job.id, read);
                    control.frontier.enqueue(jobs);
                    control.frontier.complete();
                }
                Next::Wait => panic!("nobody is at work"),
                Next::Done => break,
            }
        }
        drop(workers);
        events.iter().collect()
    }

    fn scan_into(&self, tree: &mut Tree, path: &str, opts: Opts, id_base: u64) {
        for batch in self.scan(path, opts, id_base, None) {
            tree.apply(batch);
        }
    }
}

fn root_tree() -> Tree {
    Tree::new("root".into(), 4096, 8 * 512, 1, 2)
}

fn find(tree: &Tree, name: &str) -> usize {
    tree.nodes[tree.root]
        .children
        .iter()
        .find(|&&c| tree.nodes[c].name.as_str() == name)
        .copied()
        .unwrap_or_else(|| panic!("{name} present"))
}

/// Scan a known tree and confirm the root aggregates every file's apparent size, every node is
/// reachable, and out-of-order/orphan buffering never drops a batch.
#[test]
fn aggregates_full_tree() {
    let mut disk = Disk::new("/t");
    for d in ["/t/a", "/t/a/b", "/t/a/b/c", "/t/d"] {
        disk.mkdir(d);
    }
    disk.write("/t/a/f1", 1000);
    disk.write("/t/a/b/f2", 2000);
    disk.write("/t/a/b/c/f3", 3000);
    disk.write("/t/d/f4", 4000);
    disk.write("/t/top", 500);
    let expected_files_bytes = 1000 + 2000 + 3000 + 4000 + 500;
    let expected_files = 5;
    let expected_dirs = 1 /*root*/ + 4 /*a,b,c,d*/;

    let mut tree = root_tree();
    // Worst case: every batch arrives before the one it hangs below.
    for batch in disk.scan("/t", opts(8, 1), 0, None).into_iter().rev() {
        tree.apply(batch);
    }

    assert_eq!(tree.total_files, expected_files, "file count");
    assert_eq!(tree.total_dirs, expected_dirs, "dir count");
    assert!(tree.orphans_is_empty(), "no batch left buffered");
    // The whole tree is scanned, so the root subtree must report complete.
    assert!(tree.subtree_complete(tree.root), "subtree should be complete");

    // The aggregated root size must equal the sum of every node's (derived) own size, for both
    // metrics — verifying the aggregation and the own-size derivation agree.
    let total_own_apparent: u64 = (0..tree.nodes.len()).map(|i| tree.own_apparent(i)).sum();
    let total_own_disk: u64 = (0..tree.nodes.len()).map(|i| tree.own_disk(i)).sum();
    assert_eq!(tree.nodes[tree.root].apparent, total_own_apparent, "apparent aggregation");
    assert_eq!(tree.nodes[tree.root].disk, total_own_disk, "disk aggregation");

    // The file bytes we wrote must be accounted for exactly (files are leaves: own == size).
    let file_bytes: u64 = (0..tree.nodes.len())
        .filter(|&i| !tree.nodes[i].is_dir())
        .map(|i| tree.own_apparent(i))
        .sum();
    assert_eq!(file_bytes, expected_files_bytes, "file bytes accounted");
}

/// `--exclude` keeps an entry visible but stops recursion and zeroes its contribution.
#[test]
fn exclude_pattern_stops_recursion() {
    let mut disk = Disk::new("/t");
    for d in ["/t/keep", "/t/node_modules", "/t/node_modules/deep"] {
        disk.mkdir(d);
    }
    disk.write("/t/keep/f", 1000);
    disk.write("/t/node_modules/big", 9_000_000);

    let mut tree = root_tree();
    let mut o = opts(4, 1);
    o.excludes = vec!["node_modules".to_string()];
    disk.scan_into(&mut tree, "/t", o, 0);

    // node_modules exists as a node but was not recursed and contributes nothing.
    let nm = find(&tree, "node_modules");
    assert!(tree.nodes[nm].children.is_empty(), "not recursed");
    assert_eq!(tree.nodes[nm].excluded, Excluded::Pattern);
    // The 9 MB inside node_modules must NOT be in the root total.
    assert!(tree.nodes[tree.root].apparent < 9_000_000, "excluded bytes counted");
}

/// Hard-linked files are counted once; the duplicate is flagged `shared`.
#[test]
fn hardlinks_counted_once() {
    let mut disk = Disk::new("/t");
    let mut meta = disk.meta(false, 5000);
    meta.nlink = 2;
    disk.put("/t/orig", meta);
    disk.put("/t/link", meta);

    let mut tree = root_tree();
    disk.scan_into(&mut tree, "/t", opts(4, 1), 0);

    let shared_count = tree.nodes.iter().filter(|n| n.shared).count();
    assert_eq!(shared_count, 1, "exactly one of the two links is 'shared'");
    // The 5000 bytes are counted once, not twice.
    let file_bytes: u64 = tree
        .nodes
        .iter()
        .filter(|n| matches!(n.kind, NodeKind::File) && n.counts())
        .map(|n| n.apparent) // files are leaves, so apparent == own size
        .sum();
    assert_eq!(file_bytes, 5000, "hardlinked bytes counted once");
}

/// The frontier drains hot (focused) jobs before cold ones, and the re-partition promotes the
/// matching subtree.
#[test]
fn frontier_prioritizes_focused_subtree() {
    let mut f = Frontier {
        focus: None,
        hot: VecDeque::new(),
        cold: VecDeque::new(),
        pending: 0,
        done: false,
    };
    f.push(DirJob { id: 1, path: "/r/A/x".into() });
    f.push(DirJob { id: 2, path: "/r/B/y".into() });
    f.push(DirJob { id: 3, path: "/r/A/z".into() });

    let mut control = ScanControl { frontier: f };
    control.set_focus(Some("/r/B".into()));
    let mut f = control.frontier;

    // The /r/B job comes out first; the /r/A jobs follow in FIFO order.
    assert_eq!(f.pop().unwrap().id, 2, "focused subtree first");
    assert_eq!(f.pop().unwrap().id, 1);
    assert_eq!(f.pop().unwrap().id, 3);
    assert!(f.pop().is_none());
}

/// End-to-end: with a large `slow/` branch and a small `target/` branch, focusing `target/` makes
/// its subtree finish scanning before `slow/` does.
#[test]
fn focus_prioritizes_navigated_subtree() {
    let mut disk = Disk::new("/t");
    // A big branch that takes a while, and a small branch we'll "navigate into".
    disk.mkdir("/t/slow");
    for d in 0..150 {
        disk.mkdir(&format!("/t/slow/s{d}"));
        for i in 0..100 {
            disk.write(&format!("/t/slow/s{d}/f{i}"), 1);
        }
    }
    disk.mkdir("/t/target");
    for d in 0..15 {
        disk.mkdir(&format!("/t/target/t{d}"));
    }

    // Track which directory ids belong to each branch (batches arrive parent-first).
    let mut target_ids: HashSet<u64> = HashSet::new();
    let mut slow_ids: HashSet<u64> = HashSet::new();
    let (mut last_target, mut last_slow) = (0usize, 0usize);

    for (i, batch) in disk.scan("/t", opts(8, 1), 0, Some("/t/target")).into_iter().enumerate() {
        if target_ids.contains(&batch.parent_id) {
            last_target = i;
        }
        if slow_ids.contains(&batch.parent_id) {
            last_slow = i;
        }
        for n in &batch.nodes {
            if let Some(id) = n.dir_id {
                if batch.parent_id == 0 {
                    if n.name.as_str() == "target" {
                        target_ids.insert(id);
                    } else if n.name.as_str() == "slow" {
                        slow_ids.insert(id);
                    }
                } else if target_ids.contains(&batch.parent_id) {
                    target_ids.insert(id);
                } else if slow_ids.contains(&batch.parent_id) {
                    slow_ids.insert(id);
                }
            }
        }
    }

    assert!(last_target > 0 && last_slow > 0, "both branches scanned");
    assert!(
        last_target < last_slow,
        "focused 'target' subtree should finish before 'slow' (target@{last_target}, slow@{last_slow})"
    );
}

/// Subtree rescan end-to-end: after the whole tree is scanned, `Tree::begin_refresh` tears down one
/// subtree (keeping ancestor totals consistent) and `start_at` with a fresh id base re-scans it in
/// place, picking up on-disk changes and restoring totals.
#[test]
fn subtree_rescan_restores_totals_and_picks_up_changes() {
    let mut disk = Disk::new("/t");
    for d in ["/t/target", "/t/target/inner", "/t/other"] {
        disk.mkdir(d);
    }
    disk.write("/t/target/f1", 1000);
    disk.write("/t/target/inner/f2", 2000);
    disk.write("/t/other/f3", 4000);

    let mut tree = root_tree();
    disk.scan_into(&mut tree, "/t", opts(4, 1), 0);
    tree.finish_scan();

    let target = find(&tree, "target");
    let root_total_before = tree.nodes[tree.root].apparent;
    let target_agg_before = tree.nodes[target].apparent;
    let target_own_before = tree.own_apparent(target);
    let files_before = tree.total_files;
    assert!(tree.subtree_complete(target));

    // On-disk change while nobody is looking: a new file appears in the subtree.
    disk.write("/t/target/inner/new", 7000);

    // Tear the subtree down in the model, then rescan just that directory into it.
    let id_base = SCAN_ID_STRIDE;
    tree.begin_refresh(target, id_base);
    assert!(!tree.subtree_complete(target), "rescan in progress: subtree incomplete");
    assert!(tree.nodes[target].children.is_empty(), "children detached");
    assert_eq!(tree.nodes[target].apparent, target_own_before, "aggregate reset to own size");
    assert_eq!(
        tree.nodes[tree.root].apparent,
        root_total_before - target_agg_before + target_own_before,
        "ancestor total stays consistent across the reset"
    );

    disk.scan_into(&mut tree, "/t/target", opts(4, 1), id_base);
    assert!(tree.subtree_complete(target), "rescan completed");
    assert!(tree.orphans_is_empty(), "no batch left buffered");
    assert!(
        tree.nodes[tree.root].apparent > root_total_before,
        "rescan picked up the added bytes"
    );
    assert_eq!(tree.total_files, files_before + 1);
    // The untouched branch is unaffected.
    assert_eq!(tree.nodes[target].children.len(), 2, "f1 + inner");

    // Ground truth: the refreshed tree must agree exactly with an independent fresh scan of the same
    // on-disk state.
    let mut fresh = root_tree();
    disk.scan_into(&mut fresh, "/t", opts(4, 1), 0);
    fresh.finish_scan();
    assert_eq!(
        tree.nodes[tree.root].apparent, fresh.nodes[fresh.root].apparent,
        "root apparent matches a fresh scan"
    );
    assert_eq!(
        tree.nodes[tree.root].disk, fresh.nodes[fresh.root].disk,
        "root disk usage matches a fresh scan"
    );
    assert_eq!(tree.total_files, fresh.total_files);
    assert_eq!(tree.total_dirs, fresh.total_dirs);
}

/// `--older-than` / `--newer-than` exclude entries by mtime: filtered entries stay visible but are
/// not descended into and don't count toward totals.
#[test]
fn age_filters_exclude_entries_at_scan_time() {
    let mut disk = Disk::new("/t");
    // Age the old entries: 2000-01-01, well before any cutoff below.
    let old = 946_684_800;
    let mut old_dir = disk.meta(true, 4096);
    old_dir.mtime = old;
    disk.put("/t/olddir", old_dir);
    let mut old_file = disk.meta(false, 1000);
    old_file.mtime = old;
    disk.put("/t/oldfile", old_file);
    disk.write("/t/newfile", 2000);
    let mut inner = disk.meta(false, 4000);
    inner.mtime = old;
    disk.put("/t/olddir/inner", inner);
    let cutoff = NOW - 100 * 86_400; // 100 days ago

    let mut tree = root_tree();
    let mut o = opts(4, 1);
    o.older_than = Some(cutoff);
    disk.scan_into(&mut tree, "/t", o, 0);
    assert!(tree.orphans_is_empty());

    let old_file = find(&tree, "oldfile");
    let new_file = find(&tree, "newfile");
    let old_dir = find(&tree, "olddir");
    assert_eq!(tree.nodes[old_file].excluded, Excluded::Age);
    assert_eq!(tree.nodes[new_file].excluded, Excluded::No);
    assert_eq!(tree.nodes[old_dir].excluded, Excluded::Age);
    // The old directory was not descended into, so its inner file never entered the tree.
    assert!(tree.nodes[old_dir].children.is_empty());
    // Only the fresh file's bytes count toward the root total.
    assert_eq!(tree.nodes[tree.root].apparent, 2000 + 4096);

    // And the mirror: --newer-than keeps the old entries and excludes the fresh ones.
    let mut tree = root_tree();
    let mut o = opts(4, 1);
    o.newer_than = Some(cutoff);
    disk.scan_into(&mut tree, "/t", o, 0);
    assert_eq!(tree.nodes[find(&tree, "oldfile")].excluded, Excluded::No);
    assert_eq!(tree.nodes[find(&tree, "newfile")].excluded, Excluded::Age);
    assert_eq!(tree.nodes[find(&tree, "olddir")].excluded, Excluded::No);
    assert_eq!(tree.nodes[find(&tree, "olddir")].children.len(), 1);
}

#[test]
fn age_window() {
    assert!(!age_excluded(5, None, None));
    assert!(age_excluded(4, Some(5), None));
    assert!(!age_excluded(5, Some(5), Some(5)));
    assert!(age_excluded(6, None, Some(5)));
}

#[test]
fn other_filesystems_and_unreadable_entries() {
    let mut disk = Disk::new("/t");
    let mut mount = disk.meta(true, 4096);
    mount.dev = 9;
    disk.put("/t/mnt", mount);
    let mut o = opts(1, 1);
    o.one_file_system = true;
    let batches = disk.scan("/t", o, 0, None);
    assert_eq!(batches.len(), 1);
    assert_eq!(batches[0].nodes[0].excluded, Excluded::OtherFs);
    assert_eq!(batches[0].nodes[0].dir_id, None);
    assert_eq!(disk.scan("/t", opts(1, 1), 0, None).len(), 2);

    // A directory that cannot be read, and an entry that cannot be looked at.
    let missing = disk.scan("/nowhere", opts(1, 1), 0, None);
    assert_eq!(missing[0].error.as_deref(), Some("no such directory"));
    let (_, mut workers) = start(b"/t".to_vec(), opts(1, 1));
    let read = Ok(vec![Found { name: "x".to_string(), path: b"/t/x".to_vec(), meta: None }]);
    let (batch, jobs) = workers.ledger.listed(&workers.rules, 0, read);
    assert!(batch.nodes[0].read_error && jobs.is_empty());
    assert!(batch.nodes[0].kind == NodeKind::Other);
}

#[test]
fn thread_counts() {
    assert_eq!(default_threads(None), 16);
    assert_eq!(default_threads(Some(1)), 4);
    assert_eq!(default_threads(Some(8)), 32);
    assert_eq!(default_threads(Some(100)), 64);
}

#[test]
fn inode_keys_differ() {
    assert_ne!(inode_key(1, 2), inode_key(2, 1));
    assert_eq!(inode_key(0, 7), 7);
}

#[test]
fn focus_covers_whole_components_only() {
    let focus = Some(b"/r/B".to_vec());
    assert!(Frontier::is_hot(&focus, &b"/r/B".to_vec()));
    assert!(Frontier::is_hot(&focus, &b"/r/B/x".to_vec()));
    assert!(!Frontier::is_hot(&focus, &b"/r/Bx".to_vec()));
    assert!(!Frontier::is_hot(&None, &b"/r/B".to_vec()));
}

#[test]
fn hard_links_in_different_directories_count_once() {
    let mut disk = Disk::new("/t");
    let mut meta = disk.meta(false, 5000);
    meta.nlink = 3;
    disk.mkdir("/t/a");
    disk.mkdir("/t/b");
    disk.put("/t/a/one", meta);
    disk.put("/t/b/two", meta);
    disk.put("/t/b/three", meta);
    let batches = disk.scan("/t", opts(1, 1), 0, None);
    let shared: Vec<(String, bool)> = batches
        .iter()
        .flat_map(|b| &b.nodes)
        .filter(|n| n.dir_id.is_none())
        .map(|n| (n.name.as_str().to_string(), n.shared))
        .collect();
    let expected = [("one", false), ("two", true), ("three", true)];
    assert_eq!(shared, expected.map(|(n, s)| (n.to_string(), s)).to_vec());
}

#[test]
fn directory_ids_are_given_out_once_in_a_scan() {
    let mut disk = Disk::new("/t");
    for d in ["/t/a", "/t/b", "/t/a/c", "/t/a/d", "/t/b/e", "/t/a/c/f"] {
        disk.mkdir(d);
    }
    let (_, mut workers) = start_at(b"/t".to_vec(), opts(1, 1), SCAN_ID_STRIDE);
    let mut ids = Vec::new();
    for d in ["/t", "/t/a", "/t/b", "/t/a/c"] {
        let first = workers.ledger.next_id;
        let (batch, _) = workers.ledger.listed(&workers.rules, 0, disk.read(d.as_bytes()));
        for n in &batch.nodes {
            let id = n.dir_id.unwrap();
            assert!(first <= id && id < workers.ledger.next_id);
            ids.push(id);
        }
    }
    assert_eq!(ids.len(), 6);
    assert_eq!(ids.iter().collect::<HashSet<_>>().len(), 6, "no id comes twice");
}
