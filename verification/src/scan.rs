//! Streaming filesystem scanner: what it makes of each directory that was read.
//!
//! Every directory we finish reading is published immediately as a [`Batch`], so the UI can render
//! and aggregate partial results long before the whole tree is walked.
use vstd::prelude::*;

use crossbeam_channel::{Receiver, Sender};
use std::collections::HashSet;

use crate::frontier;
use crate::frontier::{DirJob, Frontier, FrontierView, JobView};
use crate::glob;
use crate::model::{Excluded, NodeKind};
use crate::outside;
use crate::outside::Name;
use crate::tree::{BatchView, EntryView};
use crate::upkeep;
use crate::words;

verus! {

/// A single freshly-discovered filesystem entry, sent to the UI to be grafted into the tree.
pub struct NewNode {
    pub name: Name,
    pub kind: NodeKind,
    /// Logical file size in bytes (`st_size`).
    pub apparent: u64,
    /// Actual blocks consumed on disk in bytes (`st_blocks * 512`).
    pub disk: u64,
    pub dev: u64,
    pub ino: u64,
    pub hlink: bool,
    pub shared: bool,
    pub excluded: Excluded,
    pub read_error: bool,
    /// For directories we will recurse into: the id future batches use as `parent_id`.
    pub dir_id: Option<u64>,
}

impl View for NewNode {
    type V = EntryView;

    open spec fn view(&self) -> EntryView {
        EntryView {
            name: outside::name_chars(self.name),
            kind: self.kind,
            apparent: self.apparent as int,
            disk: self.disk as int,
            dev: self.dev,
            ino: self.ino,
            hlink: self.hlink,
            shared: self.shared,
            excluded: self.excluded,
            read_error: self.read_error,
            dir_id: self.dir_id,
        }
    }
}

/// One message per directory we finished reading.
pub struct Batch {
    pub parent_id: u64,
    pub nodes: Vec<NewNode>,
    /// Set if the directory could not be read (e.g. permission denied).
    pub error: Option<String>,
}

/// The entries that a list of found entries stands for.
pub open spec fn entry_views(nodes: Seq<NewNode>) -> Seq<EntryView> {
    Seq::new(nodes.len(), |i: int| nodes[i]@)
}

impl View for Batch {
    type V = BatchView;

    open spec fn view(&self) -> BatchView {
        BatchView {
            parent_id: self.parent_id,
            nodes: entry_views(self.nodes@),
            failed: self.error is Some,
        }
    }
}

/// The batches that a list of batches stands for.
pub open spec fn batch_views(batches: Seq<Batch>) -> Seq<BatchView> {
    Seq::new(batches.len(), |i: int| batches[i]@)
}

/// Id-space width of one scan generation. A scan started with `id_base` uses it for its root
/// directory and allocates further ids above it. Subtree rescans run concurrently with the
/// original scan, so each generation gets a disjoint id range (see [`start_at`]).
pub const SCAN_ID_STRIDE: u64 = 1_099_511_627_776;

/// Scan configuration.
pub struct Opts {
    pub threads: usize,
    /// Don't cross filesystem boundaries (ncdu `-x`).
    pub one_file_system: bool,
    /// Glob patterns matched against entry basenames (ncdu `--exclude`).
    pub excludes: Vec<String>,
    /// Device id of the root, used for `one_file_system`.
    pub root_dev: u64,
    /// `--older-than`: entries modified before this Unix time (seconds) are excluded.
    pub older_than: Option<i64>,
    /// `--newer-than`: entries modified after this Unix time (seconds) are excluded.
    pub newer_than: Option<i64>,
}

#[verifier::ext_equal]
pub struct OptsView {
    pub threads: usize,
    pub one_file_system: bool,
    pub excludes: Seq<Seq<char>>,
    pub root_dev: u64,
    pub older_than: Option<i64>,
    pub newer_than: Option<i64>,
}

impl View for Opts {
    type V = OptsView;

    open spec fn view(&self) -> OptsView {
        OptsView {
            threads: self.threads,
            one_file_system: self.one_file_system,
            excludes: words::text_views(self.excludes@),
            root_dev: self.root_dev,
            older_than: self.older_than,
            newer_than: self.newer_than,
        }
    }
}

impl Clone for Opts {
    fn clone(&self) -> (copy: Opts)
        ensures
            copy@ == self@,
    {
        let mut excludes: Vec<String> = Vec::new();
        let mut k: usize = 0;
        while k < self.excludes.len()
            invariant
                k <= self.excludes.len(),
                excludes.len() == k,
                forall|i: int| 0 <= i < k ==> #[trigger] excludes@[i]@ == self.excludes@[i]@,
            decreases self.excludes.len() - k,
        {
            excludes.push(self.excludes[k].clone());
            k += 1;
        }
        let copy = Opts {
            threads: self.threads,
            one_file_system: self.one_file_system,
            excludes,
            root_dev: self.root_dev,
            older_than: self.older_than,
            newer_than: self.newer_than,
        };
        assert(copy@.excludes =~= self@.excludes);
        copy
    }
}

/// The worker count for a number of cores, if it is known.
pub open spec fn threads_for(cores: Option<usize>) -> int {
    let wanted = 4 * match cores {
        Some(n) => n as int,
        None => 4,
    };
    if wanted < 4 {
        4
    } else if wanted > 64 {
        64
    } else {
        wanted
    }
}

/// Default worker count, given the number of cores if it is known. SSDs love a deep I/O queue, so
/// we oversubscribe cores heavily; the work is almost entirely waiting on `readdir`/`lstat`, not
/// CPU.
pub fn default_threads(cores: Option<usize>) -> (threads: usize)
    ensures
        threads == threads_for(cores),
{
    let cores: usize = match cores {
        Some(n) => n,
        None => 4,
    };
    if cores < 1 {
        4
    } else if cores > 16 {
        64
    } else {
        cores * 4
    }
}

// ---- One directory --------------------------------------------------------------------------------

/// What `lstat` says of an entry.
#[derive(Clone, Copy)]
pub struct Meta {
    pub is_dir: bool,
    pub is_symlink: bool,
    pub is_file: bool,
    pub dev: u64,
    pub ino: u64,
    pub len: u64,
    /// Blocks of 512 bytes.
    pub blocks: u64,
    /// Unix time in seconds.
    pub mtime: i64,
    pub nlink: u64,
}

/// One entry of a directory that was read. There is no `meta` if it could not be had.
pub struct Found {
    pub name: String,
    pub path: Vec<u8>,
    pub meta: Option<Meta>,
}

#[verifier::ext_equal]
pub struct FoundView {
    pub name: Seq<char>,
    pub path: Seq<u8>,
    pub meta: Option<Meta>,
}

impl View for Found {
    type V = FoundView;

    open spec fn view(&self) -> FoundView {
        FoundView { name: self.name@, path: self.path@, meta: self.meta }
    }
}

pub open spec fn found_views(found: Seq<Found>) -> Seq<FoundView> {
    Seq::new(found.len(), |k: int| found[k]@)
}

/// What the workers of a scan share: the next directory id, and the hard-linked inodes that were
/// already counted, so duplicates can be flagged.
pub struct Ledger {
    pub next_id: u64,
    pub seen: HashSet<u128>,
}

#[verifier::ext_equal]
pub struct LedgerView {
    pub next_id: int,
    pub seen: Set<u128>,
}

impl View for Ledger {
    type V = LedgerView;

    open spec fn view(&self) -> LedgerView {
        LedgerView { next_id: self.next_id as int, seen: self.seen@ }
    }
}

/// One number for a device and an inode.
pub open spec fn link_key(dev: u64, ino: u64) -> u128 {
    (dev * 18_446_744_073_709_551_616 + ino) as u128
}

/// Different inodes have different numbers.
pub proof fn law_link_keys_tell_inodes_apart(dev: u64, ino: u64, dev2: u64, ino2: u64)
    ensures
        link_key(dev, ino) == link_key(dev2, ino2) <==> dev == dev2 && ino == ino2,
{
}

pub fn inode_key(dev: u64, ino: u64) -> (key: u128)
    ensures
        key == link_key(dev, ino),
{
    (dev as u128) * 18_446_744_073_709_551_616 + (ino as u128)
}

pub open spec fn kind_of(m: Meta) -> NodeKind {
    if m.is_dir {
        NodeKind::Dir
    } else if m.is_symlink {
        NodeKind::Link
    } else if m.is_file {
        NodeKind::File
    } else {
        NodeKind::Other
    }
}

/// The name matches one of the patterns.
pub open spec fn excluded_by_name(name: Seq<char>, patterns: Seq<Seq<char>>) -> bool {
    exists|k: int| 0 <= k < patterns.len() && glob::glob(#[trigger] patterns[k], name)
}

/// Outside the `--older-than`/`--newer-than` window.
pub open spec fn excluded_by_age(mtime: i64, older_than: Option<i64>, newer_than: Option<i64>) -> bool {
    (older_than is Some && mtime < older_than->0) || (newer_than is Some && mtime > newer_than->0)
}

/// Why an entry is left out, if it is.
pub open spec fn exclusion(rules: OptsView, name: Seq<char>, m: Meta) -> Excluded {
    if excluded_by_name(name, rules.excludes) {
        Excluded::Pattern
    } else if excluded_by_age(m.mtime, rules.older_than, rules.newer_than) {
        Excluded::Age
    } else if rules.one_file_system && kind_of(m) == NodeKind::Dir && m.dev != rules.root_dev {
        Excluded::OtherFs
    } else {
        Excluded::No
    }
}

/// The entry is a file with more than one link.
pub open spec fn is_hlink(m: Meta) -> bool {
    kind_of(m) == NodeKind::File && m.nlink > 1
}

/// A hard link that counts, if its inode was not counted yet.
pub open spec fn link_candidate(rules: OptsView, f: FoundView) -> bool {
    f.meta is Some && is_hlink(f.meta->0) && exclusion(rules, f.name, f.meta->0) == Excluded::No
}

/// A directory to go into.
pub open spec fn to_be_read(rules: OptsView, f: FoundView) -> bool {
    f.meta is Some && kind_of(f.meta->0) == NodeKind::Dir && exclusion(rules, f.name, f.meta->0)
        == Excluded::No
}

/// What is reported of an entry.
pub open spec fn entry_of(rules: OptsView, l: LedgerView, f: FoundView) -> EntryView {
    match f.meta {
        None => EntryView {
            name: f.name,
            kind: NodeKind::Other,
            apparent: 0,
            disk: 0,
            dev: 0,
            ino: 0,
            hlink: false,
            shared: false,
            excluded: Excluded::No,
            read_error: true,
            dir_id: None,
        },
        Some(m) => EntryView {
            name: f.name,
            kind: kind_of(m),
            apparent: m.len as int,
            disk: m.blocks * 512,
            dev: m.dev,
            ino: m.ino,
            hlink: is_hlink(m),
            shared: link_candidate(rules, f) && l.seen.contains(link_key(m.dev, m.ino)),
            excluded: exclusion(rules, f.name, m),
            read_error: false,
            dir_id: if to_be_read(rules, f) {
                Some(l.next_id as u64)
            } else {
                None
            },
        },
    }
}

/// The ledger after an entry: a directory to go into takes an id, a hard link that counts is noted.
pub open spec fn ledger_after(rules: OptsView, l: LedgerView, f: FoundView) -> LedgerView {
    LedgerView {
        next_id: if to_be_read(rules, f) {
            l.next_id + 1
        } else {
            l.next_id
        },
        seen: if link_candidate(rules, f) {
            l.seen.insert(link_key(f.meta->0.dev, f.meta->0.ino))
        } else {
            l.seen
        },
    }
}

/// The ledger after a listing.
pub open spec fn ledger_after_all(rules: OptsView, l: LedgerView, found: Seq<FoundView>) -> LedgerView
    decreases found.len(),
{
    if found.len() == 0 {
        l
    } else {
        ledger_after(rules, ledger_after_all(rules, l, found.drop_last()), found.last())
    }
}

/// What is reported of a listing, entry by entry.
pub open spec fn listing(rules: OptsView, l: LedgerView, found: Seq<FoundView>) -> Seq<EntryView> {
    Seq::new(
        found.len(),
        |k: int| entry_of(rules, ledger_after_all(rules, l, found.take(k)), found[k]),
    )
}

/// The jobs that a listing makes for: one for each directory to go into.
pub open spec fn jobs_of(entries: Seq<EntryView>, found: Seq<FoundView>) -> Seq<JobView>
    decreases entries.len(),
{
    if entries.len() == 0 || found.len() != entries.len() {
        Seq::empty()
    } else {
        let before = jobs_of(entries.drop_last(), found.drop_last());
        match entries.last().dir_id {
            Some(id) => before.push(JobView { id, path: found.last().path }),
            None => before,
        }
    }
}

/// Whether one of the patterns matches the name.
pub fn name_excluded(name: &str, patterns: &Vec<String>) -> (yes: bool)
    ensures
        yes == excluded_by_name(name@, words::text_views(patterns@)),
{
    let ghost all = words::text_views(patterns@);
    let mut k: usize = 0;
    while k < patterns.len()
        invariant
            k <= patterns.len(),
            all == words::text_views(patterns@),
            forall|i: int| 0 <= i < k ==> !glob::glob(#[trigger] all[i], name@),
        decreases patterns.len() - k,
    {
        if glob::matches(patterns[k].as_str(), name) {
            assert(glob::glob(all[k as int], name@));
            return true;
        }
        k += 1;
    }
    false
}

/// Outside the `--older-than`/`--newer-than` window: `older_than` excludes entries modified
/// before its cutoff, `newer_than` excludes entries modified after it. Both flag the entry
/// like `--exclude` (visible, not descended into, not counted).
pub fn age_excluded(mtime: i64, older_than: Option<i64>, newer_than: Option<i64>) -> (yes: bool)
    ensures
        yes == excluded_by_age(mtime, older_than, newer_than),
{
    if let Some(cutoff) = older_than {
        if mtime < cutoff {
            return true;
        }
    }
    if let Some(cutoff) = newer_than {
        if mtime > cutoff {
            return true;
        }
    }
    false
}

fn classify(rules: &Opts, name: &str, m: &Meta) -> (found: (NodeKind, Excluded))
    ensures
        found.0 == kind_of(*m),
        found.1 == exclusion(rules@, name@, *m),
        found.0 == NodeKind::Dir <==> m.is_dir,
        m.is_symlink && !m.is_dir ==> found.0 == NodeKind::Link,
        found.1 == Excluded::Pattern <==> exists|k: int|
            0 <= k < rules@.excludes.len() && glob::glob(#[trigger] rules@.excludes[k], name@),
{
    let kind = if m.is_dir {
        NodeKind::Dir
    } else if m.is_symlink {
        NodeKind::Link
    } else if m.is_file {
        NodeKind::File
    } else {
        NodeKind::Other
    };
    let excluded = if name_excluded(name, &rules.excludes) {
        Excluded::Pattern
    } else if age_excluded(m.mtime, rules.older_than, rules.newer_than) {
        Excluded::Age
    } else if rules.one_file_system && kind == NodeKind::Dir && m.dev != rules.root_dev {
        Excluded::OtherFs
    } else {
        Excluded::No
    };
    (kind, excluded)
}

broadcast use vstd::std_specs::hash::group_hash_axioms;

impl Ledger {
    /// The ledger of a scan whose root has the id `id_base`.
    pub fn new(id_base: u64) -> (l: Ledger)
        requires
            id_base < u64::MAX,
        ensures
            l@ == (LedgerView { next_id: id_base + 1, seen: Set::empty() }),
    {
        let l = Ledger { next_id: id_base + 1, seen: HashSet::new() };
        assert(l@.seen =~= Set::empty());
        l
    }

    /// What is reported of one entry.
    fn report(&mut self, rules: &Opts, found: &Found) -> (node: NewNode)
        requires
            old(self).next_id < u64::MAX,
            found.meta is Some ==> found.meta->0.blocks * 512 <= u64::MAX,
        ensures
            node@ == entry_of(rules@, old(self)@, found@),
            final(self)@ == ledger_after(rules@, old(self)@, found@),
    {
        let ghost before = self@;
        let name = Name::new(found.name.as_str());
        let m = match found.meta {
            Some(m) => m,
            None => {
                // Unreadable entry: record it with a read error, zero size.
                return NewNode {
                    name,
                    kind: NodeKind::Other,
                    apparent: 0,
                    disk: 0,
                    dev: 0,
                    ino: 0,
                    hlink: false,
                    shared: false,
                    excluded: Excluded::No,
                    read_error: true,
                    dir_id: None,
                };
            },
        };
        // Determine exclusion / whether to recurse.
        let (kind, excluded) = classify(rules, found.name.as_str(), &m);
        let hlink = kind == NodeKind::File && m.nlink > 1;
        // Hard-link dedup: a file whose (dev, ino) we've already counted is "shared" and
        // contributes zero to totals (so the grand total counts each inode once).
        let mut shared = false;
        if hlink && excluded == Excluded::No {
            let key: u128 = inode_key(m.dev, m.ino);
            shared = !self.seen.insert(key);
        }
        let dir_id = if kind == NodeKind::Dir && excluded == Excluded::No {
            let id: u64 = self.next_id;
            self.next_id = id + 1;
            Some(id)
        } else {
            None
        };
        let node = NewNode {
            name,
            kind,
            apparent: m.len,
            disk: m.blocks * 512,
            dev: m.dev,
            ino: m.ino,
            hlink,
            shared,
            excluded,
            read_error: false,
            dir_id,
        };
        assert(self@.seen =~= ledger_after(rules@, before, found@).seen);
        node
    }

    /// What becomes of a directory that was read, or could not be: the batch to publish, and the
    /// jobs for the subdirectories to go into.
    pub fn listed(&mut self, rules: &Opts, id: u64, read: Result<Vec<Found>, String>) -> (out: (
        Batch,
        Vec<DirJob>,
    ))
        requires
            read is Ok ==> old(self).next_id + read->Ok_0@.len() <= u64::MAX,
            read is Ok ==> forall|k: int|
                0 <= k < read->Ok_0@.len() ==> ((#[trigger] read->Ok_0@[k]).meta is Some
                    ==> read->Ok_0@[k].meta->0.blocks * 512 <= u64::MAX),
        ensures
            out.0.parent_id == id,
            upkeep::valid_batch(out.0@),
            match read {
                Ok(found) => {
                    &&& out.0@.nodes == listing(rules@, old(self)@, found_views(found@))
                    &&& out.0.error is None
                    &&& frontier::job_views(out.1@) == jobs_of(out.0@.nodes, found_views(found@))
                    &&& final(self)@ == ledger_after_all(rules@, old(self)@, found_views(found@))
                },
                Err(why) => {
                    &&& out.0@.nodes == Seq::<EntryView>::empty()
                    &&& out.0.error is Some && out.0.error->0@ == why@
                    &&& out.1@ == Seq::<DirJob>::empty()
                    &&& final(self)@ == old(self)@
                },
            },
    {
        let found = match read {
            Ok(found) => found,
            Err(why) => {
                let batch = Batch { parent_id: id, nodes: Vec::new(), error: Some(why) };
                assert(batch@.nodes =~= Seq::empty());
                return (batch, Vec::new());
            },
        };
        let ghost start = self@;
        let ghost all = found_views(found@);
        let ghost entries = listing(rules@, start, all);
        let ghost given = found@;
        let mut nodes: Vec<NewNode> = Vec::new();
        let mut jobs: Vec<DirJob> = Vec::new();
        proof {
            assert(all.take(0) =~= Seq::empty());
            assert(entry_views(nodes@) =~= entries.take(0));
            assert(frontier::job_views(jobs@) =~= Seq::empty());
        }
        for f in it: found
            invariant
                it.seq() == given,
                all == found_views(given),
                entries == listing(rules@, start, all),
                entry_views(nodes@) == entries.take(it.index()),
                frontier::job_views(jobs@) == jobs_of(entries.take(it.index()), all.take(it.index())),
                self@ == ledger_after_all(rules@, start, all.take(it.index())),
                self.next_id <= start.next_id + it.index(),
                start.next_id + given.len() <= u64::MAX,
                forall|k: int|
                    0 <= k < given.len() ==> ((#[trigger] given[k]).meta is Some
                        ==> given[k].meta->0.blocks * 512 <= u64::MAX),
        {
            let ghost k = it.index();
            proof {
                assert(f == given[k]);
                assert(all[k] == f@);
                assert(all.take(k + 1).drop_last() =~= all.take(k));
                assert(entries.take(k + 1).drop_last() =~= entries.take(k));
                assert(entries.take(k + 1).last() == entries[k]);
                assert(all.take(k + 1).last() == all[k]);
            }
            let node = self.report(rules, &f);
            let ghost was = entry_views(nodes@);
            let ghost jobs_before = frontier::job_views(jobs@);
            let dir_id = node.dir_id;
            nodes.push(node);
            assert(entry_views(nodes@) =~= was.push(node@));
            assert(entry_views(nodes@) =~= entries.take(k + 1));
            if let Some(id) = dir_id {
                let ghost job = JobView { id, path: f.path@ };
                jobs.push(DirJob { id, path: f.path });
                assert(frontier::job_views(jobs@) =~= jobs_before.push(job));
            }
        }
        proof {
            assert(all.take(given.len() as int) =~= all);
            assert(entries.take(given.len() as int) =~= entries);
            assert forall|k: int| 0 <= k < entries.len() implies upkeep::valid_entry(
                #[trigger] entries[k],
            ) by {
                assert(given[k].meta == all[k].meta);
            }
        }
        (Batch { parent_id: id, nodes, error: None }, jobs)
    }

    /// Publish what a directory that was read holds: the batch that [`Ledger::listed`] makes goes to
    /// `events`. Returns the jobs to queue then. As its children are published before its
    /// subdirectories are queued, a node's creation batch reaches the UI before any of its
    /// descendants' batches, and the tree is grafted parent-first.
    ///
    /// The contract says what becomes of the ledger and which jobs there are. It leaves the sending
    /// open: what a channel holds is not modelled, so nothing is said of what goes into it. The batch
    /// itself is stated where it is made, in [`Ledger::listed`].
    pub fn process(
        &mut self,
        rules: &Opts,
        events: &Sender<Batch>,
        id: u64,
        read: Result<Vec<Found>, String>,
    ) -> (jobs: Vec<DirJob>)
        requires
            read is Ok ==> old(self).next_id + read->Ok_0@.len() <= u64::MAX,
            read is Ok ==> forall|k: int|
                0 <= k < read->Ok_0@.len() ==> ((#[trigger] read->Ok_0@[k]).meta is Some
                    ==> read->Ok_0@[k].meta->0.blocks * 512 <= u64::MAX),
        ensures
            match read {
                Ok(found) => {
                    &&& frontier::job_views(jobs@) == jobs_of(
                        listing(rules@, old(self)@, found_views(found@)),
                        found_views(found@),
                    )
                    &&& final(self)@ == ledger_after_all(rules@, old(self)@, found_views(found@))
                },
                Err(_) => jobs@ == Seq::<DirJob>::empty() && final(self)@ == old(self)@,
            },
    {
        let (batch, jobs) = self.listed(rules, id, read);
        outside::send(events, batch);
        jobs
    }
}

// ---- A scan -----------------------------------------------------------------------------------------

/// What the UI steers a scan by. It does not hold the event `Sender`, so the channel disconnects
/// when the workers finish even while the UI keeps it.
pub struct ScanControl {
    pub frontier: Frontier,
}

impl ScanControl {
    /// Prioritize the subtree rooted at `path` (the directory the user navigated into). Pending
    /// jobs are re-partitioned so anything under `path` is scanned before unrelated branches.
    pub fn set_focus(&mut self, path: Option<Vec<u8>>)
        ensures
            final(self).frontier@ == frontier::refocused(
                old(self).frontier@,
                match path {
                    Some(path) => Some(path@),
                    None => None,
                },
            ),
            frontier::sorted_by_focus(final(self).frontier@),
    {
        self.frontier.refocus(path);
    }
}

/// The batch stream and the steering handle of a scan.
pub struct Scan {
    pub events: Receiver<Batch>,
    pub control: ScanControl,
}

/// What the workers of a scan need: each takes jobs from the scan's frontier, reads the directory,
/// and has [`Ledger::process`] publish it.
pub struct Workers {
    pub events: Sender<Batch>,
    pub ledger: Ledger,
    pub rules: Opts,
}

/// The jobs of a scan that has just started: its root is to be read.
pub open spec fn fresh_frontier(root: Seq<u8>, id_base: u64) -> FrontierView {
    FrontierView {
        focus: None,
        hot: Seq::empty(),
        cold: seq![JobView { id: id_base, path: root }],
        pending: 1,
        done: false,
    }
}

/// The ledger of a scan that has just started: its root has the first id, and no inode was seen.
pub open spec fn fresh_ledger(id_base: u64) -> LedgerView {
    LedgerView { next_id: id_base + 1, seen: Set::empty() }
}

/// Start scanning `root` (already assigned tree id 0).
/// The event channel disconnects when the scan is done.
pub fn start(root: Vec<u8>, opts: Opts) -> (started: (Scan, Workers))
    ensures
        started.0.control.frontier@ == fresh_frontier(root@, 0),
        started.1.ledger@ == fresh_ledger(0),
        started.1.rules@ == opts@,
{
    start_at(root, opts, 0)
}

/// Start scanning `root`, treating it as tree id `id_base`: a whole-tree scan passes 0, while
/// a subtree rescan passes its generation's base (a multiple of [`SCAN_ID_STRIDE`]) so its ids
/// never collide with another scan streaming into the same tree.
///
/// The two ends that are handed out are those of one new channel; the contract leaves that open, as
/// what a channel connects is not modelled.
pub fn start_at(root: Vec<u8>, opts: Opts, id_base: u64) -> (started: (Scan, Workers))
    requires
        id_base < u64::MAX,
    ensures
        started.0.control.frontier@ == fresh_frontier(root@, id_base),
        frontier::accounts(started.0.control.frontier@, 0),
        started.1.ledger@ == fresh_ledger(id_base),
        started.1.rules@ == opts@,
{
    let (sender, receiver) = crossbeam_channel::unbounded();
    let control = ScanControl { frontier: Frontier::new(root, id_base) };
    let scan = Scan { events: receiver, control };
    let workers = Workers { events: sender, ledger: Ledger::new(id_base), rules: opts };
    (scan, workers)
}

// ---- Laws -------------------------------------------------------------------------------------------

/// What a listing leaves in the ledger only grows.
proof fn lemma_ledger_grows(rules: OptsView, l: LedgerView, found: Seq<FoundView>, k: int)
    requires
        0 <= k <= found.len(),
    ensures
        ledger_after_all(rules, l, found.take(k)).next_id <= ledger_after_all(
            rules,
            l,
            found,
        ).next_id,
        l.next_id <= ledger_after_all(rules, l, found).next_id <= l.next_id + found.len(),
        ledger_after_all(rules, l, found.take(k)).seen.subset_of(
            ledger_after_all(rules, l, found).seen,
        ),
    decreases found.len(),
{
    if k == found.len() {
        assert(found.take(k) =~= found);
        if found.len() > 0 {
            lemma_ledger_grows(rules, l, found.drop_last(), k - 1);
        }
    } else {
        lemma_ledger_grows(rules, l, found.drop_last(), k);
        assert(found.drop_last().take(k) =~= found.take(k));
    }
}

/// The ledger after one listing and another, one directory each.
pub open spec fn ledger_through(rules: OptsView, l: LedgerView, listings: Seq<Seq<FoundView>>) -> LedgerView
    decreases listings.len(),
{
    if listings.len() == 0 {
        l
    } else {
        ledger_after_all(rules, ledger_through(rules, l, listings.drop_last()), listings.last())
    }
}

/// What is reported of the listing at place `a`.
pub open spec fn reported(
    rules: OptsView,
    l: LedgerView,
    listings: Seq<Seq<FoundView>>,
    a: int,
) -> Seq<EntryView> {
    listing(rules, ledger_through(rules, l, listings.take(a)), listings[a])
}

/// The entry `i` of listing `a` comes before the entry `j` of listing `b`.
pub open spec fn comes_before(a: int, i: int, b: int, j: int) -> bool {
    a < b || (a == b && i < j)
}

pub open spec fn key_of(f: FoundView) -> u128 {
    link_key(f.meta->0.dev, f.meta->0.ino)
}

/// What listings leave in the ledger only grows.
proof fn lemma_ledger_grows_on(
    rules: OptsView,
    l: LedgerView,
    listings: Seq<Seq<FoundView>>,
    a: int,
)
    requires
        0 <= a <= listings.len(),
    ensures
        l.next_id <= ledger_through(rules, l, listings.take(a)).next_id <= ledger_through(
            rules,
            l,
            listings,
        ).next_id,
        l.seen.subset_of(ledger_through(rules, l, listings.take(a)).seen),
        ledger_through(rules, l, listings.take(a)).seen.subset_of(
            ledger_through(rules, l, listings).seen,
        ),
    decreases listings.len(),
{
    if listings.len() == 0 {
        assert(listings.take(a) =~= listings);
    } else {
        let before = listings.drop_last();
        let mid = ledger_through(rules, l, before);
        lemma_ledger_grows(rules, mid, listings.last(), 0);
        assert(listings.last().take(0) =~= Seq::empty());
        if a == listings.len() {
            assert(listings.take(a) =~= listings);
            lemma_ledger_grows_on(rules, l, before, before.len() as int);
            assert(before.take(before.len() as int) =~= before);
        } else {
            lemma_ledger_grows_on(rules, l, before, a);
            assert(before.take(a) =~= listings.take(a));
        }
    }
}

/// The ledger after a listing is that before the next one.
proof fn lemma_ledger_step(rules: OptsView, l: LedgerView, listings: Seq<Seq<FoundView>>, a: int)
    requires
        0 <= a < listings.len(),
    ensures
        ledger_through(rules, l, listings.take(a + 1)) == ledger_after_all(
            rules,
            ledger_through(rules, l, listings.take(a)),
            listings[a],
        ),
{
    assert(listings.take(a + 1).drop_last() =~= listings.take(a));
    assert(listings.take(a + 1).last() == listings[a]);
}

/// The ids of one listing.
proof fn lemma_ids_of_one(rules: OptsView, l: LedgerView, found: Seq<FoundView>, i: int)
    requires
        0 <= i < found.len(),
        0 <= l.next_id,
        ledger_after_all(rules, l, found).next_id <= u64::MAX,
    ensures
        ({
            let entries = listing(rules, l, found);
            entries[i].dir_id is Some ==> {
                &&& l.next_id <= entries[i].dir_id->0 < ledger_after_all(rules, l, found).next_id
                &&& entries[i].dir_id->0 == ledger_after_all(rules, l, found.take(i)).next_id
                &&& entries[i].dir_id->0 + 1 == ledger_after_all(rules, l, found.take(i + 1)).next_id
            }
        }),
{
    lemma_ledger_grows(rules, l, found, i + 1);
    lemma_ledger_grows(rules, l, found.take(i), 0);
    assert(found.take(i).take(0) =~= Seq::empty());
    assert(found.take(i + 1).drop_last() =~= found.take(i));
    assert(found.take(i + 1).last() == found[i]);
}

/// Directory ids are given out once: those of all the listings of a scan are distinct, are taken from
/// the ledger's next one on, and are used up afterwards.
pub proof fn law_directory_ids_are_fresh(
    rules: OptsView,
    l: LedgerView,
    listings: Seq<Seq<FoundView>>,
    a: int,
    i: int,
    b: int,
    j: int,
)
    requires
        0 <= l.next_id,
        ledger_through(rules, l, listings).next_id <= u64::MAX,
        0 <= a < listings.len(),
        0 <= i < listings[a].len(),
        0 <= b < listings.len(),
        0 <= j < listings[b].len(),
    ensures
        reported(rules, l, listings, a)[i].dir_id is Some ==> l.next_id <= reported(
            rules,
            l,
            listings,
            a,
        )[i].dir_id->0 < ledger_through(rules, l, listings).next_id,
        (a, i) != (b, j) && reported(rules, l, listings, a)[i].dir_id is Some ==> reported(
            rules,
            l,
            listings,
            a,
        )[i].dir_id != reported(rules, l, listings, b)[j].dir_id,
{
    lemma_id_place(rules, l, listings, a, i);
    lemma_id_place(rules, l, listings, b, j);
    if comes_before(a, i, b, j) {
        lemma_ids_ascend(rules, l, listings, a, i, b, j);
    } else if (a, i) != (b, j) {
        lemma_ids_ascend(rules, l, listings, b, j, a, i);
    }
}

proof fn lemma_id_place(
    rules: OptsView,
    l: LedgerView,
    listings: Seq<Seq<FoundView>>,
    a: int,
    i: int,
)
    requires
        0 <= l.next_id,
        ledger_through(rules, l, listings).next_id <= u64::MAX,
        0 <= a < listings.len(),
        0 <= i < listings[a].len(),
    ensures
        reported(rules, l, listings, a)[i].dir_id is Some ==> {
            &&& ledger_through(rules, l, listings.take(a)).next_id <= reported(
                rules,
                l,
                listings,
                a,
            )[i].dir_id->0 < ledger_through(rules, l, listings.take(a + 1)).next_id
            &&& l.next_id <= reported(rules, l, listings, a)[i].dir_id->0 < ledger_through(
                rules,
                l,
                listings,
            ).next_id
        },
{
    lemma_ledger_grows_on(rules, l, listings, a);
    lemma_ledger_grows_on(rules, l, listings, a + 1);
    lemma_ledger_step(rules, l, listings, a);
    lemma_ids_of_one(rules, ledger_through(rules, l, listings.take(a)), listings[a], i);
}

proof fn lemma_ids_ascend(
    rules: OptsView,
    l: LedgerView,
    listings: Seq<Seq<FoundView>>,
    a: int,
    i: int,
    b: int,
    j: int,
)
    requires
        0 <= l.next_id,
        ledger_through(rules, l, listings).next_id <= u64::MAX,
        0 <= a < listings.len(),
        0 <= i < listings[a].len(),
        0 <= b < listings.len(),
        0 <= j < listings[b].len(),
        comes_before(a, i, b, j),
    ensures
        reported(rules, l, listings, a)[i].dir_id is Some && reported(
            rules,
            l,
            listings,
            b,
        )[j].dir_id is Some ==> reported(rules, l, listings, a)[i].dir_id->0 < reported(
            rules,
            l,
            listings,
            b,
        )[j].dir_id->0,
{
    lemma_id_place(rules, l, listings, a, i);
    lemma_id_place(rules, l, listings, b, j);
    if a < b {
        lemma_ledger_grows_on(rules, l, listings.take(b), a + 1);
        assert(listings.take(b).take(a + 1) =~= listings.take(a + 1));
    } else {
        let here = ledger_through(rules, l, listings.take(a));
        let found = listings[a];
        lemma_ledger_grows_on(rules, l, listings, a);
        lemma_ledger_grows_on(rules, l, listings, a + 1);
        lemma_ledger_step(rules, l, listings, a);
        lemma_ids_of_one(rules, here, found, i);
        lemma_ids_of_one(rules, here, found, j);
        lemma_ledger_grows(rules, here, found.take(j), i + 1);
        assert(found.take(j).take(i + 1) =~= found.take(i + 1));
    }
}

/// A hard link whose inode was counted before is marked as shared, and the inode of every hard link that
/// would count is noted.
proof fn lemma_links_of_one(rules: OptsView, l: LedgerView, found: Seq<FoundView>, j: int)
    requires
        0 <= j < found.len(),
        link_candidate(rules, found[j]),
    ensures
        listing(rules, l, found)[j].shared == ledger_after_all(
            rules,
            l,
            found.take(j),
        ).seen.contains(key_of(found[j])),
        l.seen.contains(key_of(found[j])) ==> listing(rules, l, found)[j].shared,
        ledger_after_all(rules, l, found.take(j + 1)).seen.contains(key_of(found[j])),
        ledger_after_all(rules, l, found).seen.contains(key_of(found[j])),
{
    assert(found.take(j + 1).drop_last() =~= found.take(j));
    assert(found.take(j + 1).last() == found[j]);
    lemma_ledger_grows(rules, l, found, j + 1);
    lemma_ledger_grows(rules, l, found.take(j), 0);
    assert(found.take(j).take(0) =~= Seq::empty());
}

/// Each inode counts once in a scan: of two hard links that would count and that stand for the same
/// inode, in one directory or in two, the later one is marked as shared. So is every one whose inode was
/// counted before, and the inode of each is noted.
pub proof fn law_hard_links_count_once(
    rules: OptsView,
    l: LedgerView,
    listings: Seq<Seq<FoundView>>,
    a: int,
    i: int,
    b: int,
    j: int,
)
    requires
        0 <= a < listings.len(),
        0 <= i < listings[a].len(),
        0 <= b < listings.len(),
        0 <= j < listings[b].len(),
        link_candidate(rules, listings[b][j]),
    ensures
        comes_before(a, i, b, j) && link_candidate(rules, listings[a][i]) && key_of(listings[a][i])
            == key_of(listings[b][j]) ==> reported(rules, l, listings, b)[j].shared,
        l.seen.contains(key_of(listings[b][j])) ==> reported(rules, l, listings, b)[j].shared,
        ledger_through(rules, l, listings).seen.contains(key_of(listings[b][j])),
{
    let here = ledger_through(rules, l, listings.take(b));
    lemma_ledger_grows_on(rules, l, listings, b);
    lemma_ledger_grows_on(rules, l, listings, b + 1);
    lemma_ledger_step(rules, l, listings, b);
    lemma_links_of_one(rules, here, listings[b], j);
    if comes_before(a, i, b, j) && link_candidate(rules, listings[a][i]) && key_of(listings[a][i])
        == key_of(listings[b][j]) {
        let then = ledger_through(rules, l, listings.take(a));
        lemma_links_of_one(rules, then, listings[a], i);
        if a < b {
            lemma_ledger_step(rules, l, listings, a);
            lemma_ledger_grows_on(rules, l, listings.take(b), a + 1);
            assert(listings.take(b).take(a + 1) =~= listings.take(a + 1));
        } else {
            let found = listings[b];
            lemma_ledger_grows(rules, here, found.take(j), i + 1);
            assert(found.take(j).take(i + 1) =~= found.take(i + 1));
        }
    }
}

/// An inode that was not counted before, and has no earlier link that would count in any directory of the
/// scan, counts.
pub proof fn law_first_hard_link_counts(
    rules: OptsView,
    l: LedgerView,
    listings: Seq<Seq<FoundView>>,
    b: int,
    j: int,
)
    requires
        0 <= b < listings.len(),
        0 <= j < listings[b].len(),
        link_candidate(rules, listings[b][j]),
        !l.seen.contains(key_of(listings[b][j])),
        forall|a: int, i: int|
            0 <= a < listings.len() && 0 <= i < listings[a].len() && comes_before(a, i, b, j)
                && link_candidate(rules, #[trigger] listings[a][i]) ==> key_of(listings[a][i])
                != key_of(listings[b][j]),
    ensures
        !reported(rules, l, listings, b)[j].shared,
{
    let key = key_of(listings[b][j]);
    assert forall|a: int, i: int| 0 <= a < b && 0 <= i < listings[a].len() && link_candidate(
        rules,
        #[trigger] listings[a][i],
    ) implies key_of(listings[a][i]) != key by {
        assert(comes_before(a, i, b, j));
    }
    lemma_not_seen_before(rules, l, listings, key, b, b);
    let here = ledger_through(rules, l, listings.take(b));
    let found = listings[b];
    assert forall|i: int| 0 <= i < j && link_candidate(rules, #[trigger] found[i]) implies key_of(
        found[i],
    ) != key by {
        assert(comes_before(b, i, b, j));
        assert(listings[b][i] == found[i]);
    }
    lemma_not_seen(rules, here, found, key, j);
    lemma_links_of_one(rules, here, found, j);
}

proof fn lemma_not_seen(
    rules: OptsView,
    l: LedgerView,
    found: Seq<FoundView>,
    key: u128,
    k: int,
)
    requires
        0 <= k <= found.len(),
        !l.seen.contains(key),
        forall|i: int|
            0 <= i < k && link_candidate(rules, #[trigger] found[i]) ==> key_of(found[i]) != key,
    ensures
        !ledger_after_all(rules, l, found.take(k)).seen.contains(key),
    decreases k,
{
    if k > 0 {
        lemma_not_seen(rules, l, found, key, k - 1);
        assert(found.take(k).drop_last() =~= found.take(k - 1));
        assert(found.take(k).last() == found[k - 1]);
    } else {
        assert(found.take(0) =~= Seq::empty());
    }
}

proof fn lemma_not_seen_before(
    rules: OptsView,
    l: LedgerView,
    listings: Seq<Seq<FoundView>>,
    key: u128,
    b: int,
    k: int,
)
    requires
        0 <= k <= b <= listings.len(),
        !l.seen.contains(key),
        forall|a: int, i: int|
            0 <= a < b && 0 <= i < listings[a].len() && link_candidate(
                rules,
                #[trigger] listings[a][i],
            ) ==> key_of(listings[a][i]) != key,
    ensures
        !ledger_through(rules, l, listings.take(k)).seen.contains(key),
    decreases k,
{
    if k > 0 {
        lemma_not_seen_before(rules, l, listings, key, b, k - 1);
        lemma_ledger_step(rules, l, listings, k - 1);
        let found = listings[k - 1];
        assert forall|i: int| 0 <= i < found.len() && link_candidate(
            rules,
            #[trigger] found[i],
        ) implies key_of(found[i]) != key by {
            assert(listings[k - 1][i] == found[i]);
        }
        lemma_not_seen(
            rules,
            ledger_through(rules, l, listings.take(k - 1)),
            found,
            key,
            found.len() as int,
        );
        assert(found.take(found.len() as int) =~= found);
    } else {
        assert(listings.take(0) =~= Seq::empty());
    }
}

/// An excluded entry is reported, but not gone into, and does not count.
pub proof fn law_excluded_entries_do_not_count(rules: OptsView, l: LedgerView, f: FoundView)
    requires
        f.meta is Some,
        exclusion(rules, f.name, f.meta->0) != Excluded::No,
    ensures
        entry_of(rules, l, f).excluded != Excluded::No,
        entry_of(rules, l, f).dir_id is None,
        !crate::tree::entry_counts(entry_of(rules, l, f)),
        ledger_after(rules, l, f) == l,
{
}

/// Ids of different scan generations are different as long as no scan gives out as many ids as a
/// generation is wide.
pub proof fn law_generations_do_not_meet(a: u64, b: u64, x: int, y: int)
    requires
        a != b,
        a % SCAN_ID_STRIDE == 0,
        b % SCAN_ID_STRIDE == 0,
        a <= x < a + SCAN_ID_STRIDE,
        b <= y < b + SCAN_ID_STRIDE,
    ensures
        x != y,
{
}

} // verus!
