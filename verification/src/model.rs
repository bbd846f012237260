//! The in-memory tree owned by the UI thread.
//!
//! The scanner streams [`Batch`]es of newly discovered entries; [`Tree::apply`] grafts them in
//! and propagates their sizes up every ancestor so totals are always live and correct, even
//! mid-scan. Batches that arrive before their parent node exists (which channel ordering should
//! prevent, but we don't rely on it) are buffered and flushed once the parent appears.
//!
//! Sizes that don't "count" — hard-link duplicates and excluded entries — keep their real own
//! size for display but contribute zero to the aggregated totals, so a tree's grand total
//! dedupes hard links and ignores excluded subtrees, matching ncdu.
//!
//! Memory: there is one [`Node`] per filesystem entry, so the struct is kept lean. Names use
//! `CompactString` (inlined when at most 24 bytes, the common case, so most entries allocate
//! nothing). A node's *own* size is derived from its children rather than stored, and the
//! scan-only `dir_index` map is released once scanning finishes.
use vstd::prelude::*;

use std::collections::HashMap;

use crate::scan::{Batch, NewNode};
use crate::below;
use crate::edit;
use crate::outside;
use crate::outside::Name;
use crate::rows;
use crate::scan;
use crate::text;
use crate::totals;
use crate::tree;
use crate::walk;
use crate::tree::{BatchView, EntryView, NodeView, ShiftView, TaskView, TreeView};

verus! {

pub type NodeIdx = usize;

#[derive(Clone, Copy, PartialEq, Eq, Structural, Debug)]
pub enum NodeKind {
    Dir,
    File,
    Link,
    /// Anything else: socket, fifo, device, ...
    Other,
}

/// Why an entry was not descended into (and excluded from totals).
#[derive(Clone, Copy, PartialEq, Eq, Structural, Debug)]
pub enum Excluded {
    No,
    /// Matched a `--exclude` pattern.
    Pattern,
    /// On a different filesystem and `-x` was given.
    OtherFs,
    /// Modified outside the `--older-than`/`--newer-than` window.
    Age,
}

pub struct Node {
    pub name: Name,
    pub kind: NodeKind,
    /// Aggregated, *counted* logical size (own entry + everything beneath it that counts).
    pub apparent: u64,
    /// Aggregated, *counted* on-disk size.
    pub disk: u64,
    pub parent: Option<NodeIdx>,
    pub children: Vec<NodeIdx>,
    pub dev: u64,
    pub ino: u64,
    /// Link count > 1 (a hard-link candidate).
    pub hlink: bool,
    /// A hard-link whose inode was already counted elsewhere — excluded from totals.
    pub shared: bool,
    pub excluded: Excluded,
    pub read_error: bool,
    /// True once this directory's own `readdir` has been applied.
    pub scanned: bool,
    /// Number of directories in this subtree (including self) not yet `readdir`-ed.
    /// A subtree is fully scanned — and only then safe to delete — when this hits 0.
    pub unscanned: u32,
}

impl View for Node {
    type V = NodeView;

    open spec fn view(&self) -> NodeView {
        NodeView {
            name: outside::name_chars(self.name),
            kind: self.kind,
            apparent: self.apparent as int,
            disk: self.disk as int,
            parent: self.parent,
            children: self.children@,
            dev: self.dev,
            ino: self.ino,
            hlink: self.hlink,
            shared: self.shared,
            excluded: self.excluded,
            read_error: self.read_error,
            scanned: self.scanned,
            unscanned: self.unscanned as int,
        }
    }
}

/// The entries that a list of nodes stands for.
pub open spec fn node_views(nodes: Seq<Node>) -> Seq<NodeView> {
    Seq::new(nodes.len(), |i: int| nodes[i]@)
}

impl Node {
    pub fn is_dir(&self) -> (yes: bool)
        ensures
            yes == tree::is_dir(self@),
    {
        match self.kind {
            NodeKind::Dir => true,
            _ => false,
        }
    }

    /// Does this entry contribute to aggregated totals?
    pub fn counts(&self) -> (yes: bool)
        ensures
            yes == tree::counts(self@),
    {
        !self.shared && self.excluded == Excluded::No
    }
}

pub struct Tree {
    pub nodes: Vec<Node>,
    pub root: NodeIdx,
    /// Maps a scanner directory id to its node index. Used only while scanning; released by
    /// [`Tree::finish_scan`].
    pub dir_index: HashMap<u64, NodeIdx>,
    /// Batches whose parent hasn't been created yet, keyed by `parent_id`.
    pub orphans: HashMap<u64, Vec<Batch>>,
    pub total_files: u64,
    pub total_dirs: u64,
}

/// One thing left to do while a batch is being applied.
enum Task {
    Graft(NodeIdx, Batch),
    Flush(u64),
}

impl View for Task {
    type V = TaskView;

    closed spec fn view(&self) -> TaskView {
        match self {
            Task::Graft(p, b) => TaskView::Graft(*p, b@),
            Task::Flush(id) => TaskView::Flush(*id),
        }
    }
}

spec fn task_views(work: Seq<Task>) -> Seq<TaskView> {
    Seq::new(work.len(), |i: int| work[i]@)
}

/// What is added to, and taken from, the aggregates along the way up.
struct Shift {
    add_apparent: u64,
    add_disk: u64,
    sub_apparent: u64,
    sub_disk: u64,
    read: u32,
    found: u32,
}

impl View for Shift {
    type V = ShiftView;

    closed spec fn view(&self) -> ShiftView {
        ShiftView {
            add_apparent: self.add_apparent as int,
            add_disk: self.add_disk as int,
            sub_apparent: self.sub_apparent as int,
            sub_disk: self.sub_disk as int,
            read: self.read as int,
            found: self.found as int,
        }
    }
}

impl View for Tree {
    type V = TreeView;

    open spec fn view(&self) -> TreeView {
        TreeView {
            nodes: node_views(self.nodes@),
            root: self.root,
            dirs: self.known_dirs(),
            orphans: self.waiting_batches(),
            total_files: self.total_files as int,
            total_dirs: self.total_dirs as int,
        }
    }
}

broadcast use vstd::std_specs::hash::group_hash_axioms;

impl Tree {
    /// The directory index.
    pub open spec fn known_dirs(&self) -> Map<u64, usize> {
        self.dir_index@
    }

    /// The batches that wait for a directory.
    pub open spec fn waiting_batches(&self) -> Map<u64, Seq<BatchView>> {
        self.orphans@.map_values(|batches: Vec<Batch>| scan::batch_views(batches@))
    }

    /// The tree is well formed.
    pub open spec fn wf(&self) -> bool {
        tree::well_formed(self@)
    }

    /// Shift the aggregates of `start` and of every directory above it: the sizes only up to the first
    /// directory that does not count.
    fn adjust(&mut self, start: NodeIdx, shift: Shift)
        requires
            tree::well_linked(old(self)@.nodes),
            start < old(self).nodes.len(),
            shift.add_apparent == 0 || shift.sub_apparent == 0,
            shift.add_disk == 0 || shift.sub_disk == 0,
            tree::fits(tree::lifted(old(self)@.nodes, start as int, shift@)),
        ensures
            final(self)@ == (TreeView {
                nodes: tree::lifted(old(self)@.nodes, start as int, shift@),
                ..old(self)@
            }),
    {
        let ghost nodes = self@.nodes;
        let ghost up = tree::lifted(nodes, start as int, shift@);
        let mut cur: Option<NodeIdx> = Some(start);
        let mut counting = true;
        assert forall|j: int| 0 <= j < nodes.len() implies (#[trigger] self.nodes[j])@
            == if tree::above(nodes, j, start as int) {
            nodes[j]
        } else {
            up[j]
        } by {
            tree::lemma_charged_above(nodes, j, start as int);
        }
        while cur.is_some()
            invariant
                tree::well_linked(nodes),
                start < nodes.len(),
                cur is Some ==> counting == tree::charged(nodes, cur->0 as int, start as int),
                nodes.len() == self.nodes.len(),
                nodes == old(self)@.nodes,
                up == tree::lifted(nodes, start as int, shift@),
                tree::fits(up),
                shift.add_apparent == 0 || shift.sub_apparent == 0,
                shift.add_disk == 0 || shift.sub_disk == 0,
                cur is Some ==> cur->0 < nodes.len() && tree::above(nodes, cur->0 as int, start as int),
                forall|j: int|
                    0 <= j < nodes.len() ==> (#[trigger] self.nodes[j])@ == if cur is Some && tree::above(
                        nodes,
                        j,
                        cur->0 as int,
                    ) {
                        nodes[j]
                    } else {
                        up[j]
                    },
                self.root == old(self).root,
                self.dir_index == old(self).dir_index,
                self.orphans == old(self).orphans,
                self.total_files == old(self).total_files,
                self.total_dirs == old(self).total_dirs,
            decreases
                    if cur is Some {
                        cur->0 + 1
                    } else {
                        0
                    },
        {
            let i: usize = cur.unwrap();
            proof {
                assert(self.nodes[i as int]@ == nodes[i as int]);
                assert(up[i as int] == if counting {
                    tree::shifted(nodes[i as int], shift@)
                } else {
                    tree::recounted(nodes[i as int], shift@)
                });
            }
            let ghost before = self.nodes@;
            if counting {
                let apparent: u64 = (self.nodes[i].apparent + shift.add_apparent).saturating_sub(
                    shift.sub_apparent,
                );
                let disk: u64 = (self.nodes[i].disk + shift.add_disk).saturating_sub(
                    shift.sub_disk,
                );
                self.nodes[i].apparent = apparent;
                self.nodes[i].disk = disk;
            }
            let unscanned: u32 = self.nodes[i].unscanned.saturating_sub(shift.read) + shift.found;
            self.nodes[i].unscanned = unscanned;
            counting = counting && self.nodes[i].counts();
            cur = self.nodes[i].parent;
            proof {
                assert(self.nodes[i as int]@ =~= up[i as int]);
                if cur is Some {
                    tree::lemma_above_step(nodes, i as int, start as int);
                    tree::lemma_charged_step(nodes, i as int, start as int);
                }
                assert forall|j: int| 0 <= j < nodes.len() implies (#[trigger] self.nodes[j])@
                    == if cur is Some && tree::above(nodes, j, cur->0 as int) {
                    nodes[j]
                } else {
                    up[j]
                } by {
                    if j != i {
                        assert(self.nodes[j] == before[j]);
                    }
                    if cur is Some {
                        tree::lemma_above_bound(nodes, j, cur->0 as int);
                    }
                }
            }
        }
        assert(self@.nodes =~= up) by {
            assert forall|j: int| 0 <= j < nodes.len() implies self@.nodes[j] == up[j] by {
                assert(self.nodes[j]@ == up[j]);
            }
        }
    }

    /// Whether `start` and every directory above it can take what `shift` adds.
    fn has_room(&self, start: NodeIdx, shift: &Shift) -> (yes: bool)
        requires
            tree::well_linked(self@.nodes),
            start < self.nodes.len(),
            shift.add_apparent == 0 || shift.sub_apparent == 0,
            shift.add_disk == 0 || shift.sub_disk == 0,
        ensures
            yes == tree::fits(tree::lifted(self@.nodes, start as int, shift@)),
    {
        let ghost nodes = self@.nodes;
        let ghost up = tree::lifted(nodes, start as int, shift@);
        let mut cur: Option<NodeIdx> = Some(start);
        let mut counting = true;
        while cur.is_some()
            invariant
                tree::well_linked(nodes),
                nodes == self@.nodes,
                cur is Some ==> counting == tree::charged(nodes, cur->0 as int, start as int),
                start < nodes.len(),
                shift.add_apparent == 0 || shift.sub_apparent == 0,
                shift.add_disk == 0 || shift.sub_disk == 0,
                up == tree::lifted(nodes, start as int, shift@),
                cur is Some ==> cur->0 < nodes.len() && tree::above(
                    nodes,
                    cur->0 as int,
                    start as int,
                ),
                forall|j: int|
                    0 <= j < nodes.len() && tree::above(nodes, j, start as int) && !(cur is Some
                        && tree::above(nodes, j, cur->0 as int)) ==> {
                        &&& 0 <= (#[trigger] up[j]).apparent <= u64::MAX
                        &&& 0 <= up[j].disk <= u64::MAX
                        &&& 0 <= up[j].unscanned <= u32::MAX
                    },
            decreases
                    if cur is Some {
                        cur->0 + 1
                    } else {
                        0
                    },
        {
            let i: usize = cur.unwrap();
            proof {
                assert(up[i as int] == if counting {
                    tree::shifted(nodes[i as int], shift@)
                } else {
                    tree::recounted(nodes[i as int], shift@)
                });
                assert(nodes[i as int] == self.nodes[i as int]@);
            }
            let n = &self.nodes[i];
            if counting && (n.apparent.checked_add(shift.add_apparent).is_none()
                || n.disk.checked_add(shift.add_disk).is_none()) {
                return false;
            }
            if n.unscanned.saturating_sub(shift.read).checked_add(shift.found).is_none() {
                return false;
            }
            counting = counting && n.counts();
            cur = n.parent;
            proof {
                if cur is Some {
                    tree::lemma_above_step(nodes, i as int, start as int);
                    tree::lemma_charged_step(nodes, i as int, start as int);
                }
            }
        }
        assert forall|j: int| 0 <= j < up.len() implies {
            &&& 0 <= (#[trigger] up[j]).apparent <= u64::MAX
            &&& 0 <= up[j].disk <= u64::MAX
            &&& 0 <= up[j].unscanned <= u32::MAX
        } by {
            assert(nodes[j] == self.nodes[j]@);
            tree::lemma_charged_above(nodes, j, start as int);
        }
        true
    }

    /// What the entries of a batch add up to, or `None` if a sum would not fit.
    fn batch_shift(nodes: &Vec<NewNode>, read: u32) -> (shift: Option<Shift>)
        ensures
            match shift {
                Some(s) => {
                    &&& s@.add_apparent == tree::counted_apparent(scan::entry_views(nodes@))
                    &&& s@.add_disk == tree::counted_disk(scan::entry_views(nodes@))
                    &&& s@.found == tree::dir_ids(scan::entry_views(nodes@)).len()
                    &&& s@.sub_apparent == 0
                    &&& s@.sub_disk == 0
                    &&& s@.read == read
                    &&& s.sub_apparent == 0
                    &&& s.sub_disk == 0
                },
                None => {
                    ||| tree::counted_apparent(scan::entry_views(nodes@)) > u64::MAX
                    ||| tree::counted_disk(scan::entry_views(nodes@)) > u64::MAX
                    ||| tree::dir_ids(scan::entry_views(nodes@)).len() > u32::MAX
                },
            },
    {
        let ghost entries = scan::entry_views(nodes@);
        let mut apparent: u64 = 0;
        let mut disk: u64 = 0;
        let mut found: u32 = 0;
        let mut k: usize = 0;
        while k < nodes.len()
            invariant
                k <= nodes.len(),
                entries == scan::entry_views(nodes@),
                apparent == tree::counted_apparent(entries.take(k as int)),
                disk == tree::counted_disk(entries.take(k as int)),
                found == tree::dir_ids(entries.take(k as int)).len(),
            decreases nodes.len() - k,
        {
            let n = &nodes[k];
            proof {
                assert(entries.take(k as int + 1).drop_last() =~= entries.take(k as int));
                assert(entries.take(k as int + 1).last() == n@);
                tree::lemma_batch_sums_grow(entries, k as int + 1);
            }
            if !n.shared && n.excluded == Excluded::No {
                match apparent.checked_add(n.apparent) {
                    Some(sum) => {
                        apparent = sum;
                    },
                    None => {
                        return None;
                    },
                }
                match disk.checked_add(n.disk) {
                    Some(sum) => {
                        disk = sum;
                    },
                    None => {
                        return None;
                    },
                }
            }
            if n.dir_id.is_some() {
                match found.checked_add(1) {
                    Some(sum) => {
                        found = sum;
                    },
                    None => {
                        return None;
                    },
                }
            }
            k += 1;
        }
        assert(entries.take(k as int) =~= entries);
        Some(
            Shift {
                add_apparent: apparent,
                add_disk: disk,
                sub_apparent: 0,
                sub_disk: 0,
                read,
                found,
            },
        )
    }

    /// Put the entries of one batch under a directory. Returns the ids under which the scanner
    /// will report on directories among them, or `None`, with nothing changed, if a total would
    /// not fit.
    #[verifier::rlimit(30)]
    fn graft(&mut self, parent_idx: NodeIdx, batch: Batch) -> (ids: Option<Vec<u64>>)
        requires
            old(self).wf(),
            parent_idx < old(self).nodes.len(),
        ensures
            final(self).wf(),
            match ids {
                Some(ids) => {
                    &&& final(self)@ == tree::grafted(old(self)@, parent_idx as int, batch@)
                    &&& ids@ == tree::dir_ids(batch@.nodes)
                    &&& tree::fits(final(self)@.nodes)
                },
                None => {
                    &&& *final(self) == *old(self)
                    &&& !tree::fits(tree::grafted(old(self)@, parent_idx as int, batch@).nodes)
                },
            },
    {
        let ghost before = self@;
        let ghost p = parent_idx as int;
        let ghost b = batch@;
        let ghost up = tree::lifted(before.nodes, p, tree::batch_shift(before.nodes, p, b));
        proof {
            tree::lemma_with_batch_fits(before.nodes, p, b);
            assert(before.nodes[p] == self.nodes[p]@);
        }
        let read: u32 = if self.nodes[parent_idx].scanned {
            0
        } else {
            1
        };
        let shift = match Self::batch_shift(&batch.nodes, read) {
            Some(shift) => shift,
            None => {
                proof {
                    assert(up[p].apparent >= tree::counted_apparent(b.nodes));
                    assert(up[p].disk >= tree::counted_disk(b.nodes));
                    assert(up[p].unscanned >= tree::dir_ids(b.nodes).len());
                }
                return None;
            },
        };
        if !self.has_room(parent_idx, &shift) {
            return None;
        }
        self.adjust(parent_idx, shift);
        self.nodes[parent_idx].scanned = true;
        if batch.error.is_some() {
            self.nodes[parent_idx].read_error = true;
        }
        let ghost marked = tree::marked_read(up, p, b.failed);
        assert(self@.nodes =~= marked);
        let ghost base = marked.len();
        let ghost found = batch.nodes@;
        let mut ids: Vec<u64> = Vec::new();
        assert(tree::with_entries(marked, p, b.nodes.take(0)) =~= marked);
        for nn in it: batch.nodes
            invariant
                it.seq() == found,
                b.nodes == scan::entry_views(found),
                0 <= p < base,
                p == parent_idx,
                base == marked.len(),
                self@.nodes == tree::with_entries(marked, p, b.nodes.take(it.index())),
                self.nodes.len() == base + it.index(),
                self@.dirs == tree::registered(before.dirs, b.nodes.take(it.index()), base as int),
                self.total_dirs == before.total_dirs + tree::dir_entries(b.nodes.take(it.index())),
                self.total_files == before.total_files + it.index() - tree::dir_entries(
                    b.nodes.take(it.index()),
                ),
                self.root == before.root,
                self@.orphans == before.orphans,
                ids@ == tree::dir_ids(b.nodes.take(it.index())),
                before.total_dirs + before.total_files <= base,
                0 <= before.total_dirs,
                0 <= before.total_files,
        {
            let ghost k = it.index();
            let ghost so_far = b.nodes.take(k);
            proof {
                assert(b.nodes.take(k + 1).drop_last() =~= so_far);
                assert(b.nodes.take(k + 1).last() == nn@);
                tree::lemma_dir_entries_bound(so_far);
            }
            let ghost nodes = self.nodes@;
            let idx: usize = self.nodes.len();
            let unscanned: u32 = if nn.dir_id.is_some() {
                1
            } else {
                0
            };
            self.nodes.push(
                Node {
                    name: nn.name,
                    kind: nn.kind,
                    apparent: nn.apparent,
                    disk: nn.disk,
                    parent: Some(parent_idx),
                    children: Vec::new(),
                    dev: nn.dev,
                    ino: nn.ino,
                    hlink: nn.hlink,
                    shared: nn.shared,
                    excluded: nn.excluded,
                    read_error: nn.read_error,
                    scanned: false,
                    unscanned,
                },
            );
            assert(self.nodes.len() == idx + 1);
            self.nodes[parent_idx].children.push(idx);
            match nn.kind {
                NodeKind::Dir => {
                    self.total_dirs = self.total_dirs + 1;
                },
                _ => {
                    self.total_files = self.total_files + 1;
                },
            }
            if let Some(id) = nn.dir_id {
                self.dir_index.insert(id, idx);
                ids.push(id);
            }
            proof {
                let after = tree::with_entries(marked, p, b.nodes.take(k + 1));
                assert forall|i: int| 0 <= i < after.len() implies self@.nodes[i] == after[i] by {
                    if i < idx {
                        assert(nodes[i]@ == tree::with_entries(marked, p, so_far)[i]);
                    }
                    if i == p {
                        assert(self.nodes[p].children@ =~= nodes[p].children@.push(idx));
                        assert(after[p].children =~= nodes[p].children@.push(idx));
                    }
                    assert(self@.nodes[i] =~= after[i]);
                }
                assert(self@.nodes =~= after);
            }
        }
        proof {
            assert(b.nodes.take(found.len() as int) =~= b.nodes);
            assert(self.nodes.len() == base + found.len());
            tree::lemma_grafted_wf(before, p, b);
        }
        Some(ids)
    }

    /// Do all of `work`, the last task first, and what it brings about. Returns whether every
    /// total fitted.
    fn settle(&mut self, tasks: Vec<Task>) -> (done: bool)
        requires
            old(self).wf(),
            forall|i: int|
                0 <= i < tasks@.len() ==> ((#[trigger] tasks@[i]) matches Task::Graft(p, _) ==> p
                    < old(self).nodes.len()),
        ensures
            final(self).wf(),
            (final(self)@, done) == tree::settled(old(self)@, task_views(tasks@)),
    {
        let ghost start = self@;
        let ghost whole = task_views(tasks@);
        let mut work = tasks;
        while work.len() > 0
            invariant
                self.wf(),
                forall|i: int|
                    0 <= i < work@.len() ==> ((#[trigger] work@[i]) matches Task::Graft(p, _) ==> p
                        < self.nodes.len()),
                start == old(self)@,
                whole == task_views(tasks@),
                tree::settled(self@, task_views(work@)) == tree::settled(start, whole),
            decreases
                    self@.orphans.dom().len(),
                    tree::graft_tasks(task_views(work@)),
                    work.len(),
        {
            let ghost before = self@;
            let ghost rest = task_views(work@).drop_last();
            let task = work.pop();
            assert(task_views(work@) =~= rest);
            match task {
                Some(Task::Graft(p, batch)) => {
                    let ghost b = batch@;
                    let ghost more = tree::flush_tasks(tree::dir_ids(b.nodes));
                    match self.graft(p, batch) {
                        Some(ids) => {
                            let mut k: usize = ids.len();
                            while k > 0
                                invariant
                                    k <= ids.len(),
                                    more == tree::flush_tasks(ids@),
                                    task_views(work@) == rest + more.take(ids.len() - k),
                                    forall|i: int|
                                        0 <= i < work@.len() ==> ((
                                        #[trigger] work@[i]) matches Task::Graft(p, _) ==> p
                                            < self.nodes.len()),
                                decreases k,
                            {
                                k -= 1;
                                let ghost shorter = task_views(work@);
                                work.push(Task::Flush(ids[k]));
                                assert(task_views(work@) =~= shorter.push(
                                    TaskView::Flush(ids@[k as int]),
                                ));
                                assert(rest + more.take(ids.len() - k) =~= (rest + more.take(
                                    ids.len() - k - 1,
                                )).push(more[ids.len() - k - 1]));
                            }
                            proof {
                                assert(more.take(ids.len() as int) =~= more);
                                tree::lemma_graft_tasks_add(rest, more);
                                tree::lemma_flush_tasks(ids@);
                            }
                        },
                        None => {
                            return false;
                        },
                    }
                },
                Some(Task::Flush(id)) => {
                    if let Some(p) = self.dir_index.get(&id) {
                        let p: usize = *p;
                        if let Some(waiting) = self.orphans.remove(&id) {
                            let mut waiting = waiting;
                            let ghost all = scan::batch_views(waiting@);
                            let ghost more = tree::waiting_tasks(p, all);
                            while waiting.len() > 0
                                invariant
                                    waiting.len() <= all.len(),
                                    more == tree::waiting_tasks(p, all),
                                    scan::batch_views(waiting@) == all.take(waiting.len() as int),
                                    task_views(work@) == rest + more.take(
                                        all.len() - waiting.len(),
                                    ),
                                    p < self.nodes.len(),
                                    forall|i: int|
                                        0 <= i < work@.len() ==> ((
                                        #[trigger] work@[i]) matches Task::Graft(p, _) ==> p
                                            < self.nodes.len()),
                                decreases waiting.len(),
                            {
                                let ghost shorter = task_views(work@);
                                let ghost left = scan::batch_views(waiting@);
                                if let Some(batch) = waiting.pop() {
                                    work.push(Task::Graft(p, batch));
                                    assert(left.last() == batch@);
                                    assert(task_views(work@) =~= shorter.push(
                                        TaskView::Graft(p, batch@),
                                    ));
                                    assert(scan::batch_views(waiting@) =~= left.drop_last());
                                    assert(rest + more.take(all.len() - waiting.len()) =~= (rest
                                        + more.take(all.len() - waiting.len() - 1)).push(
                                        more[all.len() - waiting.len() - 1],
                                    ));
                                }
                            }
                            proof {
                                assert(more.take(all.len() as int) =~= more);
                                assert(self@.orphans =~= before.orphans.remove(id));
                            }
                        } else {
                            assert(self@.orphans =~= before.orphans);
                        }
                    }
                },
                None => {},
            }
        }
        true
    }

    /// Graft a scanner batch into the tree.
    pub fn apply(&mut self, batch: Batch)
        requires
            old(self).wf(),
            tree::applied(old(self)@, batch@).1,
        ensures
            final(self).wf(),
            final(self)@ == tree::applied(old(self)@, batch@).0,
    {
        let _done = self.try_apply(batch);
    }

    /// Graft a scanner batch into the tree, as far as every total fits its integer. Returns
    /// whether all of it was taken in.
    pub fn try_apply(&mut self, batch: Batch) -> (done: bool)
        requires
            old(self).wf(),
        ensures
            final(self).wf(),
            (final(self)@, done) == tree::applied(old(self)@, batch@),
    {
        if let Some(parent_idx) = self.dir_index.get(&batch.parent_id) {
            let mut work: Vec<Task> = Vec::new();
            let ghost b = batch@;
            work.push(Task::Graft(*parent_idx, batch));
            assert(task_views(work@) =~= seq![
                TaskView::Graft(self@.dirs[b.parent_id], b),
            ]);
            return self.settle(work);
        }
        // Parent not created yet: stash and retry later.
        let ghost before = self.orphans@;
        let parent_id: u64 = batch.parent_id;
        let mut waiting = match self.orphans.remove(&parent_id) {
            Some(waiting) => waiting,
            None => Vec::new(),
        };
        let ghost earlier = scan::batch_views(waiting@);
        let ghost b = batch@;
        waiting.push(batch);
        assert(scan::batch_views(waiting@) =~= earlier.push(b));
        self.orphans.insert(parent_id, waiting);
        proof {
            let was = old(self)@.orphans;
            assert(was.dom() =~= before.dom());
            if !was.contains_key(parent_id) {
                assert(earlier =~= Seq::empty());
            }
            assert(self@.orphans =~= tree::applied(old(self)@, b).0.orphans);
        }
        true
    }

    /// Build a tree containing only the (directory) root, using its own stat info.
    pub fn new(root_name: Name, apparent: u64, disk: u64, dev: u64, ino: u64) -> (made: Tree)
        ensures
            made.wf(),
            made@ == tree::only_root(
                outside::name_chars(root_name),
                apparent as int,
                disk as int,
                dev,
                ino,
            ),
    {
        let root = Node {
            name: root_name,
            kind: NodeKind::Dir,
            apparent,
            disk,
            parent: None,
            children: Vec::new(),
            dev,
            ino,
            hlink: false,
            shared: false,
            excluded: Excluded::No,
            read_error: false,
            scanned: false,
            // The root itself is an unscanned directory until its batch arrives.
            unscanned: 1,
        };
        let mut dir_index: HashMap<u64, NodeIdx> = HashMap::new();
        dir_index.insert(0, 0);
        let mut nodes: Vec<Node> = Vec::new();
        nodes.push(root);
        let made = Tree {
            nodes,
            root: 0,
            dir_index,
            orphans: HashMap::new(),
            total_dirs: 1,
            total_files: 0,
        };
        proof {
            let like = tree::only_root(
                outside::name_chars(root_name),
                apparent as int,
                disk as int,
                dev,
                ino,
            );
            assert(made@.nodes[0] =~= like.nodes[0]);
            assert(made@.nodes =~= like.nodes);
            assert(made@.dirs =~= like.dirs);
            assert(made@.orphans =~= like.orphans);
        }
        made
    }

    /// Release scan-only bookkeeping once no more batches will arrive. Frees the per-directory
    /// `dir_index` map, which can be a large fraction of memory on directory-heavy trees.
    pub fn finish_scan(&mut self)
        requires
            old(self).wf(),
        ensures
            final(self).wf(),
            final(self)@ == (TreeView {
                dirs: Map::empty(),
                orphans: Map::empty(),
                ..old(self)@
            }),
    {
        self.dir_index = HashMap::new();
        self.orphans = HashMap::new();
        assert(self@.dirs =~= Map::empty());
        assert(self@.orphans =~= Map::empty());
    }

    /// True if no batch is still waiting for a missing parent.
    pub fn orphans_is_empty(&self) -> (yes: bool)
        ensures
            yes == (self@.orphans.dom() =~= Set::empty()),
    {
        let n: usize = self.orphans.len();
        proof {
            assert(self@.orphans.dom() =~= self.orphans@.dom());
            if n == 0 {
                assert(self.orphans@.dom().len() == 0);
                assert(self.orphans@.dom() =~= Set::empty());
            }
        }
        n == 0
    }

    /// True if this entire subtree has been fully scanned (every descendant directory read).
    /// Files are trivially complete. Only what is complete may be deleted.
    pub fn subtree_complete(&self, idx: NodeIdx) -> (yes: bool)
        requires
            idx < self.nodes.len(),
        ensures
            yes == (self@.nodes[idx as int].unscanned == 0),
    {
        self.nodes[idx].unscanned == 0
    }

    /// This entry's own logical size, excluding children: derived rather than stored.
    /// (`apparent` of a node equals its own size plus the counted sizes of its children.)
    pub fn own_apparent(&self, idx: NodeIdx) -> (own: u64)
        requires
            self.wf(),
            idx < self.nodes.len(),
        ensures
            own == edit::own_apparent(self@.nodes, idx as int),
    {
        let ghost nodes = self@.nodes;
        let ghost list = nodes[idx as int].children;
        let ghost share = edit::apparent_share(nodes);
        let n = &self.nodes[idx];
        let mut kids: u64 = 0;
        let mut k: usize = 0;
        while k < n.children.len()
            invariant
                self.wf(),
                idx < self.nodes.len(),
                n == self.nodes[idx as int],
                nodes == self@.nodes,
                list == nodes[idx as int].children,
                list == n.children@,
                share == edit::apparent_share(nodes),
                k <= list.len(),
                kids as int == {
                    let sum = below::sum_list(list.take(k as int), share);
                    if sum > u64::MAX {
                        u64::MAX as int
                    } else {
                        sum
                    }
                },
                below::sum_list(list.take(k as int), share) >= 0,
            decreases list.len() - k,
        {
            let c: usize = n.children[k];
            assert(nodes[idx as int].children[k as int] == c);
            assert(nodes[c as int] == self.nodes[c as int]@);
            assert(list.take(k as int + 1).drop_last() =~= list.take(k as int));
            if self.nodes[c].counts() {
                kids = kids.saturating_add(self.nodes[c].apparent);
            }
            k += 1;
        }
        assert(list.take(k as int) =~= list);
        n.apparent.saturating_sub(kids)
    }

    /// This entry's own size on disk, excluding children.
    pub fn own_disk(&self, idx: NodeIdx) -> (own: u64)
        requires
            self.wf(),
            idx < self.nodes.len(),
        ensures
            own == edit::own_disk(self@.nodes, idx as int),
    {
        let ghost nodes = self@.nodes;
        let ghost list = nodes[idx as int].children;
        let ghost share = edit::disk_share(nodes);
        let n = &self.nodes[idx];
        let mut kids: u64 = 0;
        let mut k: usize = 0;
        while k < n.children.len()
            invariant
                self.wf(),
                idx < self.nodes.len(),
                n == self.nodes[idx as int],
                nodes == self@.nodes,
                list == nodes[idx as int].children,
                list == n.children@,
                share == edit::disk_share(nodes),
                k <= list.len(),
                kids as int == {
                    let sum = below::sum_list(list.take(k as int), share);
                    if sum > u64::MAX {
                        u64::MAX as int
                    } else {
                        sum
                    }
                },
                below::sum_list(list.take(k as int), share) >= 0,
            decreases list.len() - k,
        {
            let c: usize = n.children[k];
            assert(nodes[idx as int].children[k as int] == c);
            assert(nodes[c as int] == self.nodes[c as int]@);
            assert(list.take(k as int + 1).drop_last() =~= list.take(k as int));
            if self.nodes[c].counts() {
                kids = kids.saturating_add(self.nodes[c].disk);
            }
            k += 1;
        }
        assert(list.take(k as int) =~= list);
        n.disk.saturating_sub(kids)
    }

    /// Everything that hangs below an entry, with the entry itself, each once.
    fn members(&self, idx: NodeIdx) -> (list: Vec<NodeIdx>)
        requires
            self.wf(),
            idx < self.nodes.len(),
        ensures
            list@.no_duplicates(),
            forall|k: int| 0 <= k < list@.len() ==> #[trigger] list@[k] < self.nodes.len(),
            forall|j: int|
                0 <= j < self.nodes.len() ==> (#[trigger] below::under(self@.nodes, j, idx as int)
                    <==> list@.contains(j as usize)),
    {
        let ghost nodes = self@.nodes;
        let mut list: Vec<NodeIdx> = Vec::new();
        let mut stack: Vec<NodeIdx> = Vec::new();
        stack.push(idx);
        proof {
            walk::lemma_walk_start(nodes, idx);
            assert(list@ =~= Seq::empty());
            assert(stack@ =~= seq![idx]);
        }
        while stack.len() > 0
            invariant
                self.wf(),
                nodes == self@.nodes,
                idx < self.nodes.len(),
                walk::walking(nodes, idx, list@, stack@),
            decreases self.nodes.len() - list@.len(),
        {
            proof {
                walk::lemma_walk_step(nodes, idx, list@, stack@);
            }
            if let Some(x) = stack.pop() {
                let ghost left = stack@;
                list.push(x);
                let kids = &self.nodes[x].children;
                assert(kids@ == nodes[x as int].children);
                let mut k: usize = 0;
                while k < kids.len()
                    invariant
                        k <= kids@.len(),
                        stack@ == left + kids@.take(k as int),
                    decreases kids@.len() - k,
                {
                    stack.push(kids[k]);
                    k += 1;
                    assert(stack@ =~= left + kids@.take(k as int));
                }
                proof {
                    assert(kids@.take(k as int) =~= nodes[x as int].children);
                    walk::lemma_no_duplicates_bound(list@, self.nodes.len() as int);
                }
            }
        }
        proof {
            assert(stack@ =~= Seq::empty());
            assert forall|j: int| 0 <= j < nodes.len() implies (#[trigger] below::under(
                nodes,
                j,
                idx as int,
            ) <==> list@.contains(j as usize)) by {
                walk::lemma_walk_end(nodes, idx, list@, j);
            }
            assert forall|k: int| 0 <= k < list@.len() implies #[trigger] list@[k]
                < self.nodes.len() by {
                assert(list@.contains(list@[k]));
            }
        }
        list
    }

    /// The number of directories and of other entries below an entry, with the entry itself.
    fn tally(&self, idx: NodeIdx, list: &Vec<NodeIdx>) -> (counted: (u64, u64))
        requires
            self.wf(),
            idx < self.nodes.len(),
            list@.no_duplicates(),
            forall|k: int| 0 <= k < list@.len() ==> #[trigger] list@[k] < self.nodes.len(),
            forall|j: int|
                0 <= j < self.nodes.len() ==> (#[trigger] below::under(self@.nodes, j, idx as int)
                    <==> list@.contains(j as usize)),
        ensures
            counted.0 == below::count_under(self@.nodes, idx as int, true),
            counted.1 == below::count_under(self@.nodes, idx as int, false),
    {
        let ghost nodes = self@.nodes;
        let mut dirs: u64 = 0;
        let mut files: u64 = 0;
        let mut k: usize = 0;
        while k < list.len()
            invariant
                k <= list@.len(),
                nodes == self@.nodes,
                forall|k: int| 0 <= k < list@.len() ==> #[trigger] list@[k] < self.nodes.len(),
                dirs == below::sum_list(list@.take(k as int), below::is_one(nodes, true)),
                files == below::sum_list(list@.take(k as int), below::is_one(nodes, false)),
                dirs + files == k,
            decreases list@.len() - k,
        {
            assert(list@.take(k as int + 1).drop_last() =~= list@.take(k as int));
            assert(nodes[list@[k as int] as int] == self.nodes[list@[k as int] as int]@);
            if self.nodes[list[k]].is_dir() {
                dirs = dirs + 1;
            } else {
                files = files + 1;
            }
            k += 1;
        }
        proof {
            assert(list@.take(k as int) =~= list@);
            below::lemma_sum_of_members(nodes, list@, idx as int, below::is_one(nodes, true));
            below::lemma_sum_of_members(nodes, list@, idx as int, below::is_one(nodes, false));
        }
        (dirs, files)
    }

    /// Remove a fully-scanned subtree from the tree (after it has been removed from disk).
    /// Returns the number of (dirs, files) removed.
    pub fn delete_subtree(&mut self, idx: NodeIdx) -> (removed: (u64, u64))
        requires
            old(self).wf(),
            idx < old(self).nodes.len(),
        ensures
            final(self).wf(),
            final(self)@ == edit::deleted(old(self)@, idx as int),
            removed.0 == below::count_under(old(self)@.nodes, idx as int, true),
            removed.1 == below::count_under(old(self)@.nodes, idx as int, false),
    {
        let ghost before = self@;
        // Count the subtree (its nodes become unreachable tombstones).
        let list = self.members(idx);
        let (dirs, files) = self.tally(idx, &list);
        // Detach from parent and subtract its counted size from the ancestors that it counts in.
        if let Some(parent) = self.nodes[idx].parent {
            assert(before.nodes[idx as int] == self.nodes[idx as int]@);
            let kept = self.others(parent, idx);
            self.nodes[parent].children = kept;
            let ghost cut = edit::unlisted(before.nodes, parent as int, idx as int);
            proof {
                assert(self@.nodes =~= cut);
                edit::lemma_unlisted_linked(before.nodes, parent as int, idx as int);
            }
            if self.nodes[idx].counts() {
                let shift = Shift {
                    add_apparent: 0,
                    add_disk: 0,
                    sub_apparent: self.nodes[idx].apparent,
                    sub_disk: self.nodes[idx].disk,
                    read: 0,
                    found: 0,
                };
                proof {
                    let loss = edit::loss(
                        before.nodes[idx as int].apparent,
                        before.nodes[idx as int].disk,
                    );
                    assert(shift@ == loss);
                    let up = tree::lifted(cut, parent as int, loss);
                    assert forall|j: int| 0 <= j < up.len() implies {
                        &&& 0 <= (#[trigger] up[j]).apparent <= u64::MAX
                        &&& 0 <= up[j].disk <= u64::MAX
                        &&& 0 <= up[j].unscanned <= u32::MAX
                    } by {
                        assert(cut[j] == self.nodes[j]@);
                    }
                }
                self.adjust(parent, shift);
            }
        }
        self.total_dirs = self.total_dirs.saturating_sub(dirs);
        self.total_files = self.total_files.saturating_sub(files);
        proof {
            edit::lemma_deleted_wf(before, idx as int);
        }
        (dirs, files)
    }

    /// The children of a directory without one of them.
    fn others(&self, parent: NodeIdx, idx: NodeIdx) -> (kept: Vec<NodeIdx>)
        requires
            parent < self.nodes.len(),
        ensures
            kept@ == self.nodes@[parent as int].children@.filter(edit::other_than(idx as int)),
    {
        let list = &self.nodes[parent].children;
        let mut kept: Vec<NodeIdx> = Vec::new();
        let mut k: usize = 0;
        assert(list@.take(0).filter(edit::other_than(idx as int)) =~= Seq::empty()) by {
            reveal(Seq::filter);
        }
        while k < list.len()
            invariant
                k <= list@.len(),
                kept@ == list@.take(k as int).filter(edit::other_than(idx as int)),
            decreases list@.len() - k,
        {
            proof {
                reveal(Seq::filter);
                assert(list@.take(k as int + 1).drop_last() =~= list@.take(k as int));
            }
            if list[k] != idx {
                kept.push(list[k]);
            }
            k += 1;
        }
        assert(list@.take(k as int) =~= list@);
        kept
    }

    /// Whether the count of unread directories above an entry has room for the entry itself.
    pub fn can_refresh(&self, idx: NodeIdx) -> (yes: bool)
        requires
            self.wf(),
            idx < self.nodes.len(),
        ensures
            yes == tree::fits(edit::reopened(self@.nodes, idx as int)),
    {
        assert(self@.nodes[idx as int] == self.nodes[idx as int]@);
        let shift = self.refresh_shift(idx);
        proof {
            self.lemma_view_fits();
            edit::lemma_reopened_room(self@.nodes, idx as int);
        }
        self.has_room(idx, &shift)
    }

    fn refresh_shift(&self, idx: NodeIdx) -> (shift: Shift)
        requires
            self.wf(),
            idx < self.nodes.len(),
        ensures
            shift@ == edit::refresh_shift(self@.nodes, idx as int),
            shift.add_apparent == 0,
            shift.add_disk == 0,
    {
        assert(self@.nodes[idx as int] == self.nodes[idx as int]@);
        proof {
            edit::lemma_own_at_most(self@.nodes, idx as int);
        }
        let n = &self.nodes[idx];
        Shift {
            add_apparent: 0,
            add_disk: 0,
            sub_apparent: n.apparent - self.own_apparent(idx),
            sub_disk: n.disk - self.own_disk(idx),
            read: n.unscanned,
            found: 1,
        }
    }

    /// Empty the child lists of the listed entries.
    fn clear_children(&mut self, list: &Vec<NodeIdx>)
        requires
            forall|k: int| 0 <= k < list@.len() ==> #[trigger] list@[k] < old(self).nodes.len(),
        ensures
            final(self)@ == (TreeView { nodes: final(self)@.nodes, ..old(self)@ }),
            final(self)@.nodes == edit::childless(old(self)@.nodes, list@),
    {
        let ghost up = self@.nodes;
        let ghost before = self@;
        let mut k: usize = 0;
        while k < list.len()
            invariant
                k <= list@.len(),
                up.len() == self.nodes.len(),
                forall|k: int| 0 <= k < list@.len() ==> #[trigger] list@[k] < up.len(),
                forall|j: int|
                    0 <= j < up.len() ==> (#[trigger] self.nodes[j])@ == if list@.take(
                        k as int,
                    ).contains(j as usize) {
                        NodeView { children: Seq::empty(), ..up[j] }
                    } else {
                        up[j]
                    },
                self@ == (TreeView { nodes: self@.nodes, ..before }),
            decreases list@.len() - k,
        {
            let j: usize = list[k];
            let ghost was = self.nodes@;
            self.nodes[j].children = Vec::new();
            proof {
                let old_list = list@.take(k as int);
                let new_list = list@.take(k as int + 1);
                assert(new_list =~= old_list.push(j));
                assert forall|x: int| 0 <= x < up.len() implies (#[trigger] self.nodes[x])@
                    == if new_list.contains(x as usize) {
                    NodeView { children: Seq::empty(), ..up[x] }
                } else {
                    up[x]
                } by {
                    walk::lemma_push_contains(old_list, j);
                    assert(was[x]@ == if old_list.contains(x as usize) {
                        NodeView { children: Seq::empty(), ..up[x] }
                    } else {
                        up[x]
                    });
                    if x == j {
                        assert(self.nodes[x]@.children =~= Seq::empty());
                    }
                }
            }
            k += 1;
        }
        assert(list@.take(k as int) =~= list@);
        assert forall|j: int| 0 <= j < up.len() implies self@.nodes[j] == edit::childless(
            up,
            list@,
        )[j] by {
            assert(self.nodes[j]@ == self@.nodes[j]);
        }
        assert(self@.nodes =~= edit::childless(up, list@));
    }

    /// Prepare a subtree for an in-place rescan (`r`): its children are detached (and dropped
    /// from the global dir/file counts), its aggregates are reset to its own size (so every
    /// ancestor's total stays correct while the rescan streams back in) and the subtree is
    /// marked unscanned again. `id_base` registers the node as the root of a new scan
    /// generation (see `scan::start_at`); batches from that scan graft back into this node.
    pub fn begin_refresh(&mut self, idx: NodeIdx, id_base: u64)
        requires
            old(self).wf(),
            idx < old(self).nodes.len(),
            tree::is_dir(old(self)@.nodes[idx as int]),
            tree::fits(edit::reopened(old(self)@.nodes, idx as int)),
        ensures
            final(self).wf(),
            final(self)@ == edit::refreshed(old(self)@, idx as int, id_base),
    {
        let ghost before = self@;
        let ghost nodes = self@.nodes;
        let ghost i = idx as int;
        assert(nodes[i] == self.nodes[i]@);
        let list = self.members(idx);
        let (dirs, files) = self.tally(idx, &list);
        // The detached children's counted sizes are baked into the aggregate of the node and of its
        // ancestors: remove them, so the node is left with its own size and totals stay correct
        // while the rescan streams the subtree back in.
        let shift = self.refresh_shift(idx);
        proof {
            self.lemma_view_fits();
            edit::lemma_reopened_room(nodes, i);
        }
        self.adjust(idx, shift);
        let ghost up = self@.nodes;
        assert(up.len() == self.nodes.len() && up.len() == nodes.len());
        // Detach everything below: the nodes stay as tombstones (like delete), but they no
        // longer hold on to their subtree.
        self.clear_children(&list);
        let ghost cleared = self@.nodes;
        assert(cleared.len() == self.nodes.len() && cleared.len() == nodes.len());
        self.reset(idx);
        proof {
            edit::lemma_reopened_is(nodes, i, list@, up, cleared, self@.nodes);
            edit::lemma_counts_nonneg(nodes, i);
            edit::lemma_refreshed_wf(before, i, id_base);
        }
        self.total_dirs = self.total_dirs.saturating_sub(dirs - 1);
        self.total_files = self.total_files.saturating_sub(files);
        self.dir_index.insert(id_base, idx);
    }

    /// What a tree holds fits the integers that hold it.
    pub proof fn lemma_view_fits(&self)
        ensures
            tree::fits(self@.nodes),
    {
        assert(self@.nodes.len() == self.nodes.len());
        assert forall|j: int| 0 <= j < self@.nodes.len() implies {
            &&& 0 <= (#[trigger] self@.nodes[j]).apparent <= u64::MAX
            &&& 0 <= self@.nodes[j].disk <= u64::MAX
            &&& 0 <= self@.nodes[j].unscanned <= u32::MAX
        } by {
            assert(self@.nodes[j] == self.nodes@[j]@);
        }
    }

    /// Make a directory one that is still to be read.
    fn reset(&mut self, idx: NodeIdx)
        requires
            idx < old(self).nodes.len(),
        ensures
            final(self)@ == (TreeView {
                nodes: old(self)@.nodes.update(
                    idx as int,
                    NodeView {
                        scanned: false,
                        read_error: false,
                        ..old(self)@.nodes[idx as int]
                    },
                ),
                ..old(self)@
            }),
    {
        self.nodes[idx].scanned = false;
        self.nodes[idx].read_error = false;
        assert(self@.nodes =~= old(self)@.nodes.update(
            idx as int,
            NodeView { scanned: false, read_error: false, ..old(self)@.nodes[idx as int] },
        ));
    }

    /// Create a tree whose root carries imported metadata; it is considered fully scanned.
    pub fn new_imported(name: Name, apparent: u64, disk: u64, dev: u64, ino: u64) -> (made: Tree)
        ensures
            made.wf(),
            made@ == edit::imported_root(
                outside::name_chars(name),
                apparent as int,
                disk as int,
                dev,
                ino,
            ),
    {
        let mut made = Tree::new(name, apparent, disk, dev, ino);
        assert(made@.nodes[0] == made.nodes[0]@);
        made.nodes[0].scanned = true;
        made.nodes[0].unscanned = 0;
        proof {
            let like = edit::imported_root(
                outside::name_chars(name),
                apparent as int,
                disk as int,
                dev,
                ino,
            );
            assert(made@.nodes[0] =~= like.nodes[0]);
            assert(made@.nodes =~= like.nodes);
        }
        made
    }

    /// Whether the totals above `parent` have room for one more entry of the given size.
    pub fn can_import(&self, parent: NodeIdx, apparent: u64, disk: u64) -> (yes: bool)
        requires
            self.wf(),
            parent < self.nodes.len(),
        ensures
            yes == tree::fits(
                tree::lifted(
                    self@.nodes,
                    parent as int,
                    tree::growth(apparent as int, disk as int),
                ),
            ),
    {
        let shift = Shift {
            add_apparent: apparent,
            add_disk: disk,
            sub_apparent: 0,
            sub_disk: 0,
            read: 0,
            found: 0,
        };
        assert(shift@ == tree::growth(apparent as int, disk as int));
        self.has_room(parent, &shift)
    }

    /// Append an imported child under `parent`, propagating its counted size. Returns its index.
    pub fn import_child(
        &mut self,
        parent: NodeIdx,
        name: Name,
        kind: NodeKind,
        apparent: u64,
        disk: u64,
        dev: u64,
        ino: u64,
        hlink: bool,
        shared: bool,
        excluded: Excluded,
        read_error: bool,
    ) -> (idx: NodeIdx)
        requires
            old(self).wf(),
            parent < old(self).nodes.len(),
            !shared && excluded == Excluded::No ==> tree::fits(
                tree::lifted(
                    old(self)@.nodes,
                    parent as int,
                    tree::growth(apparent as int, disk as int),
                ),
            ),
        ensures
            final(self).wf(),
            idx == old(self).nodes.len(),
            final(self)@ == edit::imported(
                old(self)@,
                parent as int,
                (EntryView {
                    name: outside::name_chars(name),
                    kind,
                    apparent: apparent as int,
                    disk: disk as int,
                    dev,
                    ino,
                    hlink,
                    shared,
                    excluded,
                    read_error,
                    dir_id: None,
                }),
            ),
    {
        let ghost before = self@;
        let ghost e = EntryView {
            name: outside::name_chars(name),
            kind,
            apparent: apparent as int,
            disk: disk as int,
            dev,
            ino,
            hlink,
            shared,
            excluded,
            read_error,
            dir_id: None,
        };
        let ghost up = if tree::entry_counts(e) {
            tree::lifted(before.nodes, parent as int, tree::growth(e.apparent, e.disk))
        } else {
            before.nodes
        };
        if !shared && excluded == Excluded::No {
            let shift = Shift {
                add_apparent: apparent,
                add_disk: disk,
                sub_apparent: 0,
                sub_disk: 0,
                read: 0,
                found: 0,
            };
            assert(shift@ == tree::growth(apparent as int, disk as int));
            self.adjust(parent, shift);
        }
        assert(self@.nodes == up);
        let ghost lifted = self.nodes@;
        let idx: usize = self.nodes.len();
        self.nodes.push(
            Node {
                name,
                kind,
                apparent,
                disk,
                parent: Some(parent),
                children: Vec::new(),
                dev,
                ino,
                hlink,
                shared,
                excluded,
                read_error,
                scanned: true,
                unscanned: 0,
            },
        );
        assert(self.nodes.len() == idx + 1);
        self.nodes[parent].children.push(idx);
        match kind {
            NodeKind::Dir => {
                self.total_dirs = self.total_dirs + 1;
            },
            _ => {
                self.total_files = self.total_files + 1;
            },
        }
        proof {
            let after = edit::with_import(before.nodes, parent as int, e);
            assert forall|j: int| 0 <= j < after.len() implies self@.nodes[j] == after[j] by {
                if j < idx {
                    assert(lifted[j]@ == up[j]);
                }
                if j == parent {
                    assert(self.nodes[j].children@ =~= lifted[j].children@.push(idx));
                }
                assert(self@.nodes[j] =~= after[j]);
            }
            assert(self@.nodes =~= after);
            edit::lemma_imported_wf(before, parent as int, e);
        }
        idx
    }

    /// Whether an entry can be reached from the root: deletions and rescans leave the nodes of what is
    /// gone behind, detached.
    pub fn is_attached(&self, idx: NodeIdx) -> (yes: bool)
        requires
            self.wf(),
            idx < self.nodes.len(),
        ensures
            yes == totals::live(self@.nodes, idx as int),
    {
        let ghost nodes = self@.nodes;
        let mut i: NodeIdx = idx;
        while i != 0
            invariant
                self.wf(),
                nodes == self@.nodes,
                i < nodes.len(),
                below::under(nodes, idx as int, 0) == below::under(nodes, i as int, 0),
            decreases i,
        {
            assert(self.nodes@[i as int]@ == nodes[i as int]);
            match self.nodes[i].parent {
                Some(parent) => {
                    assert(self.nodes@[parent as int]@ == nodes[parent as int]);
                    if !rows::position_of(&self.nodes[parent].children, i).is_some() {
                        return false;
                    }
                    i = parent;
                },
                None => {
                    return false;
                },
            }
        }
        true
    }

    /// Build a filesystem path for a node, walking back to the root (whose name is absolute).
    pub fn path_of(&self, idx: NodeIdx) -> (path: String)
        requires
            self.wf(),
            idx < self.nodes.len(),
        ensures
            path@ == edit::path(self@.nodes, idx as int),
    {
        let ghost nodes = self@.nodes;
        let mut parts: Vec<NodeIdx> = Vec::new();
        let mut cur: NodeIdx = idx;
        while self.nodes[cur].parent.is_some()
            invariant
                self.wf(),
                nodes == self@.nodes,
                cur < self.nodes.len(),
                parts.len() == 0 ==> cur == idx,
                parts.len() > 0 ==> parts@[0] == idx && nodes[parts@.last() as int].parent == Some(
                    cur,
                ),
                forall|k: int| 0 <= k < parts@.len() ==> #[trigger] parts@[k] < nodes.len(),
                forall|k: int|
                    0 <= k < parts@.len() - 1 ==> nodes[#[trigger] parts@[k] as int].parent == Some(
                        parts@[k + 1],
                    ),
            decreases cur,
        {
            assert(nodes[cur as int] == self.nodes[cur as int]@);
            if let Some(parent) = self.nodes[cur].parent {
                parts.push(cur);
                cur = parent;
            }
        }
        assert(nodes[cur as int] == self.nodes[cur as int]@);
        // The root name is already an absolute path; join the rest with separators.
        let mut out = self.nodes[cur].name.as_str().to_string();
        let mut k: usize = parts.len();
        while k > 0
            invariant
                self.wf(),
                nodes == self@.nodes,
                k <= parts@.len(),
                parts@.len() == 0 ==> cur == idx,
                parts@.len() > 0 ==> parts@[0] == idx && nodes[parts@.last() as int].parent == Some(
                    cur,
                ),
                forall|k: int| 0 <= k < parts@.len() ==> #[trigger] parts@[k] < nodes.len(),
                forall|k: int|
                    0 <= k < parts@.len() - 1 ==> nodes[#[trigger] parts@[k] as int].parent == Some(
                        parts@[k + 1],
                    ),
                out@ == edit::path(
                    nodes,
                    if k < parts@.len() {
                        parts@[k as int] as int
                    } else {
                        cur as int
                    },
                ),
            decreases k,
        {
            k -= 1;
            let i: usize = parts[k];
            assert(nodes[i as int] == self.nodes[i as int]@);
            if !text::ends_with(out.as_str(), '/') {
                out.push('/');
            }
            out.append(self.nodes[i].name.as_str());
        }
        out
    }
}

} // verus!
