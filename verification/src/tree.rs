//! The mathematical tree: what the entries of a scan are, and what each change makes of them.
use vstd::prelude::*;

use crate::model::{Excluded, NodeKind};

verus! {

/// One entry of the tree.
#[verifier::ext_equal]
pub struct NodeView {
    pub name: Seq<char>,
    pub kind: NodeKind,
    pub apparent: int,
    pub disk: int,
    pub parent: Option<usize>,
    pub children: Seq<usize>,
    pub dev: u64,
    pub ino: u64,
    pub hlink: bool,
    pub shared: bool,
    pub excluded: Excluded,
    pub read_error: bool,
    pub scanned: bool,
    pub unscanned: int,
}

/// One entry as the scanner found it.
#[verifier::ext_equal]
pub struct EntryView {
    pub name: Seq<char>,
    pub kind: NodeKind,
    pub apparent: int,
    pub disk: int,
    pub dev: u64,
    pub ino: u64,
    pub hlink: bool,
    pub shared: bool,
    pub excluded: Excluded,
    pub read_error: bool,
    pub dir_id: Option<u64>,
}

/// The result of reading one directory.
#[verifier::ext_equal]
pub struct BatchView {
    pub parent_id: u64,
    pub nodes: Seq<EntryView>,
    pub failed: bool,
}

/// The whole tree, with the scan's bookkeeping.
#[verifier::ext_equal]
pub struct TreeView {
    pub nodes: Seq<NodeView>,
    pub root: usize,
    pub dirs: Map<u64, usize>,
    pub orphans: Map<u64, Seq<BatchView>>,
    pub total_files: int,
    pub total_dirs: int,
}

pub open spec fn is_dir(n: NodeView) -> bool {
    n.kind == NodeKind::Dir
}

/// The entry contributes to the totals of the directories above it.
pub open spec fn counts(n: NodeView) -> bool {
    !n.shared && n.excluded == Excluded::No
}

/// The found entry contributes to the totals of the directories above it.
pub open spec fn entry_counts(e: EntryView) -> bool {
    !e.shared && e.excluded == Excluded::No
}

pub open spec fn max0(x: int) -> int {
    if x < 0 {
        0
    } else {
        x
    }
}

// ---- Shape ----------------------------------------------------------------------------------

/// Entries refer to each other properly: the first one is the root, every other one has a parent
/// that is older than it, and a directory's list of children names only entries whose parent it
/// is, oldest first.
pub open spec fn well_linked(nodes: Seq<NodeView>) -> bool {
    &&& nodes.len() > 0
    &&& nodes[0].parent is None
    &&& forall|i: int|
        0 < i < nodes.len() ==> (#[trigger] nodes[i]).parent is Some && nodes[i].parent->0 < i
    &&& forall|i: int, k: int|
        0 <= i < nodes.len() && 0 <= k < nodes[i].children.len() ==> {
            &&& (#[trigger] nodes[i].children[k]) < nodes.len()
            &&& nodes[nodes[i].children[k] as int].parent == Some(i as usize)
        }
    &&& forall|i: int, j: int, k: int|
        0 <= i < nodes.len() && 0 <= j < k < nodes[i].children.len() ==> (
        #[trigger] nodes[i].children[j]) < (#[trigger] nodes[i].children[k])
}

/// Well formed: properly linked, with bookkeeping that refers to existing entries and counters
/// that do not exceed the number of entries.
pub open spec fn well_formed(t: TreeView) -> bool {
    &&& well_linked(t.nodes)
    &&& t.root == 0
    &&& t.nodes.len() <= usize::MAX
    &&& forall|id: u64| #[trigger] t.dirs.contains_key(id) ==> t.dirs[id] < t.nodes.len()
    &&& t.orphans.dom().finite()
    &&& 0 <= t.total_dirs
    &&& 0 <= t.total_files
    &&& t.total_dirs + t.total_files <= t.nodes.len()
}

/// Every size and every count, that of the entries too, fits the machine integer that holds it.
pub open spec fn fits(nodes: Seq<NodeView>) -> bool {
    &&& nodes.len() <= usize::MAX
    &&& forall|i: int|
        0 <= i < nodes.len() ==> {
            &&& 0 <= (#[trigger] nodes[i]).apparent <= u64::MAX
            &&& 0 <= nodes[i].disk <= u64::MAX
            &&& 0 <= nodes[i].unscanned <= u32::MAX
        }
}

/// `i` is `start` or one of the directories above it.
pub open spec fn above(nodes: Seq<NodeView>, i: int, start: int) -> bool
    decreases start,
{
    i == start || (0 <= start < nodes.len() && match nodes[start].parent {
        Some(p) => p < start && above(nodes, i, p as int),
        None => false,
    })
}

/// What is put under `start` adds to the size of `i`: it is `start`, or above it with nothing on the
/// way that does not count.
pub open spec fn charged(nodes: Seq<NodeView>, i: int, start: int) -> bool
    decreases start,
{
    i == start || (0 <= start < nodes.len() && counts(nodes[start]) && match nodes[start].parent {
        Some(p) => p < start && charged(nodes, i, p as int),
        None => false,
    })
}

/// `i` stands in the child list of its parent.
pub open spec fn listed(nodes: Seq<NodeView>, i: int) -> bool {
    0 <= i < nodes.len() && match nodes[i].parent {
        Some(p) => p < nodes.len() && nodes[p as int].children.contains(i as usize),
        None => false,
    }
}

/// Nothing above an entry is younger than it.
pub proof fn lemma_above_bound(nodes: Seq<NodeView>, i: int, start: int)
    ensures
        above(nodes, i, start) ==> i <= start,
    decreases start,
{
    if i != start && 0 <= start < nodes.len() {
        match nodes[start].parent {
            Some(p) => {
                if p < start {
                    lemma_above_bound(nodes, i, p as int);
                }
            },
            None => {},
        }
    }
}

/// The parent of something above `start` is above `start` too.
pub proof fn lemma_above_step(nodes: Seq<NodeView>, i: int, start: int)
    requires
        well_linked(nodes),
        0 <= i < nodes.len(),
        0 <= start < nodes.len(),
        above(nodes, i, start),
        nodes[i].parent is Some,
    ensures
        above(nodes, nodes[i].parent->0 as int, start),
        nodes[i].parent->0 < i,
    decreases start,
{
    if i == start {
        assert(above(nodes, nodes[i].parent->0 as int, nodes[i].parent->0 as int));
    } else {
        lemma_above_step(nodes, i, nodes[start].parent->0 as int);
    }
}

/// Sizes add up only along the way up.
pub proof fn lemma_charged_above(nodes: Seq<NodeView>, i: int, start: int)
    ensures
        charged(nodes, i, start) ==> above(nodes, i, start),
    decreases start,
{
    if i != start && 0 <= start < nodes.len() && nodes[start].parent is Some {
        if nodes[start].parent->0 < start {
            lemma_charged_above(nodes, i, nodes[start].parent->0 as int);
        }
    }
}

/// A size goes on to the parent of what it was added to if that counts, and no further otherwise.
pub proof fn lemma_charged_step(nodes: Seq<NodeView>, i: int, start: int)
    requires
        well_linked(nodes),
        0 <= i < nodes.len(),
        0 <= start < nodes.len(),
        above(nodes, i, start),
        nodes[i].parent is Some,
    ensures
        charged(nodes, nodes[i].parent->0 as int, start) == (charged(nodes, i, start) && counts(
            nodes[i],
        )),
    decreases start,
{
    let q = nodes[i].parent->0 as int;
    if i == start {
        assert(charged(nodes, q, q));
    } else {
        let p = nodes[start].parent->0 as int;
        lemma_above_bound(nodes, i, p);
        lemma_charged_step(nodes, i, p);
    }
}

/// The tree that holds only its root, a directory that is still to be read.
pub open spec fn only_root(name: Seq<char>, apparent: int, disk: int, dev: u64, ino: u64) -> TreeView {
    TreeView {
        nodes: seq![
            NodeView {
                name,
                kind: NodeKind::Dir,
                apparent,
                disk,
                parent: None,
                children: Seq::empty(),
                dev,
                ino,
                hlink: false,
                shared: false,
                excluded: Excluded::No,
                read_error: false,
                scanned: false,
                unscanned: 1,
            },
        ],
        root: 0,
        dirs: map![0u64 => 0usize],
        orphans: Map::empty(),
        total_files: 0,
        total_dirs: 1,
    }
}

// ---- Changes along the way up ---------------------------------------------------------------

/// What is added to, and taken from, an entry's aggregates.
pub struct ShiftView {
    pub add_apparent: int,
    pub add_disk: int,
    pub sub_apparent: int,
    pub sub_disk: int,
    pub read: int,
    pub found: int,
}

/// An entry with its aggregates shifted; what is taken away stops at zero.
pub open spec fn shifted(n: NodeView, s: ShiftView) -> NodeView {
    NodeView {
        apparent: max0(n.apparent + s.add_apparent - s.sub_apparent),
        disk: max0(n.disk + s.add_disk - s.sub_disk),
        unscanned: max0(n.unscanned - s.read) + s.found,
        ..n
    }
}

/// An entry with its count of unread directories shifted alone.
pub open spec fn recounted(n: NodeView, s: ShiftView) -> NodeView {
    NodeView { unscanned: max0(n.unscanned - s.read) + s.found, ..n }
}

/// `start` and every directory above it shifted; the sizes only up to the first directory that does
/// not count, as what is below it does not either.
pub open spec fn lifted(nodes: Seq<NodeView>, start: int, s: ShiftView) -> Seq<NodeView> {
    Seq::new(
        nodes.len(),
        |i: int|
            if charged(nodes, i, start) {
                shifted(nodes[i], s)
            } else if above(nodes, i, start) {
                recounted(nodes[i], s)
            } else {
                nodes[i]
            },
    )
}

pub open spec fn growth(apparent: int, disk: int) -> ShiftView {
    ShiftView {
        add_apparent: apparent,
        add_disk: disk,
        sub_apparent: 0,
        sub_disk: 0,
        read: 0,
        found: 0,
    }
}

// ---- A batch --------------------------------------------------------------------------------

/// The logical size of those of the entries that count.
pub open spec fn counted_apparent(entries: Seq<EntryView>) -> int
    decreases entries.len(),
{
    if entries.len() == 0 {
        0
    } else {
        counted_apparent(entries.drop_last()) + if entry_counts(entries.last()) {
            entries.last().apparent
        } else {
            0
        }
    }
}

/// The size on disk of those of the entries that count.
pub open spec fn counted_disk(entries: Seq<EntryView>) -> int
    decreases entries.len(),
{
    if entries.len() == 0 {
        0
    } else {
        counted_disk(entries.drop_last()) + if entry_counts(entries.last()) {
            entries.last().disk
        } else {
            0
        }
    }
}

/// How many of the entries are directories.
pub open spec fn dir_entries(entries: Seq<EntryView>) -> int
    decreases entries.len(),
{
    if entries.len() == 0 {
        0
    } else {
        dir_entries(entries.drop_last()) + if entries.last().kind == NodeKind::Dir {
            1int
        } else {
            0
        }
    }
}

/// The ids under which the scanner will report on directories among the entries.
pub open spec fn dir_ids(entries: Seq<EntryView>) -> Seq<u64>
    decreases entries.len(),
{
    if entries.len() == 0 {
        Seq::empty()
    } else {
        match entries.last().dir_id {
            Some(id) => dir_ids(entries.drop_last()).push(id),
            None => dir_ids(entries.drop_last()),
        }
    }
}

/// The directory index after the entries were stored from position `base` on.
pub open spec fn registered(dirs: Map<u64, usize>, entries: Seq<EntryView>, base: int) -> Map<
    u64,
    usize,
>
    decreases entries.len(),
{
    if entries.len() == 0 {
        dirs
    } else {
        let before = registered(dirs, entries.drop_last(), base);
        match entries.last().dir_id {
            Some(id) => before.insert(id, (base + entries.len() - 1) as usize),
            None => before,
        }
    }
}

/// A found entry as an entry of the tree: one that is still to be read counts itself as unread.
pub open spec fn entry_node(e: EntryView, parent: usize) -> NodeView {
    NodeView {
        name: e.name,
        kind: e.kind,
        apparent: e.apparent,
        disk: e.disk,
        parent: Some(parent),
        children: Seq::empty(),
        dev: e.dev,
        ino: e.ino,
        hlink: e.hlink,
        shared: e.shared,
        excluded: e.excluded,
        read_error: e.read_error,
        scanned: false,
        unscanned: if e.dir_id is Some {
            1
        } else {
            0
        },
    }
}

/// What a batch for directory `p` adds to `p` and the directories above it: the size of the
/// entries that count, and for unread directories one less if `p` had not been read yet and one
/// more for each directory that the scanner will go into.
pub open spec fn batch_shift(nodes: Seq<NodeView>, p: int, b: BatchView) -> ShiftView {
    ShiftView {
        add_apparent: counted_apparent(b.nodes),
        add_disk: counted_disk(b.nodes),
        sub_apparent: 0,
        sub_disk: 0,
        read: if nodes[p].scanned {
            0
        } else {
            1
        },
        found: dir_ids(b.nodes).len() as int,
    }
}

/// The entries with directory `p` marked as read.
pub open spec fn marked_read(nodes: Seq<NodeView>, p: int, failed: bool) -> Seq<NodeView> {
    nodes.update(
        p,
        NodeView { scanned: true, read_error: nodes[p].read_error || failed, ..nodes[p] },
    )
}

/// The entries with found ones appended, as the youngest children of `p`.
pub open spec fn with_entries(nodes: Seq<NodeView>, p: int, entries: Seq<EntryView>) -> Seq<
    NodeView,
> {
    Seq::new(
        nodes.len() + entries.len(),
        |i: int|
            if i >= nodes.len() {
                entry_node(entries[i - nodes.len()], p as usize)
            } else if i == p {
                NodeView {
                    children: nodes[p].children + Seq::new(
                        entries.len(),
                        |k: int| (nodes.len() + k) as usize,
                    ),
                    ..nodes[p]
                }
            } else {
                nodes[i]
            },
    )
}

/// The entries after a batch was put under directory `p`.
pub open spec fn with_batch(nodes: Seq<NodeView>, p: int, b: BatchView) -> Seq<NodeView> {
    let up = lifted(nodes, p, batch_shift(nodes, p, b));
    with_entries(marked_read(up, p, b.failed), p, b.nodes)
}

/// The tree after a batch was put under directory `p`; batches that wait are not looked at.
pub open spec fn grafted(t: TreeView, p: int, b: BatchView) -> TreeView {
    TreeView {
        nodes: with_batch(t.nodes, p, b),
        dirs: registered(t.dirs, b.nodes, t.nodes.len() as int),
        total_dirs: t.total_dirs + dir_entries(b.nodes),
        total_files: t.total_files + b.nodes.len() - dir_entries(b.nodes),
        ..t
    }
}

/// One thing left to do while a batch is being applied.
pub enum TaskView {
    /// Put a batch under a directory.
    Graft(usize, BatchView),
    /// Take up the batches that wait for the directory with this id.
    Flush(u64),
}

pub open spec fn graft_tasks(work: Seq<TaskView>) -> nat
    decreases work.len(),
{
    if work.len() == 0 {
        0
    } else {
        graft_tasks(work.drop_last()) + if work.last() is Graft {
            1nat
        } else {
            0
        }
    }
}

pub open spec fn flush_tasks(ids: Seq<u64>) -> Seq<TaskView> {
    Seq::new(ids.len(), |k: int| TaskView::Flush(ids[ids.len() - 1 - k]))
}

pub open spec fn waiting_tasks(p: usize, waiting: Seq<BatchView>) -> Seq<TaskView> {
    Seq::new(waiting.len(), |k: int| TaskView::Graft(p, waiting[waiting.len() - 1 - k]))
}

pub proof fn lemma_graft_tasks_add(a: Seq<TaskView>, b: Seq<TaskView>)
    ensures
        graft_tasks(a + b) == graft_tasks(a) + graft_tasks(b),
    decreases b.len(),
{
    if b.len() == 0 {
        assert(a + b =~= a);
    } else {
        lemma_graft_tasks_add(a, b.drop_last());
        assert((a + b).drop_last() =~= a + b.drop_last());
    }
}

pub proof fn lemma_flush_tasks(ids: Seq<u64>)
    ensures
        graft_tasks(flush_tasks(ids)) == 0,
    decreases ids.len(),
{
    if ids.len() > 0 {
        lemma_flush_tasks(ids.drop_first());
        assert(flush_tasks(ids).drop_last() =~= flush_tasks(ids.drop_first()));
    }
}

/// The tree after `work` was done, the last task first, and whether all of it was: what a task
/// brings about is done before the tasks below it, and a batch with which a total would not fit
/// its integer is not put in and ends the work.
pub open spec fn settled(t: TreeView, work: Seq<TaskView>) -> (TreeView, bool)
    decreases t.orphans.dom().len(), graft_tasks(work), work.len(),
    when t.orphans.dom().finite()
{
    if work.len() == 0 {
        (t, true)
    } else {
        let rest = work.drop_last();
        match work.last() {
            TaskView::Graft(p, b) => {
                let next = grafted(t, p as int, b);
                let more = flush_tasks(dir_ids(b.nodes));
                proof {
                    lemma_graft_tasks_add(rest, more);
                    lemma_flush_tasks(dir_ids(b.nodes));
                }
                if fits(next.nodes) {
                    settled(next, rest + more)
                } else {
                    (t, false)
                }
            },
            TaskView::Flush(id) => {
                if t.orphans.contains_key(id) && t.dirs.contains_key(id) {
                    let next = TreeView { orphans: t.orphans.remove(id), ..t };
                    settled(next, rest + waiting_tasks(t.dirs[id], t.orphans[id]))
                } else {
                    settled(t, rest)
                }
            },
        }
    }
}

/// The tree after a batch arrived, and whether it could be taken in whole: it goes under its
/// directory if that is known, followed by whatever waited for the directories it brought, and is
/// kept waiting otherwise.
pub open spec fn applied(t: TreeView, b: BatchView) -> (TreeView, bool) {
    if t.dirs.contains_key(b.parent_id) {
        settled(t, seq![TaskView::Graft(t.dirs[b.parent_id], b)])
    } else {
        let waiting = if t.orphans.contains_key(b.parent_id) {
            t.orphans[b.parent_id]
        } else {
            Seq::empty()
        };
        (TreeView { orphans: t.orphans.insert(b.parent_id, waiting.push(b)), ..t }, true)
    }
}

// ---- What a batch keeps ---------------------------------------------------------------------

pub proof fn lemma_dir_entries_bound(entries: Seq<EntryView>)
    ensures
        0 <= dir_entries(entries) <= entries.len(),
    decreases entries.len(),
{
    if entries.len() > 0 {
        lemma_dir_entries_bound(entries.drop_last());
    }
}

/// Registering keeps what was known and adds only the places of the new entries.
pub proof fn lemma_registered(dirs: Map<u64, usize>, entries: Seq<EntryView>, base: int)
    requires
        0 <= base,
        base + entries.len() <= usize::MAX,
    ensures
        forall|id: u64| #[trigger]
            registered(dirs, entries, base).contains_key(id) ==> {
                let at = registered(dirs, entries, base)[id];
                ||| dirs.contains_key(id) && at == dirs[id]
                ||| base <= at < base + entries.len() && entries[at - base].dir_id == Some(id)
            },
        forall|id: u64|
            dirs.contains_key(id) ==> #[trigger] registered(dirs, entries, base).contains_key(id),
        forall|k: int|
            0 <= k < dir_ids(entries).len() ==> registered(dirs, entries, base).contains_key(
                #[trigger] dir_ids(entries)[k],
            ) && base <= registered(dirs, entries, base)[dir_ids(entries)[k]],
    decreases entries.len(),
{
    if entries.len() > 0 {
        let shorter = entries.drop_last();
        lemma_registered(dirs, shorter, base);
        let before = registered(dirs, shorter, base);
        let after = registered(dirs, entries, base);
        let ids = dir_ids(entries);
        let ids0 = dir_ids(shorter);
        assert forall|id: u64| #[trigger] after.contains_key(id) implies {
            let at = after[id];
            ||| dirs.contains_key(id) && at == dirs[id]
            ||| base <= at < base + entries.len() && entries[at - base].dir_id == Some(id)
        } by {
            if entries.last().dir_id != Some(id) {
                assert(before.contains_key(id));
                let at = before[id];
                if base <= at < base + shorter.len() {
                    assert(shorter[at - base] == entries[at - base]);
                }
            }
        }
        assert forall|id: u64| dirs.contains_key(id) implies #[trigger] after.contains_key(id) by {
            assert(before.contains_key(id));
        }
        assert forall|k: int| 0 <= k < ids.len() implies after.contains_key(#[trigger] ids[k])
            && base <= after[ids[k]] by {
            if k < ids0.len() {
                assert(ids[k] == ids0[k]);
                assert(before.contains_key(ids0[k]));
            }
        }
    }
}

pub proof fn lemma_with_entries_linked(nodes: Seq<NodeView>, p: int, entries: Seq<EntryView>)
    requires
        well_linked(nodes),
        0 <= p < nodes.len(),
        nodes.len() + entries.len() <= usize::MAX,
    ensures
        well_linked(with_entries(nodes, p, entries)),
{
    let after = with_entries(nodes, p, entries);
    assert forall|i: int, k: int|
        0 <= i < after.len() && 0 <= k < after[i].children.len() implies {
        &&& (#[trigger] after[i].children[k]) < after.len()
        &&& after[after[i].children[k] as int].parent == Some(i as usize)
    } by {
        if i < nodes.len() && k < nodes[i].children.len() {
            assert(after[i].children[k] == nodes[i].children[k]);
        }
    }
    assert forall|i: int, j: int, k: int|
        0 <= i < after.len() && 0 <= j < k < after[i].children.len() implies (
    #[trigger] after[i].children[j]) < (#[trigger] after[i].children[k]) by {
        if i < nodes.len() && j < nodes[i].children.len() {
            assert(after[i].children[j] == nodes[i].children[j]);
            if k < nodes[i].children.len() {
                assert(after[i].children[k] == nodes[i].children[k]);
            }
        }
    }
}

/// A batch keeps the tree well formed.
pub proof fn lemma_grafted_wf(t: TreeView, p: int, b: BatchView)
    requires
        well_formed(t),
        0 <= p < t.nodes.len(),
        t.nodes.len() + b.nodes.len() <= usize::MAX,
    ensures
        well_formed(grafted(t, p, b)),
{
    let up = lifted(t.nodes, p, batch_shift(t.nodes, p, b));
    assert(well_linked(up)) by {
        assert forall|i: int, k: int| 0 <= i < up.len() && 0 <= k < up[i].children.len() implies {
            &&& (#[trigger] up[i].children[k]) < up.len()
            &&& up[up[i].children[k] as int].parent == Some(i as usize)
        } by {
            assert(up[i].children[k] == t.nodes[i].children[k]);
        }
        assert forall|i: int, j: int, k: int|
            0 <= i < up.len() && 0 <= j < k < up[i].children.len() implies (
        #[trigger] up[i].children[j]) < (#[trigger] up[i].children[k]) by {
            assert(up[i].children[j] == t.nodes[i].children[j]);
            assert(up[i].children[k] == t.nodes[i].children[k]);
        }
    }
    let marked = marked_read(up, p, b.failed);
    assert(well_linked(marked)) by {
        assert forall|i: int, k: int|
            0 <= i < marked.len() && 0 <= k < marked[i].children.len() implies {
            &&& (#[trigger] marked[i].children[k]) < marked.len()
            &&& marked[marked[i].children[k] as int].parent == Some(i as usize)
        } by {
            assert(marked[i].children[k] == up[i].children[k]);
        }
        assert forall|i: int, j: int, k: int|
            0 <= i < marked.len() && 0 <= j < k < marked[i].children.len() implies (
        #[trigger] marked[i].children[j]) < (#[trigger] marked[i].children[k]) by {
            assert(marked[i].children[j] == up[i].children[j]);
            assert(marked[i].children[k] == up[i].children[k]);
        }
    }
    lemma_with_entries_linked(marked, p, b.nodes);
    lemma_registered(t.dirs, b.nodes, t.nodes.len() as int);
    lemma_dir_entries_bound(b.nodes);
}

/// Whether the totals fit is decided along the way up alone.
pub proof fn lemma_with_batch_fits(nodes: Seq<NodeView>, p: int, b: BatchView)
    requires
        0 <= p < nodes.len(),
        forall|k: int|
            0 <= k < b.nodes.len() ==> 0 <= (#[trigger] b.nodes[k]).apparent <= u64::MAX && 0
                <= b.nodes[k].disk <= u64::MAX,
    ensures
        fits(with_batch(nodes, p, b)) == (fits(lifted(nodes, p, batch_shift(nodes, p, b)))
            && nodes.len() + b.nodes.len() <= usize::MAX),
{
    let up = lifted(nodes, p, batch_shift(nodes, p, b));
    let after = with_batch(nodes, p, b);
    if fits(up) && nodes.len() + b.nodes.len() <= usize::MAX {
        assert forall|i: int| 0 <= i < after.len() implies {
            &&& 0 <= (#[trigger] after[i]).apparent <= u64::MAX
            &&& 0 <= after[i].disk <= u64::MAX
            &&& 0 <= after[i].unscanned <= u32::MAX
        } by {
            if i < nodes.len() {
                assert(up[i].apparent == after[i].apparent);
            } else {
                assert(b.nodes[i - nodes.len()].apparent == after[i].apparent);
            }
        }
    }
    if fits(after) {
        assert forall|i: int| 0 <= i < up.len() implies {
            &&& 0 <= (#[trigger] up[i]).apparent <= u64::MAX
            &&& 0 <= up[i].disk <= u64::MAX
            &&& 0 <= up[i].unscanned <= u32::MAX
        } by {
            assert(up[i].apparent == after[i].apparent);
        }
    }
}

/// The sums over a batch only grow from entry to entry.
pub proof fn lemma_batch_sums_grow(entries: Seq<EntryView>, k: int)
    requires
        0 <= k <= entries.len(),
        forall|i: int|
            0 <= i < entries.len() ==> 0 <= (#[trigger] entries[i]).apparent && 0
                <= entries[i].disk,
    ensures
        0 <= counted_apparent(entries.take(k)) <= counted_apparent(entries),
        0 <= counted_disk(entries.take(k)) <= counted_disk(entries),
        dir_ids(entries.take(k)).len() <= dir_ids(entries).len(),
    decreases entries.len(),
{
    if k == entries.len() {
        assert(entries.take(k) =~= entries);
        if entries.len() > 0 {
            lemma_batch_sums_grow(entries.drop_last(), k - 1);
            assert(entries.drop_last().take(k - 1) =~= entries.drop_last());
        }
    } else {
        lemma_batch_sums_grow(entries.drop_last(), k);
        assert(entries.drop_last().take(k) =~= entries.take(k));
    }
}

/// The directories that batches are to be put under exist.
pub open spec fn tasks_in_range(work: Seq<TaskView>, n: int) -> bool {
    forall|k: int| 0 <= k < work.len() ==> ((#[trigger] work[k]) matches TaskView::Graft(p, _) ==> p < n)
}

/// Every entry is still there, under its name and in its place, with all its children.
pub open spec fn keeps(before: Seq<NodeView>, after: Seq<NodeView>) -> bool {
    &&& after.len() >= before.len()
    &&& forall|i: int|
        0 <= i < before.len() ==> (#[trigger] after[i]).name == before[i].name && after[i].parent
            == before[i].parent
    &&& forall|i: int, c: usize|
        0 <= i < before.len() && #[trigger] before[i].children.contains(c)
            ==> after[i].children.contains(c)
}

proof fn lemma_keeps_on(a: Seq<NodeView>, b: Seq<NodeView>, c: Seq<NodeView>)
    requires
        keeps(a, b),
        keeps(b, c),
    ensures
        keeps(a, c),
{
    assert forall|i: int| 0 <= i < a.len() implies (#[trigger] c[i]).name == a[i].name
        && c[i].parent == a[i].parent by {
        assert(b[i].name == a[i].name);
    }
    assert forall|i: int, x: usize|
        0 <= i < a.len() && #[trigger] a[i].children.contains(x) implies c[i].children.contains(
        x,
    ) by {
        assert(b[i].children.contains(x));
    }
}

proof fn lemma_grafted_keeps(t: TreeView, p: int, b: BatchView)
    requires
        0 <= p < t.nodes.len(),
    ensures
        keeps(t.nodes, grafted(t, p, b).nodes),
        grafted(t, p, b).nodes.len() == t.nodes.len() + b.nodes.len(),
{
    let after = grafted(t, p, b).nodes;
    assert forall|i: int, x: usize|
        0 <= i < t.nodes.len() && #[trigger] t.nodes[i].children.contains(
            x,
        ) implies after[i].children.contains(x) by {
        let k = choose|k: int| 0 <= k < t.nodes[i].children.len() && t.nodes[i].children[k] == x;
        assert(after[i].children[k] == x);
    }
}

/// A batch takes no entry away.
pub proof fn lemma_settled_keeps(t: TreeView, work: Seq<TaskView>)
    requires
        well_formed(t),
        tasks_in_range(work, t.nodes.len() as int),
    ensures
        keeps(t.nodes, settled(t, work).0.nodes),
    decreases t.orphans.dom().len(), graft_tasks(work), work.len(),
{
    if work.len() > 0 {
        let rest = work.drop_last();
        assert(work[work.len() - 1] == work.last());
        match work.last() {
            TaskView::Graft(p, b) => {
                let next = grafted(t, p as int, b);
                let more = flush_tasks(dir_ids(b.nodes));
                lemma_graft_tasks_add(rest, more);
                lemma_flush_tasks(dir_ids(b.nodes));
                lemma_grafted_keeps(t, p as int, b);
                if fits(next.nodes) {
                    lemma_grafted_wf(t, p as int, b);
                    assert forall|k: int| 0 <= k < (rest + more).len() implies ((
                    #[trigger] (rest + more)[k]) matches TaskView::Graft(p, _) ==> p
                        < next.nodes.len()) by {
                        if k < rest.len() {
                            assert(work[k] == rest[k]);
                        }
                    }
                    lemma_settled_keeps(next, rest + more);
                    lemma_keeps_on(t.nodes, next.nodes, settled(next, rest + more).0.nodes);
                }
            },
            TaskView::Flush(id) => {
                if t.orphans.contains_key(id) && t.dirs.contains_key(id) {
                    let next = TreeView { orphans: t.orphans.remove(id), ..t };
                    let more = waiting_tasks(t.dirs[id], t.orphans[id]);
                    assert forall|k: int| 0 <= k < (rest + more).len() implies ((
                    #[trigger] (rest + more)[k]) matches TaskView::Graft(p, _) ==> p
                        < next.nodes.len()) by {
                        if k < rest.len() {
                            assert(work[k] == rest[k]);
                        }
                    }
                    lemma_settled_keeps(next, rest + more);
                } else {
                    assert forall|k: int| 0 <= k < rest.len() implies ((
                    #[trigger] rest[k]) matches TaskView::Graft(p, _) ==> p < t.nodes.len()) by {
                        assert(work[k] == rest[k]);
                    }
                    lemma_settled_keeps(t, rest);
                }
            },
        }
    }
}

/// A batch takes no entry away.
pub proof fn lemma_applied_keeps(t: TreeView, b: BatchView)
    requires
        well_formed(t),
    ensures
        keeps(t.nodes, applied(t, b).0.nodes),
{
    if t.dirs.contains_key(b.parent_id) {
        lemma_settled_keeps(t, seq![TaskView::Graft(t.dirs[b.parent_id], b)]);
    }
}

} // verus!
