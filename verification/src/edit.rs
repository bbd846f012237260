//! What removing, refreshing and importing make of the tree, and where its entries lie.
use vstd::prelude::*;

use crate::below;
use crate::model::NodeKind;
use crate::tree;
use crate::tree::{EntryView, NodeView, ShiftView, TreeView};

verus! {

// ---- An entry's own size --------------------------------------------------------------------

/// What an entry adds to the logical size of its parent.
pub open spec fn apparent_share(nodes: Seq<NodeView>) -> spec_fn(int) -> int {
    |c: int|
        if tree::counts(nodes[c]) {
            nodes[c].apparent
        } else {
            0
        }
}

/// What an entry adds to the size on disk of its parent.
pub open spec fn disk_share(nodes: Seq<NodeView>) -> spec_fn(int) -> int {
    |c: int|
        if tree::counts(nodes[c]) {
            nodes[c].disk
        } else {
            0
        }
}

/// The logical size of the entry alone: its aggregate without what its children add.
pub open spec fn own_apparent(nodes: Seq<NodeView>, i: int) -> int {
    tree::max0(
        nodes[i].apparent - below::sum_list(nodes[i].children, apparent_share(nodes)),
    )
}

/// The size on disk of the entry alone.
pub open spec fn own_disk(nodes: Seq<NodeView>, i: int) -> int {
    tree::max0(nodes[i].disk - below::sum_list(nodes[i].children, disk_share(nodes)))
}

// ---- Removing -------------------------------------------------------------------------------

pub open spec fn loss(apparent: int, disk: int) -> ShiftView {
    ShiftView {
        add_apparent: 0,
        add_disk: 0,
        sub_apparent: apparent,
        sub_disk: disk,
        read: 0,
        found: 0,
    }
}

pub open spec fn other_than(i: int) -> spec_fn(usize) -> bool {
    |c: usize| c != i
}

/// The entries with `i` taken off the child list of `p`.
pub open spec fn unlisted(nodes: Seq<NodeView>, p: int, i: int) -> Seq<NodeView> {
    nodes.update(
        p,
        NodeView { children: nodes[p].children.filter(other_than(i)), ..nodes[p] },
    )
}

/// The entries after `i` was removed: it is off its parent's list, and its size, if it counted, is
/// gone from every directory above.
pub open spec fn without(nodes: Seq<NodeView>, i: int) -> Seq<NodeView> {
    match nodes[i].parent {
        Some(p) => {
            let cut = unlisted(nodes, p as int, i);
            if tree::counts(nodes[i]) {
                tree::lifted(cut, p as int, loss(nodes[i].apparent, nodes[i].disk))
            } else {
                cut
            }
        },
        None => nodes,
    }
}

/// The tree after `i` was removed with everything below it.
pub open spec fn deleted(t: TreeView, i: int) -> TreeView {
    TreeView {
        nodes: without(t.nodes, i),
        total_dirs: tree::max0(t.total_dirs - below::count_under(t.nodes, i, true)),
        total_files: tree::max0(t.total_files - below::count_under(t.nodes, i, false)),
        ..t
    }
}

// ---- Refreshing -----------------------------------------------------------------------------

/// What refreshing `i` takes from it and from the directories above it: the size of what hung below,
/// and the unread directories there, in whose place `i` itself is unread.
pub open spec fn refresh_shift(nodes: Seq<NodeView>, i: int) -> ShiftView {
    ShiftView {
        add_apparent: 0,
        add_disk: 0,
        sub_apparent: nodes[i].apparent - own_apparent(nodes, i),
        sub_disk: nodes[i].disk - own_disk(nodes, i),
        read: nodes[i].unscanned,
        found: 1,
    }
}

/// The entries after everything below `i` was cut loose and `i` was made a directory to be read.
pub open spec fn reopened(nodes: Seq<NodeView>, i: int) -> Seq<NodeView> {
    let up = tree::lifted(nodes, i, refresh_shift(nodes, i));
    Seq::new(
        nodes.len(),
        |j: int|
            if j == i {
                NodeView {
                    children: Seq::empty(),
                    apparent: own_apparent(nodes, i),
                    disk: own_disk(nodes, i),
                    scanned: false,
                    read_error: false,
                    unscanned: 1,
                    ..nodes[i]
                }
            } else if below::under(nodes, j, i) {
                NodeView { children: Seq::empty(), ..up[j] }
            } else {
                up[j]
            },
    )
}

/// The tree after `i` was prepared for being scanned again under the id `id_base`.
pub open spec fn refreshed(t: TreeView, i: int, id_base: u64) -> TreeView {
    TreeView {
        nodes: reopened(t.nodes, i),
        dirs: t.dirs.insert(id_base, i as usize),
        total_dirs: tree::max0(t.total_dirs - (below::count_under(t.nodes, i, true) - 1)),
        total_files: tree::max0(t.total_files - below::count_under(t.nodes, i, false)),
        ..t
    }
}

// ---- Importing ------------------------------------------------------------------------------

/// The tree that holds only its root, known in full.
pub open spec fn imported_root(
    name: Seq<char>,
    apparent: int,
    disk: int,
    dev: u64,
    ino: u64,
) -> TreeView {
    let t = tree::only_root(name, apparent, disk, dev, ino);
    TreeView {
        nodes: seq![NodeView { scanned: true, unscanned: 0, ..t.nodes[0] }],
        ..t
    }
}

/// The entries after one was put under `p`, known in full.
pub open spec fn with_import(nodes: Seq<NodeView>, p: int, e: EntryView) -> Seq<NodeView> {
    let up = if tree::entry_counts(e) {
        tree::lifted(nodes, p, tree::growth(e.apparent, e.disk))
    } else {
        nodes
    };
    up.update(
        p,
        NodeView { children: up[p].children.push(nodes.len() as usize), ..up[p] },
    ).push(NodeView { scanned: true, unscanned: 0, ..tree::entry_node(e, p as usize) })
}

/// The tree after an entry was imported under `p`.
pub open spec fn imported(t: TreeView, p: int, e: EntryView) -> TreeView {
    TreeView {
        nodes: with_import(t.nodes, p, e),
        total_dirs: t.total_dirs + if e.kind == NodeKind::Dir {
            1int
        } else {
            0
        },
        total_files: t.total_files + if e.kind == NodeKind::Dir {
            0int
        } else {
            1
        },
        ..t
    }
}

// ---- Where an entry lies --------------------------------------------------------------------

/// `name` within the directory at `dir`.
pub open spec fn joined_path(dir: Seq<char>, name: Seq<char>) -> Seq<char> {
    if dir.len() > 0 && dir.last() == '/' {
        dir + name
    } else {
        dir.push('/') + name
    }
}

/// The path of an entry: the root's name is a path, and every other name lies within its parent.
pub open spec fn path(nodes: Seq<NodeView>, i: int) -> Seq<char>
    decreases i,
{
    match nodes[i].parent {
        Some(p) => if p < i {
            joined_path(path(nodes, p as int), nodes[i].name)
        } else {
            nodes[i].name
        },
        None => nodes[i].name,
    }
}

// ---- What the changes keep ------------------------------------------------------------------

/// Shifting aggregates touches no link.
pub proof fn lemma_lifted_linked(nodes: Seq<NodeView>, start: int, s: ShiftView)
    requires
        tree::well_linked(nodes),
    ensures
        tree::well_linked(tree::lifted(nodes, start, s)),
{
    let up = tree::lifted(nodes, start, s);
    assert forall|i: int, k: int| 0 <= i < up.len() && 0 <= k < up[i].children.len() implies {
        &&& (#[trigger] up[i].children[k]) < up.len()
        &&& up[up[i].children[k] as int].parent == Some(i as usize)
    } by {
        assert(up[i].children[k] == nodes[i].children[k]);
    }
    assert forall|i: int, j: int, k: int|
        0 <= i < up.len() && 0 <= j < k < up[i].children.len() implies (
    #[trigger] up[i].children[j]) < (#[trigger] up[i].children[k]) by {
        assert(up[i].children[j] == nodes[i].children[j]);
        assert(up[i].children[k] == nodes[i].children[k]);
    }
}

/// Taking one entry off an ascending list leaves it ascending.
pub proof fn lemma_filtered(list: Seq<usize>, i: int)
    requires
        forall|j: int, k: int| 0 <= j < k < list.len() ==> (#[trigger] list[j]) < (#[trigger] list[k]),
    ensures
        ({
            let cut = list.filter(other_than(i));
            &&& forall|j: int, k: int|
                0 <= j < k < cut.len() ==> (#[trigger] cut[j]) < (#[trigger] cut[k])
            &&& forall|c: usize| #[trigger] cut.contains(c) <==> list.contains(c) && c != i
        }),
    decreases list.len(),
{
    reveal(Seq::filter);
    let keep = other_than(i);
    let cut = list.filter(keep);
    if list.len() > 0 {
        let shorter = list.drop_last();
        lemma_filtered(shorter, i);
        let short = shorter.filter(keep);
        let last = list.last();
        assert(list[list.len() - 1] == last);
        assert forall|c: usize| #[trigger] short.contains(c) implies c < last by {
            assert(shorter.contains(c));
            let k = choose|k: int| 0 <= k < shorter.len() && shorter[k] == c;
            assert(list[k] < list[list.len() - 1]);
        }
        assert forall|j: int, k: int| 0 <= j < k < cut.len() implies (#[trigger] cut[j]) < (
        #[trigger] cut[k]) by {
            if last != i {
                assert(cut =~= short.push(last));
                assert(short.contains(cut[j]));
            }
        }
        assert forall|c: usize| #[trigger] cut.contains(c) <==> list.contains(c) && c != i by {
            if cut.contains(c) {
                let k = choose|k: int| 0 <= k < cut.len() && cut[k] == c;
                if last != i && k == short.len() {
                    assert(list.contains(last));
                } else {
                    assert(short[k] == c);
                    assert(short.contains(c));
                    assert(shorter.contains(c));
                    let m = choose|m: int| 0 <= m < shorter.len() && shorter[m] == c;
                    assert(list[m] == c);
                }
            }
            if list.contains(c) && c != i {
                let m = choose|m: int| 0 <= m < list.len() && list[m] == c;
                if m < shorter.len() {
                    assert(shorter[m] == c);
                    assert(short.contains(c));
                    let k = choose|k: int| 0 <= k < short.len() && short[k] == c;
                    assert(cut[k] == c);
                } else {
                    assert(cut == short.push(last));
                    assert(cut[short.len() as int] == c);
                }
            }
        }
    }
}

/// Taking an entry off a list keeps the links proper.
pub proof fn lemma_unlisted_linked(nodes: Seq<NodeView>, p: int, i: int)
    requires
        tree::well_linked(nodes),
        0 <= p < nodes.len(),
    ensures
        tree::well_linked(unlisted(nodes, p, i)),
{
    let cut = unlisted(nodes, p, i);
    let list = nodes[p].children;
    let kept = list.filter(other_than(i));
    lemma_filtered(list, i);
    assert forall|j: int, k: int| 0 <= j < cut.len() && 0 <= k < cut[j].children.len() implies {
        &&& (#[trigger] cut[j].children[k]) < cut.len()
        &&& cut[cut[j].children[k] as int].parent == Some(j as usize)
    } by {
        if j == p {
            assert(kept.contains(kept[k]));
            let m = choose|m: int| 0 <= m < list.len() && list[m] == kept[k];
            assert(nodes[p].children[m] == kept[k]);
        } else {
            assert(cut[j].children[k] == nodes[j].children[k]);
        }
    }
    assert forall|x: int, j: int, k: int|
        0 <= x < cut.len() && 0 <= j < k < cut[x].children.len() implies (
    #[trigger] cut[x].children[j]) < (#[trigger] cut[x].children[k]) by {
        if x != p {
            assert(cut[x].children[j] == nodes[x].children[j]);
            assert(cut[x].children[k] == nodes[x].children[k]);
        }
    }
}

/// Removing keeps the tree well formed.
pub proof fn lemma_deleted_wf(t: TreeView, i: int)
    requires
        tree::well_formed(t),
        0 <= i < t.nodes.len(),
    ensures
        tree::well_formed(deleted(t, i)),
{
    lemma_counts_nonneg(t.nodes, i);
    if let Some(p) = t.nodes[i].parent {
        lemma_unlisted_linked(t.nodes, p as int, i);
        lemma_lifted_linked(
            unlisted(t.nodes, p as int, i),
            p as int,
            loss(t.nodes[i].apparent, t.nodes[i].disk),
        );
    }
}

pub proof fn lemma_counts_nonneg(nodes: Seq<NodeView>, i: int)
    ensures
        below::count_under(nodes, i, true) >= 0,
        below::count_under(nodes, i, false) >= 0,
        below::count_under(nodes, i, true) + below::count_under(nodes, i, false) <= nodes.len(),
        0 <= i < nodes.len() && tree::is_dir(nodes[i]) ==> below::count_under(nodes, i, true) >= 1,
{
    let dirs = |j: int|
        if below::under(nodes, j, i) {
            below::is_one(nodes, true)(j)
        } else {
            0
        };
    let files = |j: int|
        if below::under(nodes, j, i) {
            below::is_one(nodes, false)(j)
        } else {
            0
        };
    let n = nodes.len() as int;
    lemma_sum_bounds(dirs, files, n);
    if 0 <= i < n && tree::is_dir(nodes[i]) {
        let rest = |j: int|
            if j == i {
                0
            } else {
                dirs(j)
            };
        below::lemma_sum_range_one(dirs, rest, n, i);
        lemma_sum_bounds(rest, files, n);
        assert(below::under(nodes, i, i));
    }
}

pub proof fn lemma_sum_bounds(f: spec_fn(int) -> int, g: spec_fn(int) -> int, n: int)
    requires
        0 <= n,
        forall|j: int| 0 <= j < n ==> 0 <= #[trigger] f(j),
        forall|j: int| 0 <= j < n ==> 0 <= #[trigger] g(j) && f(j) + g(j) <= 1,
    ensures
        below::sum_range(f, n) >= 0,
        below::sum_range(g, n) >= 0,
        below::sum_range(f, n) + below::sum_range(g, n) <= n,
    decreases n,
{
    if n > 0 {
        lemma_sum_bounds(f, g, n - 1);
        assert(0 <= f(n - 1) && 0 <= g(n - 1));
    }
}

/// Refreshing keeps the tree well formed.
pub proof fn lemma_refreshed_wf(t: TreeView, i: int, id_base: u64)
    requires
        tree::well_formed(t),
        0 <= i < t.nodes.len(),
        tree::is_dir(t.nodes[i]),
    ensures
        tree::well_formed(refreshed(t, i, id_base)),
{
    lemma_counts_nonneg(t.nodes, i);
    let nodes = t.nodes;
    let after = reopened(nodes, i);
    assert forall|j: int, k: int| 0 <= j < after.len() && 0 <= k < after[j].children.len() implies {
        &&& (#[trigger] after[j].children[k]) < after.len()
        &&& after[after[j].children[k] as int].parent == Some(j as usize)
    } by {
        assert(after[j].children[k] == nodes[j].children[k]);
    }
    assert forall|x: int, j: int, k: int|
        0 <= x < after.len() && 0 <= j < k < after[x].children.len() implies (
    #[trigger] after[x].children[j]) < (#[trigger] after[x].children[k]) by {
        assert(after[x].children[j] == nodes[x].children[j]);
        assert(after[x].children[k] == nodes[x].children[k]);
    }
}

/// Importing keeps the tree well formed.
pub proof fn lemma_imported_wf(t: TreeView, p: int, e: EntryView)
    requires
        tree::well_formed(t),
        0 <= p < t.nodes.len(),
        t.nodes.len() < usize::MAX,
    ensures
        tree::well_formed(imported(t, p, e)),
{
    let nodes = t.nodes;
    let after = with_import(nodes, p, e);
    assert forall|j: int, k: int| 0 <= j < after.len() && 0 <= k < after[j].children.len() implies {
        &&& (#[trigger] after[j].children[k]) < after.len()
        &&& after[after[j].children[k] as int].parent == Some(j as usize)
    } by {
        if k < nodes[j].children.len() {
            assert(after[j].children[k] == nodes[j].children[k]);
        }
    }
    assert forall|x: int, j: int, k: int|
        0 <= x < after.len() && 0 <= j < k < after[x].children.len() implies (
    #[trigger] after[x].children[j]) < (#[trigger] after[x].children[k]) by {
        assert(after[x].children[j] == nodes[x].children[j]);
        if k < nodes[x].children.len() {
            assert(after[x].children[k] == nodes[x].children[k]);
        }
    }
}

/// An entry alone is no larger than its aggregate.
pub proof fn lemma_own_at_most(nodes: Seq<NodeView>, i: int)
    requires
        tree::well_linked(nodes),
        tree::fits(nodes),
        0 <= i < nodes.len(),
    ensures
        0 <= own_apparent(nodes, i) <= nodes[i].apparent,
        0 <= own_disk(nodes, i) <= nodes[i].disk,
{
    let list = nodes[i].children;
    assert forall|k: int| 0 <= k < list.len() implies apparent_share(nodes)(
        #[trigger] list[k] as int,
    ) >= 0 && disk_share(nodes)(list[k] as int) >= 0 by {
        assert(nodes[i].children[k] < nodes.len());
        assert(nodes[list[k] as int].apparent >= 0);
    }
    lemma_sum_list_nonneg(list, apparent_share(nodes));
    lemma_sum_list_nonneg(list, disk_share(nodes));
}

pub proof fn lemma_sum_list_nonneg(list: Seq<usize>, f: spec_fn(int) -> int)
    requires
        forall|k: int| 0 <= k < list.len() ==> f(#[trigger] list[k] as int) >= 0,
    ensures
        below::sum_list(list, f) >= 0,
    decreases list.len(),
{
    if list.len() > 0 {
        let shorter = list.drop_last();
        assert forall|k: int| 0 <= k < shorter.len() implies f(
            #[trigger] shorter[k] as int,
        ) >= 0 by {
            assert(shorter[k] == list[k]);
        }
        lemma_sum_list_nonneg(shorter, f);
        assert(f(list[list.len() - 1] as int) >= 0);
    }
}

/// The entries with the child lists of the listed ones emptied.
pub open spec fn childless(nodes: Seq<NodeView>, list: Seq<usize>) -> Seq<NodeView> {
    Seq::new(
        nodes.len(),
        |j: int|
            if list.contains(j as usize) {
                NodeView { children: Seq::empty(), ..nodes[j] }
            } else {
                nodes[j]
            },
    )
}

/// Whether the counts fit after refreshing is decided along the way up.
pub proof fn lemma_reopened_room(nodes: Seq<NodeView>, i: int)
    requires
        tree::well_linked(nodes),
        tree::fits(nodes),
        0 <= i < nodes.len(),
    ensures
        tree::fits(reopened(nodes, i)) == tree::fits(
            tree::lifted(nodes, i, refresh_shift(nodes, i)),
        ),
{
    let after = reopened(nodes, i);
    let up = tree::lifted(nodes, i, refresh_shift(nodes, i));
    lemma_own_at_most(nodes, i);
    assert(tree::charged(nodes, i, i));
    if tree::fits(up) {
        assert forall|j: int| 0 <= j < after.len() implies {
            &&& 0 <= (#[trigger] after[j]).apparent <= u64::MAX
            &&& 0 <= after[j].disk <= u64::MAX
            &&& 0 <= after[j].unscanned <= u32::MAX
        } by {
            assert(0 <= up[j].apparent <= u64::MAX);
        }
    }
    if tree::fits(after) {
        assert forall|j: int| 0 <= j < up.len() implies {
            &&& 0 <= (#[trigger] up[j]).apparent <= u64::MAX
            &&& 0 <= up[j].disk <= u64::MAX
            &&& 0 <= up[j].unscanned <= u32::MAX
        } by {
            assert(0 <= after[j].apparent <= u64::MAX);
            assert(0 <= nodes[j].apparent <= u64::MAX);
        }
    }
}

/// Emptying the lists of everything below a directory, and making it unread, reopens it.
pub proof fn lemma_reopened_is(
    nodes: Seq<NodeView>,
    i: int,
    list: Seq<usize>,
    up: Seq<NodeView>,
    cleared: Seq<NodeView>,
    after: Seq<NodeView>,
)
    requires
        tree::well_linked(nodes),
        tree::fits(nodes),
        0 <= i < nodes.len() <= usize::MAX,
        forall|j: int|
            0 <= j < nodes.len() ==> (#[trigger] below::under(nodes, j, i) <==> list.contains(
                j as usize,
            )),
        up == tree::lifted(nodes, i, refresh_shift(nodes, i)),
        cleared == childless(up, list),
        after == cleared.update(
            i,
            NodeView { scanned: false, read_error: false, ..cleared[i] },
        ),
    ensures
        after == reopened(nodes, i),
{
    let want = reopened(nodes, i);
    lemma_own_at_most(nodes, i);
    assert forall|j: int| 0 <= j < nodes.len() implies after[j] == want[j] by {
        assert(below::under(nodes, j, i) <==> list.contains(j as usize));
        if j == i {
            assert(tree::charged(nodes, i, i));
            assert(after[i] =~= want[i]);
        }
    }
    assert(after =~= want);
}

} // verus!
