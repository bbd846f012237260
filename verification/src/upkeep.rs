//! Every change keeps the totals right, and leaves every other entry's own size alone.
use vstd::prelude::*;

use crate::below;
use crate::edit;
use crate::model::{Excluded, NodeKind};
use crate::totals;
use crate::tree;
use crate::tree::{BatchView, EntryView, NodeView, TaskView, TreeView};

verus! {

/// An entry as the scanner reports it: just the directories that are not excluded will be
/// reported on, and those are no hard links.
pub open spec fn valid_entry(e: EntryView) -> bool {
    &&& 0 <= e.apparent <= u64::MAX
    &&& 0 <= e.disk <= u64::MAX
    &&& e.dir_id is Some <==> e.kind == NodeKind::Dir && e.excluded == Excluded::No
    &&& e.dir_id is Some ==> !e.shared
}

pub open spec fn valid_batch(b: BatchView) -> bool {
    forall|k: int| 0 <= k < b.nodes.len() ==> valid_entry(#[trigger] b.nodes[k])
}

/// A directory that a batch may be put under: it can be reached, and it counts.
pub open spec fn good_home(nodes: Seq<NodeView>, p: int) -> bool {
    &&& totals::live(nodes, p)
    &&& tree::is_dir(nodes[p])
    &&& tree::counts(nodes[p])
}

/// The own sizes of the entries in `nodes` that can still be reached in `after` are the same.
pub open spec fn own_kept(nodes: Seq<NodeView>, after: Seq<NodeView>) -> bool {
    forall|i: int|
        #![trigger totals::live(after, i)]
        0 <= i < nodes.len() && totals::live(after, i) ==> edit::own_apparent(after, i)
            == edit::own_apparent(nodes, i) && edit::own_disk(after, i) == edit::own_disk(nodes, i)
}

/// The entry `i` is one that was found like this, in reach and of the own size that it was found with.
pub open spec fn is_as_found(nodes: Seq<NodeView>, i: int, e: EntryView) -> bool {
    &&& totals::live(nodes, i)
    &&& nodes[i].name == e.name
    &&& nodes[i].kind == e.kind
    &&& nodes[i].shared == e.shared
    &&& nodes[i].excluded == e.excluded
    &&& edit::own_apparent(nodes, i) == e.apparent
    &&& edit::own_disk(nodes, i) == e.disk
}

// ---- A batch ----------------------------------------------------------------------------------

pub proof fn lemma_entries_listed(nodes: Seq<NodeView>, p: int, entries: Seq<EntryView>, x: int)
    requires
        tree::well_linked(nodes),
        0 <= p < nodes.len(),
        nodes.len() + entries.len() <= usize::MAX,
        0 <= x < nodes.len() + entries.len(),
    ensures
        x < nodes.len() ==> tree::listed(tree::with_entries(nodes, p, entries), x) == tree::listed(
            nodes,
            x,
        ),
        x >= nodes.len() ==> tree::listed(tree::with_entries(nodes, p, entries), x),
{
    let after = tree::with_entries(nodes, p, entries);
    let more = Seq::new(entries.len(), |k: int| (nodes.len() + k) as usize);
    assert(after[p].children =~= nodes[p].children + more);
    if x >= nodes.len() {
        assert(after[p].children[nodes[p].children.len() + (x - nodes.len())] == x as usize);
    } else if x > 0 {
        let q = nodes[x].parent->0 as int;
        if q == p {
            let list = nodes[p].children;
            if list.contains(x as usize) {
                let k = choose|k: int| 0 <= k < list.len() && list[k] == x as usize;
                assert(after[p].children[k] == x as usize);
            }
            if after[p].children.contains(x as usize) {
                let k = choose|k: int|
                    0 <= k < after[p].children.len() && after[p].children[k] == x as usize;
                assert(k < list.len());
                assert(list[k] == x as usize);
            }
        }
    }
}

/// New entries hang where their parent hangs, and move nothing else.
proof fn lemma_entries_under(nodes: Seq<NodeView>, p: int, entries: Seq<EntryView>, j: int, i: int)
    requires
        tree::well_linked(nodes),
        0 <= p < nodes.len(),
        nodes.len() + entries.len() <= usize::MAX,
        0 <= j < nodes.len() + entries.len(),
        0 <= i < nodes.len(),
    ensures
        below::under(tree::with_entries(nodes, p, entries), j, i) == if j < nodes.len() {
            below::under(nodes, j, i)
        } else {
            below::under(nodes, p, i)
        },
{
    let after = tree::with_entries(nodes, p, entries);
    assert forall|x: int| 0 <= x < nodes.len() implies (#[trigger] nodes[x]).parent
        == after[x].parent && tree::listed(nodes, x) == tree::listed(after, x) by {
        lemma_entries_listed(nodes, p, entries, x);
    }
    if j < nodes.len() {
        totals::lemma_under_same(nodes, after, j, i);
    } else {
        lemma_entries_listed(nodes, p, entries, j);
        totals::lemma_under_same(nodes, after, p, i);
    }
}

proof fn lemma_entries_counted(
    nodes: Seq<NodeView>,
    p: int,
    entries: Seq<EntryView>,
    f: spec_fn(int) -> int,
    dirs: bool,
    k: int,
)
    requires
        0 <= k <= entries.len(),
        forall|m: int|
            0 <= m < entries.len() ==> #[trigger] f(nodes.len() + m) == if (entries[m].kind
                == NodeKind::Dir) == dirs {
                1int
            } else {
                0
            },
    ensures
        below::sum_range(f, nodes.len() + k) == below::sum_range(f, nodes.len() as int) + if dirs {
            tree::dir_entries(entries.take(k))
        } else {
            k - tree::dir_entries(entries.take(k))
        },
    decreases k,
{
    if k > 0 {
        lemma_entries_counted(nodes, p, entries, f, dirs, k - 1);
        assert(entries.take(k).drop_last() =~= entries.take(k - 1));
        assert(f(nodes.len() + (k - 1)) == f(nodes.len() + k - 1));
    }
}

/// The number of directories (or of other entries) that can be reached grows by that of the new
/// ones.
proof fn lemma_entries_count(nodes: Seq<NodeView>, p: int, entries: Seq<EntryView>, dirs: bool)
    requires
        tree::well_linked(nodes),
        totals::live(nodes, p),
        nodes.len() + entries.len() <= usize::MAX,
    ensures
        below::count_under(tree::with_entries(nodes, p, entries), 0, dirs) == below::count_under(
            nodes,
            0,
            dirs,
        ) + if dirs {
            tree::dir_entries(entries)
        } else {
            entries.len() - tree::dir_entries(entries)
        },
{
    let after = tree::with_entries(nodes, p, entries);
    let f = |j: int|
        if below::under(after, j, 0) {
            below::is_one(after, dirs)(j)
        } else {
            0
        };
    let g = |j: int|
        if below::under(nodes, j, 0) {
            below::is_one(nodes, dirs)(j)
        } else {
            0
        };
    assert forall|j: int| 0 <= j < nodes.len() implies #[trigger] f(j) == g(j) by {
        lemma_entries_under(nodes, p, entries, j, 0);
    }
    below::lemma_sum_range_same(f, g, nodes.len() as int);
    assert forall|m: int| 0 <= m < entries.len() implies #[trigger] f(nodes.len() + m) == if (
    entries[m].kind == NodeKind::Dir) == dirs {
        1int
    } else {
        0
    } by {
        lemma_entries_under(nodes, p, entries, nodes.len() + m, 0);
    }
    lemma_entries_counted(nodes, p, entries, f, dirs, entries.len() as int);
    assert(entries.take(entries.len() as int) =~= entries);
}

proof fn lemma_sum_list_add(a: Seq<usize>, b: Seq<usize>, f: spec_fn(int) -> int)
    ensures
        below::sum_list(a + b, f) == below::sum_list(a, f) + below::sum_list(b, f),
    decreases b.len(),
{
    if b.len() == 0 {
        assert(a + b =~= a);
    } else {
        assert((a + b).drop_last() =~= a + b.drop_last());
        lemma_sum_list_add(a, b.drop_last(), f);
    }
}

/// What new entries add to the sums over their parent's children.
proof fn lemma_entries_sums(after: Seq<NodeView>, base: int, p: usize, entries: Seq<EntryView>, k: int)
    requires
        0 <= base,
        after.len() == base + entries.len(),
        after.len() <= usize::MAX,
        0 <= k <= entries.len(),
        forall|m: int|
            0 <= m < entries.len() ==> after[base + m] == tree::entry_node(
                #[trigger] entries[m],
                p,
            ),
    ensures
        ({
            let more = Seq::new(k as nat, |m: int| (base + m) as usize);
            &&& below::sum_list(more, edit::apparent_share(after)) == tree::counted_apparent(
                entries.take(k),
            )
            &&& below::sum_list(more, edit::disk_share(after)) == tree::counted_disk(
                entries.take(k),
            )
            &&& below::sum_list(more, totals::unread_share(after)) == tree::dir_ids(
                entries.take(k),
            ).len()
        }),
    decreases k,
{
    let more = Seq::new(k as nat, |m: int| (base + m) as usize);
    if k > 0 {
        lemma_entries_sums(after, base, p, entries, k - 1);
        assert(more.drop_last() =~= Seq::new((k - 1) as nat, |m: int| (base + m) as usize));
        assert(entries.take(k).drop_last() =~= entries.take(k - 1));
        assert(after[base + (k - 1)] == tree::entry_node(entries[k - 1], p));
        assert(more.last() == (base + k - 1) as usize);
    }
}

/// Where the unread count of a batch's home covers the home itself, nothing runs into zero.
proof fn lemma_batch_shift_exact(t: TreeView, p: int, b: BatchView)
    requires
        totals::consistent(t),
        good_home(t.nodes, p),
        valid_batch(b),
    ensures
        totals::exact_shift(t.nodes, p, tree::batch_shift(t.nodes, p, b)),
{
    let nodes = t.nodes;
    let s = tree::batch_shift(nodes, p, b);
    assert forall|k: int| 0 <= k < b.nodes.len() implies 0 <= (#[trigger] b.nodes[k]).apparent && 0
        <= b.nodes[k].disk by {
        assert(valid_entry(b.nodes[k]));
    }
    tree::lemma_batch_sums_grow(b.nodes, b.nodes.len() as int);
    assert(totals::balanced(nodes, p));
    let list = nodes[p].children;
    assert forall|k: int| 0 <= k < list.len() implies totals::unread_share(nodes)(
        #[trigger] list[k] as int,
    ) >= 0 by {
        assert(nodes[p].children[k] < nodes.len());
        assert(nodes[list[k] as int].unscanned >= 0);
    }
    edit::lemma_sum_list_nonneg(list, totals::unread_share(nodes));
    assert(nodes[p].unscanned >= s.read);
    assert forall|c: int| 0 <= c < nodes.len() && #[trigger] tree::charged(nodes, c, p) implies {
        &&& nodes[c].apparent + s.add_apparent - s.sub_apparent >= 0
        &&& nodes[c].disk + s.add_disk - s.sub_disk >= 0
    } by {
        assert(nodes[c].apparent >= 0);
    }
    assert forall|c: int| 0 <= c < nodes.len() && #[trigger] tree::above(
        nodes,
        c,
        p,
    ) implies nodes[c].unscanned - s.read >= 0 by {
        totals::lemma_above_covers(t, c, p);
    }
}

/// Each entry's aggregates agree with its children after a batch, and own sizes stay.
proof fn lemma_grafted_balance(t: TreeView, p: int, b: BatchView, i: int)
    requires
        totals::consistent(t),
        good_home(t.nodes, p),
        valid_batch(b),
        t.nodes.len() + b.nodes.len() <= usize::MAX,
        0 <= i < t.nodes.len() + b.nodes.len(),
        i < t.nodes.len() ==> totals::live(t.nodes, i),
    ensures
        totals::balanced(tree::with_batch(t.nodes, p, b), i),
        i < t.nodes.len() ==> totals::apparent_slack(tree::with_batch(t.nodes, p, b), i)
            == totals::apparent_slack(t.nodes, i),
        i < t.nodes.len() ==> totals::disk_slack(tree::with_batch(t.nodes, p, b), i)
            == totals::disk_slack(t.nodes, i),
{
    let nodes = t.nodes;
    let s = tree::batch_shift(nodes, p, b);
    let up = tree::lifted(nodes, p, s);
    let after = tree::with_batch(nodes, p, b);
    let base = nodes.len() as int;
    lemma_batch_shift_exact(t, p, b);
    if i >= base {
        assert(valid_entry(b.nodes[i - base]));
        assert(after[i] == tree::entry_node(b.nodes[i - base], p as usize));
        assert(after[i].children =~= Seq::empty());
    } else {
        assert(totals::balanced(nodes, i));
        totals::lemma_lift_slack(nodes, p, s, i);
        let list = nodes[i].children;
        assert forall|k: int| 0 <= k < list.len() implies ({
            let c = #[trigger] list[k] as int;
            &&& edit::apparent_share(after)(c) == edit::apparent_share(up)(c)
            &&& edit::disk_share(after)(c) == edit::disk_share(up)(c)
            &&& totals::unread_share(after)(c) == totals::unread_share(up)(c)
        }) by {
            assert(nodes[i].children[k] < nodes.len());
        }
        below::lemma_sum_list_same(list, edit::apparent_share(after), edit::apparent_share(up));
        below::lemma_sum_list_same(list, edit::disk_share(after), edit::disk_share(up));
        below::lemma_sum_list_same(list, totals::unread_share(after), totals::unread_share(up));
        if i == p {
            let more = Seq::new(b.nodes.len(), |k: int| (base + k) as usize);
            assert(after[p].children =~= list + more);
            lemma_sum_list_add(list, more, edit::apparent_share(after));
            lemma_sum_list_add(list, more, edit::disk_share(after));
            lemma_sum_list_add(list, more, totals::unread_share(after));
            lemma_entries_sums(after, base, p as usize, b.nodes, b.nodes.len() as int);
            assert(b.nodes.take(b.nodes.len() as int) =~= b.nodes);
            assert(tree::charged(nodes, p, p));
        } else {
            assert(after[i].children == list);
        }
    }
}

/// The entries with the aggregates above a batch shifted, and its directory marked as read.
pub open spec fn marked(nodes: Seq<NodeView>, p: int, b: BatchView) -> Seq<NodeView> {
    tree::marked_read(tree::lifted(nodes, p, tree::batch_shift(nodes, p, b)), p, b.failed)
}

/// Shifting and marking touch no link, and nothing of what an entry is.
pub proof fn lemma_marked_same(nodes: Seq<NodeView>, p: int, b: BatchView)
    requires
        tree::well_linked(nodes),
        0 <= p < nodes.len(),
    ensures
        marked(nodes, p, b).len() == nodes.len(),
        tree::well_linked(marked(nodes, p, b)),
        forall|x: int|
            0 <= x < nodes.len() ==> {
                &&& (#[trigger] nodes[x]).parent == marked(nodes, p, b)[x].parent
                &&& tree::listed(nodes, x) == tree::listed(marked(nodes, p, b), x)
            },
        forall|x: int|
            0 <= x < nodes.len() ==> {
                &&& (#[trigger] marked(nodes, p, b)[x]).name == nodes[x].name
                &&& marked(nodes, p, b)[x].parent == nodes[x].parent
                &&& marked(nodes, p, b)[x].children == nodes[x].children
                &&& marked(nodes, p, b)[x].kind == nodes[x].kind
                &&& marked(nodes, p, b)[x].shared == nodes[x].shared
                &&& marked(nodes, p, b)[x].excluded == nodes[x].excluded
            },
{
    let now = marked(nodes, p, b);
    lemma_same_links(nodes, now);
    assert forall|x: int| 0 <= x < nodes.len() implies (#[trigger] nodes[x]).parent == now[x].parent
        && tree::listed(nodes, x) == tree::listed(now, x) by {
        assert forall|y: int| 0 <= y < nodes.len() implies nodes[y].children == now[y].children by {}
    }
}

/// A batch keeps the totals right.
pub proof fn law_batch_keeps_totals(t: TreeView, p: int, b: BatchView)
    requires
        totals::consistent(t),
        good_home(t.nodes, p),
        valid_batch(b),
        tree::fits(tree::grafted(t, p, b).nodes),
    ensures
        totals::consistent(tree::grafted(t, p, b)),
        own_kept(t.nodes, tree::grafted(t, p, b).nodes),
        forall|k: int|
            0 <= k < b.nodes.len() ==> is_as_found(
                tree::grafted(t, p, b).nodes,
                t.nodes.len() + k,
                #[trigger] b.nodes[k],
            ),
{
    let next = tree::grafted(t, p, b);
    let after = next.nodes;
    let nodes = t.nodes;
    let marked = marked(nodes, p, b);
    assert(after.len() == nodes.len() + b.nodes.len());
    assert(after == tree::with_entries(marked, p, b.nodes));
    tree::lemma_grafted_wf(t, p, b);
    lemma_marked_same(nodes, p, b);
    assert forall|i: int| #[trigger] totals::live(after, i) implies totals::balanced(after, i)
        && (i < nodes.len() ==> edit::own_apparent(after, i) == edit::own_apparent(nodes, i)
        && edit::own_disk(after, i) == edit::own_disk(nodes, i)) by {
        lemma_entries_under(marked, p, b.nodes, i, 0);
        if i < nodes.len() {
            totals::lemma_under_same(nodes, marked, i, 0);
        }
        lemma_grafted_balance(t, p, b, i);
    }
    totals::lemma_under_same(nodes, marked, p, 0);
    lemma_entries_count(marked, p, b.nodes, true);
    lemma_entries_count(marked, p, b.nodes, false);
    lemma_count_same(nodes, marked, true);
    lemma_count_same(nodes, marked, false);
    assert forall|k: int| 0 <= k < b.nodes.len() implies is_as_found(
        after,
        nodes.len() + k,
        #[trigger] b.nodes[k],
    ) by {
        let at = nodes.len() + k;
        lemma_entries_under(marked, p, b.nodes, at, 0);
        assert(valid_entry(b.nodes[k]));
        assert(after[at] == tree::entry_node(b.nodes[k], p as usize));
        assert(after[at].children =~= Seq::empty());
    }
}

/// Entries with the same parents and child lists are linked as well.
proof fn lemma_same_links(a: Seq<NodeView>, b: Seq<NodeView>)
    requires
        tree::well_linked(a),
        a.len() == b.len(),
        forall|i: int|
            0 <= i < a.len() ==> (#[trigger] b[i]).parent == a[i].parent && b[i].children
                == a[i].children,
    ensures
        tree::well_linked(b),
{
    assert(b[0].parent == a[0].parent);
    assert forall|i: int| 0 < i < b.len() implies (#[trigger] b[i]).parent is Some
        && b[i].parent->0 < i by {
        assert(a[i].parent is Some);
    }
    assert forall|i: int, k: int| 0 <= i < b.len() && 0 <= k < b[i].children.len() implies {
        &&& (#[trigger] b[i].children[k]) < b.len()
        &&& b[b[i].children[k] as int].parent == Some(i as usize)
    } by {
        assert(b[i].children[k] == a[i].children[k]);
    }
    assert forall|i: int, j: int, k: int|
        0 <= i < b.len() && 0 <= j < k < b[i].children.len() implies (
    #[trigger] b[i].children[j]) < (#[trigger] b[i].children[k]) by {
        assert(b[i].children[j] == a[i].children[j]);
        assert(b[i].children[k] == a[i].children[k]);
    }
}

/// Same parents, lists and kinds: the same number of directories and others can be reached.
proof fn lemma_count_same(a: Seq<NodeView>, b: Seq<NodeView>, dirs: bool)
    requires
        tree::well_linked(a),
        a.len() == b.len(),
        forall|i: int|
            0 <= i < a.len() ==> (#[trigger] b[i]).parent == a[i].parent && b[i].children
                == a[i].children && b[i].kind == a[i].kind,
    ensures
        below::count_under(a, 0, dirs) == below::count_under(b, 0, dirs),
{
    assert forall|x: int| 0 <= x < a.len() implies (#[trigger] a[x]).parent == b[x].parent
        && tree::listed(a, x) == tree::listed(b, x) by {
        assert(b[x].parent == a[x].parent);
        if a[x].parent is Some && a[x].parent->0 < a.len() {
            assert(b[a[x].parent->0 as int].children == a[a[x].parent->0 as int].children);
        }
    }
    let f = |j: int|
        if below::under(a, j, 0) {
            below::is_one(a, dirs)(j)
        } else {
            0
        };
    let g = |j: int|
        if below::under(b, j, 0) {
            below::is_one(b, dirs)(j)
        } else {
            0
        };
    assert forall|j: int| 0 <= j < a.len() implies #[trigger] f(j) == g(j) by {
        totals::lemma_under_same(a, b, j, 0);
        assert(b[j].kind == a[j].kind);
    }
    below::lemma_sum_range_same(f, g, a.len() as int);
}

// ---- Everything a batch brings about ----------------------------------------------------------

/// Every entry keeps its place, its name and its standing: what can be reached stays so, and
/// nothing that could not be reached becomes so.
pub open spec fn live_kept(nodes: Seq<NodeView>, after: Seq<NodeView>) -> bool {
    &&& nodes.len() <= after.len()
    &&& forall|i: int|
        0 <= i < nodes.len() ==> {
            &&& #[trigger] totals::live(after, i) == totals::live(nodes, i)
            &&& after[i].name == nodes[i].name
            &&& after[i].parent == nodes[i].parent
            &&& after[i].kind == nodes[i].kind
            &&& after[i].shared == nodes[i].shared
            &&& after[i].excluded == nodes[i].excluded
        }
}

/// Every batch that waits is one the scanner may report.
pub open spec fn valid_waiting(t: TreeView) -> bool {
    forall|id: u64, k: int|
        t.orphans.contains_key(id) && 0 <= k < t.orphans[id].len() ==> valid_batch(
            #[trigger] t.orphans[id][k],
        )
}

/// Every directory that the scanner may report on can take a batch.
pub open spec fn good_index(t: TreeView) -> bool {
    forall|id: u64| #[trigger] t.dirs.contains_key(id) ==> good_home(t.nodes, t.dirs[id] as int)
}

/// Everything that is to be done can be done.
pub open spec fn sound_task(t: TreeView, task: TaskView) -> bool {
    match task {
        TaskView::Graft(p, b) => good_home(t.nodes, p as int) && valid_batch(b),
        TaskView::Flush(id) => t.dirs.contains_key(id) ==> good_home(
            t.nodes,
            t.dirs[id] as int,
        ),
    }
}

pub open spec fn sound_work(t: TreeView, work: Seq<TaskView>) -> bool {
    forall|k: int| 0 <= k < work.len() ==> sound_task(t, #[trigger] work[k])
}

pub proof fn lemma_grafted_live(t: TreeView, p: int, b: BatchView)
    requires
        totals::consistent(t),
        good_home(t.nodes, p),
        valid_batch(b),
        tree::fits(tree::grafted(t, p, b).nodes),
    ensures
        live_kept(t.nodes, tree::grafted(t, p, b).nodes),
        forall|k: int|
            0 <= k < b.nodes.len() && (#[trigger] b.nodes[k]).dir_id is Some ==> good_home(
                tree::grafted(t, p, b).nodes,
                t.nodes.len() + k,
            ),
{
    let nodes = t.nodes;
    let after = tree::grafted(t, p, b).nodes;
    let marked = marked(nodes, p, b);
    lemma_marked_same(nodes, p, b);
    assert(after == tree::with_entries(marked, p, b.nodes));
    assert(after.len() == nodes.len() + b.nodes.len());
    assert forall|i: int| 0 <= i < nodes.len() implies {
        &&& #[trigger] totals::live(after, i) == totals::live(nodes, i)
        &&& after[i].name == nodes[i].name
        &&& after[i].parent == nodes[i].parent
        &&& after[i].kind == nodes[i].kind
        &&& after[i].shared == nodes[i].shared
        &&& after[i].excluded == nodes[i].excluded
    } by {
        lemma_entries_under(marked, p, b.nodes, i, 0);
        totals::lemma_under_same(nodes, marked, i, 0);
        assert(marked[i].name == nodes[i].name);
    }
    assert forall|k: int|
        0 <= k < b.nodes.len() && (#[trigger] b.nodes[k]).dir_id is Some implies good_home(
        after,
        nodes.len() + k,
    ) by {
        assert(valid_entry(b.nodes[k]));
        lemma_entries_under(marked, p, b.nodes, nodes.len() + k, 0);
        totals::lemma_under_same(nodes, marked, p, 0);
    }
}

pub proof fn lemma_good_home_kept(nodes: Seq<NodeView>, after: Seq<NodeView>, p: int)
    requires
        live_kept(nodes, after),
        good_home(nodes, p),
    ensures
        good_home(after, p),
{
    assert(totals::live(after, p) == totals::live(nodes, p));
}

pub proof fn lemma_index_kept(t: TreeView, p: int, b: BatchView, id: u64)
    requires
        totals::consistent(t),
        good_home(t.nodes, p),
        valid_batch(b),
        tree::fits(tree::grafted(t, p, b).nodes),
        t.dirs.contains_key(id) ==> good_home(t.nodes, t.dirs[id] as int),
        tree::grafted(t, p, b).dirs.contains_key(id),
    ensures
        good_home(tree::grafted(t, p, b).nodes, tree::grafted(t, p, b).dirs[id] as int),
{
    let next = tree::grafted(t, p, b);
    assert(next.nodes.len() == t.nodes.len() + b.nodes.len());
    lemma_grafted_live(t, p, b);
    tree::lemma_registered(t.dirs, b.nodes, t.nodes.len() as int);
    let at = next.dirs[id];
    if t.dirs.contains_key(id) && at == t.dirs[id] {
        lemma_good_home_kept(t.nodes, next.nodes, at as int);
    } else {
        assert(b.nodes[at - t.nodes.len()].dir_id is Some);
    }
}

pub proof fn lemma_kept_trans(a: Seq<NodeView>, b: Seq<NodeView>, c: Seq<NodeView>)
    requires
        live_kept(a, b),
        live_kept(b, c),
        own_kept(a, b),
        own_kept(b, c),
    ensures
        live_kept(a, c),
        own_kept(a, c),
{
    assert forall|i: int| 0 <= i < a.len() implies {
        &&& #[trigger] totals::live(c, i) == totals::live(a, i)
        &&& c[i].name == a[i].name
        &&& c[i].parent == a[i].parent
        &&& c[i].kind == a[i].kind
        &&& c[i].shared == a[i].shared
        &&& c[i].excluded == a[i].excluded
    } by {
        assert(totals::live(b, i) == totals::live(a, i));
        assert(totals::live(c, i) == totals::live(b, i));
    }
    assert forall|i: int|
        #![trigger totals::live(c, i)]
        0 <= i < a.len() && totals::live(c, i) implies edit::own_apparent(c, i)
        == edit::own_apparent(a, i) && edit::own_disk(c, i) == edit::own_disk(a, i) by {
        assert(totals::live(b, i) == totals::live(c, i));
    }
}

/// What is left to do after a batch was put in can be done.
pub proof fn lemma_graft_sound(t: TreeView, work: Seq<TaskView>)
    requires
        totals::consistent(t),
        valid_waiting(t),
        sound_work(t, work),
        work.len() > 0,
        work.last() matches TaskView::Graft(p, b) && tree::fits(
            tree::grafted(t, p as int, b).nodes,
        ),
    ensures
        ({
            let p = work.last()->Graft_0;
            let b = work.last()->Graft_1;
            let next = tree::grafted(t, p as int, b);
            &&& sound_work(next, work.drop_last() + tree::flush_tasks(tree::dir_ids(b.nodes)))
            &&& valid_waiting(next)
        }),
{
    let p = work.last()->Graft_0;
    let b = work.last()->Graft_1;
    let next = tree::grafted(t, p as int, b);
    let ids = tree::dir_ids(b.nodes);
    let rest = work.drop_last();
    let all = rest + tree::flush_tasks(ids);
    assert(work[work.len() - 1] == work.last());
    assert(sound_task(t, work.last()));
    law_batch_keeps_totals(t, p as int, b);
    lemma_grafted_live(t, p as int, b);
    tree::lemma_registered(t.dirs, b.nodes, t.nodes.len() as int);
    assert forall|k: int| 0 <= k < all.len() implies sound_task(next, #[trigger] all[k]) by {
        if k < rest.len() {
            assert(all[k] == rest[k]);
            assert(rest[k] == work[k]);
            assert(sound_task(t, work[k]));
            match rest[k] {
                TaskView::Graft(q, c) => {
                    lemma_good_home_kept(t.nodes, next.nodes, q as int);
                },
                TaskView::Flush(id) => {
                    if next.dirs.contains_key(id) {
                        lemma_index_kept(t, p as int, b, id);
                    }
                },
            }
        } else {
            let id = ids[ids.len() - 1 - (k - rest.len())];
            assert(all[k] == TaskView::Flush(id));
            let at = next.dirs[id];
            assert(b.nodes[at - t.nodes.len()].dir_id is Some);
        }
    }
}

/// What is left to do after the batches that wait were taken up can be done.
pub proof fn lemma_flush_sound(t: TreeView, work: Seq<TaskView>)
    requires
        valid_waiting(t),
        sound_work(t, work),
        work.len() > 0,
        work.last() matches TaskView::Flush(id) && t.orphans.contains_key(id)
            && t.dirs.contains_key(id),
    ensures
        ({
            let id = work.last()->Flush_0;
            let next = TreeView { orphans: t.orphans.remove(id), ..t };
            &&& sound_work(
                next,
                work.drop_last() + tree::waiting_tasks(t.dirs[id], t.orphans[id]),
            )
            &&& valid_waiting(next)
        }),
{
    let id = work.last()->Flush_0;
    let next = TreeView { orphans: t.orphans.remove(id), ..t };
    let rest = work.drop_last();
    let all = rest + tree::waiting_tasks(t.dirs[id], t.orphans[id]);
    assert(work[work.len() - 1] == work.last());
    assert(sound_task(t, work.last()));
    assert forall|k: int| 0 <= k < all.len() implies sound_task(next, #[trigger] all[k]) by {
        if k < rest.len() {
            assert(all[k] == rest[k]);
            assert(rest[k] == work[k]);
            assert(sound_task(t, work[k]));
        } else {
            let m = t.orphans[id].len() - 1 - (k - rest.len());
            assert(all[k] == TaskView::Graft(t.dirs[id], t.orphans[id][m]));
        }
    }
    assert forall|i: u64, k: int|
        next.orphans.contains_key(i) && 0 <= k < next.orphans[i].len() implies valid_batch(
        #[trigger] next.orphans[i][k],
    ) by {
        assert(next.orphans[i][k] == t.orphans[i][k]);
    }
}

pub proof fn lemma_settled_keeps(t: TreeView, work: Seq<TaskView>)
    requires
        totals::consistent(t),
        valid_waiting(t),
        sound_work(t, work),
    ensures
        totals::consistent(tree::settled(t, work).0),
        valid_waiting(tree::settled(t, work).0),
        live_kept(t.nodes, tree::settled(t, work).0.nodes),
        own_kept(t.nodes, tree::settled(t, work).0.nodes),
        good_index(t) ==> good_index(tree::settled(t, work).0),
    decreases t.orphans.dom().len(), tree::graft_tasks(work), work.len(),
{
    if work.len() > 0 {
        let rest = work.drop_last();
        assert(work[work.len() - 1] == work.last());
        assert(sound_task(t, work.last()));
        assert forall|k: int| 0 <= k < rest.len() implies sound_task(t, #[trigger] rest[k]) by {
            assert(rest[k] == work[k]);
        }
        match work.last() {
            TaskView::Graft(p, b) => {
                let next = tree::grafted(t, p as int, b);
                let ids = tree::dir_ids(b.nodes);
                let more = tree::flush_tasks(ids);
                tree::lemma_graft_tasks_add(rest, more);
                tree::lemma_flush_tasks(ids);
                if tree::fits(next.nodes) {
                    law_batch_keeps_totals(t, p as int, b);
                    lemma_grafted_live(t, p as int, b);
                    tree::lemma_registered(t.dirs, b.nodes, t.nodes.len() as int);
                    let all = rest + more;
                    lemma_graft_sound(t, work);
                    assert(valid_waiting(next));
                    if good_index(t) {
                        assert forall|id: u64| #[trigger] next.dirs.contains_key(
                            id,
                        ) implies good_home(next.nodes, next.dirs[id] as int) by {
                            lemma_index_kept(t, p as int, b, id);
                        }
                    }
                    lemma_settled_keeps(next, all);
                    lemma_kept_trans(t.nodes, next.nodes, tree::settled(t, work).0.nodes);
                }
            },
            TaskView::Flush(id) => {
                if t.orphans.contains_key(id) && t.dirs.contains_key(id) {
                    let next = TreeView { orphans: t.orphans.remove(id), ..t };
                    let more = tree::waiting_tasks(t.dirs[id], t.orphans[id]);
                    let all = rest + more;
                    lemma_flush_sound(t, work);
                    lemma_settled_keeps(next, all);
                } else {
                    lemma_settled_keeps(t, rest);
                }
            },
        }
    }
}

/// An entry is in the batch, or in one that waits.
pub open spec fn is_brought(t: TreeView, b: BatchView, e: EntryView) -> bool {
    ||| b.nodes.contains(e)
    ||| exists|id: u64, k: int|
        t.orphans.contains_key(id) && 0 <= k < t.orphans[id].len()
            && (#[trigger] t.orphans[id][k]).nodes.contains(e)
}

/// An entry is in a batch that the work puts in, or in one that waits.
spec fn is_worked_in(t: TreeView, work: Seq<TaskView>, e: EntryView) -> bool {
    ||| exists|k: int|
        0 <= k < work.len() && ((#[trigger] work[k]) matches TaskView::Graft(_, b)
            && b.nodes.contains(e))
    ||| exists|id: u64, k: int|
        t.orphans.contains_key(id) && 0 <= k < t.orphans[id].len()
            && (#[trigger] t.orphans[id][k]).nodes.contains(e)
}

proof fn lemma_found_kept(nodes: Seq<NodeView>, after: Seq<NodeView>, i: int, e: EntryView)
    requires
        live_kept(nodes, after),
        own_kept(nodes, after),
        is_as_found(nodes, i, e),
    ensures
        is_as_found(after, i, e),
{
    assert(totals::live(after, i) == totals::live(nodes, i));
}

/// Whatever the work puts in is as it was found.
proof fn lemma_settled_brings(t: TreeView, work: Seq<TaskView>, j: int) -> (e: EntryView)
    requires
        totals::consistent(t),
        valid_waiting(t),
        sound_work(t, work),
        t.nodes.len() <= j < tree::settled(t, work).0.nodes.len(),
    ensures
        is_worked_in(t, work, e),
        is_as_found(tree::settled(t, work).0.nodes, j, e),
    decreases t.orphans.dom().len(), tree::graft_tasks(work), work.len(),
{
    let rest = work.drop_last();
    assert(work.len() > 0);
    assert(work[work.len() - 1] == work.last());
    assert(sound_task(t, work.last()));
    let after = tree::settled(t, work).0;
    match work.last() {
        TaskView::Graft(p, b) => {
            let next = tree::grafted(t, p as int, b);
            let ids = tree::dir_ids(b.nodes);
            let more = tree::flush_tasks(ids);
            tree::lemma_graft_tasks_add(rest, more);
            tree::lemma_flush_tasks(ids);
            assert(tree::fits(next.nodes));
            lemma_graft_sound(t, work);
            law_batch_keeps_totals(t, p as int, b);
            assert(next.nodes.len() == t.nodes.len() + b.nodes.len());
            if j < next.nodes.len() {
                let e = b.nodes[j - t.nodes.len()];
                lemma_settled_keeps(next, rest + more);
                lemma_found_kept(next.nodes, after.nodes, j, e);
                assert(b.nodes.contains(e));
                e
            } else {
                let e = lemma_settled_brings(next, rest + more, j);
                if exists|k: int|
                    0 <= k < (rest + more).len() && ((#[trigger] (rest + more)[k]) matches TaskView::Graft(
                        _,
                        c,
                    ) && c.nodes.contains(e)) {
                    let k = choose|k: int|
                        0 <= k < (rest + more).len() && ((#[trigger] (rest
                            + more)[k]) matches TaskView::Graft(_, c) && c.nodes.contains(e));
                    assert(k < rest.len());
                    assert(work[k] == (rest + more)[k]);
                }
                e
            }
        },
        TaskView::Flush(id) => {
            if t.orphans.contains_key(id) && t.dirs.contains_key(id) {
                let next = TreeView { orphans: t.orphans.remove(id), ..t };
                let more = tree::waiting_tasks(t.dirs[id], t.orphans[id]);
                lemma_flush_sound(t, work);
                let e = lemma_settled_brings(next, rest + more, j);
                if exists|k: int|
                    0 <= k < (rest + more).len() && ((#[trigger] (rest + more)[k]) matches TaskView::Graft(
                        _,
                        c,
                    ) && c.nodes.contains(e)) {
                    let k = choose|k: int|
                        0 <= k < (rest + more).len() && ((#[trigger] (rest
                            + more)[k]) matches TaskView::Graft(_, c) && c.nodes.contains(e));
                    if k < rest.len() {
                        assert(work[k] == (rest + more)[k]);
                    } else {
                        let m = t.orphans[id].len() - 1 - (k - rest.len());
                        assert(t.orphans[id][m].nodes.contains(e));
                    }
                } else {
                    let (i, k) = choose|i: u64, k: int|
                        next.orphans.contains_key(i) && 0 <= k < next.orphans[i].len()
                            && (#[trigger] next.orphans[i][k]).nodes.contains(e);
                    assert(t.orphans[i][k] == next.orphans[i][k]);
                }
                e
            } else {
                assert forall|k: int| 0 <= k < rest.len() implies sound_task(
                    t,
                    #[trigger] rest[k],
                ) by {
                    assert(rest[k] == work[k]);
                }
                let e = lemma_settled_brings(t, rest, j);
                if exists|k: int|
                    0 <= k < rest.len() && ((#[trigger] rest[k]) matches TaskView::Graft(_, c)
                        && c.nodes.contains(e)) {
                    let k = choose|k: int|
                        0 <= k < rest.len() && ((#[trigger] rest[k]) matches TaskView::Graft(_, c)
                            && c.nodes.contains(e));
                    assert(work[k] == rest[k]);
                }
                e
            }
        },
    }
}

/// Taking in a batch keeps the totals right, at every moment of a scan: whatever order the batches
/// come in, and whether they are taken in at once or wait for their directory.
pub proof fn law_apply_keeps_totals(t: TreeView, b: BatchView)
    requires
        totals::consistent(t),
        valid_waiting(t),
        valid_batch(b),
        t.dirs.contains_key(b.parent_id) ==> good_home(t.nodes, t.dirs[b.parent_id] as int),
    ensures
        totals::consistent(tree::applied(t, b).0),
        valid_waiting(tree::applied(t, b).0),
        live_kept(t.nodes, tree::applied(t, b).0.nodes),
        own_kept(t.nodes, tree::applied(t, b).0.nodes),
        good_index(t) ==> good_index(tree::applied(t, b).0),
{
    let next = tree::applied(t, b).0;
    if t.dirs.contains_key(b.parent_id) {
        lemma_settled_keeps(t, seq![TaskView::Graft(t.dirs[b.parent_id], b)]);
    } else {
        assert(next.nodes == t.nodes);
        assert forall|id: u64, k: int|
            next.orphans.contains_key(id) && 0 <= k < next.orphans[id].len() implies valid_batch(
            #[trigger] next.orphans[id][k],
        ) by {
            if id == b.parent_id && t.orphans.contains_key(id) {
                if k < t.orphans[id].len() {
                    assert(next.orphans[id][k] == t.orphans[id][k]);
                }
            } else if id != b.parent_id {
                assert(next.orphans[id][k] == t.orphans[id][k]);
            }
        }
    }
}

/// Whatever a batch brings, itself or by way of those that waited, is in reach with the own size that
/// it was found with; and no batch changes the own size of what is there.
pub proof fn law_own_sizes_stay_as_found(t: TreeView, b: BatchView, j: int)
    requires
        totals::consistent(t),
        valid_waiting(t),
        valid_batch(b),
        t.dirs.contains_key(b.parent_id) ==> good_home(t.nodes, t.dirs[b.parent_id] as int),
        0 <= j < tree::applied(t, b).0.nodes.len(),
    ensures
        j < t.nodes.len() && totals::live(t.nodes, j) ==> {
            &&& edit::own_apparent(tree::applied(t, b).0.nodes, j) == edit::own_apparent(t.nodes, j)
            &&& edit::own_disk(tree::applied(t, b).0.nodes, j) == edit::own_disk(t.nodes, j)
        },
        j >= t.nodes.len() ==> exists|e: EntryView| #[trigger]
            is_brought(t, b, e) && is_as_found(tree::applied(t, b).0.nodes, j, e),
{
    let after = tree::applied(t, b).0;
    law_apply_keeps_totals(t, b);
    if j < t.nodes.len() {
        assert(totals::live(after.nodes, j) == totals::live(t.nodes, j));
    } else {
        let work = seq![TaskView::Graft(t.dirs[b.parent_id], b)];
        let e = lemma_settled_brings(t, work, j);
        assert(is_brought(t, b, e));
    }
}

/// A fresh tree's totals are right, and the root's own size is the one that it was made with.
pub proof fn law_fresh_totals(name: Seq<char>, apparent: u64, disk: u64, dev: u64, ino: u64)
    ensures
        ({
            let t = tree::only_root(name, apparent as int, disk as int, dev, ino);
            &&& totals::consistent(t)
            &&& valid_waiting(t)
            &&& good_index(t)
            &&& edit::own_apparent(t.nodes, 0) == apparent
            &&& edit::own_disk(t.nodes, 0) == disk
        }),
        ({
            let t = edit::imported_root(name, apparent as int, disk as int, dev, ino);
            &&& totals::consistent(t)
            &&& edit::own_apparent(t.nodes, 0) == apparent
            &&& edit::own_disk(t.nodes, 0) == disk
        }),
{
    let t = tree::only_root(name, apparent as int, disk as int, dev, ino);
    let u = edit::imported_root(name, apparent as int, disk as int, dev, ino);
    lemma_single(t);
    lemma_single(u);
    assert(t.nodes[0].children =~= Seq::empty());
    assert(u.nodes[0].children =~= Seq::empty());
    assert forall|id: u64| #[trigger] t.dirs.contains_key(id) implies good_home(
        t.nodes,
        t.dirs[id] as int,
    ) by {
        assert(id == 0);
    }
}

proof fn lemma_single(t: TreeView)
    requires
        t.nodes.len() == 1,
        t.nodes[0].parent is None,
        tree::is_dir(t.nodes[0]),
    ensures
        below::count_under(t.nodes, 0, true) == 1,
        below::count_under(t.nodes, 0, false) == 0,
{
    let f = |j: int|
        if below::under(t.nodes, j, 0) {
            below::is_one(t.nodes, true)(j)
        } else {
            0
        };
    let g = |j: int|
        if below::under(t.nodes, j, 0) {
            below::is_one(t.nodes, false)(j)
        } else {
            0
        };
    reveal_with_fuel(below::sum_range, 3);
    assert(f(0) == 1 && g(0) == 0);
}

/// An entry's path is not changed by batches.
pub proof fn law_paths_stay(t: TreeView, b: BatchView, i: int)
    requires
        totals::consistent(t),
        valid_waiting(t),
        valid_batch(b),
        t.dirs.contains_key(b.parent_id) ==> good_home(t.nodes, t.dirs[b.parent_id] as int),
        0 <= i < t.nodes.len(),
    ensures
        edit::path(tree::applied(t, b).0.nodes, i) == edit::path(t.nodes, i),
    decreases i,
{
    law_apply_keeps_totals(t, b);
    assert(totals::live(tree::applied(t, b).0.nodes, i) == totals::live(t.nodes, i));
    if i > 0 {
        law_paths_stay(t, b, t.nodes[i].parent->0 as int);
    }
}

// ---- Removing -----------------------------------------------------------------------------------

proof fn lemma_filtered_sum(list: Seq<usize>, i: int, f: spec_fn(int) -> int, at: int)
    requires
        forall|j: int, k: int|
            0 <= j < k < list.len() ==> (#[trigger] list[j]) < (#[trigger] list[k]),
        0 <= at < list.len(),
        list[at] == i,
    ensures
        below::sum_list(list.filter(edit::other_than(i)), f) == below::sum_list(list, f) - f(i),
    decreases list.len(),
{
    reveal(Seq::filter);
    let shorter = list.drop_last();
    if at == list.len() - 1 {
        lemma_filtered_same(shorter, i);
    } else {
        assert(list[at] < list[list.len() - 1]);
        lemma_filtered_sum(shorter, i, f, at);
        let cut = list.filter(edit::other_than(i));
        assert(cut.drop_last() =~= shorter.filter(edit::other_than(i)));
    }
}

proof fn lemma_filtered_same(list: Seq<usize>, i: int)
    requires
        forall|k: int| 0 <= k < list.len() ==> #[trigger] list[k] != i,
    ensures
        list.filter(edit::other_than(i)) == list,
    decreases list.len(),
{
    reveal(Seq::filter);
    if list.len() > 0 {
        let shorter = list.drop_last();
        assert forall|k: int| 0 <= k < shorter.len() implies #[trigger] shorter[k] != i by {
            assert(shorter[k] == list[k]);
        }
        lemma_filtered_same(shorter, i);
        assert(list[list.len() - 1] != i);
    }
    assert(list.filter(edit::other_than(i)) =~= list);
}

/// Off its parent's list, an entry takes everything below it out of reach, and nothing else.
proof fn lemma_unlisted_under(nodes: Seq<NodeView>, p: int, i: int, j: int)
    requires
        tree::well_linked(nodes),
        nodes.len() <= usize::MAX,
        0 < i < nodes.len(),
        nodes[i].parent == Some(p as usize),
        0 <= p < i,
        0 <= j < nodes.len(),
        tree::listed(nodes, i),
    ensures
        below::under(edit::unlisted(nodes, p, i), j, 0) == (below::under(nodes, j, 0)
            && !below::under(nodes, j, i)),
    decreases j,
{
    let cut = edit::unlisted(nodes, p, i);
    edit::lemma_filtered(nodes[p].children, i);
    if j == 0 {
        if below::under(nodes, j, i) {
            below::lemma_under_bound(nodes, j, i);
        }
    } else {
        let q = nodes[j].parent->0 as int;
        lemma_unlisted_under(nodes, p, i, q);
        if j == i {
            assert(!cut[p].children.contains(i as usize));
        } else {
            assert(tree::listed(cut, j) == tree::listed(nodes, j)) by {
                if q == p {
                    assert(cut[p].children.contains(j as usize) <==> nodes[p].children.contains(
                        j as usize,
                    ) && j as usize != i);
                }
            }
        }
    }
}

proof fn lemma_sum_split(
    f: spec_fn(int) -> int,
    g: spec_fn(int) -> int,
    h: spec_fn(int) -> int,
    n: int,
)
    requires
        forall|j: int| 0 <= j < n ==> #[trigger] f(j) == g(j) + h(j),
    ensures
        below::sum_range(f, n) == below::sum_range(g, n) + below::sum_range(h, n),
{
    below::lemma_sum_range_add(g, h, f, n);
}

/// The entries after a removal are those with the loss along the way up, off the list.
proof fn lemma_without_is(nodes: Seq<NodeView>, p: int, i: int)
    requires
        tree::well_linked(nodes),
        0 < i < nodes.len(),
        nodes[i].parent == Some(p as usize),
        0 <= p < i,
        nodes.len() <= usize::MAX,
    ensures
        tree::counts(nodes[i]) ==> edit::without(nodes, i) == edit::unlisted(
            tree::lifted(nodes, p, edit::loss(nodes[i].apparent, nodes[i].disk)),
            p,
            i,
        ),
{
    let s = edit::loss(nodes[i].apparent, nodes[i].disk);
    let cut = edit::unlisted(nodes, p, i);
    let a = tree::lifted(cut, p, s);
    let b = edit::unlisted(tree::lifted(nodes, p, s), p, i);
    assert forall|j: int| 0 <= j < nodes.len() implies a[j] == b[j] by {
        lemma_above_same(nodes, cut, j, p);
        assert(a[j] =~= b[j]);
    }
    assert(a =~= b);
}

proof fn lemma_above_same(a: Seq<NodeView>, b: Seq<NodeView>, i: int, start: int)
    requires
        a.len() == b.len(),
        forall|x: int|
            0 <= x < a.len() ==> (#[trigger] a[x]).parent == b[x].parent && tree::counts(a[x])
                == tree::counts(b[x]),
    ensures
        tree::above(a, i, start) == tree::above(b, i, start),
        tree::charged(a, i, start) == tree::charged(b, i, start),
    decreases start,
{
    if i != start && 0 <= start < a.len() && a[start].parent is Some && a[start].parent->0 < start {
        assert(a[start].parent == b[start].parent);
        lemma_above_same(a, b, i, a[start].parent->0 as int);
    } else if 0 <= start < a.len() {
        assert(a[start].parent == b[start].parent);
    }
}

/// What is above a removed entry covers it.
proof fn lemma_delete_shift(t: TreeView, i: int)
    requires
        totals::consistent(t),
        totals::live(t.nodes, i),
        i != 0,
        tree::counts(t.nodes[i]),
    ensures
        totals::exact_shift(
            t.nodes,
            t.nodes[i].parent->0 as int,
            edit::loss(t.nodes[i].apparent, t.nodes[i].disk),
        ),
{
    let nodes = t.nodes;
    let p = nodes[i].parent->0 as int;
    let s = edit::loss(nodes[i].apparent, nodes[i].disk);
    assert(totals::live(nodes, p));
    assert forall|c: int| 0 <= c < nodes.len() && #[trigger] tree::charged(nodes, c, p) implies {
        &&& nodes[c].apparent + s.add_apparent - s.sub_apparent >= 0
        &&& nodes[c].disk + s.add_disk - s.sub_disk >= 0
    } by {
        assert(tree::charged(nodes, c, i));
        totals::lemma_charged_covers(t, c, i);
    }
    assert forall|c: int| 0 <= c < nodes.len() && #[trigger] tree::above(
        nodes,
        c,
        p,
    ) implies nodes[c].unscanned - s.read >= 0 by {
        assert(nodes[c].unscanned >= 0);
    }
}

/// The entries with the sizes above a removed entry lowered, before it is taken off its list.
spec fn lowered(nodes: Seq<NodeView>, i: int) -> Seq<NodeView> {
    if tree::counts(nodes[i]) {
        tree::lifted(
            nodes,
            nodes[i].parent->0 as int,
            edit::loss(nodes[i].apparent, nodes[i].disk),
        )
    } else {
        nodes
    }
}

proof fn lemma_deleted_live(nodes: Seq<NodeView>, i: int, j: int)
    requires
        tree::well_linked(nodes),
        nodes.len() <= usize::MAX,
        totals::live(nodes, i),
        i != 0,
        0 <= j < nodes.len(),
    ensures
        totals::live(edit::without(nodes, i), j) <==> totals::live(nodes, j) && !below::under(
            nodes,
            j,
            i,
        ),
{
    let p = nodes[i].parent->0 as int;
    let up = lowered(nodes, i);
    lemma_without_is(nodes, p, i);
    assert(edit::without(nodes, i) == edit::unlisted(up, p, i));
    lemma_same_links(nodes, up);
    assert forall|x: int| 0 <= x < nodes.len() implies (#[trigger] nodes[x]).parent == up[x].parent
        && tree::listed(nodes, x) == tree::listed(up, x) by {
        assert forall|y: int| 0 <= y < nodes.len() implies nodes[y].children == up[y].children by {}
    }
    lemma_unlisted_under(up, p, i, j);
    totals::lemma_under_same(nodes, up, j, 0);
    totals::lemma_under_same(nodes, up, j, i);
}

proof fn lemma_deleted_balance(t: TreeView, i: int, x: int)
    requires
        totals::consistent(t),
        totals::live(t.nodes, i),
        i != 0,
        t.nodes[i].unscanned == 0,
        totals::live(t.nodes, x),
        !below::under(t.nodes, x, i),
    ensures
        totals::balanced(edit::without(t.nodes, i), x),
        totals::apparent_slack(edit::without(t.nodes, i), x) == totals::apparent_slack(t.nodes, x),
        totals::disk_slack(edit::without(t.nodes, i), x) == totals::disk_slack(t.nodes, x),
{
    let nodes = t.nodes;
    let p = nodes[i].parent->0 as int;
    let s = edit::loss(nodes[i].apparent, nodes[i].disk);
    let up = lowered(nodes, i);
    let after = edit::without(nodes, i);
    lemma_without_is(nodes, p, i);
    assert(after == edit::unlisted(up, p, i));
    edit::lemma_deleted_wf(t, i);
    assert(totals::live(nodes, p));
    assert(totals::balanced(nodes, x));
    if tree::counts(nodes[i]) {
        lemma_delete_shift(t, i);
        totals::lemma_lift_slack(nodes, p, s, x);
    }
    let left = after[x].children;
    assert forall|k: int| 0 <= k < left.len() implies ({
        let c = #[trigger] left[k] as int;
        &&& edit::apparent_share(after)(c) == edit::apparent_share(up)(c)
        &&& edit::disk_share(after)(c) == edit::disk_share(up)(c)
        &&& totals::unread_share(after)(c) == totals::unread_share(up)(c)
    }) by {
        assert(after[x].children[k] < after.len());
    }
    below::lemma_sum_list_same(left, edit::apparent_share(after), edit::apparent_share(up));
    below::lemma_sum_list_same(left, edit::disk_share(after), edit::disk_share(up));
    below::lemma_sum_list_same(left, totals::unread_share(after), totals::unread_share(up));
    if x == p {
        let list = nodes[p].children;
        let at = choose|k: int| 0 <= k < list.len() && list[k] == i as usize;
        assert(up[p].children == list);
        lemma_filtered_sum(list, i, edit::apparent_share(up), at);
        lemma_filtered_sum(list, i, edit::disk_share(up), at);
        lemma_filtered_sum(list, i, totals::unread_share(up), at);
        tree::lemma_above_bound(nodes, i, p);
        tree::lemma_charged_above(nodes, i, p);
        assert(up[i] == nodes[i]);
        assert(tree::charged(nodes, p, p));
    } else {
        assert(after[x].children == nodes[x].children);
    }
}

/// Removing a fully scanned subtree keeps the totals right, and takes just that subtree out of
/// reach.
pub proof fn law_delete_keeps_totals(t: TreeView, i: int)
    requires
        totals::consistent(t),
        totals::live(t.nodes, i),
        i != 0,
        t.nodes[i].unscanned == 0,
    ensures
        totals::consistent(edit::deleted(t, i)),
        own_kept(t.nodes, edit::deleted(t, i).nodes),
        forall|j: int|
            0 <= j < t.nodes.len() ==> (#[trigger] totals::live(edit::deleted(t, i).nodes, j)
                <==> totals::live(t.nodes, j) && !below::under(t.nodes, j, i)),
{
    let nodes = t.nodes;
    let after = edit::without(nodes, i);
    edit::lemma_deleted_wf(t, i);
    assert(after.len() == nodes.len());
    assert forall|j: int| 0 <= j < nodes.len() implies (#[trigger] totals::live(after, j)
        <==> totals::live(nodes, j) && !below::under(nodes, j, i)) by {
        lemma_deleted_live(nodes, i, j);
    }
    assert forall|x: int| #[trigger] totals::live(after, x) implies totals::balanced(after, x)
        && edit::own_apparent(after, x) == edit::own_apparent(nodes, x) && edit::own_disk(after, x)
        == edit::own_disk(nodes, x) by {
        lemma_deleted_balance(t, i, x);
    }
    assert forall|j: int| 0 <= j < after.len() implies {
        &&& 0 <= (#[trigger] after[j]).apparent <= u64::MAX
        &&& 0 <= after[j].disk <= u64::MAX
        &&& 0 <= after[j].unscanned <= u32::MAX
        &&& after[j].kind == nodes[j].kind
    } by {
        assert(0 <= nodes[j].apparent <= u64::MAX);
        assert(0 <= nodes[i].apparent <= u64::MAX);
    }
    lemma_deleted_count(nodes, after, i, true);
    lemma_deleted_count(nodes, after, i, false);
    edit::lemma_counts_nonneg(after, 0);
}

proof fn lemma_deleted_count(nodes: Seq<NodeView>, after: Seq<NodeView>, i: int, dirs: bool)
    requires
        nodes.len() == after.len(),
        totals::live(nodes, i),
        forall|j: int|
            0 <= j < nodes.len() ==> (#[trigger] totals::live(after, j) <==> totals::live(nodes, j)
                && !below::under(nodes, j, i)),
        forall|j: int| 0 <= j < nodes.len() ==> (#[trigger] after[j]).kind == nodes[j].kind,
    ensures
        below::count_under(nodes, 0, dirs) == below::count_under(after, 0, dirs)
            + below::count_under(nodes, i, dirs),
{
    let f = |j: int|
        if below::under(nodes, j, 0) {
            below::is_one(nodes, dirs)(j)
        } else {
            0
        };
    let g = |j: int|
        if below::under(after, j, 0) {
            below::is_one(after, dirs)(j)
        } else {
            0
        };
    let h = |j: int|
        if below::under(nodes, j, i) {
            below::is_one(nodes, dirs)(j)
        } else {
            0
        };
    assert forall|j: int| 0 <= j < nodes.len() implies #[trigger] f(j) == g(j) + h(j) by {
        assert(totals::live(after, j) <==> totals::live(nodes, j) && !below::under(nodes, j, i));
        assert(after[j].kind == nodes[j].kind);
        if below::under(nodes, j, i) {
            totals::lemma_under_trans(nodes, j, i, 0);
        }
    }
    lemma_sum_split(f, g, h, nodes.len() as int);
}

// ---- Refreshing ---------------------------------------------------------------------------------

/// A reopened directory is one whose aggregates were shifted, itself included, with everything
/// below cut loose.
proof fn lemma_reopened_shift(nodes: Seq<NodeView>, i: int, j: int)
    requires
        tree::well_linked(nodes),
        tree::fits(nodes),
        0 <= i < nodes.len(),
        0 <= j < nodes.len(),
    ensures
        ({
            let up = tree::lifted(nodes, i, edit::refresh_shift(nodes, i));
            let after = edit::reopened(nodes, i);
            &&& after[j].apparent == up[j].apparent
            &&& after[j].disk == up[j].disk
            &&& after[j].unscanned == up[j].unscanned
        }),
{
    edit::lemma_own_at_most(nodes, i);
    assert(tree::charged(nodes, i, i));
}

/// Cutting loose everything below `i` takes just that out of reach.
proof fn lemma_reopened_under(nodes: Seq<NodeView>, i: int, j: int)
    requires
        tree::well_linked(nodes),
        nodes.len() <= usize::MAX,
        0 <= i < nodes.len(),
        0 <= j < nodes.len(),
    ensures
        below::under(edit::reopened(nodes, i), j, 0) == (below::under(nodes, j, 0) && (j == i
            || !below::under(nodes, j, i))),
    decreases j,
{
    let after = edit::reopened(nodes, i);
    if j == 0 {
        if below::under(nodes, j, i) {
            below::lemma_under_bound(nodes, j, i);
        }
    } else {
        let q = nodes[j].parent->0 as int;
        lemma_reopened_under(nodes, i, q);
        assert(after[j].parent == nodes[j].parent);
        if below::under(nodes, q, i) {
            assert(after[q].children =~= Seq::empty());
            assert(!tree::listed(after, j));
            if j == i {
                below::lemma_under_bound(nodes, q, i);
            }
        } else {
            assert(after[q].children == nodes[q].children);
            assert(tree::listed(after, j) == tree::listed(nodes, j));
        }
    }
}

proof fn lemma_refresh_shift(t: TreeView, i: int)
    requires
        totals::consistent(t),
        good_home(t.nodes, i),
    ensures
        totals::exact_shift(t.nodes, i, edit::refresh_shift(t.nodes, i)),
{
    let nodes = t.nodes;
    let s = edit::refresh_shift(nodes, i);
    edit::lemma_own_at_most(nodes, i);
    assert forall|c: int| 0 <= c < nodes.len() && #[trigger] tree::charged(nodes, c, i) implies {
        &&& nodes[c].apparent + s.add_apparent - s.sub_apparent >= 0
        &&& nodes[c].disk + s.add_disk - s.sub_disk >= 0
    } by {
        totals::lemma_charged_covers(t, c, i);
    }
    assert forall|c: int| 0 <= c < nodes.len() && #[trigger] tree::above(
        nodes,
        c,
        i,
    ) implies nodes[c].unscanned - s.read >= 0 by {
        totals::lemma_above_covers(t, c, i);
    }
}

proof fn lemma_refreshed_balance(t: TreeView, i: int, x: int)
    requires
        totals::consistent(t),
        good_home(t.nodes, i),
        totals::live(t.nodes, x),
        x == i || !below::under(t.nodes, x, i),
    ensures
        totals::balanced(edit::reopened(t.nodes, i), x),
        edit::own_apparent(edit::reopened(t.nodes, i), x) == edit::own_apparent(t.nodes, x),
        edit::own_disk(edit::reopened(t.nodes, i), x) == edit::own_disk(t.nodes, x),
{
    let nodes = t.nodes;
    let s = edit::refresh_shift(nodes, i);
    let up = tree::lifted(nodes, i, s);
    let after = edit::reopened(nodes, i);
    edit::lemma_own_at_most(nodes, i);
    assert(totals::balanced(nodes, x));
    lemma_refresh_shift(t, i);
    lemma_reopened_shift(nodes, i, x);
    if x == i {
        assert(after[i].children =~= Seq::empty());
    } else {
        totals::lemma_lift_slack(nodes, i, s, x);
        let list = nodes[x].children;
        assert(after[x].children == list);
        assert forall|k: int| 0 <= k < list.len() implies ({
            let c = #[trigger] list[k] as int;
            &&& edit::apparent_share(after)(c) == edit::apparent_share(up)(c)
            &&& edit::disk_share(after)(c) == edit::disk_share(up)(c)
            &&& totals::unread_share(after)(c) == totals::unread_share(up)(c)
        }) by {
            assert(nodes[x].children[k] < nodes.len());
            lemma_reopened_shift(nodes, i, list[k] as int);
        }
        below::lemma_sum_list_same(list, edit::apparent_share(after), edit::apparent_share(up));
        below::lemma_sum_list_same(list, edit::disk_share(after), edit::disk_share(up));
        below::lemma_sum_list_same(list, totals::unread_share(after), totals::unread_share(up));
    }
}

/// Preparing a subtree for being scanned again keeps the totals right while the scan streams back
/// in: what hung below is out of reach, and the directories above are without it.
pub proof fn law_refresh_keeps_totals(t: TreeView, i: int, id_base: u64)
    requires
        totals::consistent(t),
        good_home(t.nodes, i),
        tree::fits(edit::reopened(t.nodes, i)),
    ensures
        totals::consistent(edit::refreshed(t, i, id_base)),
        own_kept(t.nodes, edit::refreshed(t, i, id_base).nodes),
        good_home(edit::refreshed(t, i, id_base).nodes, i),
        edit::refreshed(t, i, id_base).dirs[id_base] == i,
        forall|j: int|
            0 <= j < t.nodes.len() ==> (#[trigger] totals::live(
                edit::refreshed(t, i, id_base).nodes,
                j,
            ) <==> totals::live(t.nodes, j) && (j == i || !below::under(t.nodes, j, i))),
{
    let nodes = t.nodes;
    let after = edit::reopened(nodes, i);
    edit::lemma_refreshed_wf(t, i, id_base);
    assert(after.len() == nodes.len());
    assert forall|j: int| 0 <= j < nodes.len() implies (#[trigger] totals::live(after, j)
        <==> totals::live(nodes, j) && (j == i || !below::under(nodes, j, i))) by {
        lemma_reopened_under(nodes, i, j);
    }
    assert forall|x: int| #[trigger] totals::live(after, x) implies totals::balanced(after, x)
        && edit::own_apparent(after, x) == edit::own_apparent(nodes, x) && edit::own_disk(after, x)
        == edit::own_disk(nodes, x) by {
        lemma_refreshed_balance(t, i, x);
    }
    lemma_refreshed_count(nodes, after, i, true);
    lemma_refreshed_count(nodes, after, i, false);
    edit::lemma_counts_nonneg(after, 0);
    assert(totals::live(after, i));
}

proof fn lemma_refreshed_count(nodes: Seq<NodeView>, after: Seq<NodeView>, i: int, dirs: bool)
    requires
        nodes.len() == after.len(),
        totals::live(nodes, i),
        tree::is_dir(nodes[i]),
        forall|j: int|
            0 <= j < nodes.len() ==> (#[trigger] totals::live(after, j) <==> totals::live(nodes, j)
                && (j == i || !below::under(nodes, j, i))),
        forall|j: int| 0 <= j < nodes.len() ==> (#[trigger] after[j]).kind == nodes[j].kind,
    ensures
        below::count_under(nodes, 0, dirs) == below::count_under(after, 0, dirs)
            + below::count_under(nodes, i, dirs) - if dirs {
            1int
        } else {
            0
        },
{
    let n = nodes.len() as int;
    let f = |j: int|
        if below::under(nodes, j, 0) {
            below::is_one(nodes, dirs)(j)
        } else {
            0
        };
    let g = |j: int|
        if below::under(after, j, 0) {
            below::is_one(after, dirs)(j)
        } else {
            0
        };
    let h = |j: int|
        if below::under(nodes, j, i) {
            below::is_one(nodes, dirs)(j)
        } else {
            0
        };
    let h2 = |j: int|
        if j == i {
            0
        } else {
            h(j)
        };
    assert forall|j: int| 0 <= j < n implies #[trigger] f(j) == g(j) + h2(j) by {
        assert(totals::live(after, j) <==> totals::live(nodes, j) && (j == i || !below::under(
            nodes,
            j,
            i,
        )));
        assert(after[j].kind == nodes[j].kind);
        if below::under(nodes, j, i) {
            totals::lemma_under_trans(nodes, j, i, 0);
        }
    }
    lemma_sum_split(f, g, h2, n);
    below::lemma_sum_range_one(h, h2, n, i);
    assert(below::under(nodes, i, i));
}

// ---- Importing ----------------------------------------------------------------------------------

/// The entries with the sizes above an imported entry raised, before it is put in.
spec fn raised(nodes: Seq<NodeView>, p: int, e: EntryView) -> Seq<NodeView> {
    if tree::entry_counts(e) {
        tree::lifted(nodes, p, tree::growth(e.apparent, e.disk))
    } else {
        nodes
    }
}

/// An imported entry is linked like a found one that is not gone into.
proof fn lemma_import_links(nodes: Seq<NodeView>, p: int, e: EntryView)
    requires
        tree::well_linked(nodes),
        0 <= p < nodes.len() < usize::MAX,
    ensures
        ({
            let up = raised(nodes, p, e);
            let same = tree::with_entries(up, p, seq![EntryView { dir_id: None, ..e }]);
            let after = edit::with_import(nodes, p, e);
            &&& tree::well_linked(up)
            &&& tree::well_linked(same)
            &&& same.len() == after.len()
            &&& forall|x: int|
                0 <= x < same.len() ==> (#[trigger] after[x]).parent == same[x].parent
                    && after[x].children == same[x].children && after[x].kind == same[x].kind
            &&& forall|x: int|
                0 <= x < same.len() ==> (#[trigger] same[x]).parent == after[x].parent
                    && tree::listed(same, x) == tree::listed(after, x)
            &&& forall|x: int|
                0 <= x < nodes.len() ==> (#[trigger] nodes[x]).parent == up[x].parent
                    && tree::listed(nodes, x) == tree::listed(up, x)
        }),
{
    let up = raised(nodes, p, e);
    let bare = EntryView { dir_id: None, ..e };
    let same = tree::with_entries(up, p, seq![bare]);
    let after = edit::with_import(nodes, p, e);
    lemma_same_links(nodes, up);
    tree::lemma_with_entries_linked(up, p, seq![bare]);
    assert forall|x: int| 0 <= x < after.len() implies (#[trigger] after[x]).parent
        == same[x].parent && after[x].children == same[x].children && after[x].kind
        == same[x].kind by {
        if x == p {
            assert(after[p].children =~= same[p].children);
        }
    }
    assert forall|x: int| 0 <= x < nodes.len() implies (#[trigger] nodes[x]).parent == up[x].parent
        && tree::listed(nodes, x) == tree::listed(up, x) by {
        assert forall|y: int| 0 <= y < nodes.len() implies nodes[y].children == up[y].children by {}
    }
    assert forall|x: int| 0 <= x < after.len() implies (#[trigger] same[x]).parent
        == after[x].parent && tree::listed(same, x) == tree::listed(after, x) by {
        assert(after[x].parent == same[x].parent);
        if after[x].parent is Some && after[x].parent->0 < after.len() {
            assert(after[after[x].parent->0 as int].children
                == same[after[x].parent->0 as int].children);
        }
    }
}

proof fn lemma_import_live(nodes: Seq<NodeView>, p: int, e: EntryView, j: int)
    requires
        tree::well_linked(nodes),
        totals::live(nodes, p),
        nodes.len() < usize::MAX,
        0 <= j <= nodes.len(),
    ensures
        totals::live(edit::with_import(nodes, p, e), j) == (j == nodes.len() || totals::live(
            nodes,
            j,
        )),
{
    let up = raised(nodes, p, e);
    let bare = EntryView { dir_id: None, ..e };
    let same = tree::with_entries(up, p, seq![bare]);
    let after = edit::with_import(nodes, p, e);
    lemma_import_links(nodes, p, e);
    totals::lemma_under_same(same, after, j, 0);
    lemma_entries_under(up, p, seq![bare], j, 0);
    if j < nodes.len() {
        totals::lemma_under_same(nodes, up, j, 0);
    } else {
        totals::lemma_under_same(nodes, up, p, 0);
    }
}

proof fn lemma_import_balance(t: TreeView, p: int, e: EntryView, x: int)
    requires
        totals::consistent(t),
        totals::live(t.nodes, p),
        tree::is_dir(t.nodes[p]),
        0 <= e.apparent <= u64::MAX,
        0 <= e.disk <= u64::MAX,
        t.nodes.len() < usize::MAX,
        0 <= x <= t.nodes.len(),
        x < t.nodes.len() ==> totals::live(t.nodes, x),
    ensures
        totals::balanced(edit::with_import(t.nodes, p, e), x),
        x < t.nodes.len() ==> totals::apparent_slack(edit::with_import(t.nodes, p, e), x)
            == totals::apparent_slack(t.nodes, x),
        x < t.nodes.len() ==> totals::disk_slack(edit::with_import(t.nodes, p, e), x)
            == totals::disk_slack(t.nodes, x),
{
    let nodes = t.nodes;
    let s = tree::growth(e.apparent, e.disk);
    let up = raised(nodes, p, e);
    let after = edit::with_import(nodes, p, e);
    if x == nodes.len() {
        assert(after[x].children =~= Seq::empty());
    } else {
        assert(totals::balanced(nodes, x));
        if tree::entry_counts(e) {
            assert forall|c: int|
                0 <= c < nodes.len() && #[trigger] tree::charged(nodes, c, p) implies {
                &&& nodes[c].apparent + s.add_apparent - s.sub_apparent >= 0
                &&& nodes[c].disk + s.add_disk - s.sub_disk >= 0
            } by {
                assert(nodes[c].apparent >= 0);
            }
            assert forall|c: int| 0 <= c < nodes.len() && #[trigger] tree::above(
                nodes,
                c,
                p,
            ) implies nodes[c].unscanned - s.read >= 0 by {
                assert(nodes[c].unscanned >= 0);
            }
            assert(totals::exact_shift(nodes, p, s));
            totals::lemma_lift_slack(nodes, p, s, x);
        }
        let list = nodes[x].children;
        assert forall|k: int| 0 <= k < list.len() implies ({
            let c = #[trigger] list[k] as int;
            &&& edit::apparent_share(after)(c) == edit::apparent_share(up)(c)
            &&& edit::disk_share(after)(c) == edit::disk_share(up)(c)
            &&& totals::unread_share(after)(c) == totals::unread_share(up)(c)
        }) by {
            assert(nodes[x].children[k] < nodes.len());
        }
        below::lemma_sum_list_same(list, edit::apparent_share(after), edit::apparent_share(up));
        below::lemma_sum_list_same(list, edit::disk_share(after), edit::disk_share(up));
        below::lemma_sum_list_same(list, totals::unread_share(after), totals::unread_share(up));
        if x == p {
            let kids = after[p].children;
            assert(kids == list.push(nodes.len() as usize));
            assert(kids.drop_last() =~= list);
            assert(after[nodes.len() as int].apparent == e.apparent);
            assert(tree::charged(nodes, p, p));
        } else {
            assert(after[x].children == list);
        }
    }
}

/// Importing an entry keeps the totals right, under any directory: below one that does not count, it
/// adds to nothing further up.
pub proof fn law_import_keeps_totals(t: TreeView, p: int, e: EntryView)
    requires
        totals::consistent(t),
        totals::live(t.nodes, p),
        tree::is_dir(t.nodes[p]),
        0 <= e.apparent <= u64::MAX,
        0 <= e.disk <= u64::MAX,
        tree::fits(edit::imported(t, p, e).nodes),
    ensures
        totals::consistent(edit::imported(t, p, e)),
        own_kept(t.nodes, edit::imported(t, p, e).nodes),
        live_kept(t.nodes, edit::imported(t, p, e).nodes),
        is_as_found(edit::imported(t, p, e).nodes, t.nodes.len() as int, e),
{
    let nodes = t.nodes;
    let after = edit::with_import(nodes, p, e);
    let bare = EntryView { dir_id: None, ..e };
    let up = raised(nodes, p, e);
    let same = tree::with_entries(up, p, seq![bare]);
    assert(after.len() == nodes.len() + 1);
    edit::lemma_imported_wf(t, p, e);
    assert forall|i: int| 0 <= i < nodes.len() implies {
        &&& #[trigger] totals::live(after, i) == totals::live(nodes, i)
        &&& after[i].name == nodes[i].name
        &&& after[i].parent == nodes[i].parent
        &&& after[i].kind == nodes[i].kind
        &&& after[i].shared == nodes[i].shared
        &&& after[i].excluded == nodes[i].excluded
    } by {
        lemma_import_live(nodes, p, e, i);
    }
    lemma_import_live(nodes, p, e, nodes.len() as int);
    assert(after[nodes.len() as int].children =~= Seq::empty());
    assert forall|x: int| #[trigger] totals::live(after, x) implies totals::balanced(after, x) && (x
        < nodes.len() ==> edit::own_apparent(after, x) == edit::own_apparent(nodes, x)
        && edit::own_disk(after, x) == edit::own_disk(nodes, x)) by {
        lemma_import_live(nodes, p, e, x);
        lemma_import_balance(t, p, e, x);
    }
    lemma_import_links(nodes, p, e);
    lemma_import_count(nodes, up, same, after, p, bare, true);
    lemma_import_count(nodes, up, same, after, p, bare, false);
}

proof fn lemma_import_count(
    nodes: Seq<NodeView>,
    up: Seq<NodeView>,
    same: Seq<NodeView>,
    after: Seq<NodeView>,
    p: int,
    e: EntryView,
    dirs: bool,
)
    requires
        tree::well_linked(nodes),
        tree::well_linked(same),
        nodes.len() < usize::MAX,
        totals::live(nodes, p),
        up.len() == nodes.len(),
        same == tree::with_entries(up, p, seq![e]),
        after.len() == same.len(),
        forall|x: int|
            0 <= x < nodes.len() ==> (#[trigger] up[x]).parent == nodes[x].parent && up[x].children
                == nodes[x].children && up[x].kind == nodes[x].kind,
        forall|x: int|
            0 <= x < same.len() ==> (#[trigger] after[x]).parent == same[x].parent
                && after[x].children == same[x].children && after[x].kind == same[x].kind,
    ensures
        below::count_under(after, 0, dirs) == below::count_under(nodes, 0, dirs) + if (e.kind
            == NodeKind::Dir) == dirs {
            1int
        } else {
            0
        },
{
    lemma_same_links(nodes, up);
    assert forall|x: int| 0 <= x < nodes.len() implies (#[trigger] nodes[x]).parent == up[x].parent
        && tree::listed(nodes, x) == tree::listed(up, x) by {
        assert(up[x].parent == nodes[x].parent);
        if nodes[x].parent is Some && nodes[x].parent->0 < nodes.len() {
            assert(up[nodes[x].parent->0 as int].children
                == nodes[nodes[x].parent->0 as int].children);
        }
    }
    totals::lemma_under_same(nodes, up, p, 0);
    lemma_count_same(nodes, up, dirs);
    lemma_entries_count(up, p, seq![e], dirs);
    lemma_count_same(same, after, dirs);
    assert(seq![e].drop_last() =~= Seq::<EntryView>::empty());
    assert(tree::dir_entries(Seq::<EntryView>::empty()) == 0);
    assert(tree::dir_entries(seq![e]) == if e.kind == NodeKind::Dir {
        1int
    } else {
        0
    });
}

} // verus!
