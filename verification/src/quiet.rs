//! Batches without entries: they may come whenever they come, and lead to the same tree, numbers and all.
use vstd::prelude::*;

use crate::below;
use crate::growth;
use crate::order;
use crate::totals;
use crate::tree;
use crate::tree::{BatchView, EntryView, NodeView, TaskView, TreeView};
use crate::upkeep;

verus! {

// ---- One batch without entries ----------------------------------------------------------------

/// 1 if the directory was not read yet.
spec fn unread(nodes: Seq<NodeView>, p: int) -> int {
    if nodes[p].scanned {
        0
    } else {
        1
    }
}

/// What a batch makes of an entry that was there.
spec fn touched(nodes: Seq<NodeView>, p: int, b: BatchView, i: int) -> NodeView {
    NodeView {
        apparent: if tree::charged(nodes, i, p) {
            tree::max0(nodes[i].apparent + tree::counted_apparent(b.nodes))
        } else {
            nodes[i].apparent
        },
        disk: if tree::charged(nodes, i, p) {
            tree::max0(nodes[i].disk + tree::counted_disk(b.nodes))
        } else {
            nodes[i].disk
        },
        unscanned: if tree::above(nodes, i, p) {
            tree::max0(nodes[i].unscanned - unread(nodes, p)) + tree::dir_ids(b.nodes).len()
        } else {
            nodes[i].unscanned
        },
        scanned: nodes[i].scanned || i == p,
        read_error: nodes[i].read_error || (i == p && b.failed),
        children: if i == p {
            nodes[i].children + Seq::new(b.nodes.len(), |k: int| (nodes.len() + k) as usize)
        } else {
            nodes[i].children
        },
        ..nodes[i]
    }
}

proof fn lemma_touched(nodes: Seq<NodeView>, p: int, b: BatchView, i: int)
    requires
        0 <= p < nodes.len(),
        0 <= i < nodes.len() + b.nodes.len(),
    ensures
        tree::with_batch(nodes, p, b).len() == nodes.len() + b.nodes.len(),
        i < nodes.len() ==> tree::with_batch(nodes, p, b)[i] == touched(nodes, p, b, i),
        i >= nodes.len() ==> tree::with_batch(nodes, p, b)[i] == tree::entry_node(
            b.nodes[i - nodes.len()],
            p as usize,
        ),
{
    tree::lemma_charged_above(nodes, i, p);
}

/// A batch without entries changes no size and no list.
proof fn lemma_touched_bare(nodes: Seq<NodeView>, q: int, c: BatchView, i: int)
    requires
        tree::fits(nodes),
        0 <= q < nodes.len(),
        0 <= i < nodes.len(),
        c.nodes.len() == 0,
    ensures
        touched(nodes, q, c, i) == (NodeView {
            unscanned: if tree::above(nodes, i, q) {
                tree::max0(nodes[i].unscanned - unread(nodes, q))
            } else {
                nodes[i].unscanned
            },
            scanned: nodes[i].scanned || i == q,
            read_error: nodes[i].read_error || (i == q && c.failed),
            ..nodes[i]
        }),
{
    assert(tree::counted_apparent(c.nodes) == 0 && tree::counted_disk(c.nodes) == 0);
    assert(tree::dir_ids(c.nodes).len() == 0);
    assert(nodes[i].apparent >= 0);
    assert(touched(nodes, q, c, i).children =~= nodes[i].children);
}

/// Where parents and standing are the same, so are the ways up.
proof fn lemma_ways_same(a: Seq<NodeView>, b: Seq<NodeView>, i: int, start: int)
    requires
        tree::well_linked(a),
        0 <= start < a.len() <= b.len(),
        forall|y: int|
            0 <= y < a.len() ==> (#[trigger] b[y]).parent == a[y].parent && tree::counts(b[y])
                == tree::counts(a[y]),
    ensures
        tree::above(b, i, start) == tree::above(a, i, start),
        tree::charged(b, i, start) == tree::charged(a, i, start),
    decreases start,
{
    assert(b[start].parent == a[start].parent);
    if start > 0 {
        lemma_ways_same(a, b, i, a[start].parent->0 as int);
    }
}

proof fn lemma_two_summands(f: spec_fn(int) -> int, n: int, p: int, q: int)
    requires
        0 <= p < n,
        0 <= q < n,
        p != q,
        forall|j: int| 0 <= j < n ==> #[trigger] f(j) >= 0,
    ensures
        f(p) + f(q) <= below::sum_range(f, n),
    decreases n,
{
    if p == n - 1 {
        lemma_one_summand(f, n - 1, q);
    } else if q == n - 1 {
        lemma_one_summand(f, n - 1, p);
    } else {
        lemma_two_summands(f, n - 1, p, q);
        assert(f(n - 1) >= 0);
    }
}

proof fn lemma_one_summand(f: spec_fn(int) -> int, n: int, p: int)
    requires
        0 <= p < n,
        forall|j: int| 0 <= j < n ==> #[trigger] f(j) >= 0,
    ensures
        f(p) <= below::sum_range(f, n),
    decreases n,
{
    if p == n - 1 {
        totals::lemma_nonneg_sum(f, n - 1);
    } else {
        lemma_one_summand(f, n - 1, p);
        assert(f(n - 1) >= 0);
    }
}

/// A directory above two others counts both if they are unread.
proof fn lemma_counts_both(t: TreeView, i: int, p: int, q: int)
    requires
        totals::consistent(t),
        upkeep::good_home(t.nodes, p),
        upkeep::good_home(t.nodes, q),
        p != q,
        tree::above(t.nodes, i, p),
        tree::above(t.nodes, i, q),
    ensures
        t.nodes[i].unscanned >= unread(t.nodes, p) + unread(t.nodes, q),
{
    let nodes = t.nodes;
    totals::lemma_above_live(nodes, i, p);
    totals::lemma_above_live(nodes, i, q);
    totals::law_unscanned_is_number_pending(t, i);
    let f = |j: int|
        if below::under(nodes, j, i) {
            totals::each_pending(nodes)(j)
        } else {
            0
        };
    lemma_two_summands(f, nodes.len() as int, p, q);
}

proof fn lemma_counts_one(t: TreeView, i: int, q: int)
    requires
        totals::consistent(t),
        upkeep::good_home(t.nodes, q),
        tree::above(t.nodes, i, q),
    ensures
        t.nodes[i].unscanned >= unread(t.nodes, q),
{
    let nodes = t.nodes;
    totals::lemma_above_live(nodes, i, q);
    totals::law_unscanned_is_number_pending(t, i);
    let f = |j: int|
        if below::under(nodes, j, i) {
            totals::each_pending(nodes)(j)
        } else {
            0
        };
    lemma_one_summand(f, nodes.len() as int, q);
}

/// A batch without entries may be put in before or after one for another directory.
proof fn lemma_bare_commutes(t: TreeView, q: int, c: BatchView, p: int, b: BatchView)
    requires
        totals::consistent(t),
        upkeep::good_home(t.nodes, q),
        upkeep::good_home(t.nodes, p),
        p != q,
        c.nodes.len() == 0,
        upkeep::valid_batch(b),
        tree::fits(tree::grafted(t, p, b).nodes),
    ensures
        tree::grafted(tree::grafted(t, q, c), p, b) == tree::grafted(tree::grafted(t, p, b), q, c),
        tree::fits(tree::grafted(tree::grafted(t, q, c), p, b).nodes),
{
    let nodes = t.nodes;
    let n = nodes.len() as int;
    let first = tree::grafted(t, q, c);
    let second = tree::grafted(t, p, b);
    let one = tree::grafted(first, p, b);
    let other = tree::grafted(second, q, c);
    lemma_touched(nodes, q, c, 0);
    lemma_touched(nodes, p, b, 0);
    assert forall|y: int| 0 <= y < n implies {
        &&& (#[trigger] first.nodes[y]).parent == nodes[y].parent
        &&& tree::counts(first.nodes[y]) == tree::counts(nodes[y])
        &&& first.nodes[y] == touched(nodes, q, c, y)
    } by {
        lemma_touched(nodes, q, c, y);
    }
    assert forall|y: int| 0 <= y < n implies {
        &&& (#[trigger] second.nodes[y]).parent == nodes[y].parent
        &&& tree::counts(second.nodes[y]) == tree::counts(nodes[y])
        &&& second.nodes[y] == touched(nodes, p, b, y)
    } by {
        lemma_touched(nodes, p, b, y);
    }
    lemma_touched(first.nodes, p, b, 0);
    lemma_touched(second.nodes, q, c, 0);
    assert forall|i: int| 0 <= i < n + b.nodes.len() implies #[trigger] one.nodes[i]
        == other.nodes[i] by {
        lemma_touched(first.nodes, p, b, i);
        lemma_touched(second.nodes, q, c, i);
        lemma_touched_bare(second.nodes, q, c, i);
        lemma_ways_same(nodes, second.nodes, i, q);
        lemma_ways_same(nodes, first.nodes, i, p);
        tree::lemma_above_bound(nodes, i, q);
        tree::lemma_above_bound(nodes, i, p);
        lemma_touched(nodes, p, b, i);
        if i < n {
            assert(first.nodes[i] == touched(nodes, q, c, i));
            assert(second.nodes[i] == touched(nodes, p, b, i));
            assert(first.nodes[p] == touched(nodes, q, c, p));
            assert(second.nodes[q] == touched(nodes, p, b, q));
            lemma_touched_bare(nodes, q, c, i);
            lemma_touched_bare(nodes, q, c, p);
            if tree::above(nodes, i, q) {
                lemma_counts_one(t, i, q);
                if tree::above(nodes, i, p) {
                    lemma_counts_both(t, i, p, q);
                }
            }
            assert(nodes[i].unscanned >= 0);
        }
    }
    assert(one.nodes =~= other.nodes);
    assert(tree::registered(t.dirs, c.nodes, n) == t.dirs);
    assert(tree::registered(second.dirs, c.nodes, second.nodes.len() as int) == second.dirs);
    assert(tree::dir_entries(c.nodes) == 0);
    assert forall|i: int| 0 <= i < other.nodes.len() implies {
        &&& 0 <= (#[trigger] other.nodes[i]).apparent <= u64::MAX
        &&& 0 <= other.nodes[i].disk <= u64::MAX
        &&& 0 <= other.nodes[i].unscanned <= u32::MAX
    } by {
        lemma_touched(second.nodes, q, c, i);
        lemma_touched_bare(second.nodes, q, c, i);
        assert(second.nodes[i].apparent >= 0);
    }
}

// ---- Around other work ------------------------------------------------------------------------

/// No other id stands for the directory with this one.
spec fn alone(t: TreeView, x: u64) -> bool {
    forall|id: u64| #[trigger] t.dirs.contains_key(id) && id != x ==> t.dirs[id] != t.dirs[x]
}

/// The work puts nothing under `q`.
spec fn elsewhere(work: Seq<TaskView>, q: usize) -> bool {
    forall|k: int| 0 <= k < work.len() ==> ((#[trigger] work[k]) matches TaskView::Graft(p, _) ==> p != q)
}

/// Work that does not bring the directory again leaves it where it is, under one id.
proof fn lemma_alone_stays(t: TreeView, work: Seq<TaskView>, x: u64)
    requires
        tree::well_formed(t),
        tree::tasks_in_range(work, t.nodes.len() as int),
        t.dirs.contains_key(x),
        order::brought_by_none(t, x),
        order::leaves(work, x),
        alone(t, x),
    ensures
        ({
            let after = tree::settled(t, work).0;
            &&& after.dirs.contains_key(x)
            &&& after.dirs[x] == t.dirs[x]
            &&& order::brought_by_none(after, x)
            &&& alone(after, x)
        }),
    decreases t.orphans.dom().len(), tree::graft_tasks(work), work.len(),
{
    if work.len() > 0 {
        let rest = work.drop_last();
        assert(work[work.len() - 1] == work.last());
        lemma_leaves_rest(work, x);
        match work.last() {
            TaskView::Graft(p, b) => {
                let next = tree::grafted(t, p as int, b);
                let more = tree::flush_tasks(tree::dir_ids(b.nodes));
                tree::lemma_graft_tasks_add(rest, more);
                tree::lemma_flush_tasks(tree::dir_ids(b.nodes));
                if tree::fits(next.nodes) {
                    lemma_graft_alone(t, p as int, b, x);
                    tree::lemma_grafted_wf(t, p as int, b);
                    lemma_leaves_graft(work, x);
                    lemma_tasks_in_range(rest, more, t.nodes.len() as int, next.nodes.len() as int);
                    lemma_alone_stays(next, rest + more, x);
                    assert(tree::settled(t, work) == tree::settled(next, rest + more));
                }
            },
            TaskView::Flush(id) => {
                if t.orphans.contains_key(id) && t.dirs.contains_key(id) {
                    let next = TreeView { orphans: t.orphans.remove(id), ..t };
                    let more = tree::waiting_tasks(t.dirs[id], t.orphans[id]);
                    lemma_flush_alone(t, id, x);
                    lemma_leaves_flush(t, work, x);
                    lemma_tasks_in_range(rest, more, t.nodes.len() as int, t.nodes.len() as int);
                    lemma_alone_stays(next, rest + more, x);
                    assert(tree::settled(t, work) == tree::settled(next, rest + more));
                } else {
                    lemma_tasks_in_range(
                        rest,
                        Seq::empty(),
                        t.nodes.len() as int,
                        t.nodes.len() as int,
                    );
                    assert(rest + Seq::<TaskView>::empty() =~= rest);
                    lemma_alone_stays(t, rest, x);
                    assert(tree::settled(t, work) == tree::settled(t, rest));
                }
            },
        }
    }
}

proof fn lemma_tasks_in_range(rest: Seq<TaskView>, more: Seq<TaskView>, n: int, m: int)
    requires
        forall|k: int|
            0 <= k < rest.len() ==> ((#[trigger] rest[k]) matches TaskView::Graft(p, _) ==> p < n),
        forall|k: int|
            0 <= k < more.len() ==> ((#[trigger] more[k]) matches TaskView::Graft(p, _) ==> p < m),
        n <= m,
    ensures
        tree::tasks_in_range(rest + more, m),
{
    assert forall|k: int| 0 <= k < (rest + more).len() implies ((#[trigger] (rest
        + more)[k]) matches TaskView::Graft(p, _) ==> p < m) by {
        if k < rest.len() {
            assert((rest + more)[k] == rest[k]);
        } else {
            assert((rest + more)[k] == more[k - rest.len()]);
        }
    }
}

proof fn lemma_leaves_rest(work: Seq<TaskView>, x: u64)
    requires
        order::leaves(work, x),
        work.len() > 0,
    ensures
        order::leaves(work.drop_last(), x),
{
    let rest = work.drop_last();
    assert forall|k: int| 0 <= k < rest.len() implies match #[trigger] rest[k] {
        TaskView::Graft(_, b) => !tree::dir_ids(b.nodes).contains(x),
        TaskView::Flush(id) => id != x,
    } by {
        assert(rest[k] == work[k]);
    }
}

proof fn lemma_leaves_graft(work: Seq<TaskView>, x: u64)
    requires
        order::leaves(work, x),
        work.len() > 0,
        work.last() is Graft,
    ensures
        order::leaves(
            work.drop_last() + tree::flush_tasks(tree::dir_ids(work.last()->Graft_1.nodes)),
            x,
        ),
{
    let rest = work.drop_last();
    let ids = tree::dir_ids(work.last()->Graft_1.nodes);
    let all = rest + tree::flush_tasks(ids);
    assert(work[work.len() - 1] == work.last());
    assert forall|k: int| 0 <= k < all.len() implies match #[trigger] all[k] {
        TaskView::Graft(_, b) => !tree::dir_ids(b.nodes).contains(x),
        TaskView::Flush(id) => id != x,
    } by {
        if k < rest.len() {
            assert(all[k] == work[k]);
        } else {
            assert(ids.contains(ids[ids.len() - 1 - (k - rest.len())]));
        }
    }
}

proof fn lemma_leaves_flush(t: TreeView, work: Seq<TaskView>, x: u64)
    requires
        order::leaves(work, x),
        order::brought_by_none(t, x),
        work.len() > 0,
        work.last() matches TaskView::Flush(id) && t.orphans.contains_key(id),
    ensures
        order::leaves(
            work.drop_last() + tree::waiting_tasks(
                t.dirs[work.last()->Flush_0],
                t.orphans[work.last()->Flush_0],
            ),
            x,
        ),
{
    let id = work.last()->Flush_0;
    let rest = work.drop_last();
    let all = rest + tree::waiting_tasks(t.dirs[id], t.orphans[id]);
    assert forall|k: int| 0 <= k < all.len() implies match #[trigger] all[k] {
        TaskView::Graft(_, b) => !tree::dir_ids(b.nodes).contains(x),
        TaskView::Flush(id) => id != x,
    } by {
        if k < rest.len() {
            assert(all[k] == work[k]);
        } else {
            let m = t.orphans[id].len() - 1 - (k - rest.len());
            assert(all[k] == TaskView::Graft(t.dirs[id], t.orphans[id][m]));
        }
    }
}

proof fn lemma_graft_alone(t: TreeView, p: int, b: BatchView, x: u64)
    requires
        tree::well_formed(t),
        t.nodes.len() + b.nodes.len() <= usize::MAX,
        t.dirs.contains_key(x),
        order::brought_by_none(t, x),
        !tree::dir_ids(b.nodes).contains(x),
        alone(t, x),
    ensures
        tree::grafted(t, p, b).dirs.contains_key(x),
        tree::grafted(t, p, b).dirs[x] == t.dirs[x],
        order::brought_by_none(tree::grafted(t, p, b), x),
        alone(tree::grafted(t, p, b), x),
{
    let next = tree::grafted(t, p, b);
    order::lemma_registered_leaves(t.dirs, b.nodes, t.nodes.len() as int, x);
    tree::lemma_registered(t.dirs, b.nodes, t.nodes.len() as int);
    assert forall|id: u64| #[trigger] next.dirs.contains_key(id) && id != x implies next.dirs[id]
        != next.dirs[x] by {
        if t.dirs.contains_key(id) {
            assert(t.dirs[id] != t.dirs[x]);
        }
    }
}

proof fn lemma_flush_alone(t: TreeView, id: u64, x: u64)
    requires
        order::brought_by_none(t, x),
        alone(t, x),
    ensures
        order::brought_by_none(TreeView { orphans: t.orphans.remove(id), ..t }, x),
        alone(TreeView { orphans: t.orphans.remove(id), ..t }, x),
{
    let next = TreeView { orphans: t.orphans.remove(id), ..t };
    assert forall|i: u64, k: int|
        next.orphans.contains_key(i) && 0 <= k < next.orphans[i].len() implies !tree::dir_ids(
        (#[trigger] next.orphans[i][k]).nodes,
    ).contains(x) by {
        assert(next.orphans[i][k] == t.orphans[i][k]);
    }
    assert forall|i: u64| #[trigger] next.dirs.contains_key(i) && i != x implies next.dirs[i]
        != next.dirs[x] by {
        assert(t.dirs.contains_key(i));
    }
}

/// A tree on which work can be done that does not concern the directory with this id.
spec fn clear_of(t: TreeView, work: Seq<TaskView>, x: u64) -> bool {
    &&& totals::consistent(t)
    &&& upkeep::valid_waiting(t)
    &&& upkeep::good_index(t)
    &&& upkeep::sound_work(t, work)
    &&& t.dirs.contains_key(x)
    &&& order::brought_by_none(t, x)
    &&& order::leaves(work, x)
    &&& elsewhere(work, t.dirs[x])
    &&& alone(t, x)
}

proof fn lemma_graft_clear(t: TreeView, work: Seq<TaskView>, x: u64)
    requires
        clear_of(t, work, x),
        work.len() > 0,
        work.last() matches TaskView::Graft(p, b) && tree::fits(
            tree::grafted(t, p as int, b).nodes,
        ),
    ensures
        ({
            let p = work.last()->Graft_0;
            let b = work.last()->Graft_1;
            let next = tree::grafted(t, p as int, b);
            &&& clear_of(
                next,
                work.drop_last() + tree::flush_tasks(tree::dir_ids(b.nodes)),
                x,
            )
            &&& next.dirs[x] == t.dirs[x]
            &&& upkeep::good_home(t.nodes, p as int)
            &&& upkeep::valid_batch(b)
            &&& p != t.dirs[x]
        }),
{
    let p = work.last()->Graft_0;
    let b = work.last()->Graft_1;
    let next = tree::grafted(t, p as int, b);
    let rest = work.drop_last();
    let all = rest + tree::flush_tasks(tree::dir_ids(b.nodes));
    assert(work[work.len() - 1] == work.last());
    assert(upkeep::sound_task(t, work.last()));
    assert(next.nodes.len() == t.nodes.len() + b.nodes.len());
    upkeep::lemma_graft_sound(t, work);
    upkeep::law_batch_keeps_totals(t, p as int, b);
    lemma_graft_alone(t, p as int, b, x);
    lemma_leaves_graft(work, x);
    assert forall|id: u64| #[trigger] next.dirs.contains_key(id) implies upkeep::good_home(
        next.nodes,
        next.dirs[id] as int,
    ) by {
        upkeep::lemma_index_kept(t, p as int, b, id);
    }
    assert forall|k: int| 0 <= k < all.len() implies ((#[trigger] all[k]) matches TaskView::Graft(p, _)
        ==> p != t.dirs[x]) by {
        if k < rest.len() {
            assert(all[k] == work[k]);
        }
    }
}

proof fn lemma_flush_clear(t: TreeView, work: Seq<TaskView>, x: u64)
    requires
        clear_of(t, work, x),
        work.len() > 0,
        work.last() matches TaskView::Flush(id) && t.orphans.contains_key(id)
            && t.dirs.contains_key(id),
    ensures
        ({
            let id = work.last()->Flush_0;
            let next = TreeView { orphans: t.orphans.remove(id), ..t };
            clear_of(
                next,
                work.drop_last() + tree::waiting_tasks(t.dirs[id], t.orphans[id]),
                x,
            )
        }),
{
    let id = work.last()->Flush_0;
    let next = TreeView { orphans: t.orphans.remove(id), ..t };
    let rest = work.drop_last();
    let all = rest + tree::waiting_tasks(t.dirs[id], t.orphans[id]);
    assert(work[work.len() - 1] == work.last());
    upkeep::lemma_flush_sound(t, work);
    lemma_flush_alone(t, id, x);
    lemma_leaves_flush(t, work, x);
    assert(id != x);
    assert(t.dirs[id] != t.dirs[x]);
    assert forall|i: u64| #[trigger] next.dirs.contains_key(i) implies upkeep::good_home(
        next.nodes,
        next.dirs[i] as int,
    ) by {
        assert(t.dirs.contains_key(i));
    }
    assert forall|k: int| 0 <= k < all.len() implies ((#[trigger] all[k]) matches TaskView::Graft(p, _)
        ==> p != t.dirs[x]) by {
        if k < rest.len() {
            assert(all[k] == work[k]);
        }
    }
}

proof fn lemma_rest_clear(t: TreeView, work: Seq<TaskView>, x: u64)
    requires
        clear_of(t, work, x),
        work.len() > 0,
    ensures
        clear_of(t, work.drop_last(), x),
{
    let rest = work.drop_last();
    lemma_leaves_rest(work, x);
    assert forall|k: int| 0 <= k < rest.len() implies upkeep::sound_task(t, #[trigger] rest[k])
        by {
        assert(upkeep::sound_task(t, work[k]));
    }
    assert forall|k: int| 0 <= k < rest.len() implies ((#[trigger] rest[k]) matches TaskView::Graft(p, _)
        ==> p != t.dirs[x]) by {
        assert(rest[k] == work[k]);
    }
}

/// A batch without entries may be put in before or after work that does not concern its directory.
proof fn lemma_bare_around(t: TreeView, work: Seq<TaskView>, x: u64, c: BatchView)
    requires
        clear_of(t, work, x),
        c.nodes.len() == 0,
        tree::settled(t, work).1,
    ensures
        tree::settled(tree::grafted(t, t.dirs[x] as int, c), work) == (
            tree::grafted(tree::settled(t, work).0, t.dirs[x] as int, c),
            true,
        ),
    decreases t.orphans.dom().len(), tree::graft_tasks(work), work.len(),
{
    let q = t.dirs[x] as int;
    let early = tree::grafted(t, q, c);
    assert(early.dirs == t.dirs && early.orphans == t.orphans);
    if work.len() > 0 {
        let rest = work.drop_last();
        match work.last() {
            TaskView::Graft(p, b) => {
                let next = tree::grafted(t, p as int, b);
                let more = tree::flush_tasks(tree::dir_ids(b.nodes));
                tree::lemma_graft_tasks_add(rest, more);
                tree::lemma_flush_tasks(tree::dir_ids(b.nodes));
                assert(tree::fits(next.nodes));
                lemma_graft_clear(t, work, x);
                assert(upkeep::good_home(t.nodes, q));
                lemma_bare_commutes(t, q, c, p as int, b);
                lemma_bare_around(next, rest + more, x, c);
                assert(tree::settled(t, work) == tree::settled(next, rest + more));
                assert(tree::settled(early, work) == tree::settled(
                    tree::grafted(next, q, c),
                    rest + more,
                ));
            },
            TaskView::Flush(id) => {
                if t.orphans.contains_key(id) && t.dirs.contains_key(id) {
                    let next = TreeView { orphans: t.orphans.remove(id), ..t };
                    let more = tree::waiting_tasks(t.dirs[id], t.orphans[id]);
                    lemma_flush_clear(t, work, x);
                    lemma_bare_around(next, rest + more, x, c);
                    assert(tree::grafted(next, q, c) == (TreeView {
                        orphans: early.orphans.remove(id),
                        ..early
                    }));
                    assert(tree::settled(t, work) == tree::settled(next, rest + more));
                    assert(tree::settled(early, work) == tree::settled(
                        tree::grafted(next, q, c),
                        rest + more,
                    ));
                } else {
                    lemma_rest_clear(t, work, x);
                    lemma_bare_around(t, rest, x, c);
                    assert(tree::settled(t, work) == tree::settled(t, rest));
                    assert(tree::settled(early, work) == tree::settled(early, rest));
                }
            },
        }
    }
}

// ---- Several batches without entries ----------------------------------------------------------

/// The tree after batches were put under `q` one after another; those that wait are not looked at.
spec fn grafted_all(t: TreeView, q: int, ws: Seq<BatchView>) -> TreeView
    decreases ws.len(),
{
    if ws.len() == 0 {
        t
    } else {
        grafted_all(tree::grafted(t, q, ws[0]), q, ws.drop_first())
    }
}

pub open spec fn all_bare(ws: Seq<BatchView>) -> bool {
    forall|k: int| 0 <= k < ws.len() ==> (#[trigger] ws[k]).nodes.len() == 0
}

/// The tree without what waits for this id.
spec fn without_waiting(t: TreeView, x: u64) -> TreeView {
    TreeView { orphans: t.orphans.remove(x), ..t }
}

/// A batch without entries keeps everything as it should be.
proof fn lemma_bare_keeps(t: TreeView, work: Seq<TaskView>, x: u64, c: BatchView)
    requires
        clear_of(t, work, x),
        c.nodes.len() == 0,
    ensures
        tree::fits(tree::grafted(t, t.dirs[x] as int, c).nodes),
        clear_of(tree::grafted(t, t.dirs[x] as int, c), work, x),
        tree::grafted(t, t.dirs[x] as int, c).dirs == t.dirs,
        tree::grafted(t, t.dirs[x] as int, c).orphans == t.orphans,
{
    let q = t.dirs[x] as int;
    let next = tree::grafted(t, q, c);
    let n = t.nodes.len() as int;
    assert(upkeep::good_home(t.nodes, q));
    lemma_touched(t.nodes, q, c, 0);
    assert forall|i: int| 0 <= i < next.nodes.len() implies {
        &&& 0 <= (#[trigger] next.nodes[i]).apparent <= u64::MAX
        &&& 0 <= next.nodes[i].disk <= u64::MAX
        &&& 0 <= next.nodes[i].unscanned <= u32::MAX
    } by {
        lemma_touched(t.nodes, q, c, i);
        lemma_touched_bare(t.nodes, q, c, i);
        assert(t.nodes[i].apparent >= 0);
    }
    upkeep::law_batch_keeps_totals(t, q, c);
    upkeep::lemma_grafted_live(t, q, c);
    assert(next.dirs == t.dirs);
    assert forall|id: u64| #[trigger] next.dirs.contains_key(id) implies upkeep::good_home(
        next.nodes,
        next.dirs[id] as int,
    ) by {
        assert(t.dirs.contains_key(id));
        upkeep::lemma_good_home_kept(t.nodes, next.nodes, t.dirs[id] as int);
    }
    assert forall|k: int| 0 <= k < work.len() implies upkeep::sound_task(next, #[trigger] work[k])
        by {
        assert(upkeep::sound_task(t, work[k]));
        if work[k] is Graft {
            upkeep::lemma_good_home_kept(t.nodes, next.nodes, work[k]->Graft_0 as int);
        }
    }
    assert forall|id: u64| #[trigger] next.dirs.contains_key(id) && id != x implies next.dirs[id]
        != next.dirs[x] by {
        assert(t.dirs.contains_key(id));
    }
}

/// Batches without entries that wait for one directory are put in one after another.
proof fn lemma_bare_grafts(t: TreeView, x: u64, ws: Seq<BatchView>)
    requires
        clear_of(t, Seq::empty(), x),
        all_bare(ws),
    ensures
        tree::settled(t, tree::waiting_tasks(t.dirs[x], ws)) == (
            grafted_all(t, t.dirs[x] as int, ws),
            true,
        ),
    decreases ws.len(),
{
    let work = tree::waiting_tasks(t.dirs[x], ws);
    if ws.len() > 0 {
        let c = ws[0];
        let more = ws.drop_first();
        let next = tree::grafted(t, t.dirs[x] as int, c);
        assert(c.nodes.len() == 0);
        lemma_bare_keeps(t, Seq::empty(), x, c);
        assert(work.last() == TaskView::Graft(t.dirs[x], c));
        assert(work.drop_last() =~= tree::waiting_tasks(t.dirs[x], more));
        assert(tree::dir_ids(c.nodes).len() == 0);
        assert(work.drop_last() + tree::flush_tasks(tree::dir_ids(c.nodes)) =~= work.drop_last());
        assert forall|k: int| 0 <= k < more.len() implies (#[trigger] more[k]).nodes.len() == 0 by {
            assert(more[k] == ws[k + 1]);
        }
        lemma_bare_grafts(next, x, more);
        assert(tree::settled(t, work) == tree::settled(next, work.drop_last()));
    }
}

/// Batches without entries may be put in before or after work that does not concern their directory.
proof fn lemma_bare_all_around(t: TreeView, work: Seq<TaskView>, x: u64, ws: Seq<BatchView>)
    requires
        clear_of(t, work, x),
        all_bare(ws),
        tree::settled(t, work).1,
    ensures
        tree::settled(grafted_all(t, t.dirs[x] as int, ws), work) == (
            grafted_all(tree::settled(t, work).0, t.dirs[x] as int, ws),
            true,
        ),
    decreases ws.len(),
{
    if ws.len() > 0 {
        let c = ws[0];
        let more = ws.drop_first();
        let next = tree::grafted(t, t.dirs[x] as int, c);
        assert(c.nodes.len() == 0);
        lemma_bare_keeps(t, work, x, c);
        lemma_bare_around(t, work, x, c);
        assert forall|k: int| 0 <= k < more.len() implies (#[trigger] more[k]).nodes.len() == 0 by {
            assert(more[k] == ws[k + 1]);
        }
        lemma_bare_all_around(next, work, x, more);
    }
}

/// Work that leaves an id alone is done the same without what waits for it.
proof fn lemma_without_waiting(t: TreeView, work: Seq<TaskView>, x: u64)
    requires
        t.orphans.dom().finite(),
        order::brought_by_none(t, x),
        order::leaves(work, x),
    ensures
        ({
            let (after, done) = tree::settled(t, work);
            &&& tree::settled(without_waiting(t, x), work) == (without_waiting(after, x), done)
            &&& after.orphans.contains_key(x) == t.orphans.contains_key(x)
            &&& t.orphans.contains_key(x) ==> after.orphans[x] == t.orphans[x]
        }),
    decreases t.orphans.dom().len(), tree::graft_tasks(work), work.len(),
{
    let less = without_waiting(t, x);
    if work.len() > 0 {
        let rest = work.drop_last();
        assert(work[work.len() - 1] == work.last());
        lemma_leaves_rest(work, x);
        match work.last() {
            TaskView::Graft(p, b) => {
                let next = tree::grafted(t, p as int, b);
                let more = tree::flush_tasks(tree::dir_ids(b.nodes));
                tree::lemma_graft_tasks_add(rest, more);
                tree::lemma_flush_tasks(tree::dir_ids(b.nodes));
                assert(tree::grafted(less, p as int, b) == without_waiting(next, x));
                if tree::fits(next.nodes) {
                    lemma_leaves_graft(work, x);
                    lemma_without_waiting(next, rest + more, x);
                    assert(tree::settled(t, work) == tree::settled(next, rest + more));
                    assert(tree::settled(less, work) == tree::settled(
                        without_waiting(next, x),
                        rest + more,
                    ));
                }
            },
            TaskView::Flush(id) => {
                if t.orphans.contains_key(id) && t.dirs.contains_key(id) {
                    let next = TreeView { orphans: t.orphans.remove(id), ..t };
                    let more = tree::waiting_tasks(t.dirs[id], t.orphans[id]);
                    assert(less.orphans.remove(id) =~= without_waiting(next, x).orphans);
                    assert(order::brought_by_none(next, x)) by {
                        assert forall|i: u64, k: int|
                            next.orphans.contains_key(i) && 0 <= k
                                < next.orphans[i].len() implies !tree::dir_ids(
                            (#[trigger] next.orphans[i][k]).nodes,
                        ).contains(x) by {
                            assert(next.orphans[i][k] == t.orphans[i][k]);
                        }
                    }
                    lemma_leaves_flush(t, work, x);
                    lemma_without_waiting(next, rest + more, x);
                    assert(tree::settled(t, work) == tree::settled(next, rest + more));
                    assert(tree::settled(less, work) == tree::settled(
                        without_waiting(next, x),
                        rest + more,
                    ));
                } else {
                    lemma_without_waiting(t, rest, x);
                    assert(tree::settled(t, work) == tree::settled(t, rest));
                    assert(tree::settled(less, work) == tree::settled(less, rest));
                }
            },
        }
    }
}

proof fn lemma_without_clear(t: TreeView, work: Seq<TaskView>, x: u64)
    requires
        clear_of(t, work, x),
    ensures
        clear_of(without_waiting(t, x), work, x),
{
    let less = without_waiting(t, x);
    lemma_flush_alone(t, x, x);
    assert forall|id: u64| #[trigger] less.dirs.contains_key(id) implies upkeep::good_home(
        less.nodes,
        less.dirs[id] as int,
    ) by {
        assert(t.dirs.contains_key(id));
    }
    assert forall|i: u64, k: int|
        less.orphans.contains_key(i) && 0 <= k < less.orphans[i].len() implies upkeep::valid_batch(
        #[trigger] less.orphans[i][k],
    ) by {
        assert(less.orphans[i][k] == t.orphans[i][k]);
    }
    assert forall|k: int| 0 <= k < work.len() implies upkeep::sound_task(less, #[trigger] work[k])
        by {
        assert(upkeep::sound_task(t, work[k]));
    }
}

/// Taking up what waits for a directory, if that holds no entries, may be done before or after work that
/// does not concern the directory.
proof fn lemma_bare_flush(t: TreeView, work: Seq<TaskView>, y: u64)
    requires
        clear_of(t, work, y),
        t.orphans.contains_key(y) ==> all_bare(t.orphans[y]),
        tree::settled(t, work).1,
    ensures
        ({
            let flush = seq![TaskView::Flush(y)];
            let first = tree::settled(t, flush);
            let last = tree::settled(tree::settled(t, work).0, flush);
            &&& first.1
            &&& last.1
            &&& tree::settled(first.0, work) == last
        }),
{
    let none = Seq::<TaskView>::empty();
    let flush = seq![TaskView::Flush(y)];
    let after = tree::settled(t, work).0;
    let q = t.dirs[y];
    assert(flush.drop_last() =~= none);
    assert(flush.last() == TaskView::Flush(y));
    lemma_without_waiting(t, work, y);
    lemma_in_range(t, work);
    lemma_alone_stays(t, work, y);
    upkeep::lemma_settled_keeps(t, work);
    if t.orphans.contains_key(y) {
        let ws = t.orphans[y];
        let less = without_waiting(t, y);
        let less_after = without_waiting(after, y);
        assert(none + tree::waiting_tasks(q, ws) =~= tree::waiting_tasks(q, ws));
        lemma_without_clear(t, work, y);
        assert(clear_of(less, none, y));
        lemma_bare_grafts(less, y, ws);
        assert(tree::settled(t, flush) == tree::settled(less, tree::waiting_tasks(q, ws)));
        lemma_bare_all_around(less, work, y, ws);
        assert(clear_of(after, none, y));
        lemma_without_clear(after, none, y);
        lemma_bare_grafts(less_after, y, ws);
        assert(tree::settled(after, flush) == tree::settled(
            less_after,
            tree::waiting_tasks(q, ws),
        ));
    } else {
        assert(tree::settled(t, flush) == tree::settled(t, none));
        assert(tree::settled(after, flush) == tree::settled(after, none));
    }
}

proof fn lemma_in_range(t: TreeView, work: Seq<TaskView>)
    requires
        upkeep::sound_work(t, work),
    ensures
        tree::tasks_in_range(work, t.nodes.len() as int),
{
    assert forall|k: int| 0 <= k < work.len() implies ((#[trigger] work[k]) matches TaskView::Graft(p, _)
        ==> p < t.nodes.len()) by {
        assert(upkeep::sound_task(t, work[k]));
    }
}

/// Whatever waits for the directories holds no entries.
pub open spec fn bare_waiting(t: TreeView, ids: Seq<u64>) -> bool {
    forall|k: int|
        0 <= k < ids.len() && t.orphans.contains_key(#[trigger] ids[k]) ==> all_bare(
            t.orphans[ids[k]],
        )
}

/// After what waits for one directory was taken up, work that does not concern another still does not.
proof fn lemma_flush_stays_clear(t: TreeView, work: Seq<TaskView>, y: u64, z: u64)
    requires
        clear_of(t, work, z),
        y != z,
    ensures
        clear_of(tree::settled(t, seq![TaskView::Flush(y)]).0, work, z),
{
    let flush = seq![TaskView::Flush(y)];
    let next = tree::settled(t, flush).0;
    assert(upkeep::sound_work(t, flush));
    lemma_in_range(t, flush);
    lemma_alone_stays(t, flush, z);
    upkeep::lemma_settled_keeps(t, flush);
    assert forall|k: int| 0 <= k < work.len() implies upkeep::sound_task(next, #[trigger] work[k])
        by {
        assert(upkeep::sound_task(t, work[k]));
        if work[k] is Graft {
            upkeep::lemma_good_home_kept(t.nodes, next.nodes, work[k]->Graft_0 as int);
        }
    }
}

/// The same for several directories.
proof fn lemma_bare_flushes(t: TreeView, work: Seq<TaskView>, ids: Seq<u64>)
    requires
        tree::well_formed(t),
        forall|k: int| 0 <= k < ids.len() ==> clear_of(t, work, #[trigger] ids[k]),
        ids.no_duplicates(),
        bare_waiting(t, ids),
        tree::settled(t, work).1,
        tree::well_formed(tree::settled(t, work).0),
    ensures
        ({
            let first = tree::settled(t, tree::flush_tasks(ids));
            let last = tree::settled(tree::settled(t, work).0, tree::flush_tasks(ids));
            &&& first.1
            &&& last.1
            &&& tree::settled(first.0, work) == last
        }),
    decreases ids.len(),
{
    let none = Seq::<TaskView>::empty();
    let after = tree::settled(t, work).0;
    if ids.len() == 0 {
        assert(tree::flush_tasks(ids) =~= none);
    } else {
        let y = ids[0];
        let more = ids.drop_first();
        let flush = seq![TaskView::Flush(y)];
        assert(tree::flush_tasks(ids) =~= tree::flush_tasks(more) + flush);
        assert(clear_of(t, work, ids[0]));
        lemma_bare_flush(t, work, y);
        let next = tree::settled(t, flush).0;
        let next_after = tree::settled(after, flush).0;
        order::lemma_in_turn(t, tree::flush_tasks(more), flush);
        order::lemma_in_turn(after, tree::flush_tasks(more), flush);
        growth::lemma_waited_before(t, flush);
        assert forall|k: int| 0 <= k < more.len() implies clear_of(next, work, #[trigger] more[k])
            by {
            assert(more[k] == ids[k + 1]);
            assert(clear_of(t, work, ids[k + 1]));
            lemma_flush_stays_clear(t, work, y, more[k]);
        }
        assert forall|k: int|
            0 <= k < more.len() && next.orphans.contains_key(#[trigger] more[k]) implies all_bare(
            next.orphans[more[k]],
        ) by {
            assert(more[k] == ids[k + 1]);
        }
        assert(more.no_duplicates()) by {
            assert forall|i: int, j: int| 0 <= i < more.len() && 0 <= j < more.len() && i
                != j implies more[i] != more[j] by {
                assert(more[i] == ids[i + 1] && more[j] == ids[j + 1]);
            }
        }
        upkeep::lemma_settled_keeps(t, work);
        assert(upkeep::sound_work(t, flush));
        assert(upkeep::sound_work(after, flush));
        upkeep::lemma_settled_keeps(t, flush);
        upkeep::lemma_settled_keeps(after, flush);
        lemma_bare_flushes(next, work, more);
    }
}

// ---- An early batch -----------------------------------------------------------------------------

/// Each directory that `a` brings has an id of its own: it is not known, and neither `b` nor any batch that
/// waits brings it.
pub open spec fn brings_new(t: TreeView, a: BatchView, b: BatchView) -> bool {
    &&& tree::dir_ids(a.nodes).no_duplicates()
    &&& forall|k: int|
        0 <= k < tree::dir_ids(a.nodes).len() ==> {
            let id = #[trigger] tree::dir_ids(a.nodes)[k];
            &&& !t.dirs.contains_key(id)
            &&& order::brought_by_none(t, id)
            &&& !tree::dir_ids(b.nodes).contains(id)
        }
}

/// The directories that a batch brings get one id each.
proof fn lemma_new_alone(t: TreeView, p: int, a: BatchView, z: u64)
    requires
        tree::well_formed(t),
        t.nodes.len() + a.nodes.len() <= usize::MAX,
        tree::dir_ids(a.nodes).contains(z),
        !t.dirs.contains_key(z),
        order::brought_by_none(t, z),
    ensures
        tree::grafted(t, p, a).dirs.contains_key(z),
        alone(tree::grafted(t, p, a), z),
        order::brought_by_none(tree::grafted(t, p, a), z),
{
    let next = tree::grafted(t, p, a);
    let ids = tree::dir_ids(a.nodes);
    tree::lemma_registered(t.dirs, a.nodes, t.nodes.len() as int);
    let k = choose|k: int| 0 <= k < ids.len() && ids[k] == z;
    assert(next.dirs.contains_key(ids[k]));
    assert forall|id: u64| #[trigger] next.dirs.contains_key(id) && id != z implies next.dirs[id]
        != next.dirs[z] by {
        if t.dirs.contains_key(id) {
            assert(t.dirs[id] < t.nodes.len());
        }
    }
}

/// A directory that `a` brings, after those before that of the early batch, and that one, were gone
/// through.
proof fn lemma_still_alone(t: TreeView, a: BatchView, b: BatchView, at: int, m: TreeView, j: int)
    requires
        totals::consistent(t),
        upkeep::valid_waiting(t),
        upkeep::good_index(t),
        upkeep::valid_batch(a),
        t.dirs.contains_key(a.parent_id),
        brings_new(t, a, b),
        0 <= at < tree::dir_ids(a.nodes).len(),
        at <= j < tree::dir_ids(a.nodes).len(),
        ({
            let with_a = tree::grafted(t, t.dirs[a.parent_id] as int, a);
            let pre = tree::dir_ids(a.nodes).take(at);
            &&& tree::fits(with_a.nodes)
            &&& tree::settled(with_a, tree::flush_tasks(pre)) == (m, true)
        }),
        tree::settled(m, seq![TaskView::Flush(tree::dir_ids(a.nodes)[at])]).1,
    ensures
        ({
            let x = tree::dir_ids(a.nodes)[at];
            let z = tree::dir_ids(a.nodes)[j];
            let taken = tree::settled(m, seq![TaskView::Flush(x)]).0;
            &&& totals::consistent(taken)
            &&& upkeep::valid_waiting(taken)
            &&& upkeep::good_index(taken)
            &&& taken.dirs.contains_key(z)
            &&& alone(taken, z)
            &&& order::brought_by_none(taken, z)
        }),
{
    let none = Seq::<TaskView>::empty();
    let ids = tree::dir_ids(a.nodes);
    let x = ids[at];
    let z = ids[j];
    let p = t.dirs[a.parent_id];
    let with_a = tree::grafted(t, p as int, a);
    let pre = ids.take(at);
    let tasks_pre = tree::flush_tasks(pre);
    let flush = seq![TaskView::Flush(x)];
    let taken = tree::settled(m, flush).0;
    assert(with_a.nodes.len() == t.nodes.len() + a.nodes.len());
    assert(upkeep::good_home(t.nodes, p as int));
    upkeep::law_batch_keeps_totals(t, p as int, a);
    assert(upkeep::valid_waiting(with_a));
    assert forall|id: u64| #[trigger] with_a.dirs.contains_key(id) implies upkeep::good_home(
        with_a.nodes,
        with_a.dirs[id] as int,
    ) by {
        upkeep::lemma_index_kept(t, p as int, a, id);
    }
    assert(ids.contains(z));
    lemma_new_alone(t, p as int, a, z);
    lemma_flushes_sound(with_a, pre);
    upkeep::lemma_settled_keeps(with_a, tasks_pre);
    lemma_in_range(with_a, tasks_pre);
    assert(order::leaves(tasks_pre, z)) by {
        assert forall|k: int| 0 <= k < tasks_pre.len() implies match #[trigger] tasks_pre[k] {
            TaskView::Graft(_, b) => !tree::dir_ids(b.nodes).contains(z),
            TaskView::Flush(id) => id != z,
        } by {
            assert(pre[pre.len() - 1 - k] == ids[pre.len() - 1 - k]);
        }
    }
    lemma_alone_stays(with_a, tasks_pre, z);
    assert(upkeep::sound_work(m, flush));
    upkeep::lemma_settled_keeps(m, flush);
    lemma_in_range(m, flush);
    if j != at {
        assert(z != x);
        assert(order::leaves(flush, z));
        lemma_alone_stays(m, flush, z);
    } else {
        assert(flush.drop_last() =~= none);
        if m.orphans.contains_key(x) {
            let less = without_waiting(m, x);
            let first = tree::waiting_tasks(m.dirs[x], m.orphans[x]);
            assert(none + first =~= first);
            assert(tree::settled(m, flush) == tree::settled(less, first));
            lemma_flush_alone(m, x, x);
            assert(order::leaves(none, x));
            assert(order::leaves(flush.drop_last(), x));
            assert(order::leaves(first, x)) by {
                assert forall|k: int| 0 <= k < first.len() implies match #[trigger] first[k] {
                    TaskView::Graft(_, b) => !tree::dir_ids(b.nodes).contains(x),
                    TaskView::Flush(id) => id != x,
                } by {
                    let ws = m.orphans[x];
                    assert(first[k] == TaskView::Graft(m.dirs[x], m.orphans[x][ws.len() - 1 - k]));
                }
            }
            lemma_alone_stays(less, first, x);
        } else {
            assert(tree::settled(m, flush) == tree::settled(m, none));
        }
    }
}

proof fn lemma_flushes_sound(t: TreeView, ids: Seq<u64>)
    requires
        upkeep::good_index(t),
    ensures
        upkeep::sound_work(t, tree::flush_tasks(ids)),
{
    let work = tree::flush_tasks(ids);
    assert forall|k: int| 0 <= k < work.len() implies upkeep::sound_task(t, #[trigger] work[k]) by {}
}

/// An early batch makes no difference, down to the numbers of the entries, where it holds none, or where
/// what waits for the directories behind its own holds none.
pub proof fn law_early_batch_with_no_entries(t: TreeView, a: BatchView, b: BatchView, at: int)
    requires
        totals::consistent(t),
        upkeep::valid_waiting(t),
        upkeep::good_index(t),
        upkeep::valid_batch(a),
        upkeep::valid_batch(b),
        t.dirs.contains_key(a.parent_id),
        0 <= at < tree::dir_ids(a.nodes).len(),
        tree::dir_ids(a.nodes)[at] == b.parent_id,
        brings_new(t, a, b),
        b.nodes.len() == 0 || bare_waiting(t, tree::dir_ids(a.nodes).skip(at + 1)),
        tree::applied(t, a).1,
        tree::applied(tree::applied(t, b).0, a).1,
    ensures
        tree::applied(tree::applied(t, b).0, a) == tree::applied(tree::applied(t, a).0, b),
{
    let x = b.parent_id;
    let ids = tree::dir_ids(a.nodes);
    let post = ids.skip(at + 1);
    let tasks_post = tree::flush_tasks(post);
    assert(!t.dirs.contains_key(ids[at]));
    let (m, taken) = order::lemma_behind_it(t, a, b, at);
    lemma_still_alone(t, a, b, at, m, at);
    let q = taken.dirs[x];
    let graft = seq![TaskView::Graft(q, b)];
    let end = tree::settled(taken, tasks_post).0;
    assert(order::leaves(tasks_post, x)) by {
        assert forall|k: int| 0 <= k < tasks_post.len() implies match #[trigger] tasks_post[k] {
            TaskView::Graft(_, b) => !tree::dir_ids(b.nodes).contains(x),
            TaskView::Flush(id) => id != x,
        } by {
            assert(post[post.len() - 1 - k] == ids[at + 1 + (post.len() - 1 - k)]);
        }
    }
    lemma_flushes_sound(taken, post);
    lemma_in_range(taken, tasks_post);
    lemma_alone_stays(taken, tasks_post, x);
    upkeep::lemma_settled_keeps(taken, tasks_post);
    assert(tree::applied(end, b) == tree::settled(end, graft));
    if b.nodes.len() == 0 {
        lemma_bare_early(taken, tasks_post, x, b);
    } else {
        lemma_bare_behind(t, a, b, at, m, taken);
    }
}

/// The early batch holds no entries.
proof fn lemma_bare_early(taken: TreeView, work: Seq<TaskView>, x: u64, b: BatchView)
    requires
        clear_of(taken, work, x),
        b.nodes.len() == 0,
        tree::settled(taken, work).1,
    ensures
        ({
            let graft = seq![TaskView::Graft(taken.dirs[x], b)];
            tree::settled(taken, work + graft) == tree::settled(
                tree::settled(taken, work).0,
                graft,
            )
        }),
{
    let none = Seq::<TaskView>::empty();
    let q = taken.dirs[x];
    let graft = seq![TaskView::Graft(q, b)];
    let end = tree::settled(taken, work).0;
    assert(graft.drop_last() =~= none);
    assert(graft.last() == TaskView::Graft(q, b));
    assert((work + graft).drop_last() =~= work);
    assert((work + graft).last() == TaskView::Graft(q, b));
    assert(tree::flush_tasks(tree::dir_ids(b.nodes)) =~= none);
    assert(work + none =~= work);
    assert(none + none =~= none);
    lemma_bare_keeps(taken, work, x, b);
    lemma_bare_around(taken, work, x, b);
    upkeep::lemma_settled_keeps(taken, work);
    lemma_in_range(taken, work);
    lemma_alone_stays(taken, work, x);
    assert(clear_of(end, none, x));
    lemma_bare_keeps(end, none, x, b);
    assert(tree::settled(taken, work + graft) == tree::settled(
        tree::grafted(taken, q as int, b),
        work,
    ));
    assert(tree::settled(end, graft) == tree::settled(tree::grafted(end, q as int, b), none));
}

/// What waits behind holds no entries.
proof fn lemma_bare_behind(
    t: TreeView,
    a: BatchView,
    b: BatchView,
    at: int,
    m: TreeView,
    taken: TreeView,
)
    requires
        totals::consistent(t),
        upkeep::valid_waiting(t),
        upkeep::good_index(t),
        upkeep::valid_batch(a),
        upkeep::valid_batch(b),
        t.dirs.contains_key(a.parent_id),
        0 <= at < tree::dir_ids(a.nodes).len(),
        tree::dir_ids(a.nodes)[at] == b.parent_id,
        brings_new(t, a, b),
        bare_waiting(t, tree::dir_ids(a.nodes).skip(at + 1)),
        ({
            let with_a = tree::grafted(t, t.dirs[a.parent_id] as int, a);
            let pre = tree::dir_ids(a.nodes).take(at);
            &&& tree::fits(with_a.nodes)
            &&& tree::settled(with_a, tree::flush_tasks(pre)) == (m, true)
        }),
        m.orphans.dom().finite(),
        tree::settled(m, seq![TaskView::Flush(b.parent_id)]) == (taken, true),
        tree::settled(
            taken,
            tree::flush_tasks(tree::dir_ids(a.nodes).skip(at + 1)) + seq![
                TaskView::Graft(taken.dirs[b.parent_id], b),
            ],
        ).1,
    ensures
        ({
            let graft = seq![TaskView::Graft(taken.dirs[b.parent_id], b)];
            let tasks_post = tree::flush_tasks(tree::dir_ids(a.nodes).skip(at + 1));
            tree::settled(taken, tasks_post + graft) == tree::settled(
                tree::settled(taken, tasks_post).0,
                graft,
            )
        }),
{
    let x = b.parent_id;
    let ids = tree::dir_ids(a.nodes);
    let post = ids.skip(at + 1);
    let tasks_post = tree::flush_tasks(post);
    let with_a = tree::grafted(t, t.dirs[a.parent_id] as int, a);
    let q = taken.dirs[x];
    let graft = seq![TaskView::Graft(q, b)];
    lemma_still_alone(t, a, b, at, m, at);
    order::lemma_in_turn(taken, tasks_post, graft);
    assert(upkeep::good_home(taken.nodes, q as int));
    assert(upkeep::sound_work(taken, graft));
    upkeep::lemma_settled_keeps(taken, graft);
    growth::lemma_waited_before(with_a, tree::flush_tasks(ids.take(at)));
    growth::lemma_waited_before(m, seq![TaskView::Flush(x)]);
    assert forall|k: int| 0 <= k < post.len() implies clear_of(taken, graft, #[trigger] post[k]) by {
        let j = at + 1 + k;
        assert(post[k] == ids[j]);
        lemma_still_alone(t, a, b, at, m, j);
        assert(ids[j] != ids[at]);
        assert(!tree::dir_ids(b.nodes).contains(ids[j]));
        assert(taken.dirs[post[k]] != taken.dirs[x]);
        assert(order::leaves(graft, post[k]));
        assert(elsewhere(graft, taken.dirs[post[k]]));
    }
    assert forall|k: int|
        0 <= k < post.len() && taken.orphans.contains_key(#[trigger] post[k]) implies all_bare(
        taken.orphans[post[k]],
    ) by {
        assert(m.orphans.contains_key(post[k]));
        assert(tree::settled(with_a, tree::flush_tasks(ids.take(at))).0.orphans.contains_key(
            post[k],
        ));
        assert(t.orphans.contains_key(post[k]));
    }
    assert(post.no_duplicates()) by {
        assert forall|i: int, j: int| 0 <= i < post.len() && 0 <= j < post.len() && i
            != j implies post[i] != post[j] by {
            assert(post[i] == ids[at + 1 + i] && post[j] == ids[at + 1 + j]);
        }
    }
    lemma_bare_flushes(taken, graft, post);
}

} // verus!
