//! What holds of the totals: at every moment a directory's size is what it and everything below it
//! that counts take up, and its count of unread directories is exact.
use vstd::prelude::*;

use crate::below;
use crate::edit;
use crate::model::Excluded;
use crate::tree;
use crate::tree::{NodeView, ShiftView, TreeView};

verus! {

/// `i` can be reached from the root.
pub open spec fn live(nodes: Seq<NodeView>, i: int) -> bool {
    0 <= i < nodes.len() && below::under(nodes, i, 0)
}

/// 1 for a directory that is still to be read.
pub open spec fn pending(n: NodeView) -> int {
    if tree::is_dir(n) && n.excluded == Excluded::No && !n.scanned {
        1
    } else {
        0
    }
}

/// What an entry adds to its parent's count of unread directories.
pub open spec fn unread_share(nodes: Seq<NodeView>) -> spec_fn(int) -> int {
    |c: int| nodes[c].unscanned
}

/// The logical size that is not accounted for by the children.
pub open spec fn apparent_slack(nodes: Seq<NodeView>, i: int) -> int {
    nodes[i].apparent - below::sum_list(nodes[i].children, edit::apparent_share(nodes))
}

/// The size on disk that is not accounted for by the children.
pub open spec fn disk_slack(nodes: Seq<NodeView>, i: int) -> int {
    nodes[i].disk - below::sum_list(nodes[i].children, edit::disk_share(nodes))
}

/// The unread directories that are not accounted for by the children.
pub open spec fn unread_slack(nodes: Seq<NodeView>, i: int) -> int {
    nodes[i].unscanned - below::sum_list(nodes[i].children, unread_share(nodes))
}

/// An entry's aggregates agree with its children: they cover them, the count of unread directories
/// exceeds theirs by the entry itself if it is unread, and only a directory has any.
pub open spec fn balanced(nodes: Seq<NodeView>, i: int) -> bool {
    &&& !tree::is_dir(nodes[i]) ==> nodes[i].children.len() == 0
    &&& apparent_slack(nodes, i) >= 0
    &&& disk_slack(nodes, i) >= 0
    &&& unread_slack(nodes, i) == pending(nodes[i])
}

/// The tree's totals are right: every entry that can be reached is balanced, and the counters give
/// the number of directories and of other entries that can be reached.
pub open spec fn consistent(t: TreeView) -> bool {
    &&& tree::well_formed(t)
    &&& tree::fits(t.nodes)
    &&& forall|i: int| #[trigger] live(t.nodes, i) ==> balanced(t.nodes, i)
    &&& t.total_dirs == below::count_under(t.nodes, 0, true)
    &&& t.total_files == below::count_under(t.nodes, 0, false)
}

// ---- The laws of one tree -------------------------------------------------------------------

/// `j` is `i`, or hangs below it and is counted there: it counts, and so does all that lies between.
pub open spec fn counted_under(nodes: Seq<NodeView>, j: int, i: int) -> bool
    decreases j,
{
    j == i || (tree::counts(nodes[j]) && tree::listed(nodes, j) && nodes[j].parent->0 < j
        && counted_under(nodes, nodes[j].parent->0 as int, i))
}

/// The logical size, without what its children take up, of an entry that is counted in `i`.
pub open spec fn counted_own_apparent(nodes: Seq<NodeView>, i: int) -> spec_fn(int) -> int {
    |j: int|
        if counted_under(nodes, j, i) {
            edit::own_apparent(nodes, j)
        } else {
            0
        }
}

/// The size on disk, without what its children take up, of an entry that is counted in `i`.
pub open spec fn counted_own_disk(nodes: Seq<NodeView>, i: int) -> spec_fn(int) -> int {
    |j: int|
        if counted_under(nodes, j, i) {
            edit::own_disk(nodes, j)
        } else {
            0
        }
}

pub open spec fn each_pending(nodes: Seq<NodeView>) -> spec_fn(int) -> int {
    |j: int| pending(nodes[j])
}

/// What hangs below a child is counted above it if it is counted in the child, and the child counts.
proof fn lemma_counted_in_child(nodes: Seq<NodeView>, j: int, c: int, i: int)
    requires
        below::under(nodes, j, c),
        tree::listed(nodes, c),
        nodes[c].parent == Some(i as usize),
        0 <= i < c < nodes.len() <= usize::MAX,
    ensures
        counted_under(nodes, j, i) == (tree::counts(nodes[c]) && counted_under(nodes, j, c)),
    decreases j,
{
    below::lemma_under_bound(nodes, j, c);
    if j == c {
        assert(counted_under(nodes, i, i));
    } else {
        lemma_counted_in_child(nodes, nodes[j].parent->0 as int, c, i);
    }
}

/// The sum of `f` below `c`, where `f` and `g` agree, or where `f` is zero.
proof fn lemma_sum_under_as(
    nodes: Seq<NodeView>,
    c: int,
    f: spec_fn(int) -> int,
    g: spec_fn(int) -> int,
    zero: bool,
)
    requires
        forall|j: int|
            0 <= j < nodes.len() && #[trigger] below::under(nodes, j, c) ==> f(j) == if zero {
                0
            } else {
                g(j)
            },
    ensures
        below::sum_under(nodes, c, f) == if zero {
            0
        } else {
            below::sum_under(nodes, c, g)
        },
{
    let a = |j: int|
        if below::under(nodes, j, c) {
            f(j)
        } else {
            0
        };
    let b = |j: int|
        if below::under(nodes, j, c) {
            g(j)
        } else {
            0
        };
    if zero {
        below::lemma_sum_range_zero(a, nodes.len() as int);
    } else {
        below::lemma_sum_range_same(a, b, nodes.len() as int);
    }
}

/// The aggregate of an entry is its own size and the own sizes of whatever counts below it: hard-link
/// duplicates contribute nothing, and excluded entries nothing with all that hangs below them.
pub proof fn law_aggregate_is_sum_of_own_sizes(t: TreeView, i: int)
    requires
        consistent(t),
        live(t.nodes, i),
    ensures
        t.nodes[i].apparent == below::sum_under(t.nodes, i, counted_own_apparent(t.nodes, i)),
        t.nodes[i].disk == below::sum_under(t.nodes, i, counted_own_disk(t.nodes, i)),
    decreases t.nodes.len() - i,
{
    let nodes = t.nodes;
    let list = nodes[i].children;
    let fa = counted_own_apparent(nodes, i);
    let fd = counted_own_disk(nodes, i);
    below::lemma_sum_under_step(nodes, i, fa);
    below::lemma_sum_under_step(nodes, i, fd);
    assert(balanced(nodes, i));
    assert forall|k: int| 0 <= k < list.len() implies below::sum_under(
        nodes,
        #[trigger] list[k] as int,
        fa,
    ) == edit::apparent_share(nodes)(list[k] as int) && below::sum_under(
        nodes,
        list[k] as int,
        fd,
    ) == edit::disk_share(nodes)(list[k] as int) by {
        let c = list[k] as int;
        lemma_child_live(nodes, i, k);
        law_aggregate_is_sum_of_own_sizes(t, c);
        assert forall|j: int| 0 <= j < nodes.len() && #[trigger] below::under(nodes, j, c) implies fa(
            j,
        ) == (if !tree::counts(nodes[c]) {
            0
        } else {
            counted_own_apparent(nodes, c)(j)
        }) && fd(j) == (if !tree::counts(nodes[c]) {
            0
        } else {
            counted_own_disk(nodes, c)(j)
        }) by {
            lemma_counted_in_child(nodes, j, c, i);
        }
        lemma_sum_under_as(nodes, c, fa, counted_own_apparent(nodes, c), !tree::counts(nodes[c]));
        lemma_sum_under_as(nodes, c, fd, counted_own_disk(nodes, c), !tree::counts(nodes[c]));
    }
    below::lemma_sum_list_same(
        list,
        |x: int| below::sum_under(nodes, x, fa),
        edit::apparent_share(nodes),
    );
    below::lemma_sum_list_same(
        list,
        |x: int| below::sum_under(nodes, x, fd),
        edit::disk_share(nodes),
    );
}

proof fn lemma_counted_in_root(nodes: Seq<NodeView>, j: int)
    requires
        tree::well_linked(nodes),
        live(nodes, j),
        forall|i: int| 0 <= i < nodes.len() ==> tree::counts(#[trigger] nodes[i]),
    ensures
        counted_under(nodes, j, 0),
    decreases j,
{
    if j > 0 {
        lemma_counted_in_root(nodes, nodes[j].parent->0 as int);
    }
}

/// Where everything counts and can be reached, the root's size is the sum of all own sizes.
pub proof fn law_root_is_sum_of_all_own_sizes(t: TreeView)
    requires
        consistent(t),
        forall|j: int| 0 <= j < t.nodes.len() ==> #[trigger] live(t.nodes, j),
        forall|j: int| 0 <= j < t.nodes.len() ==> tree::counts(#[trigger] t.nodes[j]),
    ensures
        t.nodes[0].apparent == below::sum_range(
            |j: int| edit::own_apparent(t.nodes, j),
            t.nodes.len() as int,
        ),
        t.nodes[0].disk == below::sum_range(
            |j: int| edit::own_disk(t.nodes, j),
            t.nodes.len() as int,
        ),
{
    let nodes = t.nodes;
    let n = nodes.len() as int;
    assert(live(nodes, 0));
    law_aggregate_is_sum_of_own_sizes(t, 0);
    let fa = |j: int|
        if below::under(nodes, j, 0) {
            counted_own_apparent(nodes, 0)(j)
        } else {
            0
        };
    let fd = |j: int|
        if below::under(nodes, j, 0) {
            counted_own_disk(nodes, 0)(j)
        } else {
            0
        };
    let ga = |j: int| edit::own_apparent(nodes, j);
    let gd = |j: int| edit::own_disk(nodes, j);
    assert forall|j: int| 0 <= j < n implies #[trigger] fa(j) == ga(j) && fd(j) == gd(j) by {
        assert(live(nodes, j));
        lemma_counted_in_root(nodes, j);
    }
    below::lemma_sum_range_same(fa, ga, n);
    assert forall|j: int| 0 <= j < n implies #[trigger] fd(j) == gd(j) by {
        assert(fa(j) == ga(j));
    }
    below::lemma_sum_range_same(fd, gd, n);
}

/// The count of unread directories of an entry is the number of unread directories below it.
pub proof fn law_unscanned_is_number_pending(t: TreeView, i: int)
    requires
        consistent(t),
        live(t.nodes, i),
    ensures
        t.nodes[i].unscanned == below::sum_under(t.nodes, i, each_pending(t.nodes)),
    decreases t.nodes.len() - i,
{
    let nodes = t.nodes;
    let list = nodes[i].children;
    let f = each_pending(nodes);
    below::lemma_sum_under_step(nodes, i, f);
    assert(balanced(nodes, i));
    assert forall|k: int| 0 <= k < list.len() implies below::sum_under(
        nodes,
        #[trigger] list[k] as int,
        f,
    ) == unread_share(nodes)(list[k] as int) by {
        lemma_child_live(nodes, i, k);
        law_unscanned_is_number_pending(t, list[k] as int);
    }
    below::lemma_sum_list_same(
        list,
        |x: int| below::sum_under(nodes, x, f),
        unread_share(nodes),
    );
}

/// A subtree is complete exactly if no directory in it is still to be read.
pub proof fn law_complete_means_nothing_pending(t: TreeView, i: int)
    requires
        consistent(t),
        live(t.nodes, i),
    ensures
        t.nodes[i].unscanned == 0 <==> forall|j: int|
            0 <= j < t.nodes.len() && #[trigger] below::under(t.nodes, j, i) ==> pending(t.nodes[j])
                == 0,
{
    let nodes = t.nodes;
    law_unscanned_is_number_pending(t, i);
    let f = |j: int|
        if below::under(nodes, j, i) {
            each_pending(nodes)(j)
        } else {
            0
        };
    if nodes[i].unscanned == 0 {
        assert forall|j: int|
            0 <= j < nodes.len() && #[trigger] below::under(nodes, j, i) implies pending(nodes[j])
            == 0 by {
            lemma_zero_sum(f, nodes.len() as int, j);
        }
    } else {
        if forall|j: int|
            0 <= j < nodes.len() && #[trigger] below::under(nodes, j, i) ==> pending(nodes[j])
                == 0 {
            below::lemma_sum_range_zero(f, nodes.len() as int);
        }
    }
}

pub proof fn lemma_zero_sum(f: spec_fn(int) -> int, n: int, x: int)
    requires
        0 <= x < n,
        forall|j: int| 0 <= j < n ==> #[trigger] f(j) >= 0,
        below::sum_range(f, n) == 0,
    ensures
        f(x) == 0,
    decreases n,
{
    lemma_nonneg_sum(f, n - 1);
    assert(f(n - 1) >= 0);
    if x < n - 1 {
        lemma_zero_sum(f, n - 1, x);
    }
}

pub proof fn lemma_nonneg_sum(f: spec_fn(int) -> int, n: int)
    requires
        forall|j: int| 0 <= j < n ==> #[trigger] f(j) >= 0,
    ensures
        below::sum_range(f, n) >= 0,
    decreases n,
{
    if n > 0 {
        lemma_nonneg_sum(f, n - 1);
        assert(f(n - 1) >= 0);
    }
}

// ---- Reaching ---------------------------------------------------------------------------------

/// The children of what can be reached can be reached.
pub proof fn lemma_child_live(nodes: Seq<NodeView>, i: int, k: int)
    requires
        tree::well_linked(nodes),
        nodes.len() <= usize::MAX,
        live(nodes, i),
        0 <= k < nodes[i].children.len(),
    ensures
        live(nodes, nodes[i].children[k] as int),
        i < nodes[i].children[k],
        tree::listed(nodes, nodes[i].children[k] as int),
        nodes[nodes[i].children[k] as int].parent == Some(i as usize),
{
    let c = nodes[i].children[k];
    assert(nodes[c as int].parent == Some(i as usize));
    assert(nodes[i].children.contains(c));
}

/// Everything above what can be reached can be reached, and the way up is the way down.
pub proof fn lemma_above_live(nodes: Seq<NodeView>, c: int, p: int)
    requires
        tree::well_linked(nodes),
        live(nodes, p),
        tree::above(nodes, c, p),
    ensures
        live(nodes, c),
        below::under(nodes, p, c),
    decreases p,
{
    if c != p {
        lemma_above_live(nodes, c, nodes[p].parent->0 as int);
    }
}

/// What something hangs below is above it.
pub proof fn lemma_under_above(nodes: Seq<NodeView>, p: int, c: int)
    requires
        below::under(nodes, p, c),
    ensures
        tree::above(nodes, c, p),
    decreases p,
{
    if c != p {
        lemma_under_above(nodes, nodes[p].parent->0 as int, c);
    }
}

/// What can be reached hangs below whatever hangs between.
pub proof fn lemma_under_trans(nodes: Seq<NodeView>, a: int, b: int, c: int)
    requires
        below::under(nodes, a, b),
        below::under(nodes, b, c),
    ensures
        below::under(nodes, a, c),
    decreases a,
{
    if a != b {
        lemma_under_trans(nodes, nodes[a].parent->0 as int, b, c);
    }
}

/// Same parents and same lists: the same things hang below.
pub proof fn lemma_under_same(a: Seq<NodeView>, b: Seq<NodeView>, j: int, i: int)
    requires
        0 <= j < a.len() <= b.len(),
        forall|x: int|
            0 <= x < a.len() ==> (#[trigger] a[x]).parent == b[x].parent && tree::listed(a, x)
                == tree::listed(b, x),
        forall|x: int|
            0 < x < a.len() ==> (#[trigger] a[x]).parent is Some && a[x].parent->0 < x,
    ensures
        below::under(a, j, i) == below::under(b, j, i),
    decreases j,
{
    assert(a[j].parent == b[j].parent);
    if j != i && tree::listed(a, j) && a[j].parent->0 < j {
        lemma_under_same(a, b, a[j].parent->0 as int, i);
    }
}

// ---- Sums over children -----------------------------------------------------------------------

pub proof fn lemma_sum_list_shift(
    nodes: Seq<NodeView>,
    list: Seq<usize>,
    f: spec_fn(int) -> int,
    g: spec_fn(int) -> int,
    p: int,
    delta: int,
)
    requires
        forall|k: int|
            0 <= k < list.len() ==> g(#[trigger] list[k] as int) == f(list[k] as int)
                + if below::under(nodes, p, list[k] as int) {
                delta
            } else {
                0
            },
    ensures
        below::sum_list(list, g) == below::sum_list(list, f) + delta * below::homes(nodes, p, list),
    decreases list.len(),
{
    if list.len() == 0 {
        assert(below::homes(nodes, p, list) == 0);
        assert(delta * 0 == 0);
    } else {
        let shorter = list.drop_last();
        assert forall|k: int| 0 <= k < shorter.len() implies g(#[trigger] shorter[k] as int) == f(
            shorter[k] as int,
        ) + if below::under(nodes, p, shorter[k] as int) {
            delta
        } else {
            0
        } by {
            assert(shorter[k] == list[k]);
        }
        lemma_sum_list_shift(nodes, shorter, f, g, p, delta);
        let one = if below::under(nodes, p, list.last() as int) {
            1int
        } else {
            0
        };
        assert(list[list.len() - 1] == list.last());
        assert(below::homes(nodes, p, list) == below::homes(nodes, p, shorter) + one);
        assert(delta * (below::homes(nodes, p, shorter) + one) == delta * below::homes(
            nodes,
            p,
            shorter,
        ) + delta * one) by (nonlinear_arith);
    }
}

/// One summand is no more than the sum.
pub proof fn lemma_sum_list_member(list: Seq<usize>, f: spec_fn(int) -> int, at: int)
    requires
        0 <= at < list.len(),
        forall|k: int| 0 <= k < list.len() ==> f(#[trigger] list[k] as int) >= 0,
    ensures
        f(list[at] as int) <= below::sum_list(list, f),
    decreases list.len(),
{
    let shorter = list.drop_last();
    assert forall|k: int| 0 <= k < shorter.len() implies f(#[trigger] shorter[k] as int) >= 0 by {
        assert(shorter[k] == list[k]);
    }
    edit::lemma_sum_list_nonneg(shorter, f);
    assert(f(list[list.len() - 1] as int) >= 0);
    if at < list.len() - 1 {
        lemma_sum_list_member(shorter, f, at);
        assert(shorter[at] == list[at]);
    }
}

/// A child's share in the aggregates of its parent.
proof fn lemma_parent_covers(t: TreeView, p: int)
    requires
        consistent(t),
        live(t.nodes, p),
        p != 0,
    ensures
        live(t.nodes, t.nodes[p].parent->0 as int),
        t.nodes[p].parent->0 < p,
        tree::counts(t.nodes[p]) ==> t.nodes[t.nodes[p].parent->0 as int].apparent
            >= t.nodes[p].apparent && t.nodes[t.nodes[p].parent->0 as int].disk >= t.nodes[p].disk,
        t.nodes[t.nodes[p].parent->0 as int].unscanned >= t.nodes[p].unscanned,
{
    let nodes = t.nodes;
    let q = nodes[p].parent->0 as int;
    let list = nodes[q].children;
    let at = choose|k: int| 0 <= k < list.len() && list[k] == p as usize;
    assert(live(nodes, q));
    assert(balanced(nodes, q));
    assert forall|k: int| 0 <= k < list.len() implies edit::apparent_share(nodes)(
        #[trigger] list[k] as int,
    ) >= 0 && edit::disk_share(nodes)(list[k] as int) >= 0 && unread_share(nodes)(
        list[k] as int,
    ) >= 0 by {
        assert(nodes[q].children[k] < nodes.len());
        assert(nodes[list[k] as int].apparent >= 0);
    }
    lemma_sum_list_member(list, edit::apparent_share(nodes), at);
    lemma_sum_list_member(list, edit::disk_share(nodes), at);
    lemma_sum_list_member(list, unread_share(nodes), at);
}

/// The sizes of what an entry is counted in are at least the entry's.
pub proof fn lemma_charged_covers(t: TreeView, c: int, p: int)
    requires
        consistent(t),
        live(t.nodes, p),
        tree::charged(t.nodes, c, p),
    ensures
        t.nodes[c].apparent >= t.nodes[p].apparent,
        t.nodes[c].disk >= t.nodes[p].disk,
    decreases p,
{
    if c != p {
        lemma_parent_covers(t, p);
        lemma_charged_covers(t, c, t.nodes[p].parent->0 as int);
    }
}

/// The unread counts of what is above an entry are at least the entry's.
pub proof fn lemma_above_covers(t: TreeView, c: int, p: int)
    requires
        consistent(t),
        live(t.nodes, p),
        tree::above(t.nodes, c, p),
    ensures
        t.nodes[c].unscanned >= t.nodes[p].unscanned,
    decreases p,
{
    if c != p {
        lemma_parent_covers(t, p);
        lemma_above_covers(t, c, t.nodes[p].parent->0 as int);
    }
}

/// The aggregates above `p` change by just what the shift says: nothing runs into zero.
pub open spec fn exact_shift(nodes: Seq<NodeView>, p: int, s: ShiftView) -> bool {
    &&& forall|c: int|
        0 <= c < nodes.len() && #[trigger] tree::charged(nodes, c, p) ==> {
            &&& nodes[c].apparent + s.add_apparent - s.sub_apparent >= 0
            &&& nodes[c].disk + s.add_disk - s.sub_disk >= 0
        }
    &&& forall|c: int|
        0 <= c < nodes.len() && #[trigger] tree::above(nodes, c, p) ==> nodes[c].unscanned - s.read
            >= 0
}

/// A shift along the way up changes what the children do not account for at its start alone.
pub proof fn lemma_lift_slack(nodes: Seq<NodeView>, p: int, s: ShiftView, i: int)
    requires
        tree::well_linked(nodes),
        nodes.len() <= usize::MAX,
        live(nodes, p),
        live(nodes, i),
        exact_shift(nodes, p, s),
    ensures
        ({
            let up = tree::lifted(nodes, p, s);
            let at = if i == p {
                1int
            } else {
                0
            };
            &&& apparent_slack(up, i) == apparent_slack(nodes, i) + at * (s.add_apparent
                - s.sub_apparent)
            &&& disk_slack(up, i) == disk_slack(nodes, i) + at * (s.add_disk - s.sub_disk)
            &&& unread_slack(up, i) == unread_slack(nodes, i) + at * (s.found - s.read)
        }),
{
    let up = tree::lifted(nodes, p, s);
    let list = nodes[i].children;
    // What reaches the children of `i` reaches `i` too, if it reaches any of them.
    let charged = tree::charged(nodes, i, p);
    let da = if charged {
        s.add_apparent - s.sub_apparent
    } else {
        0
    };
    let dd = if charged {
        s.add_disk - s.sub_disk
    } else {
        0
    };
    let du = s.found - s.read;
    assert(up[i].children == list);
    assert forall|c: int| 0 <= c < nodes.len() implies (#[trigger] tree::above(nodes, c, p)
        <==> below::under(nodes, p, c)) by {
        if tree::above(nodes, c, p) {
            lemma_above_live(nodes, c, p);
        }
        if below::under(nodes, p, c) {
            lemma_under_above(nodes, p, c);
        }
    }
    assert forall|k: int| 0 <= k < list.len() implies ({
        let c = #[trigger] list[k] as int;
        let on = if below::under(nodes, p, c) {
            1int
        } else {
            0
        };
        &&& edit::apparent_share(up)(c) == edit::apparent_share(nodes)(c) + on * da
        &&& edit::disk_share(up)(c) == edit::disk_share(nodes)(c) + on * dd
        &&& unread_share(up)(c) == unread_share(nodes)(c) + on * du
    }) by {
        let c = list[k] as int;
        assert(nodes[i].children[k] < nodes.len());
        assert(nodes[c].parent == Some(i as usize));
        assert(tree::above(nodes, c, p) <==> below::under(nodes, p, c));
        tree::lemma_charged_above(nodes, c, p);
        if tree::above(nodes, c, p) {
            tree::lemma_charged_step(nodes, c, p);
        }
    }
    lemma_sum_list_shift(
        nodes,
        list,
        edit::apparent_share(nodes),
        edit::apparent_share(up),
        p,
        da,
    );
    lemma_sum_list_shift(nodes, list, edit::disk_share(nodes), edit::disk_share(up), p, dd);
    lemma_sum_list_shift(nodes, list, unread_share(nodes), unread_share(up), p, du);
    below::lemma_home(nodes, p, i);
    assert(tree::above(nodes, i, p) <==> below::under(nodes, p, i));
    tree::lemma_charged_above(nodes, i, p);
    assert(below::under(nodes, p, p));
    if i == p {
        assert(below::homes(nodes, p, list) == 0);
    }
    assert(da * 0 == 0 && dd * 0 == 0 && du * 0 == 0);
    assert(da * 1 == da && dd * 1 == dd && du * 1 == du);
}

} // verus!
