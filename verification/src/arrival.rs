//! In whatever order batches arrive, the same comes of them, but for the numbers of the entries.
use vstd::prelude::*;

use crate::below;
use crate::edit;
use crate::model::{Excluded, NodeKind};
use crate::order;
use crate::scan;
use crate::scan::{FoundView, LedgerView, OptsView};
use crate::totals;
use crate::tree;
use crate::tree::{BatchView, EntryView, NodeView, TaskView, TreeView};
use crate::upkeep;

verus! {

// ---- What is to be seen of an entry -----------------------------------------------------------

/// Where an entry lies, whether it is the directory that is looked at or hangs below it, and whether it is
/// counted there.
#[verifier::ext_equal]
pub struct SpotView {
    pub path: Seq<char>,
    pub inside: bool,
    pub counted: bool,
}

/// What is to be seen of an entry, its number aside.
#[verifier::ext_equal]
pub struct SeenView {
    pub spot: SpotView,
    pub kind: NodeKind,
    pub dev: u64,
    pub ino: u64,
    pub hlink: bool,
    pub shared: bool,
    pub excluded: Excluded,
    pub scanned: bool,
    pub read_error: bool,
    pub own_apparent: int,
    pub own_disk: int,
}

/// The directory that is looked at is known: the root always is, and one with an id once that came.
pub open spec fn is_known(t: TreeView, x: Option<u64>) -> bool {
    x is Some ==> t.dirs.contains_key(x->0)
}

/// The directory that is looked at.
pub open spec fn looked_at(t: TreeView, x: Option<u64>) -> int {
    match x {
        Some(id) => t.dirs[id] as int,
        None => 0,
    }
}

pub open spec fn spot(t: TreeView, x: Option<u64>, j: int) -> SpotView {
    SpotView {
        path: edit::path(t.nodes, j),
        inside: is_known(t, x) && below::under(t.nodes, j, looked_at(t, x)),
        counted: is_known(t, x) && totals::counted_under(t.nodes, j, looked_at(t, x)),
    }
}

/// Where a found entry comes to lie, in a directory at `home`.
pub open spec fn spot_of(home: SpotView, x: Option<u64>, e: EntryView) -> SpotView {
    SpotView {
        path: edit::joined_path(home.path, e.name),
        inside: (e.dir_id is Some && e.dir_id == x) || home.inside,
        counted: (e.dir_id is Some && e.dir_id == x) || (home.counted && tree::entry_counts(e)),
    }
}

pub open spec fn seen(t: TreeView, x: Option<u64>, j: int) -> SeenView {
    SeenView {
        spot: spot(t, x, j),
        kind: t.nodes[j].kind,
        dev: t.nodes[j].dev,
        ino: t.nodes[j].ino,
        hlink: t.nodes[j].hlink,
        shared: t.nodes[j].shared,
        excluded: t.nodes[j].excluded,
        scanned: t.nodes[j].scanned,
        read_error: t.nodes[j].read_error,
        own_apparent: edit::own_apparent(t.nodes, j),
        own_disk: edit::own_disk(t.nodes, j),
    }
}

pub open spec fn seen_of(home: SpotView, x: Option<u64>, e: EntryView) -> SeenView {
    SeenView {
        spot: spot_of(home, x, e),
        kind: e.kind,
        dev: e.dev,
        ino: e.ino,
        hlink: e.hlink,
        shared: e.shared,
        excluded: e.excluded,
        scanned: false,
        read_error: e.read_error,
        own_apparent: e.apparent,
        own_disk: e.disk,
    }
}

/// A directory after it was read.
spec fn read_of(v: SeenView, failed: bool) -> SeenView {
    SeenView { scanned: true, read_error: v.read_error || failed, ..v }
}

pub open spec fn each_seen(t: TreeView, x: Option<u64>, g: spec_fn(SeenView) -> int) -> spec_fn(
    int,
) -> int {
    |j: int| g(seen(t, x, j))
}

/// The sum of `g` over all that can be reached, each entry taken for what is to be seen of it.
pub open spec fn tally(t: TreeView, x: Option<u64>, g: spec_fn(SeenView) -> int) -> int {
    below::sum_under(t.nodes, 0, each_seen(t, x, g))
}

/// 1 for an entry that will be reported on under this id.
pub open spec fn each_time(b: BatchView, x: Option<u64>) -> spec_fn(int) -> int {
    |k: int|
        if b.nodes[k].dir_id is Some && b.nodes[k].dir_id == x {
            1int
        } else {
            0
        }
}

/// How many directories with this id the batch brings.
pub open spec fn times(b: BatchView, x: Option<u64>) -> int {
    below::sum_range(each_time(b, x), b.nodes.len() as int)
}

/// What a batch adds to a tally: its entries, and that its directory was read.
spec fn weight(home: SeenView, x: Option<u64>, g: spec_fn(SeenView) -> int, b: BatchView) -> int {
    below::sum_range(|k: int| g(seen_of(home.spot, x, b.nodes[k])), b.nodes.len() as int) + g(
        read_of(home, b.failed),
    ) - g(home)
}

proof fn lemma_times(b: BatchView, x: Option<u64>, n: int, k: int)
    requires
        0 <= n <= b.nodes.len(),
    ensures
        0 <= below::sum_range(each_time(b, x), n),
        0 <= k < n && b.nodes[k].dir_id is Some && b.nodes[k].dir_id == x ==> 1
            <= below::sum_range(each_time(b, x), n),
    decreases n,
{
    if n > 0 {
        lemma_times(b, x, n - 1, k);
    }
}

proof fn lemma_times_twice(b: BatchView, x: Option<u64>, n: int, k: int, m: int)
    requires
        0 <= k < m < n <= b.nodes.len(),
        b.nodes[k].dir_id is Some && b.nodes[k].dir_id == x,
        b.nodes[m].dir_id is Some && b.nodes[m].dir_id == x,
    ensures
        2 <= below::sum_range(each_time(b, x), n),
    decreases n,
{
    if m == n - 1 {
        lemma_times(b, x, n - 1, k);
    } else {
        lemma_times_twice(b, x, n - 1, k, m);
    }
}

proof fn lemma_times_some(b: BatchView, x: Option<u64>, n: int) -> (k: int)
    requires
        0 <= n <= b.nodes.len(),
        1 <= below::sum_range(each_time(b, x), n),
    ensures
        0 <= k < n,
        b.nodes[k].dir_id is Some,
        b.nodes[k].dir_id == x,
    decreases n,
{
    if b.nodes[n - 1].dir_id is Some && b.nodes[n - 1].dir_id == x {
        n - 1
    } else {
        lemma_times_some(b, x, n - 1)
    }
}

/// Entries that are brought at most once under an id are the same.
proof fn lemma_times_once(b: BatchView, x: Option<u64>, k: int, m: int)
    requires
        0 <= k < b.nodes.len(),
        0 <= m < b.nodes.len(),
        b.nodes[k].dir_id is Some && b.nodes[k].dir_id == x,
        b.nodes[m].dir_id is Some && b.nodes[m].dir_id == x,
        times(b, x) <= 1,
    ensures
        k == m,
{
    if k < m {
        lemma_times_twice(b, x, b.nodes.len() as int, k, m);
    } else if m < k {
        lemma_times_twice(b, x, b.nodes.len() as int, m, k);
    }
}

// ---- One batch --------------------------------------------------------------------------------

proof fn lemma_path_kept(nodes: Seq<NodeView>, after: Seq<NodeView>, i: int)
    requires
        tree::well_linked(nodes),
        upkeep::live_kept(nodes, after),
        0 <= i < nodes.len(),
    ensures
        edit::path(after, i) == edit::path(nodes, i),
    decreases i,
{
    assert(totals::live(after, i) == totals::live(nodes, i));
    if i > 0 {
        lemma_path_kept(nodes, after, nodes[i].parent->0 as int);
    }
}

/// Nothing older is counted in an entry.
proof fn lemma_counted_bound(nodes: Seq<NodeView>, j: int, i: int)
    requires
        totals::counted_under(nodes, j, i),
    ensures
        i <= j,
    decreases j,
{
    if j != i {
        if nodes[j].parent->0 < j && j >= 0 {
            lemma_counted_bound(nodes, nodes[j].parent->0 as int, i);
        }
    }
}

/// What is counted somewhere hangs there.
proof fn lemma_counted_hangs(nodes: Seq<NodeView>, j: int, i: int)
    requires
        totals::counted_under(nodes, j, i),
    ensures
        below::under(nodes, j, i),
    decreases j,
{
    if j != i && j >= 0 {
        lemma_counted_hangs(nodes, nodes[j].parent->0 as int, i);
    }
}

/// Where entries keep their parents and standing, they hang and are counted where they were.
proof fn lemma_hangs_kept(nodes: Seq<NodeView>, after: Seq<NodeView>, j: int, i: int)
    requires
        tree::well_linked(nodes),
        0 <= j < nodes.len() <= after.len(),
        forall|y: int|
            0 <= y < nodes.len() ==> {
                &&& (#[trigger] after[y]).parent == nodes[y].parent
                &&& tree::counts(after[y]) == tree::counts(nodes[y])
                &&& tree::listed(after, y) == tree::listed(nodes, y)
            },
    ensures
        below::under(after, j, i) == below::under(nodes, j, i),
        totals::counted_under(after, j, i) == totals::counted_under(nodes, j, i),
    decreases j,
{
    assert(after[j].parent == nodes[j].parent);
    if j > 0 {
        lemma_hangs_kept(nodes, after, nodes[j].parent->0 as int, i);
    }
}

/// What a batch leaves as it was, of the entries that were there, and what it makes of its own.
proof fn lemma_grafted_fields(t: TreeView, p: int, b: BatchView)
    requires
        totals::consistent(t),
        upkeep::good_home(t.nodes, p),
        upkeep::valid_batch(b),
        tree::fits(tree::grafted(t, p, b).nodes),
    ensures
        ({
            let nodes = t.nodes;
            let after = tree::grafted(t, p, b).nodes;
            &&& after.len() == nodes.len() + b.nodes.len()
            &&& forall|y: int|
                0 <= y < nodes.len() ==> {
                    &&& (#[trigger] after[y]).parent == nodes[y].parent
                    &&& tree::counts(after[y]) == tree::counts(nodes[y])
                    &&& tree::listed(after, y) == tree::listed(nodes, y)
                    &&& after[y].dev == nodes[y].dev
                    &&& after[y].ino == nodes[y].ino
                    &&& after[y].hlink == nodes[y].hlink
                    &&& after[y].scanned == (nodes[y].scanned || y == p)
                    &&& after[y].read_error == (nodes[y].read_error || (y == p && b.failed))
                }
            &&& forall|k: int|
                0 <= k < b.nodes.len() ==> {
                    &&& after[nodes.len() + k] == tree::entry_node(#[trigger] b.nodes[k], p as usize)
                    &&& tree::listed(after, nodes.len() + k)
                }
        }),
{
    let nodes = t.nodes;
    let after = tree::grafted(t, p, b).nodes;
    let now = upkeep::marked(nodes, p, b);
    upkeep::lemma_marked_same(nodes, p, b);
    assert(after == tree::with_entries(now, p, b.nodes));
    assert forall|y: int| 0 <= y < nodes.len() implies {
        &&& (#[trigger] after[y]).parent == nodes[y].parent
        &&& tree::counts(after[y]) == tree::counts(nodes[y])
        &&& tree::listed(after, y) == tree::listed(nodes, y)
        &&& after[y].dev == nodes[y].dev
        &&& after[y].ino == nodes[y].ino
        &&& after[y].hlink == nodes[y].hlink
        &&& after[y].scanned == (nodes[y].scanned || y == p)
        &&& after[y].read_error == (nodes[y].read_error || (y == p && b.failed))
    } by {
        assert(now[y].parent == nodes[y].parent);
        assert(nodes[y].parent == now[y].parent);
        upkeep::lemma_entries_listed(now, p, b.nodes, y);
    }
    assert forall|k: int| 0 <= k < b.nodes.len() implies {
        &&& after[nodes.len() + k] == tree::entry_node(#[trigger] b.nodes[k], p as usize)
        &&& tree::listed(after, nodes.len() + k)
    } by {
        upkeep::lemma_entries_listed(now, p, b.nodes, nodes.len() + k);
    }
}

/// Whether the directory that is looked at becomes known by a batch, and where.
proof fn lemma_looked_at(t: TreeView, p: int, b: BatchView, x: Option<u64>)
    requires
        t.nodes.len() + b.nodes.len() <= usize::MAX,
        x is Some && is_known(t, x) ==> times(b, x) == 0,
    ensures
        is_known(t, x) ==> is_known(tree::grafted(t, p, b), x) && looked_at(
            tree::grafted(t, p, b),
            x,
        ) == looked_at(t, x),
        !is_known(t, x) ==> is_known(tree::grafted(t, p, b), x) == (times(b, x) >= 1),
        !is_known(t, x) && is_known(tree::grafted(t, p, b), x) ==> {
            let at = looked_at(tree::grafted(t, p, b), x) - t.nodes.len();
            0 <= at < b.nodes.len() && b.nodes[at].dir_id == x
        },
{
    let next = tree::grafted(t, p, b);
    let n = b.nodes.len() as int;
    if x is Some {
        let id = x->0;
        tree::lemma_registered(t.dirs, b.nodes, t.nodes.len() as int);
        if is_known(t, x) {
            assert(next.dirs.contains_key(id));
            let at = next.dirs[id] - t.nodes.len();
            if 0 <= at < n && b.nodes[at].dir_id == x {
                lemma_times(b, x, n, at);
            }
        } else if times(b, x) >= 1 {
            let k = lemma_times_some(b, x, n);
            order::lemma_dir_id_listed(b.nodes, k);
            let ids = tree::dir_ids(b.nodes);
            let m = choose|m: int| 0 <= m < ids.len() && ids[m] == id;
            assert(next.dirs.contains_key(ids[m]));
        } else if next.dirs.contains_key(id) {
            let at = next.dirs[id] - t.nodes.len();
            lemma_times(b, x, n, at);
        }
    }
}

/// A batch does not move an entry that was there.
proof fn lemma_spot_stays(t: TreeView, p: int, b: BatchView, x: Option<u64>, j: int)
    requires
        totals::consistent(t),
        upkeep::good_home(t.nodes, p),
        upkeep::valid_batch(b),
        tree::fits(tree::grafted(t, p, b).nodes),
        x is Some && is_known(t, x) ==> times(b, x) == 0,
        0 <= j < t.nodes.len(),
    ensures
        spot(tree::grafted(t, p, b), x, j) == spot(t, x, j),
{
    let nodes = t.nodes;
    let next = tree::grafted(t, p, b);
    let after = next.nodes;
    lemma_grafted_fields(t, p, b);
    lemma_looked_at(t, p, b, x);
    upkeep::lemma_grafted_live(t, p, b);
    lemma_path_kept(nodes, after, j);
    if is_known(next, x) {
        let d = looked_at(next, x);
        lemma_hangs_kept(nodes, after, j, d);
        if !is_known(t, x) {
            if below::under(after, j, d) {
                below::lemma_under_bound(after, j, d);
            }
            if totals::counted_under(after, j, d) {
                lemma_counted_bound(after, j, d);
            }
        }
    }
}

/// The entries of a batch come to lie in its directory.
proof fn lemma_spot_comes(t: TreeView, p: int, b: BatchView, x: Option<u64>, k: int)
    requires
        totals::consistent(t),
        upkeep::good_home(t.nodes, p),
        upkeep::valid_batch(b),
        tree::fits(tree::grafted(t, p, b).nodes),
        x is Some && is_known(t, x) ==> times(b, x) == 0,
        is_known(t, x) ==> looked_at(t, x) < t.nodes.len(),
        times(b, x) <= 1,
        0 <= k < b.nodes.len(),
    ensures
        spot(tree::grafted(t, p, b), x, t.nodes.len() + k) == spot_of(
            spot(t, x, p),
            x,
            b.nodes[k],
        ),
{
    let nodes = t.nodes;
    let next = tree::grafted(t, p, b);
    let after = next.nodes;
    let e = b.nodes[k];
    let at = nodes.len() + k;
    lemma_grafted_fields(t, p, b);
    lemma_looked_at(t, p, b, x);
    lemma_spot_stays(t, p, b, x, p);
    assert(after[at] == tree::entry_node(e, p as usize));
    assert(edit::path(after, at) == edit::joined_path(edit::path(after, p), e.name));
    if e.dir_id is Some && e.dir_id == x {
        lemma_times(b, x, b.nodes.len() as int, k);
        let m = looked_at(next, x) - nodes.len();
        lemma_times_once(b, x, k, m);
    }
}

/// A batch moves nothing that was there, and its entries come to lie in its directory.
proof fn lemma_spots(t: TreeView, p: int, b: BatchView, x: Option<u64>)
    requires
        totals::consistent(t),
        upkeep::good_home(t.nodes, p),
        upkeep::valid_batch(b),
        tree::fits(tree::grafted(t, p, b).nodes),
        x is Some && is_known(t, x) ==> times(b, x) == 0,
        is_known(t, x) ==> looked_at(t, x) < t.nodes.len(),
        times(b, x) <= 1,
    ensures
        forall|j: int|
            0 <= j < t.nodes.len() ==> #[trigger] spot(tree::grafted(t, p, b), x, j) == spot(
                t,
                x,
                j,
            ),
        forall|k: int|
            0 <= k < b.nodes.len() ==> spot(tree::grafted(t, p, b), x, t.nodes.len() + k)
                == spot_of(spot(t, x, p), x, #[trigger] b.nodes[k]),
{
    let next = tree::grafted(t, p, b);
    assert forall|j: int| 0 <= j < t.nodes.len() implies #[trigger] spot(next, x, j) == spot(
        t,
        x,
        j,
    ) by {
        lemma_spot_stays(t, p, b, x, j);
    }
    assert forall|k: int| 0 <= k < b.nodes.len() implies spot(next, x, t.nodes.len() + k)
        == spot_of(spot(t, x, p), x, #[trigger] b.nodes[k]) by {
        lemma_spot_comes(t, p, b, x, k);
    }
}

proof fn lemma_sum_behind(
    f: spec_fn(int) -> int,
    h: spec_fn(int) -> int,
    n: int,
    m: int,
)
    requires
        0 <= n,
        0 <= m,
        forall|k: int| 0 <= k < m ==> #[trigger] h(k) == f(n + k),
    ensures
        below::sum_range(f, n + m) == below::sum_range(f, n) + below::sum_range(h, m),
    decreases m,
{
    if m > 0 {
        lemma_sum_behind(f, h, n, m - 1);
        assert(h(m - 1) == f(n + (m - 1)));
    }
}

/// What a batch makes of all that is to be seen: its directory was read, its entries are as they were
/// found, and nothing else changes.
proof fn lemma_graft_seen(t: TreeView, p: int, b: BatchView, x: Option<u64>)
    requires
        totals::consistent(t),
        upkeep::good_home(t.nodes, p),
        upkeep::valid_batch(b),
        tree::fits(tree::grafted(t, p, b).nodes),
        x is Some && is_known(t, x) ==> times(b, x) == 0,
        is_known(t, x) ==> looked_at(t, x) < t.nodes.len(),
        times(b, x) <= 1,
    ensures
        forall|j: int|
            0 <= j < t.nodes.len() && j != p && totals::live(t.nodes, j) ==> #[trigger] seen(
                tree::grafted(t, p, b),
                x,
                j,
            ) == seen(t, x, j),
        seen(tree::grafted(t, p, b), x, p) == read_of(seen(t, x, p), b.failed),
        forall|k: int|
            0 <= k < b.nodes.len() ==> seen(tree::grafted(t, p, b), x, t.nodes.len() + k)
                == seen_of(spot(t, x, p), x, #[trigger] b.nodes[k]),
{
    let nodes = t.nodes;
    let next = tree::grafted(t, p, b);
    let after = next.nodes;
    let n = nodes.len() as int;
    lemma_spots(t, p, b, x);
    lemma_grafted_fields(t, p, b);
    upkeep::lemma_grafted_live(t, p, b);
    upkeep::law_batch_keeps_totals(t, p, b);
    assert forall|j: int| 0 <= j < n && totals::live(nodes, j) implies #[trigger] seen(next, x, j)
        == if j == p {
        read_of(seen(t, x, j), b.failed)
    } else {
        seen(t, x, j)
    } by {
        assert(totals::live(after, j) == totals::live(nodes, j));
        assert(after[j].dev == nodes[j].dev);
        assert(spot(next, x, j) == spot(t, x, j));
    }
    assert(seen(next, x, p) == read_of(seen(t, x, p), b.failed));
    assert forall|k: int| 0 <= k < b.nodes.len() implies seen(next, x, n + k) == seen_of(
        spot(t, x, p),
        x,
        #[trigger] b.nodes[k],
    ) by {
        assert(upkeep::is_as_found(after, n + k, b.nodes[k]));
        assert(after[n + k] == tree::entry_node(b.nodes[k], p as usize));
    }
}

/// A batch adds just what it holds to a tally.
proof fn lemma_graft_tally(
    t: TreeView,
    p: int,
    b: BatchView,
    x: Option<u64>,
    g: spec_fn(SeenView) -> int,
)
    requires
        totals::consistent(t),
        upkeep::good_home(t.nodes, p),
        upkeep::valid_batch(b),
        tree::fits(tree::grafted(t, p, b).nodes),
        x is Some && is_known(t, x) ==> times(b, x) == 0,
        is_known(t, x) ==> looked_at(t, x) < t.nodes.len(),
        times(b, x) <= 1,
    ensures
        tally(tree::grafted(t, p, b), x, g) == tally(t, x, g) + weight(seen(t, x, p), x, g, b),
{
    let nodes = t.nodes;
    let next = tree::grafted(t, p, b);
    let after = next.nodes;
    let n = nodes.len() as int;
    let m = b.nodes.len() as int;
    let home = seen(t, x, p);
    lemma_graft_seen(t, p, b, x);
    lemma_grafted_fields(t, p, b);
    upkeep::lemma_grafted_live(t, p, b);
    upkeep::law_batch_keeps_totals(t, p, b);
    let was = |j: int|
        if below::under(nodes, j, 0) {
            each_seen(t, x, g)(j)
        } else {
            0
        };
    let is = |j: int|
        if below::under(after, j, 0) {
            each_seen(next, x, g)(j)
        } else {
            0
        };
    let h = |k: int| g(seen_of(home.spot, x, b.nodes[k]));
    assert forall|j: int| 0 <= j < n && j != p implies #[trigger] was(j) == is(j) by {
        assert(totals::live(after, j) == totals::live(nodes, j));
        if totals::live(after, j) {
            assert(seen(next, x, j) == seen(t, x, j));
        }
    }
    assert(totals::live(after, p) == totals::live(nodes, p));
    assert(was(p) == g(home) && is(p) == g(read_of(home, b.failed)));
    below::lemma_sum_range_one(was, is, n, p);
    assert forall|k: int| 0 <= k < m implies #[trigger] h(k) == is(n + k) by {
        assert(upkeep::is_as_found(after, n + k, b.nodes[k]));
        assert(seen(next, x, n + k) == seen_of(home.spot, x, b.nodes[k]));
    }
    lemma_sum_behind(is, h, n, m);
}

// ---- Batches that wait ------------------------------------------------------------------------

/// The sum of `w` over batches.
pub open spec fn load(s: Seq<BatchView>, w: spec_fn(BatchView) -> int) -> int
    decreases s.len(),
{
    if s.len() == 0 {
        0
    } else {
        load(s.drop_last(), w) + w(s.last())
    }
}

spec fn task_load(work: Seq<TaskView>, w: spec_fn(BatchView) -> int) -> int
    decreases work.len(),
{
    if work.len() == 0 {
        0
    } else {
        task_load(work.drop_last(), w) + match work.last() {
            TaskView::Graft(_, b) => w(b),
            TaskView::Flush(_) => 0,
        }
    }
}

proof fn lemma_task_load_add(a: Seq<TaskView>, b: Seq<TaskView>, w: spec_fn(BatchView) -> int)
    ensures
        task_load(a + b, w) == task_load(a, w) + task_load(b, w),
    decreases b.len(),
{
    if b.len() == 0 {
        assert(a + b =~= a);
    } else {
        lemma_task_load_add(a, b.drop_last(), w);
        assert((a + b).drop_last() =~= a + b.drop_last());
    }
}

proof fn lemma_flush_load(ids: Seq<u64>, w: spec_fn(BatchView) -> int)
    ensures
        task_load(tree::flush_tasks(ids), w) == 0,
    decreases ids.len(),
{
    if ids.len() > 0 {
        lemma_flush_load(ids.drop_first(), w);
        assert(tree::flush_tasks(ids).drop_last() =~= tree::flush_tasks(ids.drop_first()));
    }
}

proof fn lemma_load_first(s: Seq<BatchView>, w: spec_fn(BatchView) -> int)
    requires
        s.len() > 0,
    ensures
        load(s, w) == w(s[0]) + load(s.drop_first(), w),
    decreases s.len(),
{
    if s.len() == 1 {
        assert(s.drop_last() =~= Seq::empty());
        assert(s.drop_first() =~= Seq::empty());
    } else {
        lemma_load_first(s.drop_last(), w);
        assert(s.drop_last().drop_first() =~= s.drop_first().drop_last());
        assert(s.drop_first().last() == s.last());
    }
}

proof fn lemma_waiting_load(p: usize, s: Seq<BatchView>, w: spec_fn(BatchView) -> int)
    ensures
        task_load(tree::waiting_tasks(p, s), w) == load(s, w),
    decreases s.len(),
{
    if s.len() > 0 {
        lemma_load_first(s, w);
        lemma_waiting_load(p, s.drop_first(), w);
        assert(tree::waiting_tasks(p, s).drop_last() =~= tree::waiting_tasks(p, s.drop_first()));
        assert(tree::waiting_tasks(p, s).last() == TaskView::Graft(p, s[0]));
    }
}

/// Those of the batches that are for the directory with this id.
spec fn meant_for(s: Seq<BatchView>, id: u64) -> Seq<BatchView>
    decreases s.len(),
{
    if s.len() == 0 {
        Seq::empty()
    } else if s.last().parent_id == id {
        meant_for(s.drop_last(), id).push(s.last())
    } else {
        meant_for(s.drop_last(), id)
    }
}

/// Those of the batches that are for another directory.
spec fn meant_elsewhere(s: Seq<BatchView>, id: u64) -> Seq<BatchView>
    decreases s.len(),
{
    if s.len() == 0 {
        Seq::empty()
    } else if s.last().parent_id == id {
        meant_elsewhere(s.drop_last(), id)
    } else {
        meant_elsewhere(s.drop_last(), id).push(s.last())
    }
}

proof fn lemma_meant_load(s: Seq<BatchView>, id: u64, w: spec_fn(BatchView) -> int)
    ensures
        load(s, w) == load(meant_for(s, id), w) + load(meant_elsewhere(s, id), w),
    decreases s.len(),
{
    if s.len() > 0 {
        lemma_meant_load(s.drop_last(), id, w);
        assert(meant_for(s.drop_last(), id).push(s.last()).drop_last() =~= meant_for(
            s.drop_last(),
            id,
        ));
        assert(meant_elsewhere(s.drop_last(), id).push(s.last()).drop_last() =~= meant_elsewhere(
            s.drop_last(),
            id,
        ));
    }
}

proof fn lemma_meant_twice(s: Seq<BatchView>, id: u64, i: u64)
    ensures
        meant_for(meant_elsewhere(s, id), i) == if i == id {
            Seq::empty()
        } else {
            meant_for(s, i)
        },
    decreases s.len(),
{
    if s.len() > 0 {
        lemma_meant_twice(s.drop_last(), id, i);
        let fewer = meant_elsewhere(s.drop_last(), id);
        assert(fewer.push(s.last()).drop_last() =~= fewer);
    }
}

proof fn lemma_meant_members(s: Seq<BatchView>, id: u64, c: BatchView)
    ensures
        meant_for(s, id).contains(c) <==> s.contains(c) && c.parent_id == id,
        meant_elsewhere(s, id).contains(c) <==> s.contains(c) && c.parent_id != id,
    decreases s.len(),
{
    if s.len() > 0 {
        let less = s.drop_last();
        lemma_meant_members(less, id, c);
        lemma_push_contains(less, s.last(), c);
        lemma_push_contains(meant_for(less, id), s.last(), c);
        lemma_push_contains(meant_elsewhere(less, id), s.last(), c);
        assert(less.push(s.last()) =~= s);
    }
}

proof fn lemma_push_contains(s: Seq<BatchView>, b: BatchView, c: BatchView)
    ensures
        s.push(b).contains(c) <==> s.contains(c) || b == c,
{
    if s.contains(c) {
        let k = choose|k: int| 0 <= k < s.len() && s[k] == c;
        assert(s.push(b)[k] == c);
    }
    if b == c {
        assert(s.push(b)[s.len() as int] == c);
    }
    if s.push(b).contains(c) && b != c {
        let k = choose|k: int| 0 <= k < s.push(b).len() && s.push(b)[k] == c;
        assert(s[k] == c);
    }
}

/// Just these batches wait, each for its directory, in the order in which they came.
spec fn wait(t: TreeView, s: Seq<BatchView>) -> bool {
    forall|id: u64|
        {
            &&& #[trigger] t.orphans.contains_key(id) == (meant_for(s, id).len() > 0)
            &&& t.orphans.contains_key(id) ==> t.orphans[id] == meant_for(s, id)
        }
}

/// When those for one directory are taken up, the others wait on.
proof fn lemma_wait_on(t: TreeView, s: Seq<BatchView>, id: u64)
    requires
        wait(t, s),
    ensures
        wait(TreeView { orphans: t.orphans.remove(id), ..t }, meant_elsewhere(s, id)),
{
    let next = TreeView { orphans: t.orphans.remove(id), ..t };
    let left = meant_elsewhere(s, id);
    assert forall|i: u64|
        {
            &&& #[trigger] next.orphans.contains_key(i) == (meant_for(left, i).len() > 0)
            &&& next.orphans.contains_key(i) ==> next.orphans[i] == meant_for(left, i)
        } by {
        lemma_meant_twice(s, id, i);
        assert(t.orphans.contains_key(i) == (meant_for(s, i).len() > 0));
    }
}

/// When one more has come, it waits behind the others for its directory.
proof fn lemma_wait_more(t: TreeView, s: Seq<BatchView>, b: BatchView)
    requires
        wait(t, s),
        !t.dirs.contains_key(b.parent_id),
    ensures
        wait(tree::applied(t, b).0, s.push(b)),
{
    let next = tree::applied(t, b).0;
    let more = s.push(b);
    assert(more.drop_last() =~= s);
    assert forall|i: u64|
        {
            &&& #[trigger] next.orphans.contains_key(i) == (meant_for(more, i).len() > 0)
            &&& next.orphans.contains_key(i) ==> next.orphans[i] == meant_for(more, i)
        } by {
        assert(t.orphans.contains_key(i) == (meant_for(s, i).len() > 0));
        if i == b.parent_id && !t.orphans.contains_key(i) {
            assert(meant_for(s, i) =~= Seq::empty());
        }
    }
}

// ---- Where every directory comes to lie -------------------------------------------------------

/// What is to come of batches: the directory that is looked at, what is to be seen of every directory
/// before it is read, and the directories that will be reported on.
struct PlanView {
    x: Option<u64>,
    place: Map<u64, SeenView>,
    due: Set<u64>,
}

/// Each directory that the batch brings is to be seen as it should.
spec fn follows(plan: PlanView, b: BatchView) -> bool {
    &&& upkeep::valid_batch(b)
    &&& plan.due.contains(b.parent_id)
    &&& forall|k: int|
        0 <= k < b.nodes.len() && (#[trigger] b.nodes[k]).dir_id is Some ==> {
            let id = b.nodes[k].dir_id->0;
            &&& plan.place.contains_key(id)
            &&& plan.place[id] == seen_of(plan.place[b.parent_id].spot, plan.x, b.nodes[k])
        }
}

spec fn all_follow(plan: PlanView, s: Seq<BatchView>) -> bool {
    forall|c: BatchView| #[trigger] s.contains(c) ==> follows(plan, c)
}

/// Every directory that is known lies where it should, and is as it was found if it was not read yet.
spec fn placed(t: TreeView, plan: PlanView, read: Set<u64>) -> bool {
    forall|id: u64| #[trigger]
        t.dirs.contains_key(id) ==> {
            let at = t.dirs[id] as int;
            &&& plan.place.contains_key(id)
            &&& spot(t, plan.x, at) == plan.place[id].spot
            &&& plan.due.contains(id) && !read.contains(id) ==> seen(t, plan.x, at)
                == plan.place[id]
        }
}

/// No two ids stand for one directory that will be reported on.
spec fn apart(t: TreeView, due: Set<u64>) -> bool {
    forall|y: u64, z: u64|
        y != z && t.dirs.contains_key(y) && t.dirs.contains_key(z) && due.contains(y)
            && due.contains(z) ==> #[trigger] t.dirs[y] != #[trigger] t.dirs[z]
}

spec fn placed_task(t: TreeView, plan: PlanView, task: TaskView) -> bool {
    match task {
        TaskView::Graft(p, b) => {
            &&& t.dirs.contains_key(b.parent_id)
            &&& t.dirs[b.parent_id] == p
            &&& follows(plan, b)
        },
        TaskView::Flush(_) => true,
    }
}

/// Every batch that is to be put in goes under its directory.
spec fn placed_work(t: TreeView, plan: PlanView, work: Seq<TaskView>) -> bool {
    forall|k: int| 0 <= k < work.len() ==> placed_task(t, plan, #[trigger] work[k])
}

spec fn weights(plan: PlanView, g: spec_fn(SeenView) -> int) -> spec_fn(BatchView) -> int {
    |b: BatchView| weight(plan.place[b.parent_id], plan.x, g, b)
}

pub open spec fn times_of(x: Option<u64>) -> spec_fn(BatchView) -> int {
    |b: BatchView| times(b, x)
}

/// 1 for a batch that is for the directory with this id.
pub open spec fn reports_on(y: u64) -> spec_fn(BatchView) -> int {
    |b: BatchView|
        if b.parent_id == y {
            1int
        } else {
            0
        }
}

/// 1 if there is a directory with this id.
pub open spec fn known_once(t: TreeView, y: u64) -> int {
    if t.dirs.contains_key(y) {
        1
    } else {
        0
    }
}

proof fn lemma_load_nonneg(s: Seq<BatchView>, x: Option<u64>, y: u64)
    ensures
        load(s, times_of(x)) >= 0,
        load(s, reports_on(y)) >= 0,
    decreases s.len(),
{
    if s.len() > 0 {
        lemma_load_nonneg(s.drop_last(), x, y);
        lemma_times(s.last(), x, s.last().nodes.len() as int, 0);
    }
}

proof fn lemma_task_load_nonneg(work: Seq<TaskView>, x: Option<u64>, y: u64)
    ensures
        task_load(work, times_of(x)) >= 0,
        task_load(work, reports_on(y)) >= 0,
    decreases work.len(),
{
    if work.len() > 0 {
        lemma_task_load_nonneg(work.drop_last(), x, y);
        if work.last() is Graft {
            let b = work.last()->Graft_1;
            lemma_times(b, x, b.nodes.len() as int, 0);
        }
    }
}

/// How often the id is, or will be, that of a directory.
spec fn given(t: TreeView, s: Seq<BatchView>, work: Seq<TaskView>, y: u64) -> int {
    known_once(t, y) + load(s, times_of(Some(y))) + task_load(work, times_of(Some(y)))
}

/// How often the directory with this id was, or will be, reported on.
spec fn told(read: Set<u64>, s: Seq<BatchView>, work: Seq<TaskView>, y: u64) -> int {
    load(s, reports_on(y)) + task_load(work, reports_on(y)) + if read.contains(y) {
        1int
    } else {
        0
    }
}

/// All directories that the batch brings are known.
spec fn brought(t: TreeView, b: BatchView) -> bool {
    forall|k: int|
        0 <= k < b.nodes.len() && (#[trigger] b.nodes[k]).dir_id is Some ==> t.dirs.contains_key(
            b.nodes[k].dir_id->0,
        )
}

spec fn in_work(work: Seq<TaskView>, b: BatchView) -> bool {
    exists|k: int| 0 <= k < work.len() && is_graft_of(#[trigger] work[k], b)
}

spec fn is_graft_of(task: TaskView, b: BatchView) -> bool {
    task matches TaskView::Graft(_, c) && c == b
}

/// The batch waits, is about to be put in, or has been.
spec fn accounted(t: TreeView, s: Seq<BatchView>, work: Seq<TaskView>, b: BatchView) -> bool {
    s.contains(b) || in_work(work, b) || brought(t, b)
}

/// Everything is in order while work is being done.
spec fn in_hand(
    t: TreeView,
    work: Seq<TaskView>,
    plan: PlanView,
    s: Seq<BatchView>,
    read: Set<u64>,
) -> bool {
    &&& totals::consistent(t)
    &&& upkeep::valid_waiting(t)
    &&& upkeep::good_index(t)
    &&& upkeep::sound_work(t, work)
    &&& wait(t, s)
    &&& all_follow(plan, s)
    &&& placed(t, plan, read)
    &&& apart(t, plan.due)
    &&& placed_work(t, plan, work)
    &&& forall|y: u64| #[trigger] given(t, s, work, y) <= 1
    &&& forall|y: u64| #[trigger] told(read, s, work, y) <= 1
}

/// Nothing that is about to be brought is known, and nothing that is about to be reported on was read.
proof fn lemma_due(
    t: TreeView,
    work: Seq<TaskView>,
    s: Seq<BatchView>,
    read: Set<u64>,
    y: u64,
)
    requires
        work.len() > 0,
        work.last() is Graft,
        given(t, s, work, y) <= 1,
        told(read, s, work, y) <= 1,
    ensures
        known_once(t, y) + times(work.last()->Graft_1, Some(y)) <= 1,
        0 <= times(work.last()->Graft_1, Some(y)),
        work.last()->Graft_1.parent_id == y ==> !read.contains(y),
{
    let b = work.last()->Graft_1;
    lemma_load_nonneg(s, Some(y), y);
    lemma_task_load_nonneg(work.drop_last(), Some(y), y);
    lemma_times(b, Some(y), b.nodes.len() as int, 0);
}

proof fn lemma_no_times(b: BatchView)
    ensures
        times(b, None) == 0,
{
    below::lemma_sum_range_zero(each_time(b, None), b.nodes.len() as int);
}

/// Putting in one batch leaves the known directories where they are, and the others get numbers of their
/// own.
proof fn lemma_graft_apart(
    t: TreeView,
    work: Seq<TaskView>,
    plan: PlanView,
    s: Seq<BatchView>,
    read: Set<u64>,
)
    requires
        in_hand(t, work, plan, s, read),
        work.len() > 0,
        work.last() matches TaskView::Graft(p, b) && tree::fits(
            tree::grafted(t, p as int, b).nodes,
        ),
    ensures
        ({
            let p = work.last()->Graft_0;
            let b = work.last()->Graft_1;
            let next = tree::grafted(t, p as int, b);
            &&& forall|id: u64| #[trigger]
                t.dirs.contains_key(id) ==> next.dirs.contains_key(id) && next.dirs[id]
                    == t.dirs[id]
            &&& forall|id: u64| #[trigger]
                next.dirs.contains_key(id) && !t.dirs.contains_key(id) ==> {
                    let at = next.dirs[id] - t.nodes.len();
                    0 <= at < b.nodes.len() && b.nodes[at].dir_id == Some(id)
                }
            &&& apart(next, plan.due)
            &&& brought(next, b)
            &&& forall|y: u64|
                known_once(next, y) <= known_once(t, y) + #[trigger] times(b, Some(y))
        }),
{
    let p = work.last()->Graft_0;
    let b = work.last()->Graft_1;
    let next = tree::grafted(t, p as int, b);
    let n = t.nodes.len() as int;
    assert(next.nodes.len() == n + b.nodes.len());
    tree::lemma_registered(t.dirs, b.nodes, n);
    assert forall|id: u64| #[trigger] t.dirs.contains_key(id) implies next.dirs.contains_key(id)
        && next.dirs[id] == t.dirs[id] by {
        assert(given(t, s, work, id) <= 1);
        lemma_due(t, work, s, read, id);
        lemma_looked_at(t, p as int, b, Some(id));
    }
    assert forall|id: u64| #[trigger] next.dirs.contains_key(id) && !t.dirs.contains_key(
        id,
    ) implies {
        let at = next.dirs[id] - t.nodes.len();
        0 <= at < b.nodes.len() && b.nodes[at].dir_id == Some(id)
    } by {
        lemma_looked_at(t, p as int, b, Some(id));
    }
    assert forall|y: u64, z: u64|
        y != z && next.dirs.contains_key(y) && next.dirs.contains_key(z) && plan.due.contains(y)
            && plan.due.contains(z) implies #[trigger] next.dirs[y] != #[trigger] next.dirs[z] by {
        if t.dirs.contains_key(y) {
            assert(next.dirs[y] == t.dirs[y]);
        }
        if t.dirs.contains_key(z) {
            assert(next.dirs[z] == t.dirs[z]);
        }
    }
    assert forall|k: int|
        0 <= k < b.nodes.len() && (
        #[trigger] b.nodes[k]).dir_id is Some implies next.dirs.contains_key(
        b.nodes[k].dir_id->0,
    ) by {
        let ids = tree::dir_ids(b.nodes);
        order::lemma_dir_id_listed(b.nodes, k);
        let m = choose|m: int| 0 <= m < ids.len() && ids[m] == b.nodes[k].dir_id->0;
        assert(next.dirs.contains_key(ids[m]));
    }
    assert forall|y: u64| known_once(next, y) <= known_once(t, y) + #[trigger] times(
        b,
        Some(y),
    ) by {
        lemma_times(b, Some(y), b.nodes.len() as int, 0);
        if !t.dirs.contains_key(y) {
            lemma_looked_at(t, p as int, b, Some(y));
        }
    }
}

/// A batch that is about to be put in finds its directory as it was found, and does not bring again what is
/// known.
proof fn lemma_graft_ready(
    t: TreeView,
    work: Seq<TaskView>,
    plan: PlanView,
    s: Seq<BatchView>,
    read: Set<u64>,
)
    requires
        in_hand(t, work, plan, s, read),
        work.len() > 0,
        work.last() is Graft,
    ensures
        ({
            let p = work.last()->Graft_0;
            let b = work.last()->Graft_1;
            let x = plan.x;
            &&& upkeep::good_home(t.nodes, p as int)
            &&& upkeep::valid_batch(b)
            &&& x is Some && is_known(t, x) ==> times(b, x) == 0
            &&& is_known(t, x) ==> looked_at(t, x) < t.nodes.len()
            &&& times(b, x) <= 1
            &&& t.dirs.contains_key(b.parent_id)
            &&& t.dirs[b.parent_id] == p
            &&& plan.due.contains(b.parent_id)
            &&& seen(t, x, p as int) == plan.place[b.parent_id]
        }),
{
    let b = work.last()->Graft_1;
    let x = plan.x;
    assert(work[work.len() - 1] == work.last());
    assert(upkeep::sound_task(t, work.last()));
    assert(placed_task(t, plan, work.last()));
    if x is Some {
        assert(given(t, s, work, x->0) <= 1);
        assert(told(read, s, work, x->0) <= 1);
        lemma_due(t, work, s, read, x->0);
    } else {
        lemma_no_times(b);
    }
    assert(given(t, s, work, b.parent_id) <= 1);
    assert(told(read, s, work, b.parent_id) <= 1);
    lemma_due(t, work, s, read, b.parent_id);
}

/// Putting in one batch keeps a directory as it should be.
proof fn lemma_graft_places(
    t: TreeView,
    work: Seq<TaskView>,
    plan: PlanView,
    s: Seq<BatchView>,
    read: Set<u64>,
    id: u64,
)
    requires
        in_hand(t, work, plan, s, read),
        work.len() > 0,
        work.last() matches TaskView::Graft(p, b) && {
            &&& tree::fits(tree::grafted(t, p as int, b).nodes)
            &&& tree::grafted(t, p as int, b).dirs.contains_key(id)
        },
    ensures
        ({
            let p = work.last()->Graft_0;
            let b = work.last()->Graft_1;
            let next = tree::grafted(t, p as int, b);
            let at = next.dirs[id] as int;
            &&& plan.place.contains_key(id)
            &&& spot(next, plan.x, at) == plan.place[id].spot
            &&& plan.due.contains(id) && !read.insert(b.parent_id).contains(id) ==> seen(
                next,
                plan.x,
                at,
            ) == plan.place[id]
        }),
{
    let p = work.last()->Graft_0;
    let b = work.last()->Graft_1;
    let x = plan.x;
    let next = tree::grafted(t, p as int, b);
    let n = t.nodes.len() as int;
    let at = next.dirs[id] as int;
    lemma_graft_ready(t, work, plan, s, read);
    lemma_graft_apart(t, work, plan, s, read);
    lemma_graft_seen(t, p as int, b, x);
    if t.dirs.contains_key(id) {
        assert(next.dirs[id] == t.dirs[id]);
        assert(upkeep::good_home(t.nodes, at));
        lemma_spot_stays(t, p as int, b, x, at);
        if plan.due.contains(id) && !read.insert(b.parent_id).contains(id) {
            assert(t.dirs[id] != t.dirs[b.parent_id]);
            assert(seen(next, x, at) == seen(t, x, at));
        }
    } else {
        assert(work[work.len() - 1] == work.last());
        assert(placed_task(t, plan, work.last()));
        assert(b.nodes[at - n].dir_id == Some(id));
        assert(seen(next, x, n + (at - n)) == seen_of(spot(t, x, p as int), x, b.nodes[at - n]));
    }
}

/// Putting in one batch keeps every directory as it should be, and adds what it holds to a tally.
proof fn lemma_graft_placed(
    t: TreeView,
    work: Seq<TaskView>,
    plan: PlanView,
    s: Seq<BatchView>,
    read: Set<u64>,
    g: spec_fn(SeenView) -> int,
)
    requires
        in_hand(t, work, plan, s, read),
        work.len() > 0,
        work.last() matches TaskView::Graft(p, b) && tree::fits(
            tree::grafted(t, p as int, b).nodes,
        ),
    ensures
        ({
            let p = work.last()->Graft_0;
            let b = work.last()->Graft_1;
            let next = tree::grafted(t, p as int, b);
            &&& placed(next, plan, read.insert(b.parent_id))
            &&& tally(next, plan.x, g) == tally(t, plan.x, g) + weights(plan, g)(b)
        }),
{
    let p = work.last()->Graft_0;
    let b = work.last()->Graft_1;
    let x = plan.x;
    let next = tree::grafted(t, p as int, b);
    let now = read.insert(b.parent_id);
    assert(tally(next, x, g) == tally(t, x, g) + weights(plan, g)(b)) by {
        lemma_graft_ready(t, work, plan, s, read);
        lemma_graft_tally(t, p as int, b, x, g);
    }
    assert forall|id: u64| #[trigger] next.dirs.contains_key(id) implies {
        let at = next.dirs[id] as int;
        &&& plan.place.contains_key(id)
        &&& spot(next, x, at) == plan.place[id].spot
        &&& plan.due.contains(id) && !now.contains(id) ==> seen(next, x, at) == plan.place[id]
    } by {
        lemma_graft_places(t, work, plan, s, read, id);
    }
}

/// Putting in one batch keeps everything in order.
proof fn lemma_graft_in_hand(
    t: TreeView,
    work: Seq<TaskView>,
    plan: PlanView,
    s: Seq<BatchView>,
    read: Set<u64>,
    g: spec_fn(SeenView) -> int,
)
    requires
        in_hand(t, work, plan, s, read),
        work.len() > 0,
        work.last() matches TaskView::Graft(p, b) && tree::fits(
            tree::grafted(t, p as int, b).nodes,
        ),
    ensures
        ({
            let p = work.last()->Graft_0;
            let b = work.last()->Graft_1;
            let next = tree::grafted(t, p as int, b);
            let all = work.drop_last() + tree::flush_tasks(tree::dir_ids(b.nodes));
            let now = read.insert(b.parent_id);
            let w = weights(plan, g);
            &&& in_hand(next, all, plan, s, now)
            &&& tally(next, plan.x, g) == tally(t, plan.x, g) + w(b)
            &&& task_load(work, w) == task_load(all, w) + w(b)
            &&& forall|y: u64| #[trigger] given(next, s, all, y) <= given(t, s, work, y)
            &&& forall|y: u64| #[trigger] told(now, s, all, y) <= told(read, s, work, y)
            &&& brought(next, b)
            &&& forall|id: u64| #[trigger] t.dirs.contains_key(id) ==> next.dirs.contains_key(id)
        }),
{
    let p = work.last()->Graft_0;
    let b = work.last()->Graft_1;
    let next = tree::grafted(t, p as int, b);
    let ids = tree::dir_ids(b.nodes);
    let more = tree::flush_tasks(ids);
    let rest = work.drop_last();
    let all = rest + more;
    let now = read.insert(b.parent_id);
    let w = weights(plan, g);
    assert(work[work.len() - 1] == work.last());
    assert(upkeep::sound_task(t, work.last()));
    assert(placed_task(t, plan, work.last()));
    upkeep::lemma_graft_sound(t, work);
    upkeep::law_batch_keeps_totals(t, p as int, b);
    lemma_graft_apart(t, work, plan, s, read);
    lemma_graft_placed(t, work, plan, s, read, g);
    lemma_task_load_add(rest, more, w);
    lemma_flush_load(ids, w);
    assert forall|y: u64| #[trigger] given(next, s, all, y) <= given(t, s, work, y) by {
        lemma_task_load_add(rest, more, times_of(Some(y)));
        lemma_flush_load(ids, times_of(Some(y)));
        assert(known_once(next, y) <= known_once(t, y) + times(b, Some(y)));
    }
    assert forall|y: u64| #[trigger] told(now, s, all, y) <= told(read, s, work, y) by {
        lemma_task_load_add(rest, more, reports_on(y));
        lemma_flush_load(ids, reports_on(y));
    }
    assert forall|y: u64| #[trigger] given(next, s, all, y) <= 1 by {
        assert(given(t, s, work, y) <= 1);
    }
    assert forall|y: u64| #[trigger] told(now, s, all, y) <= 1 by {
        assert(told(read, s, work, y) <= 1);
    }
    assert forall|id: u64| #[trigger] next.dirs.contains_key(id) implies upkeep::good_home(
        next.nodes,
        next.dirs[id] as int,
    ) by {
        upkeep::lemma_index_kept(t, p as int, b, id);
    }
    assert(placed_work(next, plan, all)) by {
        assert forall|k: int| 0 <= k < all.len() implies placed_task(
            next,
            plan,
            #[trigger] all[k],
        ) by {
            if k < rest.len() {
                assert(all[k] == work[k]);
                assert(placed_task(t, plan, work[k]));
            }
        }
    }
    assert(wait(next, s)) by {
        assert forall|id: u64|
            {
                &&& #[trigger] next.orphans.contains_key(id) == (meant_for(s, id).len() > 0)
                &&& next.orphans.contains_key(id) ==> next.orphans[id] == meant_for(s, id)
            } by {
            assert(t.orphans.contains_key(id) == (meant_for(s, id).len() > 0));
        }
    }
}

/// Taking up the batches that wait for a directory keeps everything in order.
proof fn lemma_flush_in_hand(
    t: TreeView,
    work: Seq<TaskView>,
    plan: PlanView,
    s: Seq<BatchView>,
    read: Set<u64>,
    g: spec_fn(SeenView) -> int,
)
    requires
        in_hand(t, work, plan, s, read),
        work.len() > 0,
        work.last() matches TaskView::Flush(id) && t.orphans.contains_key(id)
            && t.dirs.contains_key(id),
    ensures
        ({
            let id = work.last()->Flush_0;
            let next = TreeView { orphans: t.orphans.remove(id), ..t };
            let all = work.drop_last() + tree::waiting_tasks(t.dirs[id], t.orphans[id]);
            let left = meant_elsewhere(s, id);
            let w = weights(plan, g);
            &&& in_hand(next, all, plan, left, read)
            &&& tally(next, plan.x, g) == tally(t, plan.x, g)
            &&& load(s, w) + task_load(work, w) == load(left, w) + task_load(all, w)
            &&& forall|y: u64| #[trigger] given(next, left, all, y) <= given(t, s, work, y)
            &&& forall|y: u64| #[trigger] told(read, left, all, y) <= told(read, s, work, y)
        }),
{
    let id = work.last()->Flush_0;
    let next = TreeView { orphans: t.orphans.remove(id), ..t };
    let p = t.dirs[id];
    let ws = t.orphans[id];
    let rest = work.drop_last();
    let more = tree::waiting_tasks(p, ws);
    let all = rest + more;
    let left = meant_elsewhere(s, id);
    let w = weights(plan, g);
    assert(work[work.len() - 1] == work.last());
    assert(upkeep::sound_task(t, work.last()));
    upkeep::lemma_flush_sound(t, work);
    lemma_wait_on(t, s, id);
    assert(ws == meant_for(s, id));
    lemma_task_load_add(rest, more, w);
    lemma_waiting_load(p, ws, w);
    lemma_meant_load(s, id, w);
    assert forall|y: u64| #[trigger] given(next, left, all, y) <= given(t, s, work, y) by {
        lemma_task_load_add(rest, more, times_of(Some(y)));
        lemma_waiting_load(p, ws, times_of(Some(y)));
        lemma_meant_load(s, id, times_of(Some(y)));
    }
    assert forall|y: u64| #[trigger] told(read, left, all, y) <= told(read, s, work, y) by {
        lemma_task_load_add(rest, more, reports_on(y));
        lemma_waiting_load(p, ws, reports_on(y));
        lemma_meant_load(s, id, reports_on(y));
    }
    assert forall|y: u64| #[trigger] given(next, left, all, y) <= 1 by {
        assert(given(t, s, work, y) <= 1);
    }
    assert forall|y: u64| #[trigger] told(read, left, all, y) <= 1 by {
        assert(told(read, s, work, y) <= 1);
    }
    assert(all_follow(plan, left)) by {
        assert forall|c: BatchView| #[trigger] left.contains(c) implies follows(plan, c) by {
            lemma_meant_members(s, id, c);
            assert(s.contains(c));
        }
    }
    lemma_same_but_waiting(t, next, plan, read, g);
    assert(placed_work(next, plan, all)) by {
        assert forall|k: int| 0 <= k < all.len() implies placed_task(
            next,
            plan,
            #[trigger] all[k],
        ) by {
            if k < rest.len() {
                assert(all[k] == work[k]);
                assert(placed_task(t, plan, work[k]));
            } else {
                let c = ws[ws.len() - 1 - (k - rest.len())];
                assert(all[k] == TaskView::Graft(p, c));
                assert(ws.contains(c));
                lemma_meant_members(s, id, c);
                assert(follows(plan, c));
            }
        }
    }
}

/// What waits is not to be seen.
proof fn lemma_same_but_waiting(
    t: TreeView,
    next: TreeView,
    plan: PlanView,
    read: Set<u64>,
    g: spec_fn(SeenView) -> int,
)
    requires
        next == (TreeView { orphans: next.orphans, ..t }),
        placed(t, plan, read),
        apart(t, plan.due),
        upkeep::good_index(t),
    ensures
        placed(next, plan, read),
        apart(next, plan.due),
        upkeep::good_index(next),
        tally(next, plan.x, g) == tally(t, plan.x, g),
{
    assert forall|i: u64| #[trigger] next.dirs.contains_key(i) implies {
        let at = next.dirs[i] as int;
        &&& plan.place.contains_key(i)
        &&& spot(next, plan.x, at) == plan.place[i].spot
        &&& plan.due.contains(i) && !read.contains(i) ==> seen(next, plan.x, at) == plan.place[i]
        &&& upkeep::good_home(next.nodes, at)
    } by {
        assert(t.dirs.contains_key(i));
        assert(spot(next, plan.x, next.dirs[i] as int) == spot(t, plan.x, t.dirs[i] as int));
    }
    assert forall|y: u64, z: u64|
        y != z && next.dirs.contains_key(y) && next.dirs.contains_key(z) && plan.due.contains(y)
            && plan.due.contains(z) implies #[trigger] next.dirs[y] != #[trigger] next.dirs[z] by {
        assert(t.dirs[y] != t.dirs[z]);
    }
    let f = each_seen(next, plan.x, g);
    let h = each_seen(t, plan.x, g);
    assert forall|j: int| #[trigger] f(j) == h(j) by {
        assert(seen(next, plan.x, j) == seen(t, plan.x, j));
    }
    assert(f =~= h);
}

/// Looking for what does not wait changes nothing.
proof fn lemma_rest_in_hand(
    t: TreeView,
    work: Seq<TaskView>,
    plan: PlanView,
    s: Seq<BatchView>,
    read: Set<u64>,
)
    requires
        in_hand(t, work, plan, s, read),
        work.len() > 0,
        work.last() is Flush,
    ensures
        in_hand(t, work.drop_last(), plan, s, read),
        forall|y: u64| #[trigger] given(t, s, work.drop_last(), y) == given(t, s, work, y),
        forall|y: u64| #[trigger] told(read, s, work.drop_last(), y) == told(read, s, work, y),
{
    let rest = work.drop_last();
    assert forall|y: u64| #[trigger] given(t, s, rest, y) == given(t, s, work, y) by {}
    assert forall|y: u64| #[trigger] told(read, s, rest, y) == told(read, s, work, y) by {}
    assert forall|k: int| 0 <= k < rest.len() implies upkeep::sound_task(t, #[trigger] rest[k]) by {
        assert(upkeep::sound_task(t, work[k]));
    }
    assert forall|k: int| 0 <= k < rest.len() implies placed_task(t, plan, #[trigger] rest[k]) by {
        assert(placed_task(t, plan, work[k]));
    }
}

/// Work that is done to its end takes up what it may, and loses nothing: what is to be seen grows by what
/// was put in, and the batches that are left waited before.
#[verifier::rlimit(40)]
proof fn lemma_work_conserves(
    t: TreeView,
    work: Seq<TaskView>,
    plan: PlanView,
    s: Seq<BatchView>,
    read: Set<u64>,
    g: spec_fn(SeenView) -> int,
) -> (end: (Seq<BatchView>, Set<u64>))
    requires
        in_hand(t, work, plan, s, read),
        tree::settled(t, work).1,
    ensures
        ({
            let after = tree::settled(t, work).0;
            let (left, now) = end;
            let w = weights(plan, g);
            &&& in_hand(after, Seq::empty(), plan, left, now)
            &&& tally(after, plan.x, g) + load(left, w) == tally(t, plan.x, g) + load(s, w)
                + task_load(work, w)
            &&& forall|y: u64| #[trigger]
                given(after, left, Seq::empty(), y) <= given(t, s, work, y)
            &&& forall|y: u64| #[trigger]
                told(now, left, Seq::empty(), y) <= told(read, s, work, y)
            &&& forall|id: u64| #[trigger] t.dirs.contains_key(id) ==> after.dirs.contains_key(id)
            &&& forall|c: BatchView| #[trigger] left.contains(c) ==> s.contains(c)
            &&& forall|c: BatchView|
                accounted(t, s, work, c) ==> #[trigger] accounted(after, left, Seq::empty(), c)
        }),
    decreases t.orphans.dom().len(), tree::graft_tasks(work), work.len(),
{
    let none = Seq::<TaskView>::empty();
    if work.len() == 0 {
        assert(work =~= none);
        (s, read)
    } else {
        let rest = work.drop_last();
        let after = tree::settled(t, work).0;
        assert(work[work.len() - 1] == work.last());
        match work.last() {
            TaskView::Graft(p, b) => {
                let next = tree::grafted(t, p as int, b);
                let ids = tree::dir_ids(b.nodes);
                let more = tree::flush_tasks(ids);
                let all = rest + more;
                let mid = read.insert(b.parent_id);
                tree::lemma_graft_tasks_add(rest, more);
                tree::lemma_flush_tasks(ids);
                lemma_graft_in_hand(t, work, plan, s, read, g);
                let (left, now) = lemma_work_conserves(next, all, plan, s, mid, g);
                assert forall|y: u64| #[trigger] given(after, left, none, y) <= given(
                    t,
                    s,
                    work,
                    y,
                ) by {
                    assert(given(next, s, all, y) <= given(t, s, work, y));
                }
                assert forall|y: u64| #[trigger] told(now, left, none, y) <= told(
                    read,
                    s,
                    work,
                    y,
                ) by {
                    assert(told(mid, s, all, y) <= told(read, s, work, y));
                }
                assert forall|c: BatchView| accounted(t, s, work, c) implies #[trigger] accounted(
                    after,
                    left,
                    none,
                    c,
                ) by {
                    if in_work(work, c) {
                        let k = choose|k: int|
                            0 <= k < work.len() && is_graft_of(#[trigger] work[k], c);
                        if k < rest.len() {
                            assert(all[k] == work[k]);
                            assert(in_work(all, c));
                        } else {
                            assert(c == b);
                        }
                    } else if brought(t, c) {
                        assert(brought(next, c)) by {
                            assert forall|k: int|
                                0 <= k < c.nodes.len() && (
                                #[trigger] c.nodes[k]).dir_id is Some implies next.dirs.contains_key(
                            c.nodes[k].dir_id->0) by {
                                assert(t.dirs.contains_key(c.nodes[k].dir_id->0));
                            }
                        }
                    }
                    assert(accounted(next, s, all, c));
                }
                assert forall|id: u64| #[trigger] t.dirs.contains_key(
                    id,
                ) implies after.dirs.contains_key(id) by {
                    assert(next.dirs.contains_key(id));
                }
                (left, now)
            },
            TaskView::Flush(id) => {
                if t.orphans.contains_key(id) && t.dirs.contains_key(id) {
                    let next = TreeView { orphans: t.orphans.remove(id), ..t };
                    let ws = t.orphans[id];
                    let more = tree::waiting_tasks(t.dirs[id], ws);
                    let all = rest + more;
                    let fewer = meant_elsewhere(s, id);
                    lemma_flush_in_hand(t, work, plan, s, read, g);
                    let (left, now) = lemma_work_conserves(next, all, plan, fewer, read, g);
                    assert forall|y: u64| #[trigger] given(after, left, none, y) <= given(
                        t,
                        s,
                        work,
                        y,
                    ) by {
                        assert(given(next, fewer, all, y) <= given(t, s, work, y));
                    }
                    assert forall|y: u64| #[trigger] told(now, left, none, y) <= told(
                        read,
                        s,
                        work,
                        y,
                    ) by {
                        assert(told(read, fewer, all, y) <= told(read, s, work, y));
                    }
                    assert forall|c: BatchView| #[trigger] left.contains(c) implies s.contains(
                        c,
                    ) by {
                        assert(fewer.contains(c));
                        lemma_meant_members(s, id, c);
                    }
                    assert forall|c: BatchView|
                        accounted(t, s, work, c) implies #[trigger] accounted(
                        after,
                        left,
                        none,
                        c,
                    ) by {
                        lemma_meant_members(s, id, c);
                        if s.contains(c) {
                            if c.parent_id == id {
                                assert(ws == meant_for(s, id));
                                let m = choose|m: int| 0 <= m < ws.len() && ws[m] == c;
                                let k = rest.len() + (ws.len() - 1 - m);
                                assert(all[k] == TaskView::Graft(t.dirs[id], c));
                                assert(is_graft_of(all[k], c));
                                assert(in_work(all, c));
                            }
                        } else if in_work(work, c) {
                            let k = choose|k: int|
                                0 <= k < work.len() && is_graft_of(#[trigger] work[k], c);
                            assert(all[k] == work[k]);
                            assert(in_work(all, c));
                        } else {
                            assert(brought(next, c));
                        }
                        assert(accounted(next, fewer, all, c));
                    }
                    assert forall|i: u64| #[trigger] t.dirs.contains_key(
                        i,
                    ) implies after.dirs.contains_key(i) by {
                        assert(next.dirs.contains_key(i));
                    }
                    (left, now)
                } else {
                    lemma_rest_in_hand(t, work, plan, s, read);
                    let (left, now) = lemma_work_conserves(t, rest, plan, s, read, g);
                    assert forall|y: u64| #[trigger] given(after, left, none, y) <= given(
                        t,
                        s,
                        work,
                        y,
                    ) by {
                        assert(given(t, s, rest, y) == given(t, s, work, y));
                    }
                    assert forall|y: u64| #[trigger] told(now, left, none, y) <= told(
                        read,
                        s,
                        work,
                        y,
                    ) by {
                        assert(told(read, s, rest, y) == told(read, s, work, y));
                    }
                    assert forall|c: BatchView|
                        accounted(t, s, work, c) implies #[trigger] accounted(
                        after,
                        left,
                        none,
                        c,
                    ) by {
                        if in_work(work, c) {
                            let k = choose|k: int|
                                0 <= k < work.len() && is_graft_of(#[trigger] work[k], c);
                            assert(rest[k] == work[k]);
                            assert(in_work(rest, c));
                        }
                        assert(accounted(t, s, rest, c));
                    }
                    (left, now)
                }
            },
        }
    }
}

// ---- One batch after another ------------------------------------------------------------------

/// The tree after one batch arrived and another, and whether all could be taken in.
pub open spec fn applied_all(t: TreeView, s: Seq<BatchView>) -> (TreeView, bool)
    decreases s.len(),
{
    if s.len() == 0 {
        (t, true)
    } else {
        let (before, done) = applied_all(t, s.drop_last());
        (tree::applied(before, s.last()).0, done && tree::applied(before, s.last()).1)
    }
}

/// Everything is in order between two batches.
spec fn at_rest(t: TreeView, plan: PlanView, s: Seq<BatchView>, read: Set<u64>) -> bool {
    &&& in_hand(t, Seq::empty(), plan, s, read)
    &&& order::none_in_vain(t)
}

proof fn lemma_apply_conserves(
    t: TreeView,
    b: BatchView,
    plan: PlanView,
    s: Seq<BatchView>,
    read: Set<u64>,
    g: spec_fn(SeenView) -> int,
) -> (end: (Seq<BatchView>, Set<u64>))
    requires
        at_rest(t, plan, s, read),
        follows(plan, b),
        forall|y: u64| #[trigger] given(t, s, Seq::empty(), y) + times(b, Some(y)) <= 1,
        forall|y: u64| #[trigger] told(read, s, Seq::empty(), y) + reports_on(y)(b) <= 1,
        tree::applied(t, b).1,
    ensures
        ({
            let after = tree::applied(t, b).0;
            let (left, now) = end;
            let w = weights(plan, g);
            &&& at_rest(after, plan, left, now)
            &&& tally(after, plan.x, g) + load(left, w) == tally(t, plan.x, g) + load(s, w) + w(b)
            &&& forall|y: u64| #[trigger]
                given(after, left, Seq::empty(), y) <= given(t, s, Seq::empty(), y) + times(
                    b,
                    Some(y),
                )
            &&& forall|y: u64| #[trigger]
                told(now, left, Seq::empty(), y) <= told(read, s, Seq::empty(), y) + reports_on(y)(b)
            &&& forall|id: u64| #[trigger] t.dirs.contains_key(id) ==> after.dirs.contains_key(id)
            &&& forall|c: BatchView| #[trigger] left.contains(c) ==> s.contains(c) || c == b
            &&& forall|c: BatchView|
                c == b || accounted(t, s, Seq::empty(), c) ==> #[trigger] accounted(
                    after,
                    left,
                    Seq::empty(),
                    c,
                )
        }),
{
    let after = tree::applied(t, b).0;
    let none = Seq::<TaskView>::empty();
    let w = weights(plan, g);
    upkeep::law_apply_keeps_totals(t, b);
    order::law_nothing_waits_in_vain(t, b);
    if t.dirs.contains_key(b.parent_id) {
        let p = t.dirs[b.parent_id];
        let work = seq![TaskView::Graft(p, b)];
        assert(work.drop_last() =~= none);
        assert(work.last() == TaskView::Graft(p, b));
        assert(task_load(none, w) == 0);
        assert(placed_task(t, plan, work[0]));
        assert(upkeep::sound_task(t, work[0]));
        assert forall|y: u64| #[trigger] given(t, s, work, y) == given(t, s, none, y) + times(
            b,
            Some(y),
        ) by {
            assert(task_load(none, times_of(Some(y))) == 0);
        }
        assert forall|y: u64| #[trigger] told(read, s, work, y) == told(read, s, none, y)
            + reports_on(y)(b) by {
            assert(task_load(none, reports_on(y)) == 0);
        }
        assert forall|y: u64| #[trigger] given(t, s, work, y) <= 1 by {
            assert(given(t, s, none, y) + times(b, Some(y)) <= 1);
        }
        assert forall|y: u64| #[trigger] told(read, s, work, y) <= 1 by {
            assert(told(read, s, none, y) + reports_on(y)(b) <= 1);
        }
        let (left, now) = lemma_work_conserves(t, work, plan, s, read, g);
        assert forall|y: u64| #[trigger] given(after, left, none, y) <= given(t, s, none, y)
            + times(b, Some(y)) by {
            assert(given(t, s, work, y) == given(t, s, none, y) + times(b, Some(y)));
        }
        assert forall|y: u64| #[trigger] told(now, left, none, y) <= told(read, s, none, y)
            + reports_on(y)(b) by {
            assert(told(read, s, work, y) == told(read, s, none, y) + reports_on(y)(b));
        }
        assert forall|c: BatchView|
            c == b || accounted(t, s, none, c) implies #[trigger] accounted(
            after,
            left,
            none,
            c,
        ) by {
            if c == b {
                assert(is_graft_of(work[0], c));
                assert(in_work(work, c));
            }
            assert(accounted(t, s, work, c));
        }
        (left, now)
    } else {
        let left = s.push(b);
        lemma_wait_more(t, s, b);
        assert(left.drop_last() =~= s);
        assert forall|c: BatchView| #[trigger] left.contains(c) implies s.contains(c) || c == b by {
            lemma_push_contains(s, b, c);
        }
        lemma_same_but_waiting(t, after, plan, read, g);
        assert forall|y: u64| #[trigger] given(after, left, none, y) == given(t, s, none, y)
            + times(b, Some(y)) by {}
        assert forall|y: u64| #[trigger] told(read, left, none, y) == told(read, s, none, y)
            + reports_on(y)(b) by {}
        assert forall|y: u64| #[trigger] given(after, left, none, y) <= 1 by {
            assert(given(t, s, none, y) + times(b, Some(y)) <= 1);
        }
        assert forall|y: u64| #[trigger] told(read, left, none, y) <= 1 by {
            assert(told(read, s, none, y) + reports_on(y)(b) <= 1);
        }
        assert forall|c: BatchView|
            c == b || accounted(t, s, none, c) implies #[trigger] accounted(
            after,
            left,
            none,
            c,
        ) by {
            lemma_push_contains(s, b, c);
            if brought(t, c) {
                assert(brought(after, c));
            }
        }
        (left, read)
    }
}

/// Each directory that the batches bring has an id of its own.
pub open spec fn ids_are_own(t: TreeView, s: Seq<BatchView>) -> bool {
    forall|y: u64| known_once(t, y) + #[trigger] load(s, times_of(Some(y))) <= 1
}

/// Each directory is reported on once.
pub open spec fn reported_once(t: TreeView, s: Seq<BatchView>) -> bool {
    &&& forall|y: u64| #[trigger] load(s, reports_on(y)) <= 1
    &&& forall|a: int, b: int|
        0 <= a < s.len() && 0 <= b < s.len() && s[a].parent_id != s[b].parent_id
            && t.dirs.contains_key(s[a].parent_id) && t.dirs.contains_key(s[b].parent_id)
            ==> t.dirs[(#[trigger] s[a]).parent_id] != t.dirs[(#[trigger] s[b]).parent_id]
}

proof fn lemma_all_conserve(
    t: TreeView,
    s: Seq<BatchView>,
    plan: PlanView,
    g: spec_fn(SeenView) -> int,
) -> (end: (Seq<BatchView>, Set<u64>))
    requires
        at_rest(t, plan, Seq::empty(), Set::empty()),
        all_follow(plan, s),
        ids_are_own(t, s),
        forall|y: u64| #[trigger] load(s, reports_on(y)) <= 1,
        applied_all(t, s).1,
    ensures
        ({
            let after = applied_all(t, s).0;
            let (left, now) = end;
            let w = weights(plan, g);
            &&& at_rest(after, plan, left, now)
            &&& tally(after, plan.x, g) + load(left, w) == tally(t, plan.x, g) + load(s, w)
            &&& forall|y: u64| #[trigger]
                given(after, left, Seq::empty(), y) <= known_once(t, y) + load(
                    s,
                    times_of(Some(y)),
                )
            &&& forall|y: u64| #[trigger]
                told(now, left, Seq::empty(), y) <= load(s, reports_on(y))
            &&& forall|id: u64| #[trigger] t.dirs.contains_key(id) ==> after.dirs.contains_key(id)
            &&& forall|c: BatchView| #[trigger] left.contains(c) ==> s.contains(c)
            &&& forall|c: BatchView|
                s.contains(c) ==> #[trigger] accounted(after, left, Seq::empty(), c)
        }),
    decreases s.len(),
{
    let none = Seq::<TaskView>::empty();
    if s.len() == 0 {
        assert(s =~= Seq::empty());
        (s, Set::empty())
    } else {
        let less = s.drop_last();
        let b = s.last();
        assert(less.push(b) =~= s);
        assert(s[s.len() - 1] == b);
        assert forall|c: BatchView| #[trigger] less.contains(c) implies follows(plan, c) by {
            lemma_push_contains(less, b, c);
            assert(s.contains(c));
        }
        assert forall|y: u64| known_once(t, y) + #[trigger] load(less, times_of(Some(y))) <= 1 by {
            lemma_times(b, Some(y), b.nodes.len() as int, 0);
            assert(known_once(t, y) + load(s, times_of(Some(y))) <= 1);
        }
        assert forall|y: u64| #[trigger] load(less, reports_on(y)) <= 1 by {
            assert(load(s, reports_on(y)) <= 1);
        }
        let (mid, then) = lemma_all_conserve(t, less, plan, g);
        let before = applied_all(t, less).0;
        let after = applied_all(t, s).0;
        assert(s.contains(b));
        assert forall|y: u64| #[trigger] given(before, mid, none, y) + times(b, Some(y)) <= 1 by {
            assert(known_once(t, y) + load(s, times_of(Some(y))) <= 1);
        }
        assert forall|y: u64| #[trigger] told(then, mid, none, y) + reports_on(y)(b) <= 1 by {
            assert(load(s, reports_on(y)) <= 1);
        }
        let (left, now) = lemma_apply_conserves(before, b, plan, mid, then, g);
        assert forall|y: u64| #[trigger] given(after, left, none, y) <= known_once(t, y) + load(
            s,
            times_of(Some(y)),
        ) by {
            assert(given(before, mid, none, y) <= known_once(t, y) + load(
                less,
                times_of(Some(y)),
            ));
        }
        assert forall|y: u64| #[trigger] told(now, left, none, y) <= load(s, reports_on(y)) by {
            assert(told(then, mid, none, y) <= load(less, reports_on(y)));
        }
        assert forall|c: BatchView| #[trigger] left.contains(c) implies s.contains(c) by {
            lemma_push_contains(less, b, c);
        }
        assert forall|c: BatchView| s.contains(c) implies #[trigger] accounted(
            after,
            left,
            none,
            c,
        ) by {
            lemma_push_contains(less, b, c);
            if c != b {
                assert(accounted(before, mid, none, c));
            }
        }
        assert forall|id: u64| #[trigger] t.dirs.contains_key(id) implies after.dirs.contains_key(
            id,
        ) by {
            assert(before.dirs.contains_key(id));
        }
        (left, now)
    }
}

// ---- Any order --------------------------------------------------------------------------------

/// The batch brings a directory with this id.
pub open spec fn brings(b: BatchView, id: u64) -> bool {
    exists|k: int| 0 <= k < b.nodes.len() && (#[trigger] b.nodes[k]).dir_id == Some(id)
}

/// The directory is known at first, or one of the first `n` batches brings it.
pub open spec fn known_by(t: TreeView, s: Seq<BatchView>, n: int, id: u64) -> bool {
    t.dirs.contains_key(id) || exists|m: int| 0 <= m < n && brings(#[trigger] s[m], id)
}

/// Each batch comes after the one that brings its directory.
pub open spec fn parents_first(t: TreeView, s: Seq<BatchView>) -> bool {
    forall|a: int| 0 <= a < s.len() ==> known_by(t, s, a, (#[trigger] s[a]).parent_id)
}

proof fn lemma_load_member(s: Seq<BatchView>, x: Option<u64>, a: int)
    requires
        0 <= a < s.len(),
    ensures
        times(s[a], x) <= load(s, times_of(x)),
    decreases s.len(),
{
    lemma_load_nonneg(s.drop_last(), x, 0);
    lemma_times(s.last(), x, s.last().nodes.len() as int, 0);
    if a < s.len() - 1 {
        lemma_load_member(s.drop_last(), x, a);
    }
}

proof fn lemma_load_two(s: Seq<BatchView>, x: Option<u64>, a: int, b: int)
    requires
        0 <= a < b < s.len(),
    ensures
        times(s[a], x) + times(s[b], x) <= load(s, times_of(x)),
    decreases s.len(),
{
    lemma_times(s.last(), x, s.last().nodes.len() as int, 0);
    if b < s.len() - 1 {
        lemma_load_two(s.drop_last(), x, a, b);
    } else {
        lemma_load_member(s.drop_last(), x, a);
    }
}

proof fn lemma_brings_times(b: BatchView, id: u64)
    requires
        brings(b, id),
    ensures
        times(b, Some(id)) >= 1,
{
    let k = choose|k: int| 0 <= k < b.nodes.len() && (#[trigger] b.nodes[k]).dir_id == Some(id);
    lemma_times(b, Some(id), b.nodes.len() as int, k);
}

/// What a batch brings was not known before, and no other batch brings it.
proof fn lemma_brought_once(t: TreeView, s: Seq<BatchView>, a: int, b: int, id: u64)
    requires
        ids_are_own(t, s),
        0 <= a < s.len(),
        0 <= b < s.len(),
        brings(s[a], id),
    ensures
        !t.dirs.contains_key(id),
        brings(s[b], id) ==> a == b,
        times(s[a], Some(id)) <= 1,
{
    let x = Some(id);
    assert(known_once(t, id) + load(s, times_of(x)) <= 1);
    lemma_brings_times(s[a], id);
    lemma_load_member(s, x, a);
    if brings(s[b], id) {
        lemma_brings_times(s[b], id);
        if a < b {
            lemma_load_two(s, x, a, b);
        } else if b < a {
            lemma_load_two(s, x, b, a);
        }
    }
}

/// What is to be seen of a directory before it is read, by the first `n` batches.
spec fn place_by(t: TreeView, x: Option<u64>, s: Seq<BatchView>, n: int, id: u64) -> SeenView
    decreases n,
{
    if t.dirs.contains_key(id) || n <= 0 {
        seen(t, x, t.dirs[id] as int)
    } else {
        let b = s[n - 1];
        if brings(b, id) {
            let k = choose|k: int|
                0 <= k < b.nodes.len() && (#[trigger] b.nodes[k]).dir_id == Some(id);
            seen_of(place_by(t, x, s, n - 1, b.parent_id).spot, x, b.nodes[k])
        } else {
            place_by(t, x, s, n - 1, id)
        }
    }
}

/// What is to come of the batches.
spec fn plan_of(t: TreeView, x: Option<u64>, s: Seq<BatchView>) -> PlanView {
    PlanView {
        x,
        place: Map::new(
            |id: u64| known_by(t, s, s.len() as int, id),
            |id: u64| place_by(t, x, s, s.len() as int, id),
        ),
        due: Set::new(|id: u64| exists|a: int| 0 <= a < s.len() && (#[trigger] s[a]).parent_id == id),
    }
}

/// Later batches do not move a directory.
proof fn lemma_place_stays(
    t: TreeView,
    x: Option<u64>,
    s: Seq<BatchView>,
    m: int,
    n: int,
    id: u64,
)
    requires
        ids_are_own(t, s),
        0 <= m <= n <= s.len(),
        known_by(t, s, m, id),
    ensures
        place_by(t, x, s, n, id) == place_by(t, x, s, m, id),
    decreases n,
{
    if m < n {
        lemma_place_stays(t, x, s, m, n - 1, id);
        if !t.dirs.contains_key(id) {
            let a = choose|a: int| 0 <= a < m && brings(#[trigger] s[a], id);
            lemma_brought_once(t, s, a, n - 1, id);
        }
    }
}

/// The places are those that every batch leads to.
proof fn lemma_places(t: TreeView, x: Option<u64>, s: Seq<BatchView>, a: int)
    requires
        ids_are_own(t, s),
        parents_first(t, s),
        0 <= a < s.len(),
        upkeep::valid_batch(s[a]),
    ensures
        follows(plan_of(t, x, s), s[a]),
{
    let n = s.len() as int;
    let b = s[a];
    let place = plan_of(t, x, s).place;
    assert(known_by(t, s, a, b.parent_id));
    assert(known_by(t, s, n, b.parent_id)) by {
        if !t.dirs.contains_key(b.parent_id) {
            let m = choose|m: int| 0 <= m < a && brings(#[trigger] s[m], b.parent_id);
            assert(brings(s[m], b.parent_id));
        }
    }
    lemma_place_stays(t, x, s, a, n, b.parent_id);
    assert forall|k: int| 0 <= k < b.nodes.len() && (#[trigger] b.nodes[k]).dir_id is Some implies {
        let id = b.nodes[k].dir_id->0;
        &&& place.contains_key(id)
        &&& place[id] == seen_of(place[b.parent_id].spot, x, b.nodes[k])
    } by {
        let id = b.nodes[k].dir_id->0;
        assert(b.nodes[k].dir_id == Some(id));
        assert(brings(s[a], id));
        assert(known_by(t, s, a + 1, id));
        assert(known_by(t, s, n, id));
        lemma_place_stays(t, x, s, a + 1, n, id);
        lemma_brought_once(t, s, a, a, id);
        let m = choose|m: int|
            0 <= m < b.nodes.len() && (#[trigger] b.nodes[m]).dir_id == Some(id);
        lemma_times_once(b, Some(id), k, m);
    }
}

proof fn lemma_load_folds(s: Seq<BatchView>, w: spec_fn(BatchView) -> int)
    ensures
        load(s, w) == s.fold_left(0int, |sum: int, b: BatchView| sum + w(b)),
    decreases s.len(),
{
    if s.len() > 0 {
        lemma_load_folds(s.drop_last(), w);
    }
}

/// A sum over batches does not depend on their order.
proof fn lemma_load_permuted(a: Seq<BatchView>, b: Seq<BatchView>, w: spec_fn(BatchView) -> int)
    requires
        a.to_multiset() == b.to_multiset(),
    ensures
        load(a, w) == load(b, w),
{
    lemma_load_folds(a, w);
    lemma_load_folds(b, w);
    vstd::seq_lib::lemma_fold_left_permutation(
        a,
        b,
        |sum: int, b: BatchView| sum + w(b),
        0int,
    );
}

/// What batches are taken in by: nothing waits, and they are such as a scan reports.
pub open spec fn may_take(t: TreeView, s: Seq<BatchView>) -> bool {
    &&& totals::consistent(t)
    &&& upkeep::good_index(t)
    &&& t.orphans == Map::<u64, Seq<BatchView>>::empty()
    &&& forall|a: int| 0 <= a < s.len() ==> upkeep::valid_batch(#[trigger] s[a])
    &&& ids_are_own(t, s)
    &&& reported_once(t, s)
    &&& parents_first(t, s)
}

/// In whatever order the batches come, all are taken up in the end, and lead to just what they hold.
proof fn lemma_any_order(
    t: TreeView,
    s: Seq<BatchView>,
    mixed: Seq<BatchView>,
    x: Option<u64>,
    g: spec_fn(SeenView) -> int,
)
    requires
        may_take(t, s),
        mixed.to_multiset() == s.to_multiset(),
        applied_all(t, mixed).1,
    ensures
        ({
            let after = applied_all(t, mixed).0;
            let plan = plan_of(t, x, s);
            &&& totals::consistent(after)
            &&& upkeep::good_index(after)
            &&& after.orphans == Map::<u64, Seq<BatchView>>::empty()
            &&& forall|id: u64| #[trigger]
                after.dirs.contains_key(id) ==> spot(after, x, after.dirs[id] as int)
                    == plan.place[id].spot
            &&& tally(after, x, g) == tally(t, x, g) + load(s, weights(plan, g))
            &&& forall|id: u64| #[trigger]
                after.dirs.contains_key(id) == known_by(t, s, s.len() as int, id)
        }),
{
    let none = Seq::<BatchView>::empty();
    let plan = plan_of(t, x, s);
    let place = plan.place;
    let w = weights(plan, g);
    let n = s.len() as int;
    mixed.to_multiset_ensures();
    s.to_multiset_ensures();
    lemma_load_permuted(mixed, s, w);
    assert forall|y: u64| known_once(t, y) + #[trigger] load(mixed, times_of(Some(y))) <= 1 by {
        lemma_load_permuted(mixed, s, times_of(Some(y)));
    }
    assert forall|y: u64| #[trigger] load(mixed, reports_on(y)) <= 1 by {
        lemma_load_permuted(mixed, s, reports_on(y));
    }
    assert(all_follow(plan, mixed)) by {
        assert forall|c: BatchView| #[trigger] mixed.contains(c) implies follows(plan, c) by {
            assert(mixed.to_multiset().count(c) > 0);
            assert(s.contains(c));
            let a = choose|a: int| 0 <= a < s.len() && s[a] == c;
            lemma_places(t, x, s, a);
        }
    }
    lemma_start(t, s, x);
    let (left, _read) = lemma_all_conserve(t, mixed, plan, g);
    let after = applied_all(t, mixed).0;
    assert forall|c: BatchView| s.contains(c) implies #[trigger] accounted(
        after,
        left,
        Seq::empty(),
        c,
    ) by {
        assert(s.to_multiset().count(c) > 0);
        assert(mixed.contains(c));
    }
    assert forall|a: int| 0 <= a < n implies #[trigger] brought(after, s[a]) && !left.contains(
        s[a],
    ) by {
        lemma_taken_up(t, s, after, left, a);
    }
    assert(left =~= none) by {
        if left.len() > 0 {
            let c = left[0];
            assert(left.contains(c));
            assert(mixed.contains(c));
            assert(mixed.to_multiset().count(c) > 0);
            assert(s.contains(c));
            let a = choose|a: int| 0 <= a < s.len() && s[a] == c;
            assert(brought(after, s[a]) && !left.contains(s[a]));
        }
    }
    assert forall|id: u64| !(#[trigger] after.orphans.contains_key(id)) by {
        assert(after.orphans.contains_key(id) == (meant_for(left, id).len() > 0));
    }
    assert(after.orphans =~= Map::<u64, Seq<BatchView>>::empty());
    assert forall|id: u64| #[trigger] after.dirs.contains_key(id) == known_by(t, s, n, id) by {
        if after.dirs.contains_key(id) {
            assert(place.contains_key(id));
        }
        if known_by(t, s, n, id) && !t.dirs.contains_key(id) {
            let a = choose|a: int| 0 <= a < n && brings(#[trigger] s[a], id);
            assert(brought(after, s[a]));
            let k = choose|k: int|
                0 <= k < s[a].nodes.len() && (#[trigger] s[a].nodes[k]).dir_id == Some(id);
            assert(s[a].nodes[k].dir_id is Some);
        }
    }
}

/// Everything is in order at first.
proof fn lemma_start(t: TreeView, s: Seq<BatchView>, x: Option<u64>)
    requires
        may_take(t, s),
    ensures
        at_rest(t, plan_of(t, x, s), Seq::empty(), Set::empty()),
{
    let none = Seq::<BatchView>::empty();
    let idle = Seq::<TaskView>::empty();
    let unread = Set::<u64>::empty();
    let plan = plan_of(t, x, s);
    assert(placed(t, plan, unread)) by {
        assert forall|id: u64| #[trigger] t.dirs.contains_key(id) implies {
            let at = t.dirs[id] as int;
            &&& plan.place.contains_key(id)
            &&& spot(t, plan.x, at) == plan.place[id].spot
            &&& plan.due.contains(id) && !unread.contains(id) ==> seen(t, plan.x, at)
                == plan.place[id]
        } by {
            assert(known_by(t, s, s.len() as int, id));
        }
    }
    assert(apart(t, plan.due)) by {
        assert forall|y: u64, z: u64|
            y != z && t.dirs.contains_key(y) && t.dirs.contains_key(z) && plan.due.contains(y)
                && plan.due.contains(z) implies #[trigger] t.dirs[y] != #[trigger] t.dirs[z] by {
            let a = choose|a: int| 0 <= a < s.len() && (#[trigger] s[a]).parent_id == y;
            let b = choose|b: int| 0 <= b < s.len() && (#[trigger] s[b]).parent_id == z;
            assert(s[a].parent_id != s[b].parent_id);
        }
    }
    assert(wait(t, none)) by {
        assert forall|id: u64|
            {
                &&& #[trigger] t.orphans.contains_key(id) == (meant_for(none, id).len() > 0)
                &&& t.orphans.contains_key(id) ==> t.orphans[id] == meant_for(none, id)
            } by {}
    }
    assert forall|y: u64| #[trigger] given(t, none, idle, y) <= 1 by {
        assert(load(none, times_of(Some(y))) == 0);
        assert(task_load(idle, times_of(Some(y))) == 0);
    }
    assert forall|y: u64| #[trigger] told(unread, none, idle, y) <= 1 by {
        assert(load(none, reports_on(y)) == 0);
        assert(task_load(idle, reports_on(y)) == 0);
    }
}

/// No batch waits for a directory that a batch before it brings, so each is taken up.
proof fn lemma_taken_up(
    t: TreeView,
    s: Seq<BatchView>,
    after: TreeView,
    left: Seq<BatchView>,
    a: int,
)
    requires
        parents_first(t, s),
        0 <= a < s.len(),
        wait(after, left),
        order::none_in_vain(after),
        forall|id: u64| #[trigger] t.dirs.contains_key(id) ==> after.dirs.contains_key(id),
        forall|c: BatchView| s.contains(c) ==> #[trigger] accounted(after, left, Seq::empty(), c),
    ensures
        brought(after, s[a]),
        !left.contains(s[a]),
    decreases a,
{
    let b = s[a];
    let p = b.parent_id;
    assert(known_by(t, s, a, p));
    if !t.dirs.contains_key(p) {
        let m = choose|m: int| 0 <= m < a && brings(#[trigger] s[m], p);
        lemma_taken_up(t, s, after, left, m);
        let k = choose|k: int|
            0 <= k < s[m].nodes.len() && (#[trigger] s[m].nodes[k]).dir_id == Some(p);
        assert(s[m].nodes[k].dir_id is Some);
    }
    assert(after.dirs.contains_key(p));
    if left.contains(b) {
        lemma_meant_members(left, p, b);
        assert(meant_for(left, p).len() > 0);
        assert(after.orphans.contains_key(p));
        assert(false);
    }
    assert(s.contains(b));
    assert(accounted(after, left, Seq::empty(), b));
    assert(!in_work(Seq::empty(), b));
}

/// A tally of the own sizes that are counted in a directory is its size.
proof fn lemma_tally_is_size(t: TreeView, x: Option<u64>)
    requires
        totals::consistent(t),
        upkeep::good_index(t),
        is_known(t, x),
    ensures
        tally(t, x, counted_apparent()) == t.nodes[looked_at(t, x)].apparent,
        tally(t, x, counted_disk()) == t.nodes[looked_at(t, x)].disk,
{
    let nodes = t.nodes;
    let d = looked_at(t, x);
    assert(totals::live(nodes, d)) by {
        if x is Some {
            assert(upkeep::good_home(nodes, d));
        }
    }
    totals::law_aggregate_is_sum_of_own_sizes(t, d);
    lemma_counted_sum(t, x, counted_apparent(), totals::counted_own_apparent(nodes, d));
    lemma_counted_sum(t, x, counted_disk(), totals::counted_own_disk(nodes, d));
}

proof fn lemma_counted_sum(
    t: TreeView,
    x: Option<u64>,
    g: spec_fn(SeenView) -> int,
    f: spec_fn(int) -> int,
)
    requires
        is_known(t, x),
        totals::live(t.nodes, looked_at(t, x)),
        forall|j: int|
            totals::counted_under(t.nodes, j, looked_at(t, x)) ==> #[trigger] f(j) == g(
                seen(t, x, j),
            ),
        forall|j: int|
            !totals::counted_under(t.nodes, j, looked_at(t, x)) ==> #[trigger] f(j) == 0 && g(
                seen(t, x, j),
            ) == 0,
    ensures
        tally(t, x, g) == below::sum_under(t.nodes, looked_at(t, x), f),
{
    let nodes = t.nodes;
    let d = looked_at(t, x);
    let all = |j: int|
        if below::under(nodes, j, 0) {
            each_seen(t, x, g)(j)
        } else {
            0
        };
    let here = |j: int|
        if below::under(nodes, j, d) {
            f(j)
        } else {
            0
        };
    assert forall|j: int| 0 <= j < nodes.len() implies #[trigger] all(j) == here(j) by {
        if totals::counted_under(nodes, j, d) {
            assert(f(j) == g(seen(t, x, j)));
            lemma_counted_hangs(nodes, j, d);
            totals::lemma_under_trans(nodes, j, d, 0);
        } else {
            assert(f(j) == 0);
        }
    }
    below::lemma_sum_range_same(all, here, nodes.len() as int);
}

spec fn counted_apparent() -> spec_fn(SeenView) -> int {
    |v: SeenView|
        if v.spot.counted {
            v.own_apparent
        } else {
            0
        }
}

spec fn counted_disk() -> spec_fn(SeenView) -> int {
    |v: SeenView|
        if v.spot.counted {
            v.own_disk
        } else {
            0
        }
}

spec fn unread_inside() -> spec_fn(SeenView) -> int {
    |v: SeenView|
        if v.spot.inside && v.kind == NodeKind::Dir && v.excluded == Excluded::No && !v.scanned {
            1int
        } else {
            0
        }
}

/// A tally of the unread directories in a directory is its count of them.
proof fn lemma_tally_is_unread(t: TreeView, x: Option<u64>)
    requires
        totals::consistent(t),
        upkeep::good_index(t),
        is_known(t, x),
    ensures
        tally(t, x, unread_inside()) == t.nodes[looked_at(t, x)].unscanned,
{
    let nodes = t.nodes;
    let d = looked_at(t, x);
    assert(totals::live(nodes, d)) by {
        if x is Some {
            assert(upkeep::good_home(nodes, d));
        }
    }
    totals::law_unscanned_is_number_pending(t, d);
    let all = |j: int|
        if below::under(nodes, j, 0) {
            each_seen(t, x, unread_inside())(j)
        } else {
            0
        };
    let here = |j: int|
        if below::under(nodes, j, d) {
            totals::each_pending(nodes)(j)
        } else {
            0
        };
    assert forall|j: int| 0 <= j < nodes.len() implies #[trigger] all(j) == here(j) by {
        if below::under(nodes, j, d) {
            totals::lemma_under_trans(nodes, j, d, 0);
        }
    }
    below::lemma_sum_range_same(all, here, nodes.len() as int);
}

spec fn one_of(dirs: bool) -> spec_fn(SeenView) -> int {
    |v: SeenView|
        if (v.kind == NodeKind::Dir) == dirs {
            1int
        } else {
            0
        }
}

proof fn lemma_tally_is_count(t: TreeView, x: Option<u64>, dirs: bool)
    ensures
        tally(t, x, one_of(dirs)) == below::count_under(t.nodes, 0, dirs),
{
    let f = each_seen(t, x, one_of(dirs));
    let h = below::is_one(t.nodes, dirs);
    assert forall|j: int| #[trigger] f(j) == h(j) by {}
    assert(f =~= h);
}

/// The order in which batches come does not matter: in whatever order they come, nothing is left
/// waiting, and the tree is the one that comes of them with each after the one that brings its
/// directory, but for the numbers of its entries. It has the same counters and the same directories,
/// each at the same path, of the same size and with as many still to be read below; and the entries that
/// can be reached are the same: any sum over them is, whatever is summed of an entry's path, kind, inode,
/// marks and own sizes, of whether it was read and whether that failed, and of whether it hangs, and is
/// counted, in the root or in the directory with a given id.
pub proof fn law_order_does_not_matter(
    t: TreeView,
    s: Seq<BatchView>,
    mixed: Seq<BatchView>,
    x: Option<u64>,
    g: spec_fn(SeenView) -> int,
)
    requires
        may_take(t, s),
        mixed.to_multiset() == s.to_multiset(),
        applied_all(t, s).1,
        applied_all(t, mixed).1,
    ensures
        ({
            let a = applied_all(t, s).0;
            let b = applied_all(t, mixed).0;
            &&& a.orphans == Map::<u64, Seq<BatchView>>::empty()
            &&& b.orphans == Map::<u64, Seq<BatchView>>::empty()
            &&& a.total_files == b.total_files
            &&& a.total_dirs == b.total_dirs
            &&& a.dirs.dom() == b.dirs.dom()
            &&& is_known(a, x) == is_known(b, x)
            &&& is_known(a, x) ==> {
                &&& edit::path(a.nodes, looked_at(a, x)) == edit::path(b.nodes, looked_at(b, x))
                &&& a.nodes[looked_at(a, x)].apparent == b.nodes[looked_at(b, x)].apparent
                &&& a.nodes[looked_at(a, x)].disk == b.nodes[looked_at(b, x)].disk
                &&& a.nodes[looked_at(a, x)].unscanned == b.nodes[looked_at(b, x)].unscanned
            }
            &&& tally(a, x, g) == tally(b, x, g)
        }),
{
    let a = applied_all(t, s).0;
    let b = applied_all(t, mixed).0;
    let place = plan_of(t, x, s).place;
    lemma_any_order(t, s, s, x, g);
    lemma_any_order(t, s, mixed, x, g);
    lemma_any_order(t, s, s, x, one_of(true));
    lemma_any_order(t, s, mixed, x, one_of(true));
    lemma_any_order(t, s, s, x, one_of(false));
    lemma_any_order(t, s, mixed, x, one_of(false));
    lemma_tally_is_count(a, x, true);
    lemma_tally_is_count(b, x, true);
    lemma_tally_is_count(a, x, false);
    lemma_tally_is_count(b, x, false);
    assert forall|id: u64| a.dirs.dom().contains(id) == b.dirs.dom().contains(id) by {
        assert(a.dirs.contains_key(id) == known_by(t, s, s.len() as int, id));
        assert(b.dirs.contains_key(id) == known_by(t, s, s.len() as int, id));
    }
    assert(a.dirs.dom() =~= b.dirs.dom());
    if x is Some {
        assert(a.dirs.contains_key(x->0) == known_by(t, s, s.len() as int, x->0));
        assert(b.dirs.contains_key(x->0) == known_by(t, s, s.len() as int, x->0));
    }
    if is_known(a, x) {
        lemma_any_order(t, s, s, x, counted_apparent());
        lemma_any_order(t, s, mixed, x, counted_apparent());
        lemma_any_order(t, s, s, x, counted_disk());
        lemma_any_order(t, s, mixed, x, counted_disk());
        lemma_any_order(t, s, s, x, unread_inside());
        lemma_any_order(t, s, mixed, x, unread_inside());
        lemma_tally_is_size(a, x);
        lemma_tally_is_size(b, x);
        lemma_tally_is_unread(a, x);
        lemma_tally_is_unread(b, x);
        if x is Some {
            assert(spot(a, x, looked_at(a, x)) == place[x->0].spot);
            assert(spot(b, x, looked_at(b, x)) == place[x->0].spot);
        } else {
            mixed.to_multiset_ensures();
            s.to_multiset_ensures();
            assert forall|k: int| 0 <= k < mixed.len() implies upkeep::valid_batch(
                #[trigger] mixed[k],
            ) by {
                assert(mixed.contains(mixed[k]));
                assert(mixed.to_multiset().count(mixed[k]) > 0);
                assert(s.contains(mixed[k]));
                let m = choose|m: int| 0 <= m < s.len() && s[m] == mixed[k];
                assert(upkeep::valid_batch(s[m]));
            }
            lemma_root_stays(t, s);
            lemma_root_stays(t, mixed);
        }
    }
}

/// Batches keep the root where it is.
proof fn lemma_root_stays(t: TreeView, s: Seq<BatchView>)
    requires
        totals::consistent(t),
        upkeep::good_index(t),
        upkeep::valid_waiting(t),
        forall|k: int| 0 <= k < s.len() ==> upkeep::valid_batch(#[trigger] s[k]),
    ensures
        totals::consistent(applied_all(t, s).0),
        upkeep::good_index(applied_all(t, s).0),
        upkeep::valid_waiting(applied_all(t, s).0),
        edit::path(applied_all(t, s).0.nodes, 0) == edit::path(t.nodes, 0),
    decreases s.len(),
{
    if s.len() > 0 {
        let less = s.drop_last();
        let before = applied_all(t, less).0;
        assert(upkeep::valid_batch(s[s.len() - 1]));
        assert forall|k: int| 0 <= k < less.len() implies upkeep::valid_batch(
            #[trigger] less[k],
        ) by {
            assert(upkeep::valid_batch(s[k]));
        }
        lemma_root_stays(t, less);
        upkeep::law_apply_keeps_totals(before, s.last());
        upkeep::law_paths_stay(before, s.last(), 0);
    }
}

// ---- What a scan reports ----------------------------------------------------------------------

/// The batches of a scan that read one directory after another: the directory with the id `ids[a]` was
/// found to hold `listings[a]`, or could not be read.
pub open spec fn scanned(
    rules: OptsView,
    l: LedgerView,
    ids: Seq<u64>,
    listings: Seq<Seq<FoundView>>,
    failed: Seq<bool>,
) -> Seq<BatchView> {
    Seq::new(
        listings.len(),
        |a: int|
            BatchView {
                parent_id: ids[a],
                nodes: scan::reported(rules, l, listings, a),
                failed: failed[a],
            },
    )
}

/// What is found on disk has a size that fits its integer.
pub open spec fn has_size(f: FoundView) -> bool {
    f.meta is Some ==> f.meta->0.blocks * 512 <= u64::MAX
}

/// Where at most one batch brings an id, and at most once, it is brought once at most.
proof fn lemma_load_once(s: Seq<BatchView>, y: u64)
    requires
        forall|a: int, i: int, b: int, j: int|
            0 <= a < s.len() && 0 <= i < s[a].nodes.len() && 0 <= b < s.len() && 0 <= j
                < s[b].nodes.len() && s[a].nodes[i].dir_id == Some(y) && s[b].nodes[j].dir_id
                == Some(y) ==> a == b && #[trigger] s[a].nodes[i] == #[trigger] s[b].nodes[j] && i
                == j,
    ensures
        load(s, times_of(Some(y))) <= 1,
        (forall|a: int| 0 <= a < s.len() ==> !brings(#[trigger] s[a], y)) ==> load(
            s,
            times_of(Some(y)),
        ) == 0,
    decreases s.len(),
{
    if s.len() > 0 {
        let less = s.drop_last();
        let b = s.last();
        let n = b.nodes.len() as int;
        assert forall|a: int, i: int, c: int, j: int|
            0 <= a < less.len() && 0 <= i < less[a].nodes.len() && 0 <= c < less.len() && 0 <= j
                < less[c].nodes.len() && less[a].nodes[i].dir_id == Some(y)
                && less[c].nodes[j].dir_id == Some(y) implies a == c && #[trigger] less[a].nodes[i]
            == #[trigger] less[c].nodes[j] && i == j by {
            assert(s[a].nodes[i] == less[a].nodes[i]);
            assert(s[c].nodes[j] == less[c].nodes[j]);
        }
        lemma_load_once(less, y);
        lemma_times(b, Some(y), n, 0);
        if times(b, Some(y)) >= 1 {
            let k = lemma_times_some(b, Some(y), n);
            assert(s[s.len() - 1].nodes[k].dir_id == Some(y));
            assert(brings(s[s.len() - 1], y));
            assert forall|a: int| 0 <= a < less.len() implies !brings(#[trigger] less[a], y) by {
                if brings(less[a], y) {
                    let i = choose|i: int|
                        0 <= i < less[a].nodes.len() && (#[trigger] less[a].nodes[i]).dir_id == Some(
                            y,
                        );
                    assert(s[a].nodes[i] == s[s.len() - 1].nodes[k]);
                }
            }
            lemma_at_most_once(b, y, n, k);
        } else {
            if forall|a: int| 0 <= a < s.len() ==> !brings(#[trigger] s[a], y) {
                assert forall|a: int| 0 <= a < less.len() implies !brings(
                    #[trigger] less[a],
                    y,
                ) by {
                    assert(!brings(s[a], y));
                }
            }
        }
    }
}

proof fn lemma_at_most_once(b: BatchView, y: u64, n: int, k: int)
    requires
        0 <= n <= b.nodes.len(),
        forall|i: int| 0 <= i < n && (#[trigger] b.nodes[i]).dir_id == Some(y) ==> i == k,
    ensures
        below::sum_range(each_time(b, Some(y)), n) <= if k < n {
            1int
        } else {
            0
        },
    decreases n,
{
    if n > 0 {
        lemma_at_most_once(b, y, n - 1, k);
    }
}

proof fn lemma_told_once(s: Seq<BatchView>, y: u64)
    requires
        forall|a: int, b: int|
            0 <= a < b < s.len() ==> (#[trigger] s[a]).parent_id != (#[trigger] s[b]).parent_id,
    ensures
        load(s, reports_on(y)) <= 1,
        (forall|a: int| 0 <= a < s.len() ==> (#[trigger] s[a]).parent_id != y) ==> load(
            s,
            reports_on(y),
        ) == 0,
    decreases s.len(),
{
    if s.len() > 0 {
        let less = s.drop_last();
        assert forall|a: int, b: int| 0 <= a < b < less.len() implies (
        #[trigger] less[a]).parent_id != (#[trigger] less[b]).parent_id by {
            assert(s[a].parent_id != s[b].parent_id);
        }
        lemma_told_once(less, y);
        if s.last().parent_id == y {
            assert forall|a: int| 0 <= a < less.len() implies (#[trigger] less[a]).parent_id
                != y by {
                assert(s[a].parent_id != s[s.len() - 1].parent_id);
            }
        } else if forall|a: int| 0 <= a < s.len() ==> (#[trigger] s[a]).parent_id != y {
            assert forall|a: int| 0 <= a < less.len() implies (#[trigger] less[a]).parent_id
                != y by {
                assert(s[a].parent_id != y);
            }
        }
    }
}

/// What a scan reports may be taken in, and so in whatever order it arrives: the scan starts with a known
/// directory, goes on with directories that it found, reads each once, and gives ids that were not in
/// use.
pub proof fn law_scans_may_be_taken_in(
    t: TreeView,
    rules: OptsView,
    l: LedgerView,
    ids: Seq<u64>,
    listings: Seq<Seq<FoundView>>,
    failed: Seq<bool>,
)
    requires
        totals::consistent(t),
        upkeep::good_index(t),
        t.orphans == Map::<u64, Seq<BatchView>>::empty(),
        0 <= l.next_id,
        scan::ledger_through(rules, l, listings).next_id <= u64::MAX,
        forall|id: u64| #[trigger]
            t.dirs.contains_key(id) ==> id < l.next_id || id >= scan::ledger_through(
                rules,
                l,
                listings,
            ).next_id,
        forall|a: int, i: int|
            0 <= a < listings.len() && 0 <= i < listings[a].len() ==> has_size(
                #[trigger] listings[a][i],
            ),
        forall|a: int, b: int|
            0 <= a < b < listings.len() ==> #[trigger] ids[a] != #[trigger] ids[b],
        listings.len() > 0 ==> t.dirs.contains_key(ids[0]),
        forall|a: int|
            0 < a < listings.len() ==> exists|m: int|
                0 <= m < a && brings(
                    #[trigger] scanned(rules, l, ids, listings, failed)[m],
                    #[trigger] ids[a],
                ),
    ensures
        may_take(t, scanned(rules, l, ids, listings, failed)),
{
    let s = scanned(rules, l, ids, listings, failed);
    let n = listings.len() as int;
    assert forall|a: int| 0 <= a < n implies upkeep::valid_batch(#[trigger] s[a]) by {
        assert forall|k: int| 0 <= k < s[a].nodes.len() implies upkeep::valid_entry(
            #[trigger] s[a].nodes[k],
        ) by {
            assert(has_size(listings[a][k]));
        }
    }
    assert forall|y: u64| known_once(t, y) + #[trigger] load(s, times_of(Some(y))) <= 1 by {
        assert forall|a: int, i: int, b: int, j: int|
            0 <= a < s.len() && 0 <= i < s[a].nodes.len() && 0 <= b < s.len() && 0 <= j
                < s[b].nodes.len() && s[a].nodes[i].dir_id == Some(y) && s[b].nodes[j].dir_id
                == Some(y) implies a == b && #[trigger] s[a].nodes[i] == #[trigger] s[b].nodes[j]
            && i == j by {
            scan::law_directory_ids_are_fresh(rules, l, listings, a, i, b, j);
        }
        lemma_load_once(s, y);
        if t.dirs.contains_key(y) {
            assert forall|a: int| 0 <= a < s.len() implies !brings(#[trigger] s[a], y) by {
                if brings(s[a], y) {
                    lemma_scan_ids(t, rules, l, ids, listings, failed, a, y);
                }
            }
        }
    }
    assert forall|a: int, b: int| 0 <= a < b < n implies (#[trigger] s[a]).parent_id != (
    #[trigger] s[b]).parent_id by {
        assert(ids[a] != ids[b]);
    }
    assert forall|y: u64| #[trigger] load(s, reports_on(y)) <= 1 by {
        lemma_told_once(s, y);
    }
    assert forall|a: int| 0 < a < n implies !t.dirs.contains_key((#[trigger] s[a]).parent_id)
        && known_by(t, s, a, s[a].parent_id) by {
        let m = choose|m: int| 0 <= m < a && brings(#[trigger] s[m], ids[a]);
        assert(brings(s[m], s[a].parent_id));
        lemma_scan_ids(t, rules, l, ids, listings, failed, m, ids[a]);
    }
    assert(parents_first(t, s)) by {
        assert forall|a: int| 0 <= a < s.len() implies known_by(
            t,
            s,
            a,
            (#[trigger] s[a]).parent_id,
        ) by {}
    }
    assert(reported_once(t, s)) by {
        assert forall|a: int, b: int|
            0 <= a < s.len() && 0 <= b < s.len() && s[a].parent_id != s[b].parent_id
                && t.dirs.contains_key(s[a].parent_id) && t.dirs.contains_key(
                s[b].parent_id,
            ) implies t.dirs[(#[trigger] s[a]).parent_id] != t.dirs[(
        #[trigger] s[b]).parent_id] by {
            assert(a == 0 && b == 0);
        }
    }
}

/// The ids that a scan gives were not in use.
proof fn lemma_scan_ids(
    t: TreeView,
    rules: OptsView,
    l: LedgerView,
    ids: Seq<u64>,
    listings: Seq<Seq<FoundView>>,
    failed: Seq<bool>,
    a: int,
    y: u64,
)
    requires
        0 <= l.next_id,
        scan::ledger_through(rules, l, listings).next_id <= u64::MAX,
        forall|id: u64| #[trigger]
            t.dirs.contains_key(id) ==> id < l.next_id || id >= scan::ledger_through(
                rules,
                l,
                listings,
            ).next_id,
        0 <= a < listings.len(),
        brings(scanned(rules, l, ids, listings, failed)[a], y),
    ensures
        !t.dirs.contains_key(y),
{
    let b = scanned(rules, l, ids, listings, failed)[a];
    let k = choose|k: int| 0 <= k < b.nodes.len() && (#[trigger] b.nodes[k]).dir_id == Some(y);
    scan::law_directory_ids_are_fresh(rules, l, listings, a, k, a, k);
}

} // verus!
