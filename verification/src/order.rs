//! The order in which batches come does not matter.
use vstd::prelude::*;

use crate::tree;
use crate::tree::{BatchView, EntryView, TaskView, TreeView};

verus! {

/// Nothing waits for any of the ids.
pub open spec fn none_waiting(t: TreeView, ids: Seq<u64>) -> bool {
    forall|k: int| 0 <= k < ids.len() ==> !t.orphans.contains_key(#[trigger] ids[k])
}

pub proof fn lemma_flush_split(rest: Seq<TaskView>, ids: Seq<u64>)
    requires
        ids.len() > 0,
    ensures
        (rest + tree::flush_tasks(ids)).last() == TaskView::Flush(ids[0]),
        (rest + tree::flush_tasks(ids)).drop_last() == rest + tree::flush_tasks(ids.drop_first()),
{
    assert((rest + tree::flush_tasks(ids)).drop_last() =~= rest + tree::flush_tasks(
        ids.drop_first(),
    ));
}

/// Looking for what waits changes nothing where nothing waits.
proof fn lemma_flush_nothing(t: TreeView, rest: Seq<TaskView>, ids: Seq<u64>)
    requires
        t.orphans.dom().finite(),
        none_waiting(t, ids),
    ensures
        tree::settled(t, rest + tree::flush_tasks(ids)) == tree::settled(t, rest),
    decreases ids.len(),
{
    if ids.len() == 0 {
        assert(rest + tree::flush_tasks(ids) =~= rest);
    } else {
        lemma_flush_split(rest, ids);
        assert(!t.orphans.contains_key(ids[0]));
        let more = ids.drop_first();
        assert forall|k: int| 0 <= k < more.len() implies !t.orphans.contains_key(
            #[trigger] more[k],
        ) by {
            assert(more[k] == ids[k + 1]);
        }
        lemma_flush_nothing(t, rest, more);
    }
}

/// Work is done in turn: what comes last in the list first, and the rest if that could be done.
pub proof fn lemma_in_turn(t: TreeView, low: Seq<TaskView>, high: Seq<TaskView>)
    requires
        t.orphans.dom().finite(),
    ensures
        ({
            let (mid, done) = tree::settled(t, high);
            &&& mid.orphans.dom().finite()
            &&& mid.orphans.dom().subset_of(t.orphans.dom())
            &&& tree::settled(t, low + high) == if done {
                tree::settled(mid, low)
            } else {
                (mid, false)
            }
        }),
    decreases t.orphans.dom().len(), tree::graft_tasks(high), high.len(),
{
    if high.len() == 0 {
        assert(low + high =~= low);
    } else {
        let rest = high.drop_last();
        assert((low + high).last() == high.last());
        assert((low + high).drop_last() =~= low + rest);
        match high.last() {
            TaskView::Graft(p, b) => {
                let next = tree::grafted(t, p as int, b);
                let more = tree::flush_tasks(tree::dir_ids(b.nodes));
                tree::lemma_graft_tasks_add(rest, more);
                tree::lemma_flush_tasks(tree::dir_ids(b.nodes));
                assert(low + rest + more =~= low + (rest + more));
                if tree::fits(next.nodes) {
                    lemma_in_turn(next, low, rest + more);
                }
            },
            TaskView::Flush(id) => {
                if t.orphans.contains_key(id) && t.dirs.contains_key(id) {
                    let next = TreeView { orphans: t.orphans.remove(id), ..t };
                    let more = tree::waiting_tasks(t.dirs[id], t.orphans[id]);
                    assert(low + rest + more =~= low + (rest + more));
                    lemma_in_turn(next, low, rest + more);
                } else {
                    lemma_in_turn(t, low, rest);
                }
            },
        }
    }
}

/// None of the batches that wait brings a directory with this id.
pub open spec fn brought_by_none(t: TreeView, x: u64) -> bool {
    forall|id: u64, k: int|
        t.orphans.contains_key(id) && 0 <= k < t.orphans[id].len() ==> !tree::dir_ids(
            (#[trigger] t.orphans[id][k]).nodes,
        ).contains(x)
}

/// The work neither looks for what waits for this id nor brings a directory with it.
pub open spec fn leaves(work: Seq<TaskView>, x: u64) -> bool {
    forall|k: int|
        0 <= k < work.len() ==> match #[trigger] work[k] {
            TaskView::Graft(_, b) => !tree::dir_ids(b.nodes).contains(x),
            TaskView::Flush(id) => id != x,
        }
}

/// The batches that wait for `x`.
pub open spec fn waiting_for(t: TreeView, x: u64) -> Seq<BatchView> {
    if t.orphans.contains_key(x) {
        t.orphans[x]
    } else {
        Seq::empty()
    }
}

/// The tree with one more batch that waits.
pub open spec fn with_early(t: TreeView, x: u64, b: BatchView) -> TreeView {
    TreeView { orphans: t.orphans.insert(x, waiting_for(t, x).push(b)), ..t }
}

pub proof fn lemma_registered_leaves(
    dirs: Map<u64, usize>,
    entries: Seq<EntryView>,
    base: int,
    x: u64,
)
    requires
        !tree::dir_ids(entries).contains(x),
    ensures
        tree::registered(dirs, entries, base).contains_key(x) == dirs.contains_key(x),
        dirs.contains_key(x) ==> tree::registered(dirs, entries, base)[x] == dirs[x],
    decreases entries.len(),
{
    if entries.len() > 0 {
        let before = entries.drop_last();
        let ids = tree::dir_ids(entries);
        let fewer = tree::dir_ids(before);
        if fewer.contains(x) {
            let k = choose|k: int| 0 <= k < fewer.len() && fewer[k] == x;
            assert(ids[k] == x);
        }
        if entries.last().dir_id is Some {
            assert(ids.last() == entries.last().dir_id->0);
            assert(ids[ids.len() - 1] != x);
        }
        lemma_registered_leaves(dirs, before, base, x);
    }
}

/// Work that leaves an id alone is done the same whatever waits for it.
pub proof fn lemma_done_around(t: TreeView, work: Seq<TaskView>, x: u64, b: BatchView)
    requires
        t.orphans.dom().finite(),
        brought_by_none(t, x),
        leaves(work, x),
    ensures
        ({
            let (after, done) = tree::settled(t, work);
            &&& tree::settled(with_early(t, x, b), work) == (with_early(after, x, b), done)
            &&& brought_by_none(after, x)
            &&& waiting_for(after, x) == waiting_for(t, x)
            &&& after.orphans.contains_key(x) == t.orphans.contains_key(x)
            &&& after.dirs.contains_key(x) == t.dirs.contains_key(x)
            &&& t.dirs.contains_key(x) ==> after.dirs[x] == t.dirs[x]
        }),
    decreases t.orphans.dom().len(), tree::graft_tasks(work), work.len(),
{
    let early = with_early(t, x, b);
    if work.len() > 0 {
        let rest = work.drop_last();
        assert(work[work.len() - 1] == work.last());
        assert forall|k: int| 0 <= k < rest.len() implies match #[trigger] rest[k] {
            TaskView::Graft(_, b) => !tree::dir_ids(b.nodes).contains(x),
            TaskView::Flush(id) => id != x,
        } by {
            assert(rest[k] == work[k]);
        }
        match work.last() {
            TaskView::Graft(p, c) => {
                let next = tree::grafted(t, p as int, c);
                let ids = tree::dir_ids(c.nodes);
                let more = tree::flush_tasks(ids);
                tree::lemma_graft_tasks_add(rest, more);
                tree::lemma_flush_tasks(ids);
                assert(tree::grafted(early, p as int, c) == with_early(next, x, b));
                if tree::fits(next.nodes) {
                    lemma_registered_leaves(t.dirs, c.nodes, t.nodes.len() as int, x);
                    let all = rest + more;
                    assert forall|k: int| 0 <= k < all.len() implies match #[trigger] all[k] {
                        TaskView::Graft(_, b) => !tree::dir_ids(b.nodes).contains(x),
                        TaskView::Flush(id) => id != x,
                    } by {
                        if k < rest.len() {
                            assert(all[k] == rest[k]);
                        } else {
                            assert(ids.contains(ids[ids.len() - 1 - (k - rest.len())]));
                        }
                    }
                    lemma_done_around(next, all, x, b);
                }
            },
            TaskView::Flush(id) => {
                if t.orphans.contains_key(id) && t.dirs.contains_key(id) {
                    let next = TreeView { orphans: t.orphans.remove(id), ..t };
                    let more = tree::waiting_tasks(t.dirs[id], t.orphans[id]);
                    assert(early.orphans.remove(id) =~= with_early(next, x, b).orphans);
                    let all = rest + more;
                    assert forall|k: int| 0 <= k < all.len() implies match #[trigger] all[k] {
                        TaskView::Graft(_, b) => !tree::dir_ids(b.nodes).contains(x),
                        TaskView::Flush(id) => id != x,
                    } by {
                        if k < rest.len() {
                            assert(all[k] == rest[k]);
                        } else {
                            let m = t.orphans[id].len() - 1 - (k - rest.len());
                            assert(all[k] == TaskView::Graft(t.dirs[id], t.orphans[id][m]));
                        }
                    }
                    assert(brought_by_none(next, x)) by {
                        assert forall|i: u64, k: int|
                            next.orphans.contains_key(i) && 0 <= k
                                < next.orphans[i].len() implies !tree::dir_ids(
                            (#[trigger] next.orphans[i][k]).nodes,
                        ).contains(x) by {
                            assert(next.orphans[i][k] == t.orphans[i][k]);
                        }
                    }
                    lemma_done_around(next, all, x, b);
                } else {
                    lemma_done_around(t, rest, x, b);
                }
            },
        }
    }
}

/// What waits for one directory is taken up the same, whether one more batch waits behind or comes
/// later.
pub proof fn lemma_one_behind(m: TreeView, low: Seq<TaskView>, x: u64, b: BatchView)
    requires
        m.orphans.dom().finite(),
        brought_by_none(m, x),
        m.dirs.contains_key(x),
    ensures
        ({
            let (taken, done) = tree::settled(m, seq![TaskView::Flush(x)]);
            &&& !taken.orphans.contains_key(x)
            &&& taken.orphans.dom().subset_of(m.orphans.dom())
            &&& taken.orphans.dom().finite()
            &&& taken.dirs.contains_key(x) && taken.dirs[x] == m.dirs[x]
            &&& done ==> tree::settled(with_early(m, x, b), low + seq![TaskView::Flush(x)])
                == tree::settled(taken, low + seq![TaskView::Graft(m.dirs[x], b)])
        }),
{
    let none = Seq::<TaskView>::empty();
    let early = with_early(m, x, b);
    let flush = seq![TaskView::Flush(x)];
    let graft = seq![TaskView::Graft(m.dirs[x], b)];
    let ws = waiting_for(m, x);
    let bare = TreeView { orphans: m.orphans.remove(x), ..m };
    let first = tree::waiting_tasks(m.dirs[x], ws);
    assert(flush.drop_last() =~= none);
    assert(none + first =~= first);
    assert((low + flush).drop_last() =~= low);
    assert((low + flush).last() == TaskView::Flush(x));
    // With the early batch.
    assert(early.orphans.remove(x) =~= bare.orphans);
    assert(tree::waiting_tasks(m.dirs[x], ws.push(b)) =~= graft + first);
    assert(low + (graft + first) =~= (low + graft) + first);
    assert(tree::settled(early, low + flush) == tree::settled(bare, (low + graft) + first));
    lemma_in_turn(bare, low + graft, first);
    // Without it.
    if m.orphans.contains_key(x) {
        assert(tree::settled(m, flush) == tree::settled(bare, none + first));
    } else {
        assert(first =~= none);
        assert(bare.orphans =~= m.orphans);
        assert(tree::settled(m, flush) == tree::settled(m, none));
    }
    assert(tree::settled(m, flush) == tree::settled(bare, first));
    assert(leaves(first, x)) by {
        assert forall|k: int| 0 <= k < first.len() implies match #[trigger] first[k] {
            TaskView::Graft(_, b) => !tree::dir_ids(b.nodes).contains(x),
            TaskView::Flush(id) => id != x,
        } by {
            assert(first[k] == TaskView::Graft(m.dirs[x], m.orphans[x][ws.len() - 1 - k]));
        }
    }
    assert(brought_by_none(bare, x)) by {
        assert forall|i: u64, k: int|
            bare.orphans.contains_key(i) && 0 <= k < bare.orphans[i].len() implies !tree::dir_ids(
            (#[trigger] bare.orphans[i][k]).nodes,
        ).contains(x) by {
            assert(bare.orphans[i][k] == m.orphans[i][k]);
        }
    }
    lemma_done_around(bare, first, x, b);
}

/// What is done for a batch and an early one behind it: first the directories before that of the early
/// one, then what waits for that one, and then the rest, with the early batch put in before it.
pub proof fn lemma_behind_it(t: TreeView, a: BatchView, b: BatchView, at: int) -> (parts: (
    TreeView,
    TreeView,
))
    requires
        t.orphans.dom().finite(),
        tree::well_formed(t),
        t.dirs.contains_key(a.parent_id),
        !t.dirs.contains_key(b.parent_id),
        0 <= at < tree::dir_ids(a.nodes).len(),
        tree::dir_ids(a.nodes)[at] == b.parent_id,
        forall|k: int|
            0 <= k < tree::dir_ids(a.nodes).len() && k != at ==> (
            #[trigger] tree::dir_ids(a.nodes)[k]) != b.parent_id,
        brought_by_none(t, b.parent_id),
        tree::applied(t, a).1,
    ensures
        ({
            let x = b.parent_id;
            let ids = tree::dir_ids(a.nodes);
            let with_a = tree::grafted(t, t.dirs[a.parent_id] as int, a);
            let tasks_post = tree::flush_tasks(ids.skip(at + 1));
            let (m, taken) = parts;
            &&& tree::fits(with_a.nodes)
            &&& tree::settled(with_a, tree::flush_tasks(ids.take(at))) == (m, true)
            &&& tree::settled(m, seq![TaskView::Flush(x)]) == (taken, true)
            &&& m.dirs.contains_key(x)
            &&& m.orphans.dom().finite()
            &&& m.orphans.dom().subset_of(t.orphans.dom())
            &&& brought_by_none(m, x)
            &&& taken.dirs.contains_key(x) && taken.dirs[x] == m.dirs[x]
            &&& !taken.orphans.contains_key(x)
            &&& taken.orphans.dom().finite()
            &&& taken.orphans.dom().subset_of(t.orphans.dom())
            &&& tree::applied(t, a) == tree::settled(taken, tasks_post)
            &&& tree::applied(tree::applied(t, b).0, a) == tree::settled(
                taken,
                tasks_post + seq![TaskView::Graft(taken.dirs[x], b)],
            )
        }),
{
    let none = Seq::<TaskView>::empty();
    let x = b.parent_id;
    let p = t.dirs[a.parent_id];
    let ids = tree::dir_ids(a.nodes);
    let pre = ids.take(at);
    let post = ids.skip(at + 1);
    let early = tree::applied(t, b).0;
    assert(early == with_early(t, x, b));
    let graft_a = seq![TaskView::Graft(p, a)];
    assert(graft_a.drop_last() =~= none);
    assert(none + tree::flush_tasks(ids) =~= tree::flush_tasks(ids));
    let with_a = tree::grafted(t, p as int, a);
    assert(tree::grafted(early, p as int, a) == with_early(with_a, x, b));
    assert(tree::settled(t, graft_a) == tree::applied(t, a));
    assert(tree::fits(with_a.nodes));
    assert(tree::applied(t, a) == tree::settled(with_a, tree::flush_tasks(ids)));
    assert(tree::applied(early, a) == tree::settled(
        with_early(with_a, x, b),
        tree::flush_tasks(ids),
    ));
    tree::lemma_registered(t.dirs, a.nodes, t.nodes.len() as int);
    assert(with_a.dirs.contains_key(ids[at]));
    // The directories before it, then it, then those behind it.
    let tasks_pre = tree::flush_tasks(pre);
    let tasks_post = tree::flush_tasks(post);
    let flush = seq![TaskView::Flush(x)];
    let low = tasks_post + flush;
    assert(tree::flush_tasks(ids) =~= low + tasks_pre);
    assert(leaves(tasks_pre, x)) by {
        assert forall|k: int| 0 <= k < tasks_pre.len() implies match #[trigger] tasks_pre[k] {
            TaskView::Graft(_, b) => !tree::dir_ids(b.nodes).contains(x),
            TaskView::Flush(id) => id != x,
        } by {
            assert(pre[pre.len() - 1 - k] == ids[pre.len() - 1 - k]);
        }
    }
    lemma_in_turn(with_a, low, tasks_pre);
    lemma_in_turn(with_early(with_a, x, b), low, tasks_pre);
    lemma_done_around(with_a, tasks_pre, x, b);
    let m = tree::settled(with_a, tasks_pre).0;
    assert(tree::settled(with_a, tasks_pre).1);
    lemma_one_behind(m, tasks_post, x, b);
    lemma_in_turn(m, tasks_post, flush);
    let taken = tree::settled(m, flush).0;
    assert(tree::settled(m, flush).1);
    (m, taken)
}

/// A batch that comes before the one that brings its directory waits, and leads to the same tree as
/// one that comes after it. The directories that the first one brings are gone through in their order,
/// so this is said of where nothing waits for those behind the directory in question; and each
/// directory has an id of its own. On what waits behind but holds no entries see `quiet`, and on any order
/// at all see `arrival`.
pub proof fn law_early_batch_is_no_different(t: TreeView, a: BatchView, b: BatchView, at: int)
    requires
        tree::well_formed(t),
        t.dirs.contains_key(a.parent_id),
        !t.dirs.contains_key(b.parent_id),
        0 <= at < tree::dir_ids(a.nodes).len(),
        tree::dir_ids(a.nodes)[at] == b.parent_id,
        forall|k: int|
            0 <= k < tree::dir_ids(a.nodes).len() && k != at ==> (
            #[trigger] tree::dir_ids(a.nodes)[k]) != b.parent_id,
        brought_by_none(t, b.parent_id),
        none_waiting(t, tree::dir_ids(a.nodes).skip(at + 1)),
        tree::applied(t, a).1,
    ensures
        tree::applied(t, b).0.nodes == t.nodes,
        tree::applied(t, b).0.total_files == t.total_files,
        tree::applied(t, b).0.total_dirs == t.total_dirs,
        tree::applied(tree::applied(t, b).0, a) == tree::applied(tree::applied(t, a).0, b),
        !tree::applied(tree::applied(t, a).0, b).0.orphans.contains_key(b.parent_id),
        tree::applied(tree::applied(t, a).0, b).0.orphans.dom().subset_of(t.orphans.dom()),
{
    let none = Seq::<TaskView>::empty();
    let x = b.parent_id;
    let post = tree::dir_ids(a.nodes).skip(at + 1);
    let tasks_post = tree::flush_tasks(post);
    let (m, taken) = lemma_behind_it(t, a, b, at);
    lemma_flush_none_left(t, taken, post);
    assert(none + tasks_post =~= tasks_post);
    lemma_flush_nothing(taken, none, post);
    assert(tree::applied(t, a) == (taken, true));
    // The batch itself.
    let graft_b = seq![TaskView::Graft(m.dirs[x], b)];
    lemma_in_turn(taken, tasks_post, graft_b);
    let last = tree::settled(taken, graft_b).0;
    lemma_flush_none_left(t, last, post);
    lemma_flush_nothing(last, none, post);
    assert(tree::applied(taken, b) == tree::settled(taken, graft_b));
}

proof fn lemma_flush_none_left(t: TreeView, after: TreeView, ids: Seq<u64>)
    requires
        none_waiting(t, ids),
        after.orphans.dom().subset_of(t.orphans.dom()),
    ensures
        none_waiting(after, ids),
{
    assert forall|k: int| 0 <= k < ids.len() implies !after.orphans.contains_key(
        #[trigger] ids[k],
    ) by {
        assert(!t.orphans.contains_key(ids[k]));
        if after.orphans.contains_key(ids[k]) {
            assert(after.orphans.dom().contains(ids[k]));
            assert(t.orphans.dom().contains(ids[k]));
        }
    }
}

// ---- Nothing waits in vain ----------------------------------------------------------------------------

/// No batch waits for a directory that is known.
pub open spec fn none_in_vain(t: TreeView) -> bool {
    forall|id: u64| !(#[trigger] t.orphans.contains_key(id) && t.dirs.contains_key(id))
}

/// Whatever waits for a directory that is known is about to be taken up.
spec fn promised(t: TreeView, work: Seq<TaskView>) -> bool {
    forall|id: u64| #[trigger]
        t.orphans.contains_key(id) && t.dirs.contains_key(id) ==> work.contains(
            TaskView::Flush(id),
        )
}

pub proof fn lemma_dir_id_listed(entries: Seq<EntryView>, k: int)
    requires
        0 <= k < entries.len(),
        entries[k].dir_id is Some,
    ensures
        tree::dir_ids(entries).contains(entries[k].dir_id->0),
    decreases entries.len(),
{
    let ids = tree::dir_ids(entries);
    if k == entries.len() - 1 {
        assert(ids.last() == entries[k].dir_id->0);
    } else {
        let before = entries.drop_last();
        lemma_dir_id_listed(before, k);
        let m = choose|m: int|
            0 <= m < tree::dir_ids(before).len() && tree::dir_ids(before)[m]
                == entries[k].dir_id->0;
        assert(ids[m] == entries[k].dir_id->0);
    }
}

/// A task that is not the last one is among the rest, and stays there.
proof fn lemma_task_stays(work: Seq<TaskView>, more: Seq<TaskView>, task: TaskView)
    requires
        work.len() > 0,
        work.contains(task),
        work.last() != task,
    ensures
        work.drop_last().contains(task),
        (work.drop_last() + more).contains(task),
{
    let k = choose|k: int| 0 <= k < work.len() && work[k] == task;
    assert(work.drop_last()[k] == task);
    assert((work.drop_last() + more)[k] == task);
}

proof fn lemma_promises_are_kept(t: TreeView, work: Seq<TaskView>)
    requires
        tree::well_formed(t),
        tree::tasks_in_range(work, t.nodes.len() as int),
        promised(t, work),
        tree::settled(t, work).1,
    ensures
        none_in_vain(tree::settled(t, work).0),
    decreases t.orphans.dom().len(), tree::graft_tasks(work), work.len(),
{
    if work.len() > 0 {
        let rest = work.drop_last();
        assert(work[work.len() - 1] == work.last());
        match work.last() {
            TaskView::Graft(p, b) => {
                let next = tree::grafted(t, p as int, b);
                let ids = tree::dir_ids(b.nodes);
                let more = tree::flush_tasks(ids);
                tree::lemma_graft_tasks_add(rest, more);
                tree::lemma_flush_tasks(ids);
                assert(next.nodes.len() == t.nodes.len() + b.nodes.len());
                tree::lemma_grafted_wf(t, p as int, b);
                tree::lemma_registered(t.dirs, b.nodes, t.nodes.len() as int);
                assert forall|k: int| 0 <= k < (rest + more).len() implies ((
                #[trigger] (rest + more)[k]) matches TaskView::Graft(p, _) ==> p
                    < next.nodes.len()) by {
                    if k < rest.len() {
                        assert(work[k] == rest[k]);
                    }
                }
                assert forall|id: u64| #[trigger]
                    next.orphans.contains_key(id) && next.dirs.contains_key(id) implies (rest
                    + more).contains(TaskView::Flush(id)) by {
                    if t.dirs.contains_key(id) {
                        assert(t.orphans.contains_key(id));
                        lemma_task_stays(work, more, TaskView::Flush(id));
                    } else {
                        let at = next.dirs[id] - t.nodes.len();
                        assert(b.nodes[at].dir_id == Some(id));
                        lemma_dir_id_listed(b.nodes, at);
                        let m = choose|m: int| 0 <= m < ids.len() && ids[m] == id;
                        assert(more[ids.len() - 1 - m] == TaskView::Flush(id));
                        assert((rest + more)[rest.len() + (ids.len() - 1 - m)]
                            == TaskView::Flush(id));
                    }
                }
                lemma_promises_are_kept(next, rest + more);
            },
            TaskView::Flush(x) => {
                if t.orphans.contains_key(x) && t.dirs.contains_key(x) {
                    let next = TreeView { orphans: t.orphans.remove(x), ..t };
                    let more = tree::waiting_tasks(t.dirs[x], t.orphans[x]);
                    assert forall|k: int| 0 <= k < (rest + more).len() implies ((
                    #[trigger] (rest + more)[k]) matches TaskView::Graft(p, _) ==> p
                        < next.nodes.len()) by {
                        if k < rest.len() {
                            assert(work[k] == rest[k]);
                        }
                    }
                    assert forall|id: u64| #[trigger]
                        next.orphans.contains_key(id) && next.dirs.contains_key(id) implies (rest
                        + more).contains(TaskView::Flush(id)) by {
                        assert(t.orphans.contains_key(id));
                        lemma_task_stays(work, more, TaskView::Flush(id));
                    }
                    lemma_promises_are_kept(next, rest + more);
                } else {
                    assert forall|k: int| 0 <= k < rest.len() implies ((
                    #[trigger] rest[k]) matches TaskView::Graft(p, _) ==> p < t.nodes.len()) by {
                        assert(work[k] == rest[k]);
                    }
                    assert forall|id: u64| #[trigger]
                        t.orphans.contains_key(id) && t.dirs.contains_key(id) implies rest.contains(
                        TaskView::Flush(id),
                    ) by {
                        lemma_task_stays(work, Seq::empty(), TaskView::Flush(id));
                    }
                    lemma_promises_are_kept(t, rest);
                }
            },
        }
    } else {
        assert forall|id: u64| !(#[trigger] t.orphans.contains_key(id) && t.dirs.contains_key(id)) by {
            if t.orphans.contains_key(id) && t.dirs.contains_key(id) {
                assert(work.contains(TaskView::Flush(id)));
            }
        }
    }
}

/// No batch is left waiting for a directory that has become known: whatever waited for it was taken up
/// with it.
pub proof fn law_nothing_waits_in_vain(t: TreeView, b: BatchView)
    requires
        tree::well_formed(t),
        none_in_vain(t),
        tree::applied(t, b).1,
    ensures
        none_in_vain(tree::applied(t, b).0),
{
    if t.dirs.contains_key(b.parent_id) {
        let work = seq![TaskView::Graft(t.dirs[b.parent_id], b)];
        assert(promised(t, work));
        lemma_promises_are_kept(t, work);
    }
}

} // verus!
