//! A whole build: what holds of a tree however many batches and imported entries it was made of.
use vstd::prelude::*;

use crate::below;
use crate::edit;
use crate::totals;
use crate::tree;
use crate::tree::{BatchView, EntryView, NodeView, TaskView, TreeView};
use crate::upkeep;

verus! {

/// One thing that a tree is made of.
pub enum StepView {
    /// A batch arrives.
    Apply(BatchView),
    /// An entry is imported under a directory.
    Import(usize, EntryView),
}

/// The tree after one more step.
pub open spec fn stepped(t: TreeView, step: StepView) -> TreeView {
    match step {
        StepView::Apply(b) => tree::applied(t, b).0,
        StepView::Import(p, e) => edit::imported(t, p as int, e),
    }
}

/// The step can be taken: a batch is one that the scanner may report, and an entry is imported under a
/// directory that is there and in which it has room.
pub open spec fn possible(t: TreeView, step: StepView) -> bool {
    match step {
        StepView::Apply(b) => upkeep::valid_batch(b),
        StepView::Import(p, e) => {
            &&& p < t.nodes.len()
            &&& tree::is_dir(t.nodes[p as int])
            &&& 0 <= e.apparent <= u64::MAX
            &&& 0 <= e.disk <= u64::MAX
            &&& tree::fits(edit::imported(t, p as int, e).nodes)
        },
    }
}

/// The tree after one step and another.
pub open spec fn built(t: TreeView, steps: Seq<StepView>) -> TreeView
    decreases steps.len(),
{
    if steps.len() == 0 {
        t
    } else {
        stepped(built(t, steps.drop_last()), steps.last())
    }
}

/// Each of the steps can be taken when its turn comes.
pub open spec fn buildable(t: TreeView, steps: Seq<StepView>) -> bool
    decreases steps.len(),
{
    steps.len() == 0 || (buildable(t, steps.drop_last()) && possible(
        built(t, steps.drop_last()),
        steps.last(),
    ))
}

/// The entry comes with one of the steps.
pub open spec fn comes_with(steps: Seq<StepView>, e: EntryView) -> bool {
    exists|k: int| 0 <= k < steps.len() && #[trigger] holds_entry(steps[k], e)
}

pub open spec fn holds_entry(step: StepView, e: EntryView) -> bool {
    match step {
        StepView::Apply(b) => b.nodes.contains(e),
        StepView::Import(_, x) => x == e,
    }
}

/// The tree from which a build starts: a directory to be read, or one that is known in full.
pub open spec fn started(
    known: bool,
    name: Seq<char>,
    apparent: u64,
    disk: u64,
    dev: u64,
    ino: u64,
) -> TreeView {
    if known {
        edit::imported_root(name, apparent as int, disk as int, dev, ino)
    } else {
        tree::only_root(name, apparent as int, disk as int, dev, ino)
    }
}

/// Right in every respect, with nothing out of reach.
pub open spec fn sound(t: TreeView) -> bool {
    &&& totals::consistent(t)
    &&& upkeep::valid_waiting(t)
    &&& upkeep::good_index(t)
    &&& forall|j: int| 0 <= j < t.nodes.len() ==> #[trigger] totals::live(t.nodes, j)
}

/// Every batch that waits came with one of the steps.
spec fn all_wait_from(t: TreeView, steps: Seq<StepView>) -> bool {
    forall|id: u64, k: int|
        t.orphans.contains_key(id) && 0 <= k < t.orphans[id].len() ==> steps.contains(
            StepView::Apply(#[trigger] t.orphans[id][k]),
        )
}

/// The entry `j` came with one of the steps, and has the own size that it was found with.
pub open spec fn was_found(nodes: Seq<NodeView>, j: int, steps: Seq<StepView>) -> bool {
    exists|e: EntryView| #[trigger] comes_with(steps, e) && upkeep::is_as_found(nodes, j, e)
}

/// Every entry but the root was found.
spec fn all_found(t: TreeView, steps: Seq<StepView>) -> bool {
    forall|j: int| 0 < j < t.nodes.len() ==> #[trigger] was_found(t.nodes, j, steps)
}

proof fn lemma_started(
    known: bool,
    name: Seq<char>,
    apparent: u64,
    disk: u64,
    dev: u64,
    ino: u64,
)
    ensures
        sound(started(known, name, apparent, disk, dev, ino)),
        edit::own_apparent(started(known, name, apparent, disk, dev, ino).nodes, 0) == apparent,
        edit::own_disk(started(known, name, apparent, disk, dev, ino).nodes, 0) == disk,
{
    let t = started(known, name, apparent, disk, dev, ino);
    upkeep::law_fresh_totals(name, apparent, disk, dev, ino);
    assert forall|id: u64| #[trigger] t.dirs.contains_key(id) implies upkeep::good_home(
        t.nodes,
        t.dirs[id] as int,
    ) by {
        assert(id == 0);
    }
}

/// What waits after some work waited before.
pub proof fn lemma_waited_before(t: TreeView, work: Seq<TaskView>)
    requires
        t.orphans.dom().finite(),
    ensures
        forall|id: u64| #[trigger]
            tree::settled(t, work).0.orphans.contains_key(id) ==> t.orphans.contains_key(id)
                && tree::settled(t, work).0.orphans[id] == t.orphans[id],
    decreases t.orphans.dom().len(), tree::graft_tasks(work), work.len(),
{
    if work.len() > 0 {
        let rest = work.drop_last();
        match work.last() {
            TaskView::Graft(p, b) => {
                let next = tree::grafted(t, p as int, b);
                let more = tree::flush_tasks(tree::dir_ids(b.nodes));
                tree::lemma_graft_tasks_add(rest, more);
                tree::lemma_flush_tasks(tree::dir_ids(b.nodes));
                if tree::fits(next.nodes) {
                    lemma_waited_before(next, rest + more);
                    assert(tree::settled(t, work) == tree::settled(next, rest + more));
                } else {
                    assert(tree::settled(t, work).0 == t);
                }
            },
            TaskView::Flush(id) => {
                if t.orphans.contains_key(id) && t.dirs.contains_key(id) {
                    let next = TreeView { orphans: t.orphans.remove(id), ..t };
                    let more = tree::waiting_tasks(t.dirs[id], t.orphans[id]);
                    lemma_waited_before(next, rest + more);
                    let after = tree::settled(next, rest + more).0;
                    assert forall|i: u64| #[trigger] after.orphans.contains_key(
                        i,
                    ) implies t.orphans.contains_key(i) && after.orphans[i] == t.orphans[i] by {
                        assert(next.orphans.contains_key(i));
                    }
                    assert(tree::settled(t, work) == tree::settled(next, rest + more));
                } else {
                    lemma_waited_before(t, rest);
                    assert(tree::settled(t, work) == tree::settled(t, rest));
                }
            },
        }
    }
}

/// What came with earlier steps came with all of them.
proof fn lemma_comes_with_more(steps: Seq<StepView>, e: EntryView)
    requires
        steps.len() > 0,
        comes_with(steps.drop_last(), e),
    ensures
        comes_with(steps, e),
{
    let k = choose|k: int|
        0 <= k < steps.drop_last().len() && #[trigger] holds_entry(steps.drop_last()[k], e);
    assert(holds_entry(steps[k], e));
}

/// One step keeps everything right.
proof fn lemma_step_keeps(t: TreeView, step: StepView)
    requires
        sound(t),
        possible(t, step),
    ensures
        sound(stepped(t, step)),
        upkeep::live_kept(t.nodes, stepped(t, step).nodes),
        upkeep::own_kept(t.nodes, stepped(t, step).nodes),
{
    let after = stepped(t, step);
    match step {
        StepView::Apply(b) => {
            upkeep::law_apply_keeps_totals(t, b);
            assert forall|j: int| 0 <= j < after.nodes.len() implies #[trigger] totals::live(
                after.nodes,
                j,
            ) by {
                upkeep::law_own_sizes_stay_as_found(t, b, j);
                if j < t.nodes.len() {
                    assert(totals::live(t.nodes, j));
                }
            }
        },
        StepView::Import(p, e) => {
            assert(totals::live(t.nodes, p as int));
            upkeep::law_import_keeps_totals(t, p as int, e);
            assert forall|j: int| 0 <= j < after.nodes.len() implies #[trigger] totals::live(
                after.nodes,
                j,
            ) by {
                if j < t.nodes.len() {
                    assert(totals::live(t.nodes, j));
                }
            }
            assert forall|id: u64| #[trigger] after.dirs.contains_key(id) implies upkeep::good_home(
                after.nodes,
                after.dirs[id] as int,
            ) by {
                let at = t.dirs[id] as int;
                assert(upkeep::good_home(t.nodes, at));
                assert(totals::live(after.nodes, at) == totals::live(t.nodes, at));
            }
        },
    }
}

/// Every entry that one more step brings came with it, or with an earlier one and waited.
proof fn lemma_step_found(t: TreeView, steps: Seq<StepView>)
    requires
        sound(t),
        steps.len() > 0,
        possible(t, steps.last()),
        all_wait_from(t, steps.drop_last()),
        all_found(t, steps.drop_last()),
    ensures
        all_wait_from(stepped(t, steps.last()), steps),
        all_found(stepped(t, steps.last()), steps),
{
    let step = steps.last();
    let before = steps.drop_last();
    let after = stepped(t, step);
    lemma_step_keeps(t, step);
    assert forall|id: u64, k: int|
        after.orphans.contains_key(id) && 0 <= k < after.orphans[id].len() implies steps.contains(
        StepView::Apply(#[trigger] after.orphans[id][k]),
    ) by {
        let c = after.orphans[id][k];
        if step is Apply && t.dirs.contains_key(step->Apply_0.parent_id) {
            let b = step->Apply_0;
            lemma_waited_before(t, seq![TaskView::Graft(t.dirs[b.parent_id], b)]);
        }
        if t.orphans.contains_key(id) && k < t.orphans[id].len() && t.orphans[id][k] == c {
            assert(before.contains(StepView::Apply(t.orphans[id][k])));
            let m = choose|m: int| 0 <= m < before.len() && before[m] == StepView::Apply(c);
            assert(steps[m] == StepView::Apply(c));
        } else {
            assert(steps[steps.len() - 1] == StepView::Apply(c));
        }
    }
    assert forall|j: int| 0 < j < after.nodes.len() implies #[trigger] was_found(
        after.nodes,
        j,
        steps,
    ) by {
        if j < t.nodes.len() {
            assert(was_found(t.nodes, j, before));
            let e = choose|e: EntryView| #[trigger]
                comes_with(before, e) && upkeep::is_as_found(t.nodes, j, e);
            lemma_comes_with_more(steps, e);
            assert(totals::live(after.nodes, j) == totals::live(t.nodes, j));
            assert(upkeep::is_as_found(after.nodes, j, e));
        } else {
            lemma_new_found(t, steps, j);
        }
    }
}

proof fn lemma_new_found(t: TreeView, steps: Seq<StepView>, j: int)
    requires
        sound(t),
        steps.len() > 0,
        possible(t, steps.last()),
        all_wait_from(t, steps.drop_last()),
        t.nodes.len() <= j < stepped(t, steps.last()).nodes.len(),
    ensures
        was_found(stepped(t, steps.last()).nodes, j, steps),
{
    let step = steps.last();
    let before = steps.drop_last();
    let after = stepped(t, step);
    match step {
        StepView::Apply(b) => {
            upkeep::law_own_sizes_stay_as_found(t, b, j);
            let e = choose|e: EntryView| #[trigger]
                upkeep::is_brought(t, b, e) && upkeep::is_as_found(after.nodes, j, e);
            if b.nodes.contains(e) {
                assert(holds_entry(steps[steps.len() - 1], e));
            } else {
                let (id, k) = choose|id: u64, k: int|
                    t.orphans.contains_key(id) && 0 <= k < t.orphans[id].len()
                        && (#[trigger] t.orphans[id][k]).nodes.contains(e);
                let c = t.orphans[id][k];
                assert(before.contains(StepView::Apply(t.orphans[id][k])));
                let m = choose|m: int| 0 <= m < before.len() && before[m] == StepView::Apply(c);
                assert(holds_entry(steps[m], e));
            }
            assert(comes_with(steps, e));
        },
        StepView::Import(p, e) => {
            assert(totals::live(t.nodes, p as int));
            upkeep::law_import_keeps_totals(t, p as int, e);
            assert(holds_entry(steps[steps.len() - 1], e));
            assert(comes_with(steps, e));
        },
    }
}

/// The totals are right at every moment of a build: all that a tree holds can be reached, and from each
/// moment on every entry keeps its place, its name, its standing and its own size.
pub proof fn law_build_keeps_totals(t: TreeView, steps: Seq<StepView>, at: int)
    requires
        sound(t),
        buildable(t, steps),
        0 <= at <= steps.len(),
    ensures
        sound(built(t, steps)),
        sound(built(t, steps.take(at))),
        upkeep::live_kept(built(t, steps.take(at)).nodes, built(t, steps).nodes),
        upkeep::own_kept(built(t, steps.take(at)).nodes, built(t, steps).nodes),
    decreases steps.len(),
{
    assert(steps.take(steps.len() as int) =~= steps);
    if steps.len() > 0 {
        let before = steps.drop_last();
        if at < steps.len() {
            assert(before.take(at) =~= steps.take(at));
            law_build_keeps_totals(t, before, at);
        } else {
            law_build_keeps_totals(t, before, 0);
        }
        lemma_step_keeps(built(t, before), steps.last());
        if at < steps.len() {
            upkeep::lemma_kept_trans(
                built(t, steps.take(at)).nodes,
                built(t, before).nodes,
                built(t, steps).nodes,
            );
        }
    }
}

proof fn lemma_build_found(t: TreeView, steps: Seq<StepView>)
    requires
        sound(t),
        t.nodes.len() == 1,
        t.orphans == Map::<u64, Seq<BatchView>>::empty(),
        buildable(t, steps),
    ensures
        sound(built(t, steps)),
        all_wait_from(built(t, steps), steps),
        all_found(built(t, steps), steps),
    decreases steps.len(),
{
    if steps.len() > 0 {
        lemma_build_found(t, steps.drop_last());
        lemma_step_keeps(built(t, steps.drop_last()), steps.last());
        lemma_step_found(built(t, steps.drop_last()), steps);
    }
}

/// However a tree was built, from its root on: the root keeps the own size that it was made with, every
/// other entry is one that came with a step and has the own size that it was found with, and the root's
/// size is the sum of the own sizes of all that counts. Where everything counts, that is the sum of
/// all own sizes.
pub proof fn law_build_sums_up(
    known: bool,
    name: Seq<char>,
    apparent: u64,
    disk: u64,
    dev: u64,
    ino: u64,
    steps: Seq<StepView>,
)
    requires
        buildable(started(known, name, apparent, disk, dev, ino), steps),
    ensures
        ({
            let t = built(started(known, name, apparent, disk, dev, ino), steps);
            let n = t.nodes.len() as int;
            &&& sound(t)
            &&& edit::own_apparent(t.nodes, 0) == apparent
            &&& edit::own_disk(t.nodes, 0) == disk
            &&& forall|j: int| 0 < j < n ==> #[trigger] was_found(t.nodes, j, steps)
            &&& t.nodes[0].apparent == below::sum_range(
                totals::counted_own_apparent(t.nodes, 0),
                n,
            )
            &&& t.nodes[0].disk == below::sum_range(totals::counted_own_disk(t.nodes, 0), n)
            &&& (forall|j: int| 0 <= j < n ==> tree::counts(#[trigger] t.nodes[j])) ==> {
                &&& t.nodes[0].apparent == below::sum_range(
                    |j: int| edit::own_apparent(t.nodes, j),
                    n,
                )
                &&& t.nodes[0].disk == below::sum_range(|j: int| edit::own_disk(t.nodes, j), n)
            }
        }),
{
    let start = started(known, name, apparent, disk, dev, ino);
    let t = built(start, steps);
    lemma_started(known, name, apparent, disk, dev, ino);
    lemma_build_found(start, steps);
    law_build_keeps_totals(start, steps, 0);
    assert(steps.take(0) =~= Seq::empty());
    assert(totals::live(t.nodes, 0));
    totals::law_aggregate_is_sum_of_own_sizes(t, 0);
    lemma_sum_of_all(t.nodes, totals::counted_own_apparent(t.nodes, 0));
    lemma_sum_of_all(t.nodes, totals::counted_own_disk(t.nodes, 0));
    if forall|j: int| 0 <= j < t.nodes.len() ==> tree::counts(#[trigger] t.nodes[j]) {
        totals::law_root_is_sum_of_all_own_sizes(t);
    }
}

/// Where everything can be reached, a sum over what can be reached is one over all.
proof fn lemma_sum_of_all(nodes: Seq<NodeView>, f: spec_fn(int) -> int)
    requires
        forall|j: int| 0 <= j < nodes.len() ==> #[trigger] totals::live(nodes, j),
    ensures
        below::sum_under(nodes, 0, f) == below::sum_range(f, nodes.len() as int),
{
    let g = |j: int|
        if below::under(nodes, j, 0) {
            f(j)
        } else {
            0
        };
    assert forall|j: int| 0 <= j < nodes.len() implies #[trigger] g(j) == f(j) by {
        assert(totals::live(nodes, j));
    }
    below::lemma_sum_range_same(g, f, nodes.len() as int);
}

} // verus!
