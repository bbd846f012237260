//! What each operation changes in the tree and in the state of the program, told entry by entry.
use vstd::prelude::*;

use crate::below;
use crate::browse;
use crate::edit;
use crate::model::{Excluded, NodeKind};
use crate::outside::Polled;
use crate::state;
use crate::state::AppView;
use crate::text;
use crate::totals;
use crate::tree;
use crate::tree::{BatchView, EntryView, NodeView, TreeView};

verus! {

// ---- Batches ----------------------------------------------------------------------------------------------

/// Two entries differ in nothing but sizes, lists and what is known of their reading.
pub open spec fn same_entry(a: NodeView, b: NodeView) -> bool {
    &&& a.name == b.name
    &&& a.kind == b.kind
    &&& a.parent == b.parent
    &&& a.dev == b.dev
    &&& a.ino == b.ino
    &&& a.hlink == b.hlink
    &&& a.shared == b.shared
    &&& a.excluded == b.excluded
}

/// A found entry joins the tree as it was found, behind everything that is there, in the directory that
/// it was found in and behind what is listed there; a directory that will be gone into waits to be read.
pub proof fn law_entries_join_the_tree(nodes: Seq<NodeView>, p: int, b: BatchView, k: int)
    requires
        0 <= p < nodes.len(),
        0 <= k < b.nodes.len(),
        nodes.len() + b.nodes.len() <= usize::MAX,
    ensures
        ({
            let after = tree::with_batch(nodes, p, b);
            let n = after[nodes.len() + k];
            let e = b.nodes[k];
            &&& after.len() == nodes.len() + b.nodes.len()
            &&& n.name == e.name && n.kind == e.kind
            &&& n.apparent == e.apparent && n.disk == e.disk
            &&& n.dev == e.dev && n.ino == e.ino
            &&& n.hlink == e.hlink && n.shared == e.shared
            &&& n.excluded == e.excluded && n.read_error == e.read_error
            &&& n.parent == Some(p as usize)
            &&& n.children.len() == 0
            &&& !n.scanned
            &&& n.unscanned == (if e.dir_id is Some {
                1int
            } else {
                0
            })
            &&& after[p].children.len() == nodes[p].children.len() + b.nodes.len()
            &&& after[p].children.take(nodes[p].children.len() as int) == nodes[p].children
            &&& after[p].children[nodes[p].children.len() + k] == nodes.len() + k
        }),
{
    let after = tree::with_batch(nodes, p, b);
    assert(after[p].children.take(nodes[p].children.len() as int) =~= nodes[p].children);
}

/// What is there already stays as it is, the directories above the batch aside, of which only the sizes
/// and the counts change; the directory of the batch is read then, with an error if there was one.
pub proof fn law_batches_leave_the_rest(nodes: Seq<NodeView>, p: int, b: BatchView, i: int)
    requires
        0 <= p < nodes.len(),
        0 <= i < nodes.len(),
    ensures
        ({
            let after = tree::with_batch(nodes, p, b);
            &&& same_entry(after[i], nodes[i])
            &&& i != p ==> {
                &&& after[i].children == nodes[i].children
                &&& after[i].scanned == nodes[i].scanned
                &&& after[i].read_error == nodes[i].read_error
            }
            &&& !tree::above(nodes, i, p) && !tree::charged(nodes, i, p) ==> after[i] == nodes[i]
            &&& after[p].scanned
            &&& after[p].read_error <==> nodes[p].read_error || b.failed
        }),
{
}

/// What entries add is what each of them adds: its size if it is neither a duplicate nor left out, and
/// nothing otherwise; and a directory that will be gone into is found again at its place, under its id.
pub proof fn law_each_entry_adds_its_size(
    entries: Seq<EntryView>,
    e: EntryView,
    dirs: Map<u64, usize>,
    base: int,
)
    ensures
        ({
            let more = entries + seq![e];
            let counts = !e.shared && e.excluded == Excluded::No;
            &&& counts ==> {
                &&& tree::counted_apparent(more) == tree::counted_apparent(entries) + e.apparent
                &&& tree::counted_disk(more) == tree::counted_disk(entries) + e.disk
            }
            &&& !counts ==> {
                &&& tree::counted_apparent(more) == tree::counted_apparent(entries)
                &&& tree::counted_disk(more) == tree::counted_disk(entries)
            }
            &&& e.kind == NodeKind::Dir ==> tree::dir_entries(more) == tree::dir_entries(entries) + 1
            &&& e.kind != NodeKind::Dir ==> tree::dir_entries(more) == tree::dir_entries(entries)
            &&& e.dir_id is Some ==> tree::dir_ids(more) == tree::dir_ids(entries).push(e.dir_id->0)
            &&& e.dir_id is None ==> tree::dir_ids(more) == tree::dir_ids(entries)
            &&& e.dir_id is Some ==> tree::registered(dirs, more, base) == tree::registered(
                dirs,
                entries,
                base,
            ).insert(e.dir_id->0, (base + entries.len()) as usize)
            &&& e.dir_id is None ==> tree::registered(dirs, more, base) == tree::registered(
                dirs,
                entries,
                base,
            )
        }),
        tree::counted_apparent(Seq::empty()) == 0,
        tree::counted_disk(Seq::empty()) == 0,
        tree::dir_entries(Seq::empty()) == 0,
        tree::dir_ids(Seq::empty()) == Seq::<u64>::empty(),
        tree::registered(dirs, Seq::empty(), base) == dirs,
{
    let more = entries + seq![e];
    assert(more.drop_last() =~= entries);
}

proof fn lemma_charged_above(nodes: Seq<NodeView>, q: int, p: int)
    ensures
        tree::charged(nodes, q, p) ==> tree::above(nodes, q, p),
        tree::above(nodes, q, p) && p >= 0 ==> q <= p,
    decreases p,
{
    if q != p && 0 <= p < nodes.len() && nodes[p].parent is Some && nodes[p].parent->0 < p {
        lemma_charged_above(nodes, q, nodes[p].parent->0 as int);
    }
}

proof fn lemma_next_above(nodes: Seq<NodeView>, q: int, p: int)
    requires
        0 <= q < nodes.len(),
        0 <= p < nodes.len(),
        nodes[q].parent is Some,
        nodes[q].parent->0 < q,
        tree::above(nodes, q, p),
    ensures
        ({
            let g = nodes[q].parent->0 as int;
            &&& tree::above(nodes, g, p)
            &&& tree::charged(nodes, g, p) <==> tree::charged(nodes, q, p) && tree::counts(nodes[q])
        }),
    decreases p,
{
    let g = nodes[q].parent->0 as int;
    lemma_charged_above(nodes, q, p);
    if q == p {
        assert(tree::charged(nodes, g, g));
        assert(tree::above(nodes, g, g));
    } else {
        let up = nodes[p].parent->0 as int;
        lemma_next_above(nodes, q, up);
        lemma_charged_above(nodes, q, up);
    }
}

/// Where a batch is put in, its directory grows by what counts in it. What a directory above grows by is
/// what the one below it grows by, unless that one does not count: then it does not grow at all.
pub proof fn law_sizes_add_up_on_the_way(nodes: Seq<NodeView>, p: int, b: BatchView, q: int)
    requires
        tree::fits(nodes),
        0 <= p < nodes.len(),
        0 <= q < nodes.len(),
        nodes[q].parent is Some,
        nodes[q].parent->0 < q,
        tree::above(nodes, q, p),
        tree::counted_apparent(b.nodes) >= 0,
        tree::counted_disk(b.nodes) >= 0,
    ensures
        ({
            let after = tree::with_batch(nodes, p, b);
            let g = nodes[q].parent->0 as int;
            let goes_on = !nodes[q].shared && nodes[q].excluded == Excluded::No;
            &&& after[p].apparent == nodes[p].apparent + tree::counted_apparent(b.nodes)
            &&& after[p].disk == nodes[p].disk + tree::counted_disk(b.nodes)
            &&& goes_on ==> after[g].apparent - nodes[g].apparent == after[q].apparent
                - nodes[q].apparent
            &&& goes_on ==> after[g].disk - nodes[g].disk == after[q].disk - nodes[q].disk
            &&& !goes_on ==> after[g].apparent == nodes[g].apparent && after[g].disk == nodes[g].disk
        }),
{
    let g = nodes[q].parent->0 as int;
    lemma_next_above(nodes, q, p);
    lemma_charged_above(nodes, g, p);
    lemma_charged_above(nodes, q, p);
    assert(tree::charged(nodes, p, p));
}

/// A batch for a directory that is not known yet changes nothing: it waits, behind what waits already.
pub proof fn law_early_batches_wait(t: TreeView, b: BatchView)
    requires
        !t.dirs.contains_key(b.parent_id),
    ensures
        ({
            let (after, done) = tree::applied(t, b);
            &&& done
            &&& after.nodes == t.nodes
            &&& after.dirs == t.dirs
            &&& after.total_dirs == t.total_dirs && after.total_files == t.total_files
            &&& after.orphans.contains_key(b.parent_id)
            &&& after.orphans[b.parent_id].last() == b
            &&& t.orphans.contains_key(b.parent_id) ==> after.orphans[b.parent_id].drop_last()
                == t.orphans[b.parent_id]
            &&& forall|id: u64|
                id != b.parent_id && #[trigger] t.orphans.contains_key(id)
                    ==> after.orphans.contains_key(id) && after.orphans[id] == t.orphans[id]
        }),
{
    if t.orphans.contains_key(b.parent_id) {
        assert(t.orphans[b.parent_id].push(b).drop_last() =~= t.orphans[b.parent_id]);
    }
}

/// A batch counts its directories as directories and everything else as files.
pub proof fn law_counters_count(t: TreeView, p: int, b: BatchView)
    ensures
        ({
            let after = tree::grafted(t, p, b);
            let more = after.total_dirs - t.total_dirs;
            &&& more == tree::dir_entries(b.nodes)
            &&& after.total_dirs + after.total_files == t.total_dirs + t.total_files + b.nodes.len()
        }),
{
}

// ---- Paths ------------------------------------------------------------------------------------------------

/// The path of the root is its name; the path of anything else is that of its directory, a separator and
/// its name, with one separator between them also where the path of the directory ends in one.
pub proof fn law_paths_are_joined_by_one_separator(nodes: Seq<NodeView>, i: int)
    ensures
        nodes[i].parent is None ==> edit::path(nodes, i) == nodes[i].name,
        nodes[i].parent is Some && nodes[i].parent->0 < i ==> ({
            let dir = edit::path(nodes, nodes[i].parent->0 as int);
            let ended = dir.len() > 0 && dir[dir.len() - 1] == '/';
            &&& ended ==> edit::path(nodes, i) == dir + nodes[i].name
            &&& !ended ==> edit::path(nodes, i) == dir + seq!['/'] + nodes[i].name
        }),
{
    if nodes[i].parent is Some && nodes[i].parent->0 < i {
        let dir = edit::path(nodes, nodes[i].parent->0 as int);
        assert(dir.push('/') =~= dir + seq!['/']);
    }
}

// ---- Deletions --------------------------------------------------------------------------------------------

proof fn lemma_filtered(list: Seq<usize>, i: int)
    ensures
        forall|c: usize| #[trigger]
            list.filter(edit::other_than(i)).contains(c) <==> list.contains(c) && c != i,
    decreases list.len(),
{
    reveal(Seq::filter);
    if list.len() > 0 {
        let less = list.drop_last();
        lemma_filtered(less, i);
        let before = less.filter(edit::other_than(i));
        let all = list.filter(edit::other_than(i));
        assert forall|c: usize| #[trigger] all.contains(c) <==> list.contains(c) && c != i by {
            assert(list.contains(c) <==> less.contains(c) || list.last() == c) by {
                if less.contains(c) {
                    let k = choose|k: int| 0 <= k < less.len() && less[k] == c;
                    assert(list[k] == c);
                }
                if list.last() == c {
                    assert(list[list.len() - 1] == c);
                }
                if list.contains(c) && list.last() != c {
                    let k = choose|k: int| 0 <= k < list.len() && list[k] == c;
                    assert(less[k] == c);
                }
            }
            if list.last() != i {
                assert(all == before.push(list.last()));
                assert(all.contains(c) <==> before.contains(c) || list.last() == c) by {
                    if before.contains(c) {
                        let k = choose|k: int| 0 <= k < before.len() && before[k] == c;
                        assert(all[k] == c);
                    }
                    if list.last() == c {
                        assert(all[all.len() - 1] == c);
                    }
                    if all.contains(c) && list.last() != c {
                        let k = choose|k: int| 0 <= k < all.len() && all[k] == c;
                        assert(before[k] == c);
                    }
                }
            }
        }
    }
}

proof fn lemma_above_same(a: Seq<NodeView>, b: Seq<NodeView>, q: int, p: int)
    requires
        a.len() == b.len(),
        forall|j: int| 0 <= j < a.len() ==> same_entry(#[trigger] a[j], b[j]),
    ensures
        tree::above(a, q, p) == tree::above(b, q, p),
        tree::charged(a, q, p) == tree::charged(b, q, p),
    decreases p,
{
    if q != p && 0 <= p < a.len() {
        assert(same_entry(a[p], b[p]));
        if a[p].parent is Some && a[p].parent->0 < p {
            lemma_above_same(a, b, q, a[p].parent->0 as int);
        }
    }
}

/// Deleting an entry takes it off the list of its directory, and nothing else off any list; what it
/// counted with is gone from its directory, and nothing is where it did not count.
pub proof fn law_deletions_take_one_entry(nodes: Seq<NodeView>, i: int, j: int)
    requires
        0 <= i < nodes.len(),
        0 <= j < nodes.len(),
        nodes[i].parent is Some,
        nodes[i].parent->0 < nodes.len(),
        nodes[nodes[i].parent->0 as int].apparent >= nodes[i].apparent,
        nodes[nodes[i].parent->0 as int].disk >= nodes[i].disk,
    ensures
        ({
            let after = edit::without(nodes, i);
            let p = nodes[i].parent->0 as int;
            let counted = !nodes[i].shared && nodes[i].excluded == Excluded::No;
            &&& after.len() == nodes.len()
            &&& same_entry(after[j], nodes[j])
            &&& j != p ==> after[j].children == nodes[j].children
            &&& forall|c: usize| #[trigger]
                after[p].children.contains(c) <==> nodes[p].children.contains(c) && c != i
            &&& counted ==> {
                &&& after[p].apparent == nodes[p].apparent - nodes[i].apparent
                &&& after[p].disk == nodes[p].disk - nodes[i].disk
            }
            &&& !counted && j != p ==> after[j] == nodes[j]
            &&& !counted ==> after[p].apparent == nodes[p].apparent && after[p].disk == nodes[p].disk
            &&& !tree::above(nodes, j, p) ==> after[j] == nodes[j]
        }),
{
    let p = nodes[i].parent->0 as int;
    let cut = edit::unlisted(nodes, p, i);
    lemma_filtered(nodes[p].children, i);
    lemma_above_same(cut, nodes, j, p);
    lemma_charged_above(nodes, j, p);
    assert(tree::charged(cut, p, p));
    assert(tree::above(nodes, p, p));
}

/// What a deletion takes from a directory above is what it takes from the one below it, unless that one
/// does not count.
pub proof fn law_deletions_add_up_on_the_way(nodes: Seq<NodeView>, i: int, q: int)
    requires
        0 <= i < nodes.len(),
        0 <= q < nodes.len(),
        nodes[i].parent is Some,
        nodes[i].parent->0 < nodes.len(),
        !nodes[i].shared && nodes[i].excluded == Excluded::No,
        nodes[q].parent is Some,
        nodes[q].parent->0 < q,
        tree::above(nodes, q, nodes[i].parent->0 as int),
        nodes[q].apparent >= nodes[i].apparent && nodes[q].disk >= nodes[i].disk,
        nodes[nodes[q].parent->0 as int].apparent >= nodes[i].apparent,
        nodes[nodes[q].parent->0 as int].disk >= nodes[i].disk,
    ensures
        ({
            let after = edit::without(nodes, i);
            let g = nodes[q].parent->0 as int;
            let goes_on = !nodes[q].shared && nodes[q].excluded == Excluded::No;
            &&& goes_on ==> nodes[g].apparent - after[g].apparent == nodes[q].apparent
                - after[q].apparent
            &&& goes_on ==> nodes[g].disk - after[g].disk == nodes[q].disk - after[q].disk
            &&& !goes_on ==> after[g].apparent == nodes[g].apparent && after[g].disk == nodes[g].disk
        }),
{
    let p = nodes[i].parent->0 as int;
    let g = nodes[q].parent->0 as int;
    let cut = edit::unlisted(nodes, p, i);
    lemma_next_above(nodes, q, p);
    lemma_above_same(cut, nodes, q, p);
    lemma_above_same(cut, nodes, g, p);
}

/// A deletion that ends: one that went well takes the entry out of the tree and selects what stands in
/// its place, or the last row; one that failed leaves the tree and the selection. Either way another one
/// may start, and the user is told.
pub proof fn law_deletions_end(a: AppView, idx: usize, path: Seq<char>, why: Seq<char>, p: int)
    requires
        a.deleting == Some((idx, path)),
        state::shown(a).no_duplicates(),
        0 <= p < state::shown(a).len(),
        state::shown(a)[p] == idx,
    ensures
        ({
            let gone = state::delete_ended(a, Ok(()));
            let kept = state::delete_ended(a, Err(why));
            let rows = state::shown(gone);
            &&& gone.deleting is None && kept.deleting is None
            &&& !gone.quit_armed && !kept.quit_armed
            &&& gone.tree == edit::deleted(a.tree, idx as int)
            &&& gone.cur == a.cur && gone.filter == a.filter
            &&& p < rows.len() ==> gone.selected == Some(rows[p])
            &&& 0 < rows.len() <= p ==> gone.selected == Some(rows[rows.len() - 1])
            &&& rows.len() == 0 ==> gone.selected is None
            &&& gone.status == Some("deleted "@ + path)
            &&& kept.tree == a.tree && kept.selected == a.selected
            &&& kept.status == Some("delete failed: "@ + why)
        }),
{
    let over = AppView { deleting: None, quit_armed: false, ..a };
    assert(state::shown(over) == state::shown(a));
    browse::lemma_position(state::shown(a), p);
    let gone = AppView { tree: edit::deleted(a.tree, idx as int), ..over };
    let end = state::delete_ended(a, Ok(()));
    assert(state::shown(end) == state::shown(gone));
}

// ---- Rescans, imports and what else arrives ---------------------------------------------------------------

/// A directory that is to be read again has no entries, only its own size, and waits to be read, under the
/// id of the new scan; it is the same directory in the same place.
pub proof fn law_rescans_start_from_nothing(t: TreeView, i: int, id_base: u64)
    requires
        0 <= i < t.nodes.len() <= usize::MAX,
    ensures
        ({
            let after = edit::refreshed(t, i, id_base);
            let n = after.nodes[i];
            &&& same_entry(n, t.nodes[i])
            &&& n.children.len() == 0
            &&& n.apparent == edit::own_apparent(t.nodes, i)
            &&& n.disk == edit::own_disk(t.nodes, i)
            &&& !n.scanned && !n.read_error && n.unscanned == 1
            &&& after.dirs.contains_key(id_base) && after.dirs[id_base] == i
            &&& after.nodes.len() == t.nodes.len()
        }),
{
}

/// An imported entry is known in full: it joins its directory at the end of its list, as it was read, and
/// adds its size where it counts.
pub proof fn law_imported_entries_are_known(t: TreeView, p: int, e: EntryView)
    requires
        0 <= p < t.nodes.len() < usize::MAX,
        tree::fits(t.nodes),
        e.apparent >= 0 && e.disk >= 0,
    ensures
        ({
            let after = edit::imported(t, p, e);
            let n = after.nodes[t.nodes.len() as int];
            let counts = !e.shared && e.excluded == Excluded::No;
            &&& after.nodes.len() == t.nodes.len() + 1
            &&& n.name == e.name && n.kind == e.kind
            &&& n.apparent == e.apparent && n.disk == e.disk
            &&& n.dev == e.dev && n.ino == e.ino
            &&& n.hlink == e.hlink && n.shared == e.shared
            &&& n.excluded == e.excluded && n.read_error == e.read_error
            &&& n.parent == Some(p as usize)
            &&& n.scanned && n.unscanned == 0
            &&& after.nodes[p].children == t.nodes[p].children + seq![t.nodes.len() as usize]
            &&& counts ==> after.nodes[p].apparent == t.nodes[p].apparent + e.apparent
            &&& counts ==> after.nodes[p].disk == t.nodes[p].disk + e.disk
            &&& !counts ==> after.nodes[p].apparent == t.nodes[p].apparent && after.nodes[p].disk
                == t.nodes[p].disk
            &&& e.kind == NodeKind::Dir ==> after.total_dirs == t.total_dirs + 1
                && after.total_files == t.total_files
            &&& e.kind != NodeKind::Dir ==> after.total_dirs == t.total_dirs && after.total_files
                == t.total_files + 1
        }),
{
    assert(tree::charged(t.nodes, p, p));
    let after = edit::imported(t, p, e);
    assert(after.nodes[p].children =~= t.nodes[p].children + seq![t.nodes.len() as usize]);
}

/// The own size of an entry and the sizes of those of its children that count make up its size.
pub proof fn law_own_size_is_what_children_leave(nodes: Seq<NodeView>, i: int)
    ensures
        ({
            let counts = |c: int| !nodes[c].shared && nodes[c].excluded == Excluded::No;
            let logical = |c: int|
                if counts(c) {
                    nodes[c].apparent
                } else {
                    0
                };
            let on_disk = |c: int|
                if counts(c) {
                    nodes[c].disk
                } else {
                    0
                };
            let kids = nodes[i].children;
            &&& below::sum_list(kids, logical) <= nodes[i].apparent ==> edit::own_apparent(nodes, i)
                + below::sum_list(kids, logical) == nodes[i].apparent
            &&& below::sum_list(kids, on_disk) <= nodes[i].disk ==> edit::own_disk(nodes, i)
                + below::sum_list(kids, on_disk) == nodes[i].disk
        }),
{
    let counts = |c: int| !nodes[c].shared && nodes[c].excluded == Excluded::No;
    let logical = |c: int|
        if counts(c) {
            nodes[c].apparent
        } else {
            0
        };
    let on_disk = |c: int|
        if counts(c) {
            nodes[c].disk
        } else {
            0
        };
    below::lemma_sum_list_same(nodes[i].children, logical, edit::apparent_share(nodes));
    below::lemma_sum_list_same(nodes[i].children, on_disk, edit::disk_share(nodes));
}

/// Bytes per second: never more than were seen in the time, and no whole byte less; within the first
/// second all that were seen.
pub proof fn law_rates_are_bytes_by_seconds(bytes: int, secs: int)
    requires
        0 <= bytes,
    ensures
        secs >= 1 ==> state::rate(bytes, secs) * secs <= bytes < (state::rate(bytes, secs) + 1) * secs,
        secs < 1 ==> state::rate(bytes, secs) == bytes,
{
    if secs >= 1 {
        let r = state::rate(bytes, secs);
        assert(r * secs <= bytes && bytes < (r + 1) * secs) by (nonlinear_arith)
            requires
                r == bytes / secs,
                secs >= 1,
        ;
    }
}

/// A batch that arrives adds the logical size of what counts in it to the bytes that were seen, and
/// touches neither the view nor the selection.
pub proof fn law_arrivals_are_added_up(a: AppView, b: BatchView)
    requires
        a.bytes_seen + tree::counted_apparent(b.nodes) <= u64::MAX,
    ensures
        ({
            let (after, _) = state::received(a, b);
            &&& after.bytes_seen == a.bytes_seen + tree::counted_apparent(b.nodes)
            &&& after.cur == a.cur && after.selected == a.selected && after.filter == a.filter
            &&& after.modal == a.modal && after.status == a.status
            &&& after.tree == tree::applied(a.tree, b).0
        }),
{
}

/// The scan is over once no stream is alive any more, and not before; a rescan is over once its stream
/// is, and this is said.
pub proof fn law_scans_end_with_their_streams(a: AppView)
    ensures
        ({
            let after = state::scans_settled(a);
            let alive = exists|k: int| 0 <= k < a.scans.len() && (#[trigger] a.scans[k]).1;
            let rescans = exists|k: int|
                0 <= k < a.scans.len() && (#[trigger] a.scans[k]).1 && a.scans[k].0;
            &&& alive ==> after.scanning == a.scanning
            &&& !alive ==> !after.scanning
            &&& rescans ==> after.refreshing_idx == a.refreshing_idx
            &&& !rescans ==> after.refreshing_idx is None
            &&& !rescans && a.refreshing_idx is Some ==> after.status == Some(
                "rescanned "@ + edit::path(a.tree.nodes, a.refreshing_idx->0 as int),
            )
            &&& after.tree.nodes == a.tree.nodes
            &&& after.cur == a.cur && after.selected == a.selected
        }),
{
}

proof fn lemma_opens_left(
    opening: Seq<Seq<char>>,
    outcomes: Seq<Option<Result<(), Seq<char>>>>,
    x: Seq<char>,
)
    requires
        opening.len() == outcomes.len(),
    ensures
        state::opens_left(opening, outcomes).contains(x) <==> exists|k: int|
            0 <= k < opening.len() && #[trigger] opening[k] == x && outcomes[k] is None,
    decreases opening.len(),
{
    if opening.len() > 0 {
        let less = opening.drop_last();
        let fewer = outcomes.drop_last();
        lemma_opens_left(less, fewer, x);
        let before = state::opens_left(less, fewer);
        let all = state::opens_left(opening, outcomes);
        if before.contains(x) {
            let k = choose|k: int|
                0 <= k < less.len() && #[trigger] less[k] == x && fewer[k] is None;
            assert(opening[k] == x && outcomes[k] is None);
            let m = choose|m: int| 0 <= m < before.len() && before[m] == x;
            assert(all[m] == x);
        }
        if outcomes.last() is None && opening.last() == x {
            assert(opening[opening.len() - 1] == x);
            assert(all[all.len() - 1] == x);
        }
        if all.contains(x) && !before.contains(x) {
            let m = choose|m: int| 0 <= m < all.len() && all[m] == x;
            if m < before.len() {
                assert(before[m] == x);
            }
        }
        if exists|k: int| 0 <= k < opening.len() && #[trigger] opening[k] == x && outcomes[k] is None {
            let k = choose|k: int|
                0 <= k < opening.len() && #[trigger] opening[k] == x && outcomes[k] is None;
            if k < less.len() {
                assert(less[k] == x && fewer[k] is None);
            }
        }
    }
}

/// Of the opens that were looked at just those go on that have not ended; the last one that has ended is
/// told of, by its path if it went well and with the reason if it did not.
pub proof fn law_opens_that_ended_are_told_of(
    a: AppView,
    outcomes: Seq<Option<Result<(), Seq<char>>>>,
    x: Seq<char>,
    k: int,
    why: Seq<char>,
)
    requires
        a.opening.len() == outcomes.len(),
    ensures
        ({
            let after = state::opens_settled(a, outcomes);
            let last = 0 <= k < outcomes.len() && forall|m: int|
                k < m < outcomes.len() ==> (#[trigger] outcomes[m]) is None;
            &&& after.opening.contains(x) <==> exists|m: int|
                0 <= m < a.opening.len() && #[trigger] a.opening[m] == x && outcomes[m] is None
            &&& last && outcomes[k] == Some(Ok::<(), Seq<char>>(())) ==> after.status == Some(
                "opened "@ + a.opening[k],
            )
            &&& last && outcomes[k] == Some(Err::<(), Seq<char>>(why)) ==> after.status == Some(
                "open failed: "@ + why,
            )
            &&& (forall|m: int| 0 <= m < outcomes.len() ==> (#[trigger] outcomes[m]) is None)
                ==> after.status == a.status
        }),
{
    lemma_opens_left(a.opening, outcomes, x);
    if 0 <= k < outcomes.len() && forall|m: int|
        k < m < outcomes.len() ==> (#[trigger] outcomes[m]) is None {
        lemma_opens_said(a.status, a.opening, outcomes, k);
    }
    if forall|m: int| 0 <= m < outcomes.len() ==> (#[trigger] outcomes[m]) is None {
        lemma_opens_said(a.status, a.opening, outcomes, -1);
    }
}

proof fn lemma_opens_said(
    status: Option<Seq<char>>,
    opening: Seq<Seq<char>>,
    outcomes: Seq<Option<Result<(), Seq<char>>>>,
    k: int,
)
    requires
        opening.len() == outcomes.len(),
        -1 <= k < outcomes.len(),
        forall|m: int| k < m < outcomes.len() ==> (#[trigger] outcomes[m]) is None,
    ensures
        k >= 0 && outcomes[k] is Some ==> state::opens_said(status, opening, outcomes) == Some(
            state::open_message(opening[k], outcomes[k]->0),
        ),
        k == -1 ==> state::opens_said(status, opening, outcomes) == status,
    decreases opening.len(),
{
    if opening.len() > 0 && k < outcomes.len() - 1 {
        assert(outcomes[outcomes.len() - 1] is None);
        lemma_opens_said(status, opening.drop_last(), outcomes.drop_last(), k);
    }
}

/// A fresh tree is its root alone: a directory that is still to be read, known under the id 0, that counts
/// as a directory; one that is imported is known in full.
pub proof fn law_trees_start_with_their_root(
    name: Seq<char>,
    apparent: int,
    disk: int,
    dev: u64,
    ino: u64,
)
    ensures
        ({
            let t = tree::only_root(name, apparent, disk, dev, ino);
            let d = edit::imported_root(name, apparent, disk, dev, ino);
            let n = t.nodes[0];
            &&& t.nodes.len() == 1 && d.nodes.len() == 1
            &&& n.name == name && n.kind == NodeKind::Dir && n.parent is None
            &&& n.apparent == apparent && n.disk == disk
            &&& n.dev == dev && n.ino == ino
            &&& n.children.len() == 0
            &&& !n.shared && n.excluded == Excluded::No && !n.read_error
            &&& !n.scanned && n.unscanned == 1
            &&& t.dirs.contains_key(0) && t.dirs[0] == 0
            &&& t.total_dirs == 1 && t.total_files == 0
            &&& same_entry(d.nodes[0], n)
            &&& d.nodes[0].apparent == apparent && d.nodes[0].disk == disk
            &&& d.nodes[0].scanned && d.nodes[0].unscanned == 0
            &&& d.total_dirs == 1 && d.total_files == 0
        }),
{
}

/// A worker that is gone without a word has failed; one that has not ended yet changes nothing.
pub proof fn law_silent_workers_have_failed(a: AppView, idx: usize, path: Seq<char>)
    requires
        a.deleting == Some((idx, path)),
    ensures
        state::delete_polled(a, Polled::Empty) == a,
        state::delete_polled(a, Polled::Closed).tree == a.tree,
        state::delete_polled(a, Polled::Closed).deleting is None,
        state::delete_polled(a, Polled::Ready(Ok(()))).tree == edit::deleted(a.tree, idx as int),
        state::open_polled(Polled::Empty) is None,
        state::open_polled(Polled::Closed) is Some && state::open_polled(Polled::Closed)->0 is Err,
        state::open_polled(Polled::Ready(Ok(()))) == Some(Ok::<(), Seq<char>>(())),
{
}

/// What is said of an export: how many entries there are and where they went, or why they did not.
pub proof fn law_exports_are_told_of(a: AppView, dest: Seq<char>, why: Seq<char>)
    ensures
        state::export_message(a, dest, Ok(())) == "exported "@ + text::decimal(
            (a.tree.total_dirs + a.tree.total_files) as nat,
        ) + " entries to "@ + dest,
        state::export_message(a, dest, Err(why)) == "export failed: "@ + why,
{
}

/// What is counted below a directory is the directory and what is counted below each of its entries;
/// directories on the one hand, everything else on the other. Directories that are not left out wait to
/// be read until they are.
pub proof fn law_counts_go_down_the_tree(nodes: Seq<NodeView>, i: int)
    requires
        tree::well_linked(nodes),
        0 <= i < nodes.len() <= usize::MAX,
    ensures
        ({
            let dir = nodes[i].kind == NodeKind::Dir;
            let own = |yes: bool|
                if yes {
                    1int
                } else {
                    0
                };
            let kids = nodes[i].children;
            &&& below::count_under(nodes, i, true) == own(dir) + below::sum_list(
                kids,
                |c: int| below::count_under(nodes, c, true),
            )
            &&& below::count_under(nodes, i, false) == own(!dir) + below::sum_list(
                kids,
                |c: int| below::count_under(nodes, c, false),
            )
            &&& totals::pending(nodes[i]) == own(
                dir && nodes[i].excluded == Excluded::No && !nodes[i].scanned,
            )
        }),
{
    let kids = nodes[i].children;
    below::lemma_sum_under_step(nodes, i, below::is_one(nodes, true));
    below::lemma_sum_under_step(nodes, i, below::is_one(nodes, false));
    below::lemma_sum_list_same(
        kids,
        |c: int| below::sum_under(nodes, c, below::is_one(nodes, true)),
        |c: int| below::count_under(nodes, c, true),
    );
    below::lemma_sum_list_same(
        kids,
        |c: int| below::sum_under(nodes, c, below::is_one(nodes, false)),
        |c: int| below::count_under(nodes, c, false),
    );
}

} // verus!
