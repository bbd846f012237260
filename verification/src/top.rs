//! The largest files below a directory.
use vstd::prelude::*;
use vstd::relations::*;

use crate::below;
use crate::model::{NodeIdx, NodeKind, Tree};
use crate::sort;
use crate::sort::Ranking;
use crate::state;
use crate::state::TopView;
use crate::text;
use crate::tree;
use crate::tree::NodeView;
use crate::walk;

verus! {

/// One row of the top-files popup: a file, its path relative to the directory the popup was opened
/// from, and its size in the metric active when the popup was opened.
pub struct TopEntry {
    pub idx: NodeIdx,
    pub path: String,
    pub size: u64,
}

impl View for TopEntry {
    type V = TopView;

    open spec fn view(&self) -> TopView {
        TopView { idx: self.idx, path: self.path@, size: self.size as int }
    }
}

/// State of the top-files popup (largest files under the viewed directory).
pub struct TopFiles {
    pub items: Vec<TopEntry>,
    pub selected: usize,
}

pub open spec fn top_views(items: Seq<TopEntry>) -> Seq<TopView> {
    items.map_values(|e: TopEntry| e@)
}

/// The entries without what hangs below anything that is no directory, the top of the walk aside.
spec fn pruned(nodes: Seq<NodeView>, from: int) -> Seq<NodeView> {
    Seq::new(
        nodes.len(),
        |i: int|
            if i == from || tree::is_dir(nodes[i]) {
                nodes[i]
            } else {
                NodeView { children: Seq::empty(), ..nodes[i] }
            },
    )
}

proof fn lemma_pruned_linked(nodes: Seq<NodeView>, from: int)
    requires
        tree::well_linked(nodes),
    ensures
        tree::well_linked(pruned(nodes, from)),
{
    let cut = pruned(nodes, from);
    assert forall|i: int, k: int|
        0 <= i < cut.len() && 0 <= k < cut[i].children.len() implies {
        &&& (#[trigger] cut[i].children[k]) < cut.len()
        &&& cut[cut[i].children[k] as int].parent == Some(i as usize)
    } by {
        assert(nodes[i].children[k] < nodes.len());
    }
    assert forall|i: int, j: int, k: int|
        0 <= i < cut.len() && 0 <= j < k < cut[i].children.len() implies (
    #[trigger] cut[i].children[j]) < (#[trigger] cut[i].children[k]) by {
        assert(nodes[i].children[j] < nodes[i].children[k]);
    }
}

/// What the walk visits is what is reached by directories alone.
proof fn lemma_reached(nodes: Seq<NodeView>, j: int, from: int)
    requires
        tree::well_linked(nodes),
        0 <= j < nodes.len(),
        0 <= from < nodes.len(),
        j != from,
    ensures
        state::reached(nodes, j, from) <==> below::under(pruned(nodes, from), j, from),
    decreases j,
{
    let cut = pruned(nodes, from);
    assert(cut[j].parent == nodes[j].parent);
    if nodes[j].parent is Some && nodes[j].parent->0 < j {
        let p = nodes[j].parent->0 as int;
        assert(tree::listed(cut, j) <==> tree::listed(nodes, j) && (p == from || tree::is_dir(
            nodes[p],
        )));
        if p != from {
            lemma_reached(nodes, p, from);
        }
        assert(below::under(cut, from, from));
    }
}

/// The path of what a walk visits, relative to its top.
spec fn prefix(nodes: Seq<NodeView>, j: int, from: int) -> Seq<char> {
    if j == from {
        Seq::empty()
    } else {
        state::relative_path(nodes, j, from)
    }
}

/// The walk below `from` by directories has visited `list` and will go on with `stack`.
#[verifier::opaque]
spec fn walking(nodes: Seq<NodeView>, from: usize, list: Seq<usize>, stack: Seq<usize>) -> bool {
    walk::walking(pruned(nodes, from as int), from, list, stack)
}

proof fn lemma_start(nodes: Seq<NodeView>, from: usize)
    requires
        from < nodes.len(),
    ensures
        walking(nodes, from, Seq::empty(), seq![from]),
{
    reveal(walking);
    walk::lemma_walk_start(pruned(nodes, from as int), from);
}

/// One entry is visited.
proof fn lemma_step(nodes: Seq<NodeView>, from: usize, list: Seq<usize>, stack: Seq<usize>)
    requires
        tree::well_linked(nodes),
        nodes.len() <= usize::MAX,
        from < nodes.len(),
        stack.len() > 0,
        walking(nodes, from, list, stack),
    ensures
        from <= stack.last() < nodes.len(),
        !list.contains(stack.last()),
        list.len() < nodes.len(),
        walking(
            nodes,
            from,
            list.push(stack.last()),
            stack.drop_last() + pruned(nodes, from as int)[stack.last() as int].children,
        ),
{
    reveal(walking);
    let cut = pruned(nodes, from as int);
    let x = stack.last();
    lemma_pruned_linked(nodes, from as int);
    assert(stack.contains(stack[stack.len() - 1]));
    below::lemma_under_bound(cut, x as int, from as int);
    walk::lemma_walk_step(cut, from, list, stack);
    walk::lemma_no_duplicates_bound(list.push(x), nodes.len() as int);
}

/// What the walk has found: a row for every file that was visited.
#[verifier::opaque]
spec fn found(
    nodes: Seq<NodeView>,
    disk_usage: bool,
    from: usize,
    list: Seq<usize>,
    rows: Seq<TopView>,
) -> bool {
    &&& forall|k: int|
        0 <= k < rows.len() ==> {
            &&& list.contains((#[trigger] rows[k]).idx)
            &&& rows[k].idx != from
            &&& nodes[rows[k].idx as int].kind == NodeKind::File
            &&& rows[k] == state::top_row(nodes, disk_usage, rows[k].idx as int, from as int)
        }
    &&& forall|c: usize| #[trigger]
        list.contains(c) && c != from && nodes[c as int].kind == NodeKind::File ==> exists|k: int|
            0 <= k < rows.len() && (#[trigger] rows[k]).idx == c
    &&& forall|j: int, k: int|
        0 <= j < k < rows.len() ==> (#[trigger] rows[j]).idx != (#[trigger] rows[k]).idx
}

/// One more entry was visited that is no file.
proof fn lemma_found_other(
    nodes: Seq<NodeView>,
    disk_usage: bool,
    from: usize,
    list: Seq<usize>,
    rows: Seq<TopView>,
    x: usize,
)
    requires
        found(nodes, disk_usage, from, list, rows),
        x == from || nodes[x as int].kind != NodeKind::File,
    ensures
        found(nodes, disk_usage, from, list.push(x), rows),
{
    reveal(found);
    walk::lemma_push_contains(list, x);
    assert forall|c: usize| #[trigger]
        list.push(x).contains(c) && c != from && nodes[c as int].kind
            == NodeKind::File implies exists|k: int|
        0 <= k < rows.len() && (#[trigger] rows[k]).idx == c by {
        assert(list.contains(c));
    }
}

/// One more file was visited and got its row.
proof fn lemma_found_file(
    nodes: Seq<NodeView>,
    disk_usage: bool,
    from: usize,
    list: Seq<usize>,
    rows: Seq<TopView>,
    x: usize,
)
    requires
        found(nodes, disk_usage, from, list, rows),
        x != from,
        nodes[x as int].kind == NodeKind::File,
        !list.contains(x),
    ensures
        found(
            nodes,
            disk_usage,
            from,
            list.push(x),
            rows.push(state::top_row(nodes, disk_usage, x as int, from as int)),
        ),
{
    reveal(found);
    walk::lemma_push_contains(list, x);
    let more = rows.push(state::top_row(nodes, disk_usage, x as int, from as int));
    assert forall|k: int| 0 <= k < more.len() implies {
        &&& list.push(x).contains((#[trigger] more[k]).idx)
        &&& more[k].idx != from
        &&& nodes[more[k].idx as int].kind == NodeKind::File
        &&& more[k] == state::top_row(nodes, disk_usage, more[k].idx as int, from as int)
    } by {
        if k < rows.len() {
            assert(more[k] == rows[k]);
        }
    }
    assert forall|c: usize| #[trigger]
        list.push(x).contains(c) && c != from && nodes[c as int].kind
            == NodeKind::File implies exists|k: int|
        0 <= k < more.len() && (#[trigger] more[k]).idx == c by {
        if c == x {
            assert(more[rows.len() as int].idx == c);
        } else {
            assert(list.contains(c));
            let k = choose|k: int| 0 <= k < rows.len() && (#[trigger] rows[k]).idx == c;
            assert(more[k].idx == c);
        }
    }
    assert forall|j: int, k: int| 0 <= j < k < more.len() implies (#[trigger] more[j]).idx != (
    #[trigger] more[k]).idx by {
        assert(more[j] == rows[j]);
        assert(list.contains(rows[j].idx));
        if k < rows.len() {
            assert(more[k] == rows[k]);
        }
    }
}

/// The children of `x` are to be visited next, each with its path.
fn push_children(
    tree: &Tree,
    from: NodeIdx,
    x: NodeIdx,
    path: &String,
    stack: &mut Vec<NodeIdx>,
    paths: &mut Vec<String>,
)
    requires
        tree.wf(),
        from <= x < tree.nodes.len(),
        path@ == prefix(tree@.nodes, x as int, from as int),
        old(paths)@.len() == old(stack)@.len(),
        forall|k: int|
            0 <= k < old(stack)@.len() ==> (#[trigger] old(paths)@[k])@ == prefix(
                tree@.nodes,
                old(stack)@[k] as int,
                from as int,
            ),
    ensures
        final(stack)@ == old(stack)@ + tree@.nodes[x as int].children,
        final(paths)@.len() == final(stack)@.len(),
        forall|k: int|
            0 <= k < final(stack)@.len() ==> (#[trigger] final(paths)@[k])@ == prefix(
                tree@.nodes,
                final(stack)@[k] as int,
                from as int,
            ),
{
    let ghost nodes = tree@.nodes;
    let ghost left = stack@;
    let kids = &tree.nodes[x].children;
    assert(tree.nodes@[x as int]@ == nodes[x as int]);
    let mut k: usize = 0;
    while k < kids.len()
        invariant
            tree.wf(),
            nodes == tree@.nodes,
            from <= x < nodes.len(),
            kids@ == nodes[x as int].children,
            k <= kids@.len(),
            stack@ == left + kids@.take(k as int),
            path@ == prefix(nodes, x as int, from as int),
            paths@.len() == stack@.len(),
            forall|k: int|
                0 <= k < stack@.len() ==> (#[trigger] paths@[k])@ == prefix(
                    nodes,
                    stack@[k] as int,
                    from as int,
                ),
        decreases kids@.len() - k,
    {
        let c = kids[k];
        assert(nodes[x as int].children[k as int] < nodes.len());
        assert(nodes[c as int].parent == Some(x));
        assert(tree.nodes@[c as int]@ == nodes[c as int]);
        let name = tree.nodes[c].name.as_str();
        let empty = path.as_str().unicode_len() == 0;
        let inner = if empty {
            name.to_string()
        } else {
            let mut longer = path.clone();
            longer.push('/');
            longer.append(name);
            longer
        };
        assert(inner@ =~= state::relative_path(nodes, c as int, from as int));
        stack.push(c);
        paths.push(inner);
        k += 1;
        assert(stack@ =~= left + kids@.take(k as int));
    }
    assert(kids@.take(k as int) =~= kids@);
}

/// Once nothing is left to visit, every file has its row.
proof fn lemma_end(
    nodes: Seq<NodeView>,
    disk_usage: bool,
    from: usize,
    list: Seq<usize>,
    rows: Seq<TopView>,
)
    requires
        tree::well_linked(nodes),
        nodes.len() <= usize::MAX,
        from < nodes.len(),
        walking(nodes, from, list, Seq::empty()),
        found(nodes, disk_usage, from, list, rows),
    ensures
        all_rows(nodes, disk_usage, from as int, rows),
{
    reveal(walking);
    reveal(found);
    let cut = pruned(nodes, from as int);
    assert forall|k: int| 0 <= k < rows.len() implies {
        &&& state::is_file_below(nodes, (#[trigger] rows[k]).idx as int, from as int)
        &&& rows[k] == state::top_row(nodes, disk_usage, rows[k].idx as int, from as int)
    } by {
        assert(list.contains(rows[k].idx));
        lemma_reached(nodes, rows[k].idx as int, from as int);
    }
    assert forall|j: int| #[trigger] state::is_file_below(nodes, j, from as int) implies exists|k: int|
        0 <= k < rows.len() && (#[trigger] rows[k]).idx == j by {
        if j == from {
            lemma_not_below_itself(nodes, j, from as int);
        } else {
            lemma_reached(nodes, j, from as int);
            walk::lemma_walk_end(cut, from, list, j);
            assert(list.contains(j as usize));
            let k = choose|k: int| 0 <= k < rows.len() && (#[trigger] rows[k]).idx == j as usize;
            assert(rows[k].idx == j);
        }
    }
}

/// The rows are those of the regular files below `from`, each once.
spec fn all_rows(nodes: Seq<NodeView>, disk_usage: bool, from: int, rows: Seq<TopView>) -> bool {
    &&& forall|k: int|
        0 <= k < rows.len() ==> {
            &&& state::is_file_below(nodes, (#[trigger] rows[k]).idx as int, from)
            &&& rows[k] == state::top_row(nodes, disk_usage, rows[k].idx as int, from)
        }
    &&& forall|j: int, k: int|
        0 <= j < k < rows.len() ==> (#[trigger] rows[j]).idx != (#[trigger] rows[k]).idx
    &&& forall|j: int| #[trigger]
        state::is_file_below(nodes, j, from) ==> exists|k: int|
            0 <= k < rows.len() && (#[trigger] rows[k]).idx == j
}

/// Every regular file below `from`, with its path relative to it.
fn files_below(tree: &Tree, disk_usage: bool, from: NodeIdx) -> (rows: Vec<TopEntry>)
    requires
        tree.wf(),
        from < tree.nodes.len(),
    ensures
        all_rows(tree@.nodes, disk_usage, from as int, top_views(rows@)),
{
    let ghost nodes = tree@.nodes;
    let ghost mut list: Seq<usize> = Seq::empty();
    let mut rows: Vec<TopEntry> = Vec::new();
    let mut stack: Vec<NodeIdx> = Vec::new();
    let mut paths: Vec<String> = Vec::new();
    stack.push(from);
    paths.push(String::new());
    proof {
        lemma_start(nodes, from);
        assert(stack@ =~= seq![from]);
        assert(paths@[0]@ =~= Seq::empty());
        reveal(found);
    }
    while stack.len() > 0
        invariant
            tree.wf(),
            nodes == tree@.nodes,
            from < nodes.len(),
            walking(nodes, from, list, stack@),
            paths@.len() == stack@.len(),
            forall|k: int|
                0 <= k < stack@.len() ==> (#[trigger] paths@[k])@ == prefix(
                    nodes,
                    stack@[k] as int,
                    from as int,
                ),
            found(nodes, disk_usage, from, list, top_views(rows@)),
        decreases nodes.len() - list.len(),
    {
        let ghost visited = list;
        let ghost before = stack@;
        proof {
            lemma_step(nodes, from, list, stack@);
            list = list.push(stack@.last());
        }
        if let Some(x) = stack.pop() {
            let path = match paths.pop() {
                Some(path) => path,
                None => String::new(),
            };
            assert(path@ == prefix(nodes, x as int, from as int));
            assert(stack@ =~= before.drop_last());
            let n = &tree.nodes[x];
            assert(n@ == nodes[x as int]);
            let is_file = match n.kind {
                NodeKind::File => true,
                _ => false,
            };
            if x == from || n.is_dir() {
                push_children(tree, from, x, &path, &mut stack, &mut paths);
                proof {
                    lemma_found_other(nodes, disk_usage, from, visited, top_views(rows@), x);
                }
            } else if is_file {
                assert(stack@ + Seq::<usize>::empty() =~= stack@);
                let size: u64 = if disk_usage {
                    n.disk
                } else {
                    n.apparent
                };
                let ghost had = top_views(rows@);
                rows.push(TopEntry { idx: x, path, size });
                proof {
                    assert(top_views(rows@) =~= had.push(
                        state::top_row(nodes, disk_usage, x as int, from as int),
                    ));
                    lemma_found_file(nodes, disk_usage, from, visited, had, x);
                }
            } else {
                proof {
                    assert(stack@ + Seq::<usize>::empty() =~= stack@);
                    lemma_found_other(nodes, disk_usage, from, visited, top_views(rows@), x);
                }
            }
        }
    }
    proof {
        assert(stack@ =~= Seq::empty());
        lemma_end(nodes, disk_usage, from, list, top_views(rows@));
    }
    rows
}

/// What is reached is younger than where the way began.
proof fn lemma_not_below_itself(nodes: Seq<NodeView>, j: int, from: int)
    requires
        state::reached(nodes, j, from),
    ensures
        from < j,
    decreases j,
{
    if nodes[j].parent->0 != from {
        lemma_not_below_itself(nodes, nodes[j].parent->0 as int, from);
    }
}

/// How the rows are ordered: the largest first, then by path, then as they were found.
struct RowOrder<'a> {
    rows: &'a Vec<TopEntry>,
}

spec fn row_no_later(rows: Seq<TopView>, a: usize, b: usize) -> bool {
    let x = rows[a as int];
    let y = rows[b as int];
    if x.size == y.size && x.path == y.path {
        a <= b
    } else {
        state::top_before(x, y)
    }
}

proof fn lemma_rows_order(rows: Seq<TopView>, a: usize, b: usize, c: usize)
    ensures
        row_no_later(rows, a, a),
        row_no_later(rows, a, b) || row_no_later(rows, b, a),
        row_no_later(rows, a, b) && row_no_later(rows, b, a) ==> a == b,
        row_no_later(rows, a, b) && row_no_later(rows, b, c) ==> row_no_later(rows, a, c),
        row_no_later(rows, a, b) ==> state::top_before(rows[a as int], rows[b as int]),
{
    let x = rows[a as int].path;
    let y = rows[b as int].path;
    let z = rows[c as int].path;
    text::lemma_at_most_total(x, y);
    if text::at_most(x, y) && text::at_most(y, x) {
        text::lemma_at_most_antisymmetric(x, y);
    }
    text::lemma_at_most_reflexive(x);
    text::lemma_at_most_reflexive(y);
    if text::at_most(x, y) && text::at_most(y, z) {
        text::lemma_at_most_transitive(x, y, z);
        if x == z {
            text::lemma_at_most_antisymmetric(x, y);
        }
    }
}

impl Ranking for RowOrder<'_> {
    closed spec fn no_later(&self, a: usize, b: usize) -> bool {
        row_no_later(top_views(self.rows@), a, b)
    }

    closed spec fn comparable(&self, a: usize) -> bool {
        a < self.rows@.len()
    }

    proof fn is_total_ordering(&self) {
        let rows = top_views(self.rows@);
        let leq = |a: usize, b: usize| self.no_later(a, b);
        assert(reflexive(leq)) by {
            assert forall|a: usize| #[trigger] leq(a, a) by {
                lemma_rows_order(rows, a, a, a);
            }
        }
        assert(antisymmetric(leq)) by {
            assert forall|a: usize, b: usize| #[trigger] leq(a, b) && #[trigger] leq(b, a) implies a
                == b by {
                lemma_rows_order(rows, a, b, a);
            }
        }
        assert(transitive(leq)) by {
            assert forall|a: usize, b: usize, c: usize| #[trigger]
                leq(a, b) && #[trigger] leq(b, c) implies leq(a, c) by {
                lemma_rows_order(rows, a, b, c);
            }
        }
        assert(strongly_connected(leq)) by {
            assert forall|a: usize, b: usize| #[trigger] leq(a, b) || #[trigger] leq(b, a) by {
                lemma_rows_order(rows, a, b, a);
            }
        }
    }

    fn comes_no_later(&self, a: usize, b: usize) -> (yes: bool) {
        let x = &self.rows[a];
        let y = &self.rows[b];
        assert(top_views(self.rows@)[a as int] == x@);
        assert(top_views(self.rows@)[b as int] == y@);
        if x.size != y.size {
            return x.size > y.size;
        }
        let no_later = text::text_at_most(x.path.as_str(), y.path.as_str());
        if no_later && text::text_at_most(y.path.as_str(), x.path.as_str()) {
            proof {
                text::lemma_at_most_antisymmetric(x.path@, y.path@);
            }
            return a <= b;
        }
        proof {
            text::lemma_at_most_reflexive(x.path@);
        }
        no_later
    }
}

/// The sorted rows, cut to the limit, are a list of the largest files.
proof fn lemma_top(
    nodes: Seq<NodeView>,
    disk_usage: bool,
    from: int,
    limit: int,
    all: Seq<TopView>,
    order: Seq<usize>,
    top: Seq<TopView>,
)
    requires
        all_rows(nodes, disk_usage, from, all),
        order.no_duplicates(),
        forall|k: int| 0 <= k < order.len() ==> #[trigger] order[k] < all.len(),
        forall|q: int| 0 <= q < all.len() ==> #[trigger] order.contains(q as usize),
        all.len() <= usize::MAX,
        forall|j: int, k: int|
            0 <= j < k < order.len() ==> row_no_later(all, #[trigger] order[j], #[trigger] order[k]),
        0 <= limit,
        top.len() == (if order.len() < limit {
            order.len() as int
        } else {
            limit
        }),
        forall|k: int| 0 <= k < top.len() ==> #[trigger] top[k] == all[order[k] as int],
    ensures
        state::is_top_list(nodes, disk_usage, from, limit, top),
{
    assert forall|k: int| 0 <= k < top.len() implies state::is_file_below(
        nodes,
        (#[trigger] top[k]).idx as int,
        from,
    ) && top[k] == state::top_row(nodes, disk_usage, top[k].idx as int, from) by {
        assert(order[k] < all.len());
        assert(top[k] == all[order[k] as int]);
    }
    assert forall|j: int, k: int| 0 <= j < k < top.len() implies (#[trigger] top[j]).idx != (
    #[trigger] top[k]).idx && state::top_before(top[j], top[k]) by {
        let a = order[j];
        let b = order[k];
        assert(a != b);
        assert(a < all.len() && b < all.len());
        lemma_rows_order(all, a, b, a);
        if a < b {
            assert(all[a as int].idx != all[b as int].idx);
        } else {
            assert(all[b as int].idx != all[a as int].idx);
        }
    }
    assert forall|j: int| #[trigger] state::is_file_below(nodes, j, from) implies (exists|k: int|
        0 <= k < top.len() && (#[trigger] top[k]).idx == j) || (top.len() == limit && forall|k: int|
        0 <= k < top.len() ==> state::top_before(
            #[trigger] top[k],
            state::top_row(nodes, disk_usage, j, from),
        )) by {
        let q = choose|q: int| 0 <= q < all.len() && (#[trigger] all[q]).idx == j;
        assert(order.contains(q as usize));
        let r = choose|r: int| 0 <= r < order.len() && order[r] == q as usize;
        if r < top.len() {
            assert(top[r].idx == j);
        } else {
            assert forall|k: int| 0 <= k < top.len() implies state::top_before(
                #[trigger] top[k],
                state::top_row(nodes, disk_usage, j, from),
            ) by {
                lemma_rows_order(all, order[k], order[r], order[k]);
            }
        }
    }
}

/// The largest regular files under `from`, largest first, with paths relative to it, at most `limit`
/// of them.
pub fn top_files(tree: &Tree, disk_usage: bool, from: NodeIdx, limit: usize) -> (top: Vec<TopEntry>)
    requires
        tree.wf(),
        from < tree.nodes.len(),
    ensures
        state::is_top_list(tree@.nodes, disk_usage, from as int, limit as int, top_views(top@)),
{
    let rows = files_below(tree, disk_usage, from);
    let mut numbers: Vec<usize> = Vec::new();
    let mut i: usize = 0;
    while i < rows.len()
        invariant
            i <= rows@.len(),
            numbers@ == Seq::new(i as nat, |k: int| k as usize),
        decreases rows@.len() - i,
    {
        numbers.push(i);
        i += 1;
        assert(numbers@ =~= Seq::new(i as nat, |k: int| k as usize));
    }
    let ranking = RowOrder { rows: &rows };
    let ghost plain = numbers@;
    let order = sort::sort(numbers, &ranking);
    proof {
        order@.to_multiset_ensures();
        plain.to_multiset_ensures();
        assert(plain.no_duplicates());
        plain.lemma_multiset_has_no_duplicates();
        order@.lemma_multiset_has_no_duplicates_conv();
        assert forall|k: int| 0 <= k < order@.len() implies #[trigger] order@[k] < rows@.len() by {
            assert(order@.contains(order@[k]));
            assert(order@.to_multiset().count(order@[k]) > 0);
            assert(plain.contains(order@[k]));
        }
        assert forall|q: int| 0 <= q < rows@.len() implies #[trigger] order@.contains(
            q as usize,
        ) by {
            assert(plain[q] == q as usize);
            assert(plain.contains(q as usize));
            assert(plain.to_multiset().count(q as usize) > 0);
        }
        let leq = |a: usize, b: usize| ranking.no_later(a, b);
        assert forall|j: int, k: int| 0 <= j < k < order@.len() implies row_no_later(
            top_views(rows@),
            #[trigger] order@[j],
            #[trigger] order@[k],
        ) by {
            assert(leq(order@[j], order@[k]));
        }
    }
    let mut top: Vec<TopEntry> = Vec::new();
    let mut k: usize = 0;
    while k < order.len() && k < limit
        invariant
            k <= order@.len(),
            k <= limit,
            top@.len() == k,
            forall|q: int| 0 <= q < order@.len() ==> #[trigger] order@[q] < rows@.len(),
            forall|q: int|
                0 <= q < k ==> #[trigger] top_views(top@)[q] == top_views(
                    rows@,
                )[order@[q] as int],
        decreases order@.len() - k,
    {
        assert(order@[k as int] < rows@.len());
        let row = &rows[order[k]];
        let ghost had = top_views(top@);
        top.push(TopEntry { idx: row.idx, path: row.path.clone(), size: row.size });
        assert(top_views(top@) =~= had.push(top_views(rows@)[order@[k as int] as int]));
        k += 1;
    }
    proof {
        lemma_top(
            tree@.nodes,
            disk_usage,
            from as int,
            limit as int,
            top_views(rows@),
            order@,
            top_views(top@),
        );
    }
    top
}

} // verus!
