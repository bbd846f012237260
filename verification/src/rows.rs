//! The order of rows: how every view sorts and filters what it shows.
use vstd::prelude::*;
use vstd::relations::*;

use crate::model::{NodeIdx, Tree};
use crate::sort;
use crate::sort::Ranking;
use crate::state;
use crate::state::SortKey;
use crate::text;
use crate::tree;
use crate::tree::NodeView;

verus! {

/// A byte with ASCII letters made small.
fn lower_byte(b: u8) -> (lower: u8)
    ensures
        lower == state::ascii_lower(b),
{
    if 65 <= b && b <= 90 {
        b + 32
    } else {
        b
    }
}

/// Whether the needle stands in the haystack at `at`, the case of ASCII letters aside.
fn matches_at(haystack: &[u8], needle: &[u8], at: usize) -> (yes: bool)
    requires
        at + needle@.len() <= haystack@.len(),
    ensures
        yes == state::matches_at(haystack@, needle@, at as int),
{
    let total: usize = haystack.len();
    let mut k: usize = 0;
    while k < needle.len()
        invariant
            at + needle@.len() <= haystack@.len(),
            haystack@.len() == total,
            k <= needle@.len(),
            forall|i: int|
                0 <= i < k ==> state::ascii_lower(haystack@[at + i]) == state::ascii_lower(
                    #[trigger] needle@[i],
                ),
        decreases needle@.len() - k,
    {
        if lower_byte(haystack[at + k]) != lower_byte(needle[k]) {
            assert(state::ascii_lower(haystack@[at + k as int]) != state::ascii_lower(
                needle@[k as int],
            ));
            return false;
        }
        k += 1;
    }
    true
}

/// Case-insensitive substring test used by the name filter. ASCII letters compare
/// case-insensitively; other bytes must match exactly (a plain byte-substring test, so multi-byte
/// names cannot produce false positives). An empty needle matches everything, so a just-opened
/// (still empty) filter hides nothing.
pub fn contains_ci(haystack: &str, needle: &str) -> (yes: bool)
    ensures
        yes == state::has_ci(haystack@, needle@),
{
    let h = haystack.as_bytes();
    let n = needle.as_bytes();
    if n.len() > h.len() {
        return false;
    }
    let last: usize = h.len() - n.len();
    let mut at: usize = 0;
    while at <= last
        invariant
            h@ == vstd::utf8::encode_utf8(haystack@),
            n@ == vstd::utf8::encode_utf8(needle@),
            last == h@.len() - n@.len(),
            at <= last + 1,
            last < usize::MAX || n@.len() == 0,
            forall|i: int| 0 <= i < at ==> !#[trigger] state::matches_at(h@, n@, i),
            n@.len() == 0 ==> at == 0,
        decreases last + 1 - at,
    {
        if matches_at(h, n, at) {
            return true;
        }
        assert(n@.len() > 0);
        at += 1;
    }
    false
}

/// How rows are ordered: the largest first, or by name.
pub struct RowOrder<'a> {
    pub tree: &'a Tree,
    pub sort: SortKey,
    pub disk_usage: bool,
}

/// Names and ages order entries totally.
proof fn lemma_names_order(nodes: Seq<NodeView>, a: usize, b: usize, c: usize)
    ensures
        state::name_before(nodes, a, a),
        state::name_before(nodes, a, b) || state::name_before(nodes, b, a),
        state::name_before(nodes, a, b) && state::name_before(nodes, b, a) ==> a == b,
        state::name_before(nodes, a, b) && state::name_before(nodes, b, c) ==> state::name_before(
            nodes,
            a,
            c,
        ),
{
    let x = nodes[a as int].name;
    let y = nodes[b as int].name;
    let z = nodes[c as int].name;
    text::lemma_at_most_total(x, y);
    if text::at_most(x, y) && text::at_most(y, x) {
        text::lemma_at_most_antisymmetric(x, y);
    }
    text::lemma_at_most_reflexive(x);
    if text::at_most(x, y) && text::at_most(y, z) {
        text::lemma_at_most_transitive(x, y, z);
        if x == z {
            text::lemma_at_most_antisymmetric(x, y);
        }
    }
    text::lemma_at_most_reflexive(y);
}

/// The order of rows is total, so there is just one way to sort them.
pub proof fn lemma_rows_order(nodes: Seq<NodeView>, sort: SortKey, disk_usage: bool)
    ensures
        total_ordering(state::row_order(nodes, sort, disk_usage)),
{
    let leq = state::row_order(nodes, sort, disk_usage);
    assert(reflexive(leq)) by {
        assert forall|a: usize| #[trigger] leq(a, a) by {
            lemma_names_order(nodes, a, a, a);
        }
    }
    assert(antisymmetric(leq)) by {
        assert forall|a: usize, b: usize| #[trigger] leq(a, b) && #[trigger] leq(b, a) implies a
            == b by {
            lemma_names_order(nodes, a, b, a);
        }
    }
    assert(transitive(leq)) by {
        assert forall|a: usize, b: usize, c: usize| #[trigger] leq(a, b) && #[trigger] leq(
            b,
            c,
        ) implies leq(a, c) by {
            lemma_names_order(nodes, a, b, c);
        }
    }
    assert(strongly_connected(leq)) by {
        assert forall|a: usize, b: usize| #[trigger] leq(a, b) || #[trigger] leq(b, a) by {
            lemma_names_order(nodes, a, b, a);
        }
    }
}

impl Ranking for RowOrder<'_> {
    open spec fn no_later(&self, a: usize, b: usize) -> bool {
        state::row_before(self.tree@.nodes, self.sort, self.disk_usage, a, b)
    }

    open spec fn comparable(&self, a: usize) -> bool {
        self.tree.wf() && a < self.tree.nodes.len()
    }

    proof fn is_total_ordering(&self) {
        let leq = |a: usize, b: usize| self.no_later(a, b);
        lemma_rows_order(self.tree@.nodes, self.sort, self.disk_usage);
        assert(leq =~= state::row_order(self.tree@.nodes, self.sort, self.disk_usage));
    }

    fn comes_no_later(&self, a: usize, b: usize) -> (yes: bool) {
        let x = &self.tree.nodes[a];
        let y = &self.tree.nodes[b];
        assert(x@ == self.tree@.nodes[a as int]);
        assert(y@ == self.tree@.nodes[b as int]);
        let by_size = match self.sort {
            SortKey::Size => true,
            SortKey::Name => false,
        };
        if by_size {
            let (x_size, y_size): (u64, u64) = if self.disk_usage {
                (x.disk, y.disk)
            } else {
                (x.apparent, y.apparent)
            };
            if x_size != y_size {
                return x_size > y_size;
            }
        }
        let no_later = text::text_at_most(x.name.as_str(), y.name.as_str());
        if no_later && text::text_at_most(y.name.as_str(), x.name.as_str()) {
            proof {
                text::lemma_at_most_antisymmetric(x@.name, y@.name);
            }
            return a <= b;
        }
        proof {
            text::lemma_at_most_reflexive(x@.name);
        }
        no_later
    }
}

/// Sort children the way every view presents them (largest first, or by name), so that traversals
/// like the next-error jump match what is seen on screen.
pub fn order_children(
    tree: &Tree,
    sort: SortKey,
    disk_usage: bool,
    kids: Vec<NodeIdx>,
) -> (ordered: Vec<NodeIdx>)
    requires
        tree.wf(),
        forall|k: int| 0 <= k < kids@.len() ==> #[trigger] kids@[k] < tree.nodes.len(),
    ensures
        ordered@ == state::in_order(tree@.nodes, sort, disk_usage, kids@),
        ordered@.to_multiset() == kids@.to_multiset(),
{
    let ranking = RowOrder { tree, sort, disk_usage };
    assert forall|i: int| 0 <= i < kids.len() implies #[trigger] ranking.comparable(kids[i]) by {
        assert(kids@[i] < tree.nodes.len());
    }
    let ordered = sort::sort(kids, &ranking);
    assert((|a: usize, b: usize| ranking.no_later(a, b)) =~= state::row_order(
        tree@.nodes,
        sort,
        disk_usage,
    ));
    ordered
}

/// What a walk will still visit: everything below each entry on its stack, from the top down.
spec fn display_stack(nodes: Seq<NodeView>, sort: SortKey, disk_usage: bool, stack: Seq<usize>) -> Seq<
    usize,
>
    decreases stack.len(),
{
    if stack.len() == 0 {
        Seq::empty()
    } else {
        state::display(nodes, sort, disk_usage, stack.last() as int) + display_stack(
            nodes,
            sort,
            disk_usage,
            stack.drop_last(),
        )
    }
}

/// Children that are pushed last one first are visited first one first.
proof fn lemma_display_push(
    nodes: Seq<NodeView>,
    sort: SortKey,
    disk_usage: bool,
    i: int,
    kids: Seq<usize>,
    stack: Seq<usize>,
)
    requires
        forall|k: int| 0 <= k < kids.len() ==> i < #[trigger] kids[k] < nodes.len(),
    ensures
        display_stack(nodes, sort, disk_usage, stack + kids.reverse()) == state::display_all(
            nodes,
            sort,
            disk_usage,
            i,
            kids,
        ) + display_stack(nodes, sort, disk_usage, stack),
    decreases kids.len(),
{
    let whole = stack + kids.reverse();
    if kids.len() == 0 {
        assert(whole =~= stack);
        assert(Seq::<usize>::empty() + display_stack(nodes, sort, disk_usage, stack)
            =~= display_stack(nodes, sort, disk_usage, stack));
    } else {
        let rest = kids.skip(1);
        assert(whole.last() == kids[0]);
        assert(whole.drop_last() =~= stack + rest.reverse());
        assert forall|k: int| 0 <= k < rest.len() implies i < #[trigger] rest[k] < nodes.len() by {
            assert(rest[k] == kids[k + 1]);
        }
        lemma_display_push(nodes, sort, disk_usage, i, rest, stack);
        assert(i < kids[0] < nodes.len());
        let first = state::display(nodes, sort, disk_usage, kids[0] as int);
        let others = state::display_all(nodes, sort, disk_usage, i, rest);
        assert(first + (others + display_stack(nodes, sort, disk_usage, stack)) =~= (first + others)
            + display_stack(nodes, sort, disk_usage, stack));
    }
}

/// The children of an entry are younger than it, in whatever order.
pub proof fn lemma_kids_younger(nodes: Seq<NodeView>, i: int, kids: Seq<usize>)
    requires
        tree::well_linked(nodes),
        nodes.len() <= usize::MAX,
        0 <= i < nodes.len(),
        kids.to_multiset() == nodes[i].children.to_multiset(),
    ensures
        forall|k: int| 0 <= k < kids.len() ==> i < #[trigger] kids[k] < nodes.len(),
        forall|c: usize| #[trigger] kids.contains(c) <==> nodes[i].children.contains(c),
        kids.len() == nodes[i].children.len(),
{
    let all = nodes[i].children;
    kids.to_multiset_ensures();
    all.to_multiset_ensures();
    assert forall|c: usize| #[trigger] kids.contains(c) <==> all.contains(c) by {
        assert(kids.contains(c) <==> kids.to_multiset().count(c) > 0);
        assert(all.contains(c) <==> all.to_multiset().count(c) > 0);
    }
    assert forall|k: int| 0 <= k < kids.len() implies i < #[trigger] kids[k] < nodes.len() by {
        assert(kids.contains(kids[k]));
        let j = choose|j: int| 0 <= j < all.len() && all[j] == kids[k];
        assert(nodes[i].children[j] < nodes.len());
        assert(nodes[nodes[i].children[j] as int].parent == Some(i as usize));
    }
}

/// Every entry of the tree in display order.
#[verifier::rlimit(20)]
pub fn display_order(tree: &Tree, sort: SortKey, disk_usage: bool) -> (order: Vec<NodeIdx>)
    requires
        tree.wf(),
    ensures
        order@ == state::display(tree@.nodes, sort, disk_usage, tree.root as int),
        forall|k: int| 0 <= k < order@.len() ==> #[trigger] order@[k] < tree.nodes.len(),
{
    let ghost nodes = tree@.nodes;
    let ghost all = state::display(nodes, sort, disk_usage, tree.root as int);
    let mut order: Vec<NodeIdx> = Vec::new();
    let mut stack: Vec<NodeIdx> = Vec::new();
    stack.push(tree.root);
    proof {
        assert(stack@.drop_last() =~= Seq::empty());
        assert(display_stack(nodes, sort, disk_usage, stack@.drop_last()) =~= Seq::empty());
        assert(display_stack(nodes, sort, disk_usage, stack@) =~= all);
        assert(order@ + display_stack(nodes, sort, disk_usage, stack@) =~= all);
    }
    while stack.len() > 0
        invariant
            tree.wf(),
            nodes == tree@.nodes,
            order@ + display_stack(nodes, sort, disk_usage, stack@) == all,
            forall|k: int| 0 <= k < stack@.len() ==> #[trigger] stack@[k] < nodes.len(),
            forall|k: int| 0 <= k < order@.len() ==> #[trigger] order@[k] < nodes.len(),
        decreases all.len() - order@.len(),
    {
        let ghost before = stack@;
        let ghost visited = order@;
        if let Some(idx) = stack.pop() {
            assert(idx == before.last());
            assert(before[before.len() - 1] < nodes.len());
            let ghost left = stack@;
            assert(left =~= before.drop_last());
            order.push(idx);
            assert(tree.nodes@[idx as int].children@ == nodes[idx as int].children);
            assert forall|k: int|
                0 <= k < tree.nodes@[idx as int].children@.len() implies #[trigger] tree.nodes@[idx as int].children@[k]
                < tree.nodes.len() by {
                assert(nodes[idx as int].children[k] < nodes.len());
            }
            let kids = order_children(tree, sort, disk_usage, tree.nodes[idx].children.clone());
            proof {
                lemma_kids_younger(nodes, idx as int, kids@);
                lemma_display_push(nodes, sort, disk_usage, idx as int, kids@, left);
            }
            let mut k: usize = kids.len();
            while k > 0
                invariant
                    k <= kids@.len(),
                    stack@ == left + kids@.reverse().take(kids@.len() - k),
                    forall|j: int| 0 <= j < stack@.len() ==> #[trigger] stack@[j] < nodes.len(),
                    forall|j: int| 0 <= j < kids@.len() ==> #[trigger] kids@[j] < nodes.len(),
                decreases k,
            {
                k -= 1;
                stack.push(kids[k]);
                assert(stack@ =~= left + kids@.reverse().take(kids@.len() - k));
            }
            proof {
                assert(stack@ =~= left + kids@.reverse());
                let below = state::display_all(nodes, sort, disk_usage, idx as int, kids@);
                let rest = display_stack(nodes, sort, disk_usage, left);
                assert(state::display(nodes, sort, disk_usage, idx as int) == seq![idx] + below);
                assert(visited + ((seq![idx] + below) + rest) =~= order@ + (below + rest));
            }
        }
    }
    proof {
        assert(order@ + Seq::<usize>::empty() =~= order@);
    }
    order
}

/// The first position of an entry among some rows.
pub fn position_of(kids: &Vec<NodeIdx>, k: NodeIdx) -> (p: Option<usize>)
    ensures
        match p {
            Some(at) => state::position(kids@, k) == Some(at as int) && at < kids@.len(),
            None => state::position(kids@, k) is None,
        },
        p is Some <==> kids@.contains(k),
{
    let mut i: usize = 0;
    proof {
        assert(kids@.skip(0) =~= kids@);
    }
    while i < kids.len()
        invariant
            i <= kids@.len(),
            forall|j: int| 0 <= j < i ==> kids@[j] != k,
            state::position(kids@, k) == (match state::position(kids@.skip(i as int), k) {
                Some(p) => Some(p + i),
                None => None,
            }),
        decreases kids@.len() - i,
    {
        let ghost here = kids@.skip(i as int);
        if kids[i] == k {
            return Some(i);
        }
        i += 1;
        assert(here.skip(1) =~= kids@.skip(i as int));
    }
    None
}

} // verus!
