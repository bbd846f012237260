//! Walking everything below an entry, each once, with a stack of what is still to be visited.
use vstd::prelude::*;

use crate::below;
use crate::tree;
use crate::tree::NodeView;

verus! {

/// The walk below `top` has visited `list` and will go on with `stack`.
pub open spec fn walking(nodes: Seq<NodeView>, top: usize, list: Seq<usize>, stack: Seq<usize>) -> bool {
    &&& list.no_duplicates()
    &&& stack.no_duplicates()
    &&& forall|c: usize| #[trigger]
        list.contains(c) ==> c < nodes.len() && below::under(nodes, c as int, top as int) && (c
            == top || list.contains(nodes[c as int].parent->0))
    &&& forall|c: usize| #[trigger]
        stack.contains(c) ==> c < nodes.len() && below::under(nodes, c as int, top as int)
            && !list.contains(c) && (c == top || list.contains(nodes[c as int].parent->0))
    &&& forall|i: int, k: int|
        0 <= i < nodes.len() && list.contains(i as usize) && 0 <= k < nodes[i].children.len()
            ==> list.contains(#[trigger] nodes[i].children[k]) || stack.contains(
            nodes[i].children[k],
        )
    &&& list.contains(top) || stack.contains(top)
}

pub proof fn lemma_push_contains(list: Seq<usize>, x: usize)
    ensures
        forall|c: usize| #[trigger] list.push(x).contains(c) <==> list.contains(c) || c == x,
{
    assert forall|c: usize| #[trigger] list.push(x).contains(c) <==> list.contains(c) || c == x by {
        if list.contains(c) {
            let k = choose|k: int| 0 <= k < list.len() && list[k] == c;
            assert(list.push(x)[k] == c);
        }
        if c == x {
            assert(list.push(x)[list.len() as int] == c);
        }
        if list.push(x).contains(c) {
            let k = choose|k: int| 0 <= k < list.push(x).len() && list.push(x)[k] == c;
            if k < list.len() {
                assert(list[k] == c);
            }
        }
    }
}

pub proof fn lemma_add_contains(a: Seq<usize>, b: Seq<usize>)
    ensures
        forall|c: usize| #[trigger] (a + b).contains(c) <==> a.contains(c) || b.contains(c),
{
    assert forall|c: usize| #[trigger] (a + b).contains(c) <==> a.contains(c) || b.contains(c) by {
        if a.contains(c) {
            let k = choose|k: int| 0 <= k < a.len() && a[k] == c;
            assert((a + b)[k] == c);
        }
        if b.contains(c) {
            let k = choose|k: int| 0 <= k < b.len() && b[k] == c;
            assert((a + b)[a.len() + k] == c);
        }
        if (a + b).contains(c) {
            let k = choose|k: int| 0 <= k < (a + b).len() && (a + b)[k] == c;
            if k < a.len() {
                assert(a[k] == c);
            } else {
                assert(b[k - a.len()] == c);
            }
        }
    }
}

/// The walk starts at its top.
pub proof fn lemma_walk_start(nodes: Seq<NodeView>, top: usize)
    requires
        top < nodes.len(),
    ensures
        walking(nodes, top, Seq::empty(), seq![top]),
{
    assert(seq![top][0] == top);
    assert(seq![top].contains(top));
    assert(below::under(nodes, top as int, top as int));
}

/// One entry is visited, and its children are to be visited next.
pub proof fn lemma_walk_step(nodes: Seq<NodeView>, top: usize, list: Seq<usize>, stack: Seq<usize>)
    requires
        tree::well_linked(nodes),
        nodes.len() <= usize::MAX,
        top < nodes.len(),
        stack.len() > 0,
        walking(nodes, top, list, stack),
    ensures
        stack.last() < nodes.len(),
        walking(
            nodes,
            top,
            list.push(stack.last()),
            stack.drop_last() + nodes[stack.last() as int].children,
        ),
{
    let x = stack.last();
    let left = stack.drop_last();
    let kids = nodes[x as int].children;
    let list2 = list.push(x);
    let stack2 = left + kids;
    assert(stack[stack.len() - 1] == x);
    assert(stack.contains(x));
    assert(stack =~= left.push(x));
    lemma_push_contains(left, x);
    lemma_push_contains(list, x);
    lemma_add_contains(left, kids);
    below::lemma_under_bound(nodes, x as int, top as int);
    assert forall|c: usize| #[trigger] kids.contains(c) implies {
        &&& c < nodes.len()
        &&& nodes[c as int].parent == Some(x)
        &&& x < c
        &&& c != top
        &&& !list.contains(c)
        &&& !left.contains(c)
        &&& below::under(nodes, c as int, top as int)
    } by {
        let k = choose|k: int| 0 <= k < kids.len() && kids[k] == c;
        assert(nodes[x as int].children[k] == c);
        assert(tree::listed(nodes, c as int));
        assert(!list.contains(x));
        if left.contains(c) {
            assert(stack.contains(c));
        }
    }
    assert(!left.contains(x)) by {
        if left.contains(x) {
            let k = choose|k: int| 0 <= k < left.len() && left[k] == x;
            assert(stack[k] == stack[stack.len() - 1]);
        }
    }
    assert(list2.no_duplicates()) by {
        assert forall|a: int, b: int|
            0 <= a < list2.len() && 0 <= b < list2.len() && a != b implies list2[a] != list2[b] by {
            if a < list.len() && b < list.len() {
                assert(list[a] != list[b]);
            } else if a < list.len() {
                assert(list.contains(list[a]));
            } else {
                assert(list.contains(list[b]));
            }
        }
    }
    assert(stack2.no_duplicates()) by {
        assert forall|a: int, b: int|
            0 <= a < stack2.len() && 0 <= b < stack2.len() && a != b implies stack2[a]
            != stack2[b] by {
            if a < left.len() && b < left.len() {
                assert(stack[a] != stack[b]);
            } else if a < left.len() {
                assert(left.contains(left[a]));
                assert(kids.contains(kids[b - left.len()]));
            } else if b < left.len() {
                assert(left.contains(left[b]));
                assert(kids.contains(kids[a - left.len()]));
            } else {
                let i = a - left.len();
                let j = b - left.len();
                if i < j {
                    assert(nodes[x as int].children[i] < nodes[x as int].children[j]);
                } else {
                    assert(nodes[x as int].children[j] < nodes[x as int].children[i]);
                }
            }
        }
    }
    assert forall|c: usize| #[trigger] list2.contains(c) implies c < nodes.len() && below::under(
        nodes,
        c as int,
        top as int,
    ) && (c == top || list2.contains(nodes[c as int].parent->0)) by {
        if c == x {
            assert(stack.contains(c));
        } else {
            assert(list.contains(c));
        }
    }
    assert forall|c: usize| #[trigger] stack2.contains(c) implies c < nodes.len() && below::under(
        nodes,
        c as int,
        top as int,
    ) && !list2.contains(c) && (c == top || list2.contains(nodes[c as int].parent->0)) by {
        if left.contains(c) {
            assert(stack.contains(c));
        } else {
            assert(kids.contains(c));
        }
    }
    assert forall|i: int, k: int|
        0 <= i < nodes.len() && list2.contains(i as usize) && 0 <= k
            < nodes[i].children.len() implies list2.contains(#[trigger] nodes[i].children[k])
        || stack2.contains(nodes[i].children[k]) by {
        let c = nodes[i].children[k];
        if i == x {
            assert(kids[k] == c);
            assert(kids.contains(c));
        } else {
            assert(list.contains(i as usize));
            if stack.contains(c) {
                assert(left.contains(c) || c == x);
            }
        }
    }
}

/// Once nothing is left to visit, everything below the top was visited.
pub proof fn lemma_walk_end(nodes: Seq<NodeView>, top: usize, list: Seq<usize>, j: int)
    requires
        nodes.len() <= usize::MAX,
        top < nodes.len(),
        walking(nodes, top, list, Seq::empty()),
        0 <= j < nodes.len(),
    ensures
        below::under(nodes, j, top as int) <==> list.contains(j as usize),
    decreases j,
{
    if below::under(nodes, j, top as int) && j != top {
        let p = nodes[j].parent->0 as int;
        lemma_walk_end(nodes, top, list, p);
        let k = choose|k: int|
            0 <= k < nodes[p].children.len() && nodes[p].children[k] == j as usize;
        assert(list.contains(nodes[p].children[k]));
    }
}

/// A list without repetition of numbers below `n` is no longer than `n`.
pub proof fn lemma_no_duplicates_bound(list: Seq<usize>, n: int)
    requires
        list.no_duplicates(),
        forall|c: usize| #[trigger] list.contains(c) ==> c < n,
        0 <= n,
    ensures
        list.len() <= n,
{
    let all = vstd::set_lib::set_int_range(0, n);
    let ints = list.map_values(|c: usize| c as int);
    assert(ints.no_duplicates()) by {
        assert forall|a: int, b: int|
            0 <= a < ints.len() && 0 <= b < ints.len() && a != b implies ints[a] != ints[b] by {
            assert(list[a] != list[b]);
        }
    }
    ints.unique_seq_to_set();
    vstd::set_lib::lemma_int_range(0, n);
    assert forall|x: int| ints.to_set().contains(x) implies all.contains(x) by {
        let k = choose|k: int| 0 <= k < ints.len() && ints[k] == x;
        assert(list.contains(list[k]));
    }
    vstd::set_lib::lemma_len_subset(ints.to_set(), all);
}

} // verus!
