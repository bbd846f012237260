//! What hangs below an entry, and sums over it.
use vstd::prelude::*;

use crate::tree;
use crate::tree::NodeView;

verus! {

/// `j` is `i`, or hangs below it by child lists.
pub open spec fn under(nodes: Seq<NodeView>, j: int, i: int) -> bool
    decreases j,
{
    j == i || (tree::listed(nodes, j) && nodes[j].parent->0 < j && under(
        nodes,
        nodes[j].parent->0 as int,
        i,
    ))
}

/// `f(0) + .. + f(n - 1)`.
pub open spec fn sum_range(f: spec_fn(int) -> int, n: int) -> int
    decreases n,
{
    if n <= 0 {
        0
    } else {
        sum_range(f, n - 1) + f(n - 1)
    }
}

/// The sum of `f` over everything that hangs below `i`, with `i` itself.
pub open spec fn sum_under(nodes: Seq<NodeView>, i: int, f: spec_fn(int) -> int) -> int {
    sum_range(
        |j: int|
            if under(nodes, j, i) {
                f(j)
            } else {
                0
            },
        nodes.len() as int,
    )
}

/// 1 for a directory, or with `dirs` false for anything else.
pub open spec fn is_one(nodes: Seq<NodeView>, dirs: bool) -> spec_fn(int) -> int {
    |j: int|
        if tree::is_dir(nodes[j]) == dirs {
            1int
        } else {
            0
        }
}

/// The number of directories below `i`, with `i` itself; with `dirs` false, that of the other
/// entries.
pub open spec fn count_under(nodes: Seq<NodeView>, i: int, dirs: bool) -> int {
    sum_under(nodes, i, is_one(nodes, dirs))
}

/// The sum of `f` over the entries of a list.
pub open spec fn sum_list(list: Seq<usize>, f: spec_fn(int) -> int) -> int
    decreases list.len(),
{
    if list.len() == 0 {
        0
    } else {
        sum_list(list.drop_last(), f) + f(list.last() as int)
    }
}

pub proof fn lemma_sum_range_same(f: spec_fn(int) -> int, g: spec_fn(int) -> int, n: int)
    requires
        forall|j: int| 0 <= j < n ==> #[trigger] f(j) == g(j),
    ensures
        sum_range(f, n) == sum_range(g, n),
    decreases n,
{
    if n > 0 {
        lemma_sum_range_same(f, g, n - 1);
    }
}

/// Raising one summand raises the sum by as much.
pub proof fn lemma_sum_range_one(f: spec_fn(int) -> int, g: spec_fn(int) -> int, n: int, x: int)
    requires
        0 <= x < n,
        forall|j: int| 0 <= j < n && j != x ==> #[trigger] f(j) == g(j),
    ensures
        sum_range(f, n) - f(x) == sum_range(g, n) - g(x),
    decreases n,
{
    if x == n - 1 {
        lemma_sum_range_same(f, g, n - 1);
    } else {
        lemma_sum_range_one(f, g, n - 1, x);
        assert(f(n - 1) == g(n - 1));
    }
}

pub proof fn lemma_sum_range_add(
    f: spec_fn(int) -> int,
    g: spec_fn(int) -> int,
    h: spec_fn(int) -> int,
    n: int,
)
    requires
        forall|j: int| 0 <= j < n ==> #[trigger] h(j) == f(j) + g(j),
    ensures
        sum_range(h, n) == sum_range(f, n) + sum_range(g, n),
    decreases n,
{
    if n > 0 {
        lemma_sum_range_add(f, g, h, n - 1);
        assert(h(n - 1) == f(n - 1) + g(n - 1));
    }
}

pub proof fn lemma_sum_range_zero(f: spec_fn(int) -> int, n: int)
    requires
        forall|j: int| 0 <= j < n ==> #[trigger] f(j) == 0,
    ensures
        sum_range(f, n) == 0,
    decreases n,
{
    if n > 0 {
        lemma_sum_range_zero(f, n - 1);
        assert(f(n - 1) == 0);
    }
}

pub proof fn lemma_sum_list_same(list: Seq<usize>, f: spec_fn(int) -> int, g: spec_fn(int) -> int)
    requires
        forall|k: int| 0 <= k < list.len() ==> #[trigger] f(list[k] as int) == g(list[k] as int),
    ensures
        sum_list(list, f) == sum_list(list, g),
    decreases list.len(),
{
    if list.len() > 0 {
        let shorter = list.drop_last();
        assert forall|k: int| 0 <= k < shorter.len() implies #[trigger] f(shorter[k] as int) == g(
            shorter[k] as int,
        ) by {
            assert(f(list[k] as int) == g(list[k] as int));
        }
        lemma_sum_list_same(shorter, f, g);
        assert(f(list[list.len() - 1] as int) == g(list[list.len() - 1] as int));
    }
}

/// Nothing below an entry is older than it.
pub proof fn lemma_under_bound(nodes: Seq<NodeView>, j: int, i: int)
    requires
        under(nodes, j, i),
    ensures
        i <= j,
        j != i ==> 0 <= j < nodes.len(),
    decreases j,
{
    if j != i {
        lemma_under_bound(nodes, nodes[j].parent->0 as int, i);
    }
}

/// What hangs below a child hangs below the parent.
pub proof fn lemma_under_child(nodes: Seq<NodeView>, j: int, c: int)
    requires
        under(nodes, j, c),
        tree::listed(nodes, c),
        nodes[c].parent->0 < c,
    ensures
        under(nodes, j, nodes[c].parent->0 as int),
    decreases j,
{
    if j != c {
        lemma_under_child(nodes, nodes[j].parent->0 as int, c);
    } else {
        assert(under(nodes, nodes[c].parent->0 as int, nodes[c].parent->0 as int));
    }
}

/// A list without repetition that holds exactly what hangs below `i` sums up to the same.
pub proof fn lemma_sum_of_members(
    nodes: Seq<NodeView>,
    list: Seq<usize>,
    i: int,
    f: spec_fn(int) -> int,
)
    requires
        list.no_duplicates(),
        forall|j: int|
            0 <= j < nodes.len() ==> (#[trigger] under(nodes, j, i) <==> list.contains(j as usize)),
        forall|k: int| 0 <= k < list.len() ==> #[trigger] list[k] < nodes.len(),
        nodes.len() <= usize::MAX,
    ensures
        sum_list(list, f) == sum_under(nodes, i, f),
{
    lemma_sum_of_list(list, f, nodes.len() as int);
    lemma_sum_range_same(
        |j: int|
            if list.contains(j as usize) {
                f(j)
            } else {
                0
            },
        |j: int|
            if under(nodes, j, i) {
                f(j)
            } else {
                0
            },
        nodes.len() as int,
    );
}

proof fn lemma_sum_of_list(list: Seq<usize>, f: spec_fn(int) -> int, n: int)
    requires
        list.no_duplicates(),
        forall|k: int| 0 <= k < list.len() ==> #[trigger] list[k] < n,
        0 <= n <= usize::MAX,
    ensures
        sum_list(list, f) == sum_range(
            |j: int|
                if list.contains(j as usize) {
                    f(j)
                } else {
                    0
                },
            n,
        ),
    decreases list.len(),
{
    let g = |j: int|
        if list.contains(j as usize) {
            f(j)
        } else {
            0
        };
    if list.len() == 0 {
        lemma_sum_range_zero(g, n);
    } else {
        let shorter = list.drop_last();
        let h = |j: int|
            if shorter.contains(j as usize) {
                f(j)
            } else {
                0
            };
        let x = list.last() as int;
        assert(list[list.len() - 1] < n);
        assert(shorter.no_duplicates());
        lemma_sum_of_list(shorter, f, n);
        assert(list.contains(list.last()));
        assert(!shorter.contains(list.last())) by {
            if shorter.contains(list.last()) {
                let k = choose|k: int| 0 <= k < shorter.len() && shorter[k] == list.last();
                assert(list[k] == list[list.len() - 1]);
            }
        }
        assert forall|j: int| 0 <= j < n && j != x implies #[trigger] g(j) == h(j) by {
            if list.contains(j as usize) {
                let k = choose|k: int| 0 <= k < list.len() && list[k] == j as usize;
                assert(k != list.len() - 1);
                assert(shorter[k] == j as usize);
            }
            if shorter.contains(j as usize) {
                let k = choose|k: int| 0 <= k < shorter.len() && shorter[k] == j as usize;
                assert(list[k] == j as usize);
            }
        }
        lemma_sum_range_one(g, h, n, x);
    }
}

// ---- One step down --------------------------------------------------------------------------

/// How many of the entries of a list `j` hangs below.
pub open spec fn homes(nodes: Seq<NodeView>, j: int, list: Seq<usize>) -> int {
    sum_list(
        list,
        |c: int|
            if under(nodes, j, c) {
                1int
            } else {
                0
            },
    )
}

proof fn lemma_no_home(nodes: Seq<NodeView>, j: int, list: Seq<usize>)
    requires
        forall|k: int| 0 <= k < list.len() ==> !under(nodes, j, #[trigger] list[k] as int),
    ensures
        homes(nodes, j, list) == 0,
    decreases list.len(),
{
    if list.len() > 0 {
        let shorter = list.drop_last();
        assert forall|k: int| 0 <= k < shorter.len() implies !under(
            nodes,
            j,
            #[trigger] shorter[k] as int,
        ) by {
            assert(shorter[k] == list[k]);
        }
        lemma_no_home(nodes, j, shorter);
        assert(list.last() == list[list.len() - 1]);
    }
}

proof fn lemma_one_home(nodes: Seq<NodeView>, j: int, list: Seq<usize>, at: int)
    requires
        0 <= at < list.len(),
        forall|k: int|
            0 <= k < list.len() ==> (under(nodes, j, #[trigger] list[k] as int) <==> k == at),
    ensures
        homes(nodes, j, list) == 1,
    decreases list.len(),
{
    let shorter = list.drop_last();
    assert(list.last() == list[list.len() - 1]);
    assert forall|k: int| 0 <= k < shorter.len() implies (under(
        nodes,
        j,
        #[trigger] shorter[k] as int,
    ) <==> k == at) by {
        assert(shorter[k] == list[k]);
    }
    if at == list.len() - 1 {
        lemma_no_home(nodes, j, shorter);
    } else {
        lemma_one_home(nodes, j, shorter, at);
    }
}

/// What hangs below `i` but is not `i` hangs below exactly one of its children.
pub proof fn lemma_home(nodes: Seq<NodeView>, j: int, i: int)
    requires
        tree::well_linked(nodes),
        nodes.len() <= usize::MAX,
        0 <= i < nodes.len(),
        0 <= j < nodes.len(),
    ensures
        homes(nodes, j, nodes[i].children) == if j != i && under(nodes, j, i) {
            1int
        } else {
            0
        },
    decreases j,
{
    let list = nodes[i].children;
    if j == i {
        assert forall|k: int| 0 <= k < list.len() implies !under(
            nodes,
            j,
            #[trigger] list[k] as int,
        ) by {
            assert(nodes[list[k] as int].parent == Some(i as usize));
            if under(nodes, j, list[k] as int) {
                lemma_under_bound(nodes, j, list[k] as int);
            }
        }
        lemma_no_home(nodes, j, list);
    } else if !under(nodes, j, i) {
        assert forall|k: int| 0 <= k < list.len() implies !under(
            nodes,
            j,
            #[trigger] list[k] as int,
        ) by {
            let c = list[k] as int;
            assert(nodes[c].parent == Some(i as usize));
            assert(nodes[i].children.contains(c as usize));
            if under(nodes, j, c) {
                lemma_under_child(nodes, j, c);
            }
        }
        lemma_no_home(nodes, j, list);
    } else {
        let p = nodes[j].parent->0 as int;
        if p == i {
            let at = choose|k: int| 0 <= k < list.len() && list[k] == j as usize;
            assert forall|k: int| 0 <= k < list.len() implies (under(
                nodes,
                j,
                #[trigger] list[k] as int,
            ) <==> k == at) by {
                let c = list[k] as int;
                assert(nodes[c].parent == Some(i as usize));
                if k != at {
                    assert(list[k] != list[at]) by {
                        if k < at {
                            assert(nodes[i].children[k] < nodes[i].children[at]);
                        } else {
                            assert(nodes[i].children[at] < nodes[i].children[k]);
                        }
                    }
                    if under(nodes, j, c) {
                        lemma_under_bound(nodes, i, c);
                    }
                }
            }
            lemma_one_home(nodes, j, list, at);
        } else {
            lemma_home(nodes, p, i);
            assert forall|k: int| 0 <= k < list.len() implies under(
                nodes,
                j,
                #[trigger] list[k] as int,
            ) == under(nodes, p, list[k] as int) by {
                assert(nodes[list[k] as int].parent == Some(i as usize));
            }
            lemma_sum_list_same(
                list,
                |c: int|
                    if under(nodes, j, c) {
                        1int
                    } else {
                        0
                    },
                |c: int|
                    if under(nodes, p, c) {
                        1int
                    } else {
                        0
                    },
            );
        }
    }
}

proof fn lemma_sum_swap(
    nodes: Seq<NodeView>,
    list: Seq<usize>,
    f: spec_fn(int) -> int,
)
    ensures
        sum_list(list, |c: int| sum_under(nodes, c, f)) == sum_range(
            |j: int| homes(nodes, j, list) * f(j),
            nodes.len() as int,
        ),
    decreases list.len(),
{
    let n = nodes.len() as int;
    let h = |j: int| homes(nodes, j, list) * f(j);
    if list.len() == 0 {
        assert forall|j: int| 0 <= j < n implies #[trigger] h(j) == 0 by {
            assert(homes(nodes, j, list) == 0);
        }
        lemma_sum_range_zero(h, n);
    } else {
        let shorter = list.drop_last();
        let c = list.last() as int;
        lemma_sum_swap(nodes, shorter, f);
        let a = |j: int| homes(nodes, j, shorter) * f(j);
        let b = |j: int|
            if under(nodes, j, c) {
                f(j)
            } else {
                0
            };
        assert forall|j: int| 0 <= j < n implies #[trigger] h(j) == a(j) + b(j) by {
            let one = if under(nodes, j, c) {
                1int
            } else {
                0
            };
            assert(homes(nodes, j, list) == homes(nodes, j, shorter) + one);
            assert((homes(nodes, j, shorter) + one) * f(j) == homes(nodes, j, shorter) * f(j) + one
                * f(j)) by (nonlinear_arith);
        }
        lemma_sum_range_add(a, b, h, n);
    }
}

/// The sum over what hangs below an entry is its own summand and the sums over its children.
pub proof fn lemma_sum_under_step(nodes: Seq<NodeView>, i: int, f: spec_fn(int) -> int)
    requires
        tree::well_linked(nodes),
        nodes.len() <= usize::MAX,
        0 <= i < nodes.len(),
    ensures
        sum_under(nodes, i, f) == f(i) + sum_list(
            nodes[i].children,
            |c: int| sum_under(nodes, c, f),
        ),
{
    let n = nodes.len() as int;
    let list = nodes[i].children;
    lemma_sum_swap(nodes, list, f);
    let whole = |j: int|
        if under(nodes, j, i) {
            f(j)
        } else {
            0
        };
    let kids = |j: int| homes(nodes, j, list) * f(j);
    assert forall|j: int| 0 <= j < n && j != i implies #[trigger] whole(j) == kids(j) by {
        lemma_home(nodes, j, i);
    }
    lemma_sum_range_one(whole, kids, n, i);
    lemma_home(nodes, i, i);
}

} // verus!
