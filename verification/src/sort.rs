//! Stable sorting of indices under a total order.
use vstd::prelude::*;
use vstd::relations::*;
use vstd::seq_lib::*;

verus! {

/// A total order on indices.
pub trait Ranking {
    /// `a` comes no later than `b`.
    spec fn no_later(&self, a: usize, b: usize) -> bool;

    /// The indices that can be compared at run time.
    spec fn comparable(&self, a: usize) -> bool;

    proof fn is_total_ordering(&self)
        ensures
            total_ordering(|a: usize, b: usize| self.no_later(a, b)),
    ;

    fn comes_no_later(&self, a: usize, b: usize) -> (yes: bool)
        requires
            self.comparable(a),
            self.comparable(b),
        ensures
            yes == self.no_later(a, b),
    ;
}

/// `items` in the order of `ranking`.
pub open spec fn ranked<R: Ranking>(items: Seq<usize>, ranking: &R) -> Seq<usize> {
    items.sort_by(|a: usize, b: usize| ranking.no_later(a, b))
}

/// Merge two sorted runs.
fn merge<R: Ranking>(left: &Vec<usize>, right: &Vec<usize>, ranking: &R) -> (out: Vec<usize>)
    requires
        forall|i: int| 0 <= i < left.len() ==> #[trigger] ranking.comparable(left[i]),
        forall|i: int| 0 <= i < right.len() ==> #[trigger] ranking.comparable(right[i]),
        sorted_by(left@, |a: usize, b: usize| ranking.no_later(a, b)),
        sorted_by(right@, |a: usize, b: usize| ranking.no_later(a, b)),
    ensures
        sorted_by(out@, |a: usize, b: usize| ranking.no_later(a, b)),
        out@.to_multiset() == (left@ + right@).to_multiset(),
{
    let ghost leq = |a: usize, b: usize| ranking.no_later(a, b);
    let mut out: Vec<usize> = Vec::new();
    let mut i: usize = 0;
    let mut j: usize = 0;
    proof {
        ranking.is_total_ordering();
        assert(left@.take(0) + right@.take(0) =~= out@);
    }
    while i < left.len() || j < right.len()
        invariant
            leq == |a: usize, b: usize| ranking.no_later(a, b),
            total_ordering(leq),
            forall|i: int| 0 <= i < left.len() ==> #[trigger] ranking.comparable(left[i]),
            forall|i: int| 0 <= i < right.len() ==> #[trigger] ranking.comparable(right[i]),
            sorted_by(left@, leq),
            sorted_by(right@, leq),
            i <= left.len(),
            j <= right.len(),
            sorted_by(out@, leq),
            forall|a: int, b: int|
                0 <= a < out.len() && i <= b < left.len() ==> #[trigger] leq(out[a], left[b]),
            forall|a: int, b: int|
                0 <= a < out.len() && j <= b < right.len() ==> #[trigger] leq(out[a], right[b]),
            out@.to_multiset() == (left@.take(i as int) + right@.take(j as int)).to_multiset(),
        decreases left.len() - i + right.len() - j,
    {
        let from_left = if i >= left.len() {
            false
        } else if j >= right.len() {
            true
        } else {
            ranking.comes_no_later(left[i], right[j])
        };
        let ghost before = out@;
        if from_left {
            let x = left[i];
            proof {
                assert(leq(x, x));
                assert forall|b: int| i <= b < left.len() implies #[trigger] leq(x, left[b]) by {
                    if b > i {
                        assert(leq(left[i as int], left[b]));
                    }
                }
                assert forall|b: int| j <= b < right.len() implies #[trigger] leq(x, right[b]) by {
                    assert(leq(x, right[j as int]));
                    if b > j {
                        assert(leq(right[j as int], right[b]));
                    }
                }
                assert forall|a: int| 0 <= a < out.len() implies #[trigger] leq(out[a], x) by {
                    assert(leq(out[a], left[i as int]));
                }
                lemma_take_push(left@, i as int, right@.take(j as int));
                before.to_multiset_ensures();
                (left@.take(i as int) + right@.take(j as int)).to_multiset_ensures();
            }
            out.push(x);
            i += 1;
        } else {
            let x = right[j];
            proof {
                assert(leq(x, x));
                assert forall|b: int| j <= b < right.len() implies #[trigger] leq(x, right[b]) by {
                    if b > j {
                        assert(leq(right[j as int], right[b]));
                    }
                }
                assert forall|b: int| i <= b < left.len() implies #[trigger] leq(x, left[b]) by {
                    assert(leq(left[i as int], x) || leq(x, left[i as int]));
                    assert(leq(x, left[i as int]));
                    if b > i {
                        assert(leq(left[i as int], left[b]));
                    }
                }
                assert forall|a: int| 0 <= a < out.len() implies #[trigger] leq(out[a], x) by {
                    assert(leq(out[a], right[j as int]));
                }
                assert(left@.take(i as int) + right@.take(j as int + 1) =~= (left@.take(i as int)
                    + right@.take(j as int)).push(x));
                before.to_multiset_ensures();
                (left@.take(i as int) + right@.take(j as int)).to_multiset_ensures();
            }
            out.push(x);
            j += 1;
        }
    }
    assert(left@.take(left@.len() as int) =~= left@);
    assert(right@.take(right@.len() as int) =~= right@);
    out
}

/// One more element of the first run, ahead of the second run, is one more element.
proof fn lemma_take_push(left: Seq<usize>, i: int, rest: Seq<usize>)
    requires
        0 <= i < left.len(),
    ensures
        (left.take(i + 1) + rest).to_multiset() == (left.take(i) + rest).to_multiset().insert(
            left[i],
        ),
{
    let s = left.take(i) + rest;
    s.to_multiset_ensures();
    assert(left.take(i + 1) + rest =~= s.insert(i, left[i]));
    vstd::seq_lib::to_multiset_insert(s, i, left[i]);
}

/// Sort `items`.
pub(crate) fn sort<R: Ranking>(items: Vec<usize>, ranking: &R) -> (out: Vec<usize>)
    requires
        forall|i: int| 0 <= i < items.len() ==> #[trigger] ranking.comparable(items[i]),
    ensures
        out@ == ranked(items@, ranking),
        out@.to_multiset() == items@.to_multiset(),
        sorted_by(out@, |a: usize, b: usize| ranking.no_later(a, b)),
    decreases items.len(),
{
    let ghost leq = |a: usize, b: usize| ranking.no_later(a, b);
    let ghost whole = items@;
    if items.len() <= 1 {
        proof {
            ranking.is_total_ordering();
            whole.lemma_sort_by_ensures(leq);
            lemma_sorted_unique(whole, whole.sort_by(leq), leq);
        }
        return items;
    }
    let mut items = items;
    let half: usize = items.len() / 2;
    let upper = items.split_off(half);
    assert(whole =~= items@ + upper@);
    assert forall|i: int| 0 <= i < items.len() implies #[trigger] ranking.comparable(items[i]) by {
        assert(ranking.comparable(whole[i]));
    }
    assert forall|i: int| 0 <= i < upper.len() implies #[trigger] ranking.comparable(upper[i]) by {
        assert(ranking.comparable(whole[i + half]));
    }
    let ghost lower_items = items@;
    let ghost upper_items = upper@;
    let lower = sort(items, ranking);
    let upper = sort(upper, ranking);
    proof {
        lemma_comparable(lower_items, lower@, ranking);
        lemma_comparable(upper_items, upper@, ranking);
    }
    let out = merge(&lower, &upper, ranking);
    proof {
        vstd::seq_lib::lemma_multiset_commutative(lower_items, upper_items);
        vstd::seq_lib::lemma_multiset_commutative(lower@, upper@);
        ranking.is_total_ordering();
        whole.lemma_sort_by_ensures(leq);
        lemma_sorted_unique(out@, whole.sort_by(leq), leq);
    }
    out
}

/// What can be said of every element can be said of every element of a rearrangement.
proof fn lemma_comparable<R: Ranking>(a: Seq<usize>, b: Seq<usize>, ranking: &R)
    requires
        a.to_multiset() == b.to_multiset(),
        forall|i: int| 0 <= i < a.len() ==> #[trigger] ranking.comparable(a[i]),
    ensures
        forall|i: int| 0 <= i < b.len() ==> #[trigger] ranking.comparable(b[i]),
{
    a.to_multiset_ensures();
    b.to_multiset_ensures();
    assert forall|i: int| 0 <= i < b.len() implies #[trigger] ranking.comparable(b[i]) by {
        assert(b.contains(b[i]));
        assert(b.to_multiset().count(b[i]) > 0);
        assert(a.contains(b[i]));
        let k = choose|k: int| 0 <= k < a.len() && a[k] == b[i];
        assert(ranking.comparable(a[k]));
    }
}

} // verus!
