//! Stable sorting by a rank of the items.

use vstd::prelude::*;

use crate::seqs::{all_views, is_permutation, lemma_picked_multiset, picked};

verus! {

/// Items that can be sorted: `ranks` is a strict weak order of their views.
pub trait Ranked: View {
    /// `a` belongs strictly before `b`.
    spec fn ranks(a: Self::V, b: Self::V) -> bool;

    /// The order is irreflexive and transitive, and so is being unranked.
    proof fn lemma_ranks(a: Self::V, b: Self::V, c: Self::V)
        ensures
            !Self::ranks(a, a),
            Self::ranks(a, b) && Self::ranks(b, c) ==> Self::ranks(a, c),
            Self::ranks(a, b) ==> Self::ranks(a, c) || Self::ranks(c, b),
    ;

    /// Whether this item belongs strictly before `other`.
    fn ranked_before(&self, other: &Self) -> (r: bool)
        ensures
            r == Self::ranks(self@, other@),
    ;
}

/// Item `a` of a list is placed before item `b`: it ranks before it, or neither ranks
/// before the other and it came first.
pub open spec fn placed<T: Ranked>(items: Seq<T::V>, a: int, b: int) -> bool {
    T::ranks(items[a], items[b]) || (!T::ranks(items[b], items[a]) && a < b)
}

/// The positions in `order` stand in the order in which a stable sort places them.
pub open spec fn in_place<T: Ranked>(items: Seq<T::V>, order: Seq<usize>) -> bool {
    forall|i: int, j: int|
        0 <= i < j < order.len() ==> placed::<T>(
            items,
            #[trigger] order[i] as int,
            #[trigger] order[j] as int,
        )
}

/// `order` is the stable sort of `items`: every position once, each in its place.
pub open spec fn is_sorting<T: Ranked>(items: Seq<T::V>, order: Seq<usize>) -> bool {
    is_permutation(order, items.len()) && in_place::<T>(items, order)
}

/// Placement is a strict total order of the positions.
pub proof fn lemma_placed<T: Ranked>(items: Seq<T::V>, a: int, b: int, c: int)
    ensures
        !placed::<T>(items, a, a),
        a != b ==> placed::<T>(items, a, b) || placed::<T>(items, b, a),
        !(placed::<T>(items, a, b) && placed::<T>(items, b, a)),
        placed::<T>(items, a, b) && placed::<T>(items, b, c) ==> placed::<T>(items, a, c),
{
    let (x, y, z) = (items[a], items[b], items[c]);
    T::lemma_ranks(x, y, x);
    T::lemma_ranks(y, x, y);
    T::lemma_ranks(x, y, z);
    T::lemma_ranks(y, z, x);
    T::lemma_ranks(z, x, y);
    T::lemma_ranks(x, z, y);
    T::lemma_ranks(z, y, x);
    T::lemma_ranks(y, x, z);
}

/// A list has only one stable sort.
pub proof fn law_sorting_unique<T: Ranked>(items: Seq<T::V>, one: Seq<usize>, two: Seq<usize>)
    requires
        is_sorting::<T>(items, one),
        is_sorting::<T>(items, two),
        items.len() <= usize::MAX,
    ensures
        one == two,
{
    broadcast use vstd::seq_lib::group_to_multiset_ensures;

    let leq = |a: usize, b: usize| a == b || placed::<T>(items, a as int, b as int);
    assert forall|a: usize, b: usize, c: usize|
        #![trigger leq(a, b), leq(b, c)]
        leq(a, b) && leq(b, c) implies leq(a, c) by {
        lemma_placed::<T>(items, a as int, b as int, c as int);
    }
    assert forall|a: usize, b: usize|
        #![trigger leq(a, b), leq(b, a)]
        leq(a, b) && leq(b, a) implies a == b by {
        lemma_placed::<T>(items, a as int, b as int, a as int);
    }
    assert forall|a: usize, b: usize|
        #![trigger leq(a, b), leq(b, a)]
        leq(a, b) || leq(b, a) by {
        lemma_placed::<T>(items, a as int, b as int, a as int);
    }
    assert(vstd::relations::total_ordering(leq));
    assert(vstd::relations::sorted_by(one, leq));
    assert(vstd::relations::sorted_by(two, leq));
    let ids = Seq::new(items.len(), |i: int| i as usize);
    lemma_picked_multiset(ids, one);
    lemma_picked_multiset(ids, two);
    assert(picked(ids, one) =~= one);
    assert(picked(ids, two) =~= two);
    vstd::seq_lib::lemma_sorted_unique(one, two, leq);
}

/// Every position in `order` lies between `from` and `to`.
spec fn within(order: Seq<usize>, from: int, to: int) -> bool {
    forall|i: int| 0 <= i < order.len() ==> from <= (#[trigger] order[i]) < to
}

/// Merge two sorted runs of neighbouring positions.
fn merge_runs<T: Ranked>(
    items: &[T],
    left: &Vec<usize>,
    right: &Vec<usize>,
    Ghost(from): Ghost<int>,
    Ghost(mid): Ghost<int>,
    Ghost(to): Ghost<int>,
) -> (r: Vec<usize>)
    requires
        0 <= from <= mid <= to <= items@.len(),
        left@.len() == mid - from,
        right@.len() == to - mid,
        within(left@, from, mid),
        within(right@, mid, to),
        in_place::<T>(all_views(items@), left@),
        in_place::<T>(all_views(items@), right@),
    ensures
        r@.len() == to - from,
        within(r@, from, to),
        in_place::<T>(all_views(items@), r@),
{
    let ghost vs = all_views(items@);
    let mut out: Vec<usize> = Vec::new();
    let mut i: usize = 0;
    let mut j: usize = 0;
    while i < left.len() || j < right.len()
        invariant
            vs == all_views(items@),
            0 <= from <= mid <= to <= items@.len(),
            i <= left@.len() == mid - from,
            j <= right@.len() == to - mid,
            out@.len() == i + j,
            within(left@, from, mid),
            within(right@, mid, to),
            within(out@, from, to),
            in_place::<T>(vs, left@),
            in_place::<T>(vs, right@),
            in_place::<T>(vs, out@),
            forall|k: int, l: int|
                0 <= k < out@.len() && i <= l < left@.len() ==> placed::<T>(
                    vs,
                    #[trigger] out@[k] as int,
                    #[trigger] left@[l] as int,
                ),
            forall|k: int, l: int|
                0 <= k < out@.len() && j <= l < right@.len() ==> placed::<T>(
                    vs,
                    #[trigger] out@[k] as int,
                    #[trigger] right@[l] as int,
                ),
        decreases left@.len() - i + right@.len() - j,
    {
        let ghost before = out@;
        let take_left = if i == left.len() {
            false
        } else if j == right.len() {
            true
        } else {
            !items[right[j]].ranked_before(&items[left[i]])
        };
        if take_left {
            proof {
                if j < right@.len() {
                    assert(placed::<T>(vs, left@[i as int] as int, right@[j as int] as int));
                    assert forall|l: int| j <= l < right@.len() implies placed::<T>(
                        vs,
                        left@[i as int] as int,
                        #[trigger] right@[l] as int,
                    ) by {
                        lemma_placed::<T>(
                            vs,
                            left@[i as int] as int,
                            right@[j as int] as int,
                            right@[l] as int,
                        );
                    }
                }
            }
            out.push(left[i]);
            assert forall|k: int, l: int|
                0 <= k < out@.len() && i + 1 <= l < left@.len() implies placed::<T>(
                vs,
                #[trigger] out@[k] as int,
                #[trigger] left@[l] as int,
            ) by {
                if k < before.len() {
                    assert(out@[k] == before[k]);
                }
            }
            i += 1;
        } else {
            proof {
                if i < left@.len() {
                    assert(placed::<T>(vs, right@[j as int] as int, left@[i as int] as int));
                    assert forall|l: int| i <= l < left@.len() implies placed::<T>(
                        vs,
                        right@[j as int] as int,
                        #[trigger] left@[l] as int,
                    ) by {
                        lemma_placed::<T>(
                            vs,
                            right@[j as int] as int,
                            left@[i as int] as int,
                            left@[l] as int,
                        );
                    }
                }
            }
            out.push(right[j]);
            assert forall|k: int, l: int|
                0 <= k < out@.len() && j + 1 <= l < right@.len() implies placed::<T>(
                vs,
                #[trigger] out@[k] as int,
                #[trigger] right@[l] as int,
            ) by {
                if k < before.len() {
                    assert(out@[k] == before[k]);
                }
            }
            j += 1;
        }
    }
    out
}

/// The stable sort of the items at positions `from..to`.
fn sort_run<T: Ranked>(items: &[T], from: usize, to: usize) -> (r: Vec<usize>)
    requires
        from <= to <= items@.len(),
    ensures
        r@.len() == to - from,
        within(r@, from as int, to as int),
        in_place::<T>(all_views(items@), r@),
    decreases to - from,
{
    if to - from <= 1 {
        let mut out: Vec<usize> = Vec::new();
        if from < to {
            out.push(from);
        }
        out
    } else {
        let mid: usize = from + (to - from) / 2;
        let left = sort_run(items, from, mid);
        let right = sort_run(items, mid, to);
        merge_runs(
            items,
            &left,
            &right,
            Ghost(from as int),
            Ghost(mid as int),
            Ghost(to as int),
        )
    }
}

/// The positions of `items` in the order in which a stable sort places them.
pub fn sorted_order<T: Ranked>(items: &[T]) -> (r: Vec<usize>)
    ensures
        is_sorting::<T>(all_views(items@), r@),
{
    let r = sort_run(items, 0, items.len());
    proof {
        let vs = all_views(items@);
        assert forall|i: int, j: int|
            0 <= i < r@.len() && 0 <= j < r@.len() && i != j implies r@[i] != r@[j] by {
            lemma_placed::<T>(vs, r@[i] as int, r@[j] as int, r@[i] as int);
            if i < j {
                assert(placed::<T>(vs, r@[i] as int, r@[j] as int));
            } else {
                assert(placed::<T>(vs, r@[j] as int, r@[i] as int));
            }
        }
    }
    r
}

} // verus!
