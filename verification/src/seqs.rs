//! Views of sequences and options, element by element.

use vstd::prelude::*;

verus! {

/// The views of a sequence's items.
pub open spec fn all_views<T: View>(s: Seq<T>) -> Seq<T::V> {
    Seq::new(s.len(), |i: int| s[i]@)
}

/// The view of an optional item.
pub open spec fn opt_view<T: View>(o: Option<T>) -> Option<T::V> {
    match o {
        Some(x) => Some(x@),
        None => None,
    }
}

/// The items of `s` at the given positions, in the order of the positions.
pub open spec fn picked<A>(s: Seq<A>, order: Seq<usize>) -> Seq<A> {
    Seq::new(order.len(), |i: int| s[order[i] as int])
}

/// `order` names each position of a sequence of `n` items exactly once.
pub open spec fn is_permutation(order: Seq<usize>, n: nat) -> bool {
    &&& order.len() == n
    &&& order.no_duplicates()
    &&& forall|i: int| 0 <= i < order.len() ==> (#[trigger] order[i]) < n
}

/// A permutation of `n` positions misses none of them.
pub proof fn lemma_permutation_covers(order: Seq<usize>, n: nat, k: usize)
    requires
        is_permutation(order, n),
        k < n,
    ensures
        order.contains(k),
    decreases n,
{
    if n > 0 {
        let last = (n - 1) as usize;
        if order.contains(last) {
            let p = order.index_of(last);
            let rest = order.remove(p);
            assert forall|i: int| 0 <= i < rest.len() implies (#[trigger] rest[i]) < n - 1 by {
                let j = if i < p {
                    i
                } else {
                    i + 1
                };
                assert(rest[i] == order[j]);
                assert(order[j] != order[p]);
            }
            assert(rest.no_duplicates()) by {
                assert forall|i: int, j: int|
                    0 <= i < rest.len() && 0 <= j < rest.len() && i != j implies rest[i]
                    != rest[j] by {
                    let i1 = if i < p {
                        i
                    } else {
                        i + 1
                    };
                    let j1 = if j < p {
                        j
                    } else {
                        j + 1
                    };
                    assert(order[i1] != order[j1]);
                }
            }
            if k != last {
                lemma_permutation_covers(rest, (n - 1) as nat, k);
                let q = rest.index_of(k);
                assert(rest[q] == k);
                if q < p {
                    assert(order[q] == k);
                } else {
                    assert(order[q + 1] == k);
                }
            }
        } else {
            let rest = order.drop_last();
            assert forall|i: int| 0 <= i < rest.len() implies (#[trigger] rest[i]) < n - 1 by {
                assert(rest[i] == order[i]);
                assert(order.contains(order[i]));
            }
            assert(order.contains(order[n - 1]));
            assert(order[n - 1] < n - 1);
            lemma_permutation_covers(rest, (n - 1) as nat, order[n - 1]);
            let q = rest.index_of(order[n - 1]);
            assert(rest[q] == order[n - 1]);
            assert(order[q] == order[n - 1]);
        }
    }
}

/// Reordering keeps the multiset of items.
pub proof fn lemma_picked_multiset<A>(s: Seq<A>, order: Seq<usize>)
    requires
        is_permutation(order, s.len()),
        s.len() <= usize::MAX,
    ensures
        picked(s, order).to_multiset() == s.to_multiset(),
    decreases s.len(),
{
    broadcast use vstd::seq_lib::group_to_multiset_ensures;

    if s.len() == 0 {
        assert(picked(s, order) =~= s);
    } else {
        let n = s.len();
        let last = (n - 1) as usize;
        lemma_permutation_covers(order, n, last);
        let p = order.index_of(last);
        let rest = order.remove(p);
        assert forall|i: int| 0 <= i < rest.len() implies (#[trigger] rest[i]) < n - 1 by {
            let j = if i < p {
                i
            } else {
                i + 1
            };
            assert(rest[i] == order[j]);
            assert(order[j] != order[p]);
        }
        assert forall|i: int, j: int|
            0 <= i < rest.len() && 0 <= j < rest.len() && i != j implies rest[i] != rest[j] by {
            let i1 = if i < p {
                i
            } else {
                i + 1
            };
            let j1 = if j < p {
                j
            } else {
                j + 1
            };
            assert(order[i1] != order[j1]);
        }
        lemma_picked_multiset(s.drop_last(), rest);
        assert(picked(s.drop_last(), rest) =~= picked(s, order).remove(p));
        assert(s.drop_last().push(s.last()) =~= s);
        let whole = picked(s, order);
        assert(whole[p] == s.last());
        assert(whole.to_multiset().count(whole[p]) > 0) by {
            assert(whole.contains(whole[p]));
        }
        assert(whole.to_multiset() =~= whole.remove(p).to_multiset().insert(s.last()));
    }
}

/// Two lists with the same items, each strictly in an order, agree at a position if they
/// agree before it.
proof fn lemma_agree_at<A>(a: Seq<A>, b: Seq<A>, less: spec_fn(A, A) -> bool, i: int)
    requires
        0 <= i < a.len(),
        i <= b.len(),
        forall|x: A| #[trigger] a.contains(x) == b.contains(x),
        forall|j: int, k: int| 0 <= j < k < a.len() ==> less(#[trigger] a[j], #[trigger] a[k]),
        forall|j: int, k: int| 0 <= j < k < b.len() ==> less(#[trigger] b[j], #[trigger] b[k]),
        forall|x: A, y: A| #[trigger] less(x, y) ==> !less(y, x),
        forall|k: int| 0 <= k < i ==> a[k] == b[k],
    ensures
        i < b.len(),
        a[i] == b[i],
{
    assert(a.contains(a[i]));
    let j = b.index_of(a[i]);
    assert(b[j] == a[i]);
    if j < i {
        assert(a[j] == b[j]);
        assert(less(a[j], a[i]));
    }
    if j > i {
        assert(b.contains(b[i]));
        assert(a.contains(b[i]));
        let k = a.index_of(b[i]);
        assert(a[k] == b[i]);
        assert(less(b[i], b[j]));
        if k < i {
            assert(b[k] == a[k]);
            assert(less(b[k], b[i]));
        } else if k > i {
            assert(less(a[i], a[k]));
        }
    }
}

/// Two lists with the same items, each strictly in an order, have the same start.
proof fn lemma_agree_to<A>(a: Seq<A>, b: Seq<A>, less: spec_fn(A, A) -> bool, n: int)
    requires
        0 <= n <= a.len(),
        forall|x: A| #[trigger] a.contains(x) == b.contains(x),
        forall|j: int, k: int| 0 <= j < k < a.len() ==> less(#[trigger] a[j], #[trigger] a[k]),
        forall|j: int, k: int| 0 <= j < k < b.len() ==> less(#[trigger] b[j], #[trigger] b[k]),
        forall|x: A, y: A| #[trigger] less(x, y) ==> !less(y, x),
    ensures
        n <= b.len(),
        forall|k: int| 0 <= k < n ==> a[k] == b[k],
    decreases n,
{
    if n > 0 {
        lemma_agree_to(a, b, less, n - 1);
        lemma_agree_at(a, b, less, n - 1);
    }
}

/// Two lists with the same items, each strictly in an order, are the same list.
pub proof fn lemma_same_list<A>(a: Seq<A>, b: Seq<A>, less: spec_fn(A, A) -> bool)
    requires
        forall|x: A| #[trigger] a.contains(x) == b.contains(x),
        forall|j: int, k: int| 0 <= j < k < a.len() ==> less(#[trigger] a[j], #[trigger] a[k]),
        forall|j: int, k: int| 0 <= j < k < b.len() ==> less(#[trigger] b[j], #[trigger] b[k]),
        forall|x: A, y: A| #[trigger] less(x, y) ==> !less(y, x),
    ensures
        a == b,
{
    lemma_agree_to(a, b, less, a.len() as int);
    assert forall|x: A| #[trigger] b.contains(x) == a.contains(x) by {
        assert(a.contains(x) == b.contains(x));
    }
    lemma_agree_to(b, a, less, b.len() as int);
    assert(a =~= b);
}

} // verus!
