//! What the order of texts is.

use vstd::prelude::*;

use crate::order::before;

verus! {

/// Texts are ordered as in a dictionary: one comes before another if and only if, behind
/// what they have in common, it ends while the other goes on, or has the lesser character.
pub proof fn law_before_is_lexicographic(a: Seq<char>, b: Seq<char>)
    ensures
        before(a, b) <==> exists|k: int|
            {
                &&& 0 <= k <= a.len() && k < b.len()
                &&& #[trigger] a.take(k) == b.take(k)
                &&& k == a.len() || a[k] < b[k]
            },
    decreases a.len(),
{
    if b.len() > 0 && a.len() > 0 && a[0] == b[0] {
        let x = a.skip(1);
        let y = b.skip(1);
        law_before_is_lexicographic(x, y);
        if before(a, b) {
            let k = choose|k: int|
                {
                    &&& 0 <= k <= x.len() && k < y.len()
                    &&& #[trigger] x.take(k) == y.take(k)
                    &&& k == x.len() || x[k] < y[k]
                };
            assert(a.take(k + 1) =~= b.take(k + 1)) by {
                assert forall|i: int| 0 <= i < k + 1 implies (#[trigger] a.take(k + 1)[i]) == b.take(
                    k + 1,
                )[i] by {
                    if i > 0 {
                        assert(x.take(k)[i - 1] == a[i]);
                        assert(y.take(k)[i - 1] == b[i]);
                    }
                }
            }
        }
        if exists|k: int|
            {
                &&& 0 <= k <= a.len() && k < b.len()
                &&& #[trigger] a.take(k) == b.take(k)
                &&& k == a.len() || a[k] < b[k]
            } {
            let k = choose|k: int|
                {
                    &&& 0 <= k <= a.len() && k < b.len()
                    &&& #[trigger] a.take(k) == b.take(k)
                    &&& k == a.len() || a[k] < b[k]
                };
            assert(k > 0);
            assert(x.take(k - 1) =~= y.take(k - 1)) by {
                assert forall|i: int| 0 <= i < k - 1 implies (#[trigger] x.take(k - 1)[i]) == y.take(
                    k - 1,
                )[i] by {
                    assert(a.take(k)[i + 1] == b.take(k)[i + 1]);
                }
            }
        }
    } else {
        assert(a.take(0) =~= b.take(0));
        if exists|k: int|
            {
                &&& 0 <= k <= a.len() && k < b.len()
                &&& #[trigger] a.take(k) == b.take(k)
                &&& k == a.len() || a[k] < b[k]
            } {
            let k = choose|k: int|
                {
                    &&& 0 <= k <= a.len() && k < b.len()
                    &&& #[trigger] a.take(k) == b.take(k)
                    &&& k == a.len() || a[k] < b[k]
                };
            if k > 0 {
                assert(a.take(k)[0] == b.take(k)[0]);
            }
        }
    }
}

} // verus!
