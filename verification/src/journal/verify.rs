//! No-message-lost invariants over the in-memory mailbox, which every mover must mirror:
//! a move relocates a message, never duplicates or drops it.

use vstd::prelude::*;

use crate::mover::{
    all_ids, id_before, ids_ascend, lemma_id_before, lemma_ids_unique, lemma_insert_in_part,
    FakeMover, FakeMsgView,
};
use crate::text::{opt_text, opt_texts, str_eq};

verus! {

/// The Message-IDs in all folders are those of `ids`, which stand in ascending order.
pub open spec fn is_census(
    ids: Seq<Option<Seq<char>>>,
    folders: Map<Seq<char>, Seq<FakeMsgView>>,
) -> bool {
    ids_ascend(ids) && ids.to_multiset() == all_ids(folders)
}

/// No Message-ID occurs twice.
pub open spec fn once_each(folders: Map<Seq<char>, Seq<FakeMsgView>>) -> bool {
    forall|id: Seq<char>| #[trigger] all_ids(folders).count(Some(id)) <= 1
}

/// Whether two optional texts are equal.
fn same_id(a: &Option<String>, b: &Option<String>) -> (r: bool)
    ensures
        r == (opt_text(*a) == opt_text(*b)),
{
    match (a, b) {
        (Some(x), Some(y)) => str_eq(x, y),
        (None, None) => true,
        _ => false,
    }
}

/// Message-ID conservation: the multiset of Message-IDs is identical before and after.
/// `before` is a snapshot from [`FakeMover::message_id_multiset`].
pub fn message_ids_conserved(before: &[Option<String>], after: &FakeMover) -> (r: bool)
    ensures
        r == is_census(opt_texts(before@), after@.folders),
{
    let now = after.message_id_multiset();
    let ghost b = opt_texts(before@);
    let ghost a = opt_texts(now@);
    proof {
        if is_census(b, after@.folders) {
            lemma_ids_unique(b, a);
        }
    }
    if before.len() != now.len() {
        return false;
    }
    for i in 0..now.len()
        invariant
            b == opt_texts(before@),
            a == opt_texts(now@),
            a.len() == b.len(),
            is_census(b, after@.folders) ==> a == b,
            forall|j: int| 0 <= j < i ==> a[j] == b[j],
    {
        if !same_id(&before[i], &now[i]) {
            assert(a[i as int] != b[i as int]);
            return false;
        }
    }
    assert(a =~= b);
    true
}

/// Exactly-once placement: every Message-ID present occurs exactly once in all folders.
/// (Messages without a Message-ID are ignored here; conservation covers them.)
pub fn each_message_once(fm: &FakeMover) -> (r: bool)
    ensures
        r == once_each(fm@.folders),
{
    broadcast use vstd::seq_lib::group_to_multiset_ensures;

    let ids = fm.message_id_multiset();
    let ghost a = opt_texts(ids@);
    let mut i: usize = 1;
    while i < ids.len()
        invariant
            1 <= i,
            a == opt_texts(ids@),
            ids_ascend(a),
            a.to_multiset() == all_ids(fm@.folders),
            forall|j: int| 1 <= j < i && j < a.len() && (#[trigger] a[j]) is Some ==> a[j] != a[j - 1],
        decreases ids@.len() - i,
    {
        if ids[i].is_some() && same_id(&ids[i - 1], &ids[i]) {
            proof {
                assert(a[i as int] == a[i - 1]);
                let id = a[i as int]->0;
                lemma_twice(a, i - 1, i as int);
                assert(all_ids(fm@.folders).count(Some(id)) > 1);
            }
            return false;
        }
        i += 1;
    }
    proof {
        assert forall|id: Seq<char>| #[trigger] all_ids(fm@.folders).count(Some(id)) <= 1 by {
            if a.to_multiset().count(Some(id)) > 1 {
                lemma_count_twice(a, Some(id));
                let (p, q) = choose|p: int, q: int|
                    0 <= p < q < a.len() && #[trigger] a[p] == Some(id) && #[trigger] a[q]
                        == Some(id);
                lemma_id_before(a[p], a[q - 1], a[q]);
                lemma_id_before(a[q - 1], a[q], a[p]);
                lemma_id_before(a[q], a[q - 1], a[p]);
                assert(!id_before(a[q], a[q - 1]));
                if p < q - 1 {
                    assert(!id_before(a[q - 1], a[p]));
                }
                assert(a[q - 1] == a[q]);
            }
        }
    }
    true
}

/// An item at two positions counts at least twice.
proof fn lemma_twice<A>(s: Seq<A>, p: int, q: int)
    requires
        0 <= p < q < s.len(),
        s[p] == s[q],
    ensures
        s.to_multiset().count(s[p]) > 1,
{
    broadcast use vstd::seq_lib::group_to_multiset_ensures;

    let rest = s.remove(q);
    assert(rest[p] == s[p]);
    assert(rest.contains(s[p]));
    s.to_multiset_ensures();
    rest.to_multiset_ensures();
    assert(rest.to_multiset() =~= s.to_multiset().remove(s[q]));
    assert(s.contains(s[q]));
    let ids = s.to_multiset();
    assert(ids.count(s[q]) > 0 && rest.to_multiset().count(s[p]) > 0);
    lemma_insert_in_part(ids, ids, s[q]);
    lemma_insert_in_part(rest.to_multiset(), ids, s[q]);
}

/// An item that counts more than once stands at two positions.
proof fn lemma_count_twice<A>(s: Seq<A>, x: A)
    requires
        s.to_multiset().count(x) > 1,
    ensures
        exists|p: int, q: int|
            0 <= p < q < s.len() && #[trigger] s[p] == x && #[trigger] s[q] == x,
{
    broadcast use vstd::seq_lib::group_to_multiset_ensures;

    s.to_multiset_ensures();
    assert(s.contains(x));
    let q = s.index_of(x);
    let rest = s.remove(q);
    rest.to_multiset_ensures();
    assert(rest.to_multiset() =~= s.to_multiset().remove(s[q]));
    lemma_insert_in_part(s.to_multiset(), s.to_multiset(), x);
    lemma_insert_in_part(rest.to_multiset(), s.to_multiset(), x);
    assert(rest.to_multiset().count(x) > 0);
    assert(rest.contains(x));
    let p = rest.index_of(x);
    assert(rest[p] == x);
    if p < q {
        assert(s[p] == x && s[q] == x);
    } else {
        assert(s[q] == x && s[p + 1] == x);
    }
}

/// Both structural invariants together.
pub fn no_loss(before: &[Option<String>], after: &FakeMover) -> (r: bool)
    ensures
        r == (is_census(opt_texts(before@), after@.folders) && once_each(after@.folders)),
{
    message_ids_conserved(before, after) && each_message_once(after)
}

} // verus!
