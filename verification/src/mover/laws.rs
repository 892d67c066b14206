//! What moving does to the in-memory mailbox.

use vstd::multiset::Multiset;
use vstd::prelude::*;

use crate::model::ActionView;
use crate::mover::{
    all_ids, first_match, ids_of, lemma_all_ids_insert, lemma_first_match, list_ids, FakeMsgView,
    Mailbox, MoveOutcome,
};

verus! {

/// The message is the one meant: it has the Message-ID of the action, or, where either of
/// them has none, its UID.
pub open spec fn is_meant(m: FakeMsgView, action: ActionView) -> bool {
    if m.message_id is Some && action.message_id is Some {
        m.message_id == action.message_id
    } else {
        m.uid is Some && m.uid == action.uid
    }
}

/// Moves still succeed.
pub open spec fn still_works(mailbox: Mailbox) -> bool {
    match mailbox.fail_after {
        Some(n) => mailbox.moves < n,
        None => true,
    }
}

/// `first_match` is the first message that is meant.
proof fn lemma_first_meant(list: Seq<FakeMsgView>, action: ActionView, p: int)
    requires
        0 <= p <= list.len(),
        p < list.len() ==> is_meant(list[p], action),
        forall|q: int| 0 <= q < p ==> !is_meant(#[trigger] list[q], action),
    ensures
        first_match(list, action) == p,
{
    lemma_first_match(list, action);
    let f = first_match(list, action);
    assert forall|i: int| 0 <= i < list.len() implies (#[trigger] list[i]).matches(action)
        == is_meant(list[i], action) by {}
    if f < p {
        assert(list[f].matches(action));
    }
    if p < f {
        assert(!list[p].matches(action));
    }
}

/// A move takes the first message that is meant out of the source folder and puts it at
/// the end of the destination, which is there from then on. Every other message keeps its
/// place, and the move is reported as such.
pub proof fn law_move_relocates(mailbox: Mailbox, action: ActionView, p: int)
    requires
        still_works(mailbox),
        mailbox.folders.contains_key(action.src_folder),
        0 <= p < mailbox.folders[action.src_folder].len(),
        is_meant(mailbox.folders[action.src_folder][p], action),
        forall|q: int|
            0 <= q < p ==> !is_meant(#[trigger] mailbox.folders[action.src_folder][q], action),
    ensures
        ({
            let src = mailbox.folders[action.src_folder];
            let after = mailbox.after_move(action);
            &&& mailbox.outcome(action) == Ok::<MoveOutcome, Seq<char>>(MoveOutcome::Moved)
            &&& action.src_folder != action.dst_dotpath ==> {
                &&& after.folders.contains_key(action.src_folder)
                &&& after.folders[action.src_folder] == src.remove(p)
                &&& after.folders.contains_key(action.dst_dotpath)
                &&& after.folders[action.dst_dotpath] == if mailbox.folders.contains_key(
                    action.dst_dotpath,
                ) {
                    mailbox.folders[action.dst_dotpath].push(src[p])
                } else {
                    seq![src[p]]
                }
            }
            &&& action.src_folder == action.dst_dotpath ==> after.folders[action.src_folder]
                == src.remove(p).push(src[p])
            &&& forall|x: Seq<char>|
                x != action.src_folder && x != action.dst_dotpath ==> (
                #[trigger] after.folders.contains_key(x)) == mailbox.folders.contains_key(x) && (
                mailbox.folders.contains_key(x) ==> after.folders[x] == mailbox.folders[x])
            &&& after.created == mailbox.created
            &&& after.fail_after == mailbox.fail_after
            &&& after.reconciled == mailbox.reconciled
            &&& mailbox.moves < usize::MAX ==> after.moves == mailbox.moves + 1
        }),
{
    let src = mailbox.folders[action.src_folder];
    lemma_first_meant(src, action, p);
    let none = Seq::<FakeMsgView>::empty();
    assert(none.push(src[p]) =~= seq![src[p]]);
}

/// A message that is not in the source folder counts as moved already: no folder changes.
pub proof fn law_absent_is_done(mailbox: Mailbox, action: ActionView)
    requires
        still_works(mailbox),
        mailbox.folders.contains_key(action.src_folder) ==> forall|q: int|
            0 <= q < mailbox.folders[action.src_folder].len() ==> !is_meant(
                #[trigger] mailbox.folders[action.src_folder][q],
                action,
            ),
    ensures
        mailbox.outcome(action) == Ok::<MoveOutcome, Seq<char>>(MoveOutcome::AlreadyDone),
        forall|x: Seq<char>| #[trigger]
            mailbox.folders.contains_key(x) ==> mailbox.after_move(action).folders.contains_key(x)
                && mailbox.after_move(action).folders[x] == mailbox.folders[x],
        mailbox.after_move(action).moves == mailbox.moves,
{
    if mailbox.folders.contains_key(action.src_folder) {
        let src = mailbox.folders[action.src_folder];
        lemma_first_meant(src, action, src.len() as int);
    } else {
        lemma_first_meant(Seq::empty(), action, 0);
    }
}

/// Once the mailbox is set to fail, moves fail and change nothing.
pub proof fn law_failure_changes_nothing(mailbox: Mailbox, action: ActionView)
    requires
        !still_works(mailbox),
    ensures
        mailbox.outcome(action) is Err,
        mailbox.after_move(action) == mailbox,
{
}

/// Ensuring a folder makes it, empty, if and only if it is not there, and leaves every
/// other folder alone.
pub proof fn law_folder_ensured(mailbox: Mailbox, path: Seq<char>)
    ensures
        ({
            let after = mailbox.with_folder(path);
            &&& after.folders.contains_key(path)
            &&& mailbox.folders.contains_key(path) ==> after == mailbox
            &&& !mailbox.folders.contains_key(path) ==> {
                &&& after.folders[path].len() == 0
                &&& after.created == mailbox.created.push(path)
            }
            &&& forall|x: Seq<char>|
                x != path ==> (#[trigger] after.folders.contains_key(x))
                    == mailbox.folders.contains_key(x) && (mailbox.folders.contains_key(x)
                    ==> after.folders[x] == mailbox.folders[x])
        }),
{
}

/// The Message-IDs of a mailbox are those of all its folders together: without folders
/// there are none, and a folder adds those of its messages.
pub proof fn law_ids_of_folders(
    folders: Map<Seq<char>, Seq<FakeMsgView>>,
    path: Seq<char>,
    list: Seq<FakeMsgView>,
)
    requires
        folders.dom().finite(),
        !folders.contains_key(path),
    ensures
        all_ids(Map::empty()) == Multiset::<Option<Seq<char>>>::empty(),
        all_ids(folders.insert(path, list)) == all_ids(folders).add(
            list.map_values(|m: FakeMsgView| m.message_id).to_multiset(),
        ),
{
    let ids = list.map_values(|m: FakeMsgView| m.message_id);
    assert(ids_of(list) =~= ids);
    assert(list_ids(list) == ids.to_multiset());
    lemma_all_ids_insert(folders, path, list);
    assert(folders.remove(path) =~= folders);
    assert(list_ids(list).add(all_ids(folders)) =~= all_ids(folders).add(list_ids(list)));
    let none = Map::<Seq<char>, Seq<FakeMsgView>>::empty();
    assert(none.dom() =~= Set::empty());
}

} // verus!
