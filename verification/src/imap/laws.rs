//! What holds of every server-side move, shown on the in-memory server.

use vstd::prelude::*;

use crate::imap::fake::{held, is_greatest, FakeImapOps, Server};
use crate::imap::{fell_back, moved_by_uid, or_outcome, relocated, ImapMover, ImapOps};
use crate::model::ActionView;
use crate::mover::{MoveOutcome, Mover};
use crate::namemap::imap_name;
use crate::reconcile::Reconciler;

verus! {

/// Every UID in use is below the next one to be assigned.
pub open spec fn consistent(server: Server) -> bool {
    forall|m: Seq<char>, u: u32| #[trigger]
        held(server.mailboxes, m).contains(u) ==> u < server.next_uid
}

/// The mailboxes after a message has gone from `src` to `dst`, where it gets a fresh UID.
pub open spec fn refiled_uid(
    server: Server,
    uid: u32,
    src: Seq<char>,
    dst: Seq<char>,
) -> Map<Seq<char>, Set<u32>> {
    let left = server.mailboxes.insert(src, server.mailboxes[src].remove(uid));
    left.insert(dst, held(left, dst).insert(server.next_uid))
}

/// What a move by UID reports on the in-memory server: an error without the source
/// mailbox, nothing to do without the message in it, else the move, as long as there is a
/// UID left to assign.
pub open spec fn expected(
    server: Server,
    uid: u32,
    src: Seq<char>,
) -> Result<MoveOutcome, Seq<char>> {
    if !server.mailboxes.contains_key(src) {
        Err("SELECT of nonexistent mailbox "@ + src)
    } else if !server.mailboxes[src].contains(uid) {
        Ok(MoveOutcome::AlreadyDone)
    } else if server.next_uid == u32::MAX {
        Err("no UID left"@)
    } else {
        Ok(MoveOutcome::Moved)
    }
}

/// A move by UID does exactly one thing to the mailboxes, whether the server has `MOVE` or
/// needs the fallback: the message leaves the source, and one message arrives in the
/// destination. If it is not reported as moved, no mailbox changes.
proof fn lemma_moved_by_uid(
    pre: FakeImapOps,
    uid: u32,
    src: Seq<char>,
    dst: Seq<char>,
    post: FakeImapOps,
    r: Result<MoveOutcome, Seq<char>>,
)
    requires
        moved_by_uid(pre, uid, src, dst, post, r),
        consistent(pre@),
    ensures
        r == expected(pre@, uid, src),
        r == Ok::<MoveOutcome, Seq<char>>(MoveOutcome::Moved) ==> post@.mailboxes == refiled_uid(
            pre@,
            uid,
            src,
            dst,
        ) && post@.next_uid == pre@.next_uid + 1,
        r != Ok::<MoveOutcome, Seq<char>>(MoveOutcome::Moved) ==> post@.mailboxes
            == pre@.mailboxes && post@.next_uid == pre@.next_uid,
{
    let server = pre@;
    if server.mailboxes.contains_key(src) {
        assert(held(server.mailboxes, src) == server.mailboxes[src]);
        if server.mailboxes[src].contains(uid) {
            let (selected, found) = choose|selected: FakeImapOps, found: FakeImapOps|
                {
                    &&& #[trigger] FakeImapOps::select_step(pre, src, selected, Ok(()))
                    &&& #[trigger] FakeImapOps::exists_step(selected, uid, found, Ok(true))
                    &&& relocated(found, uid, dst, post, r)
                };
            assert(found@.mailboxes == server.mailboxes);
            assert(found@.next_uid == server.next_uid);
            assert(found@.selected == Some(src));
            lemma_relocated(found, uid, src, dst, post, r);
        }
    }
}

/// Relocating a message that is in the selected mailbox.
proof fn lemma_relocated(
    found: FakeImapOps,
    uid: u32,
    src: Seq<char>,
    dst: Seq<char>,
    post: FakeImapOps,
    r: Result<MoveOutcome, Seq<char>>,
)
    requires
        relocated(found, uid, dst, post, r),
        found@.selected == Some(src),
        found@.mailboxes.contains_key(src),
        found@.mailboxes[src].contains(uid),
        consistent(found@),
    ensures
        r == if found@.next_uid == u32::MAX {
            Err("no UID left"@)
        } else {
            Ok(MoveOutcome::Moved)
        },
        r is Ok ==> post@.mailboxes == refiled_uid(found@, uid, src, dst) && post@.next_uid
            == found@.next_uid + 1,
        r is Err ==> post@.mailboxes == found@.mailboxes && post@.next_uid == found@.next_uid,
{
    let server = found@;
    assert(held(server.mailboxes, src) == server.mailboxes[src]);
    assert(held(server.mailboxes, src).contains(uid));
    if found.move_told(false) && server.next_uid != u32::MAX {
        assert(fell_back(found, uid, dst, post, r));
        let (copied, marked, last) = choose|
            copied: FakeImapOps,
            marked: FakeImapOps,
            last: Result<(), Seq<char>>,
        |
            {
                &&& #[trigger] FakeImapOps::copy_step(found, uid, dst, copied, Ok(()))
                &&& #[trigger] FakeImapOps::delete_step(copied, uid, marked, Ok(()))
                &&& #[trigger] FakeImapOps::expunge_step(marked, uid, post, last)
                &&& r == or_outcome(last, MoveOutcome::Moved)
            };
        assert(copied@.mailboxes == server.mailboxes.insert(
            dst,
            held(server.mailboxes, dst).insert(server.next_uid),
        ));
        assert(copied@.selected == Some(src));
        assert(marked@.mailboxes == copied@.mailboxes);
        assert(held(marked@.deleted, src).contains(uid));
        assert(last == Ok::<(), Seq<char>>(()));
        assert(post@.mailboxes == copied@.mailboxes.insert(
            src,
            copied@.mailboxes[src].remove(uid),
        ));
        assert(uid < server.next_uid);
        assert(post@.mailboxes =~= refiled_uid(server, uid, src, dst)) by {
            assert forall|m: Seq<char>| #[trigger] post@.mailboxes.contains_key(m) implies post@.mailboxes[m]
                == refiled_uid(server, uid, src, dst)[m] by {
                if m == src && m == dst {
                    assert(server.mailboxes[src].insert(server.next_uid).remove(uid)
                        =~= server.mailboxes[src].remove(uid).insert(server.next_uid));
                }
            }
        }
    }
}

/// Every server-side move keeps messages: one that succeeds takes the message out of the
/// source mailbox and puts one under a fresh UID into the destination, and touches no
/// other mailbox; one that does not leaves every mailbox alone. It reports what is
/// expected, by `UID MOVE` and by the fallback alike.
pub proof fn law_imap_move<R: Reconciler>(
    pre: ImapMover<FakeImapOps, R>,
    action: ActionView,
    uid: u32,
    post: ImapMover<FakeImapOps, R>,
    r: Result<MoveOutcome, Seq<char>>,
)
    requires
        ImapMover::move_step(pre, action, post, r),
        action.uid == Some(uid),
        consistent(pre.ops@),
    ensures
        ({
            let src = imap_name(action.src_folder, pre.nm.sep());
            let dst = imap_name(action.dst_dotpath, pre.nm.sep());
            let moved = r == Ok::<MoveOutcome, Seq<char>>(MoveOutcome::Moved);
            &&& r == expected(pre.ops@, uid, src)
            &&& post.ops@.mailboxes == if moved {
                refiled_uid(pre.ops@, uid, src, dst)
            } else {
                pre.ops@.mailboxes
            }
            &&& consistent(post.ops@)
            &&& forall|m: Seq<char>| !held(pre.ops@.mailboxes, m).contains(pre.ops@.next_uid)
        }),
{
    let src = imap_name(action.src_folder, pre.nm.sep());
    let dst = imap_name(action.dst_dotpath, pre.nm.sep());
    lemma_moved_by_uid(pre.ops, uid, src, dst, post.ops, r);
    let before = pre.ops@;
    let after = post.ops@;
    assert forall|m: Seq<char>, u: u32| #[trigger]
        held(after.mailboxes, m).contains(u) implies u < after.next_uid by {
        if u != before.next_uid {
            assert(held(before.mailboxes, m).contains(u));
        } else {
            assert(!held(before.mailboxes, m).contains(u));
        }
    }
}

/// Moving again is safe: once a message has been moved, the same action finds it gone,
/// says so, and changes no mailbox.
pub proof fn law_imap_move_again<R: Reconciler>(
    pre: ImapMover<FakeImapOps, R>,
    action: ActionView,
    uid: u32,
    mid: ImapMover<FakeImapOps, R>,
    post: ImapMover<FakeImapOps, R>,
    r: Result<MoveOutcome, Seq<char>>,
)
    requires
        ImapMover::move_step(
            pre,
            action,
            mid,
            Ok::<MoveOutcome, Seq<char>>(MoveOutcome::Moved),
        ),
        ImapMover::move_step(mid, action, post, r),
        action.uid == Some(uid),
        consistent(pre.ops@),
    ensures
        r == Ok::<MoveOutcome, Seq<char>>(MoveOutcome::AlreadyDone),
        post.ops@.mailboxes == mid.ops@.mailboxes,
        post.touched@ == mid.touched@,
{
    law_imap_move(pre, action, uid, mid, Ok(MoveOutcome::Moved));
    law_imap_move(mid, action, uid, post, r);
    let src = imap_name(action.src_folder, pre.nm.sep());
    assert(held(pre.ops@.mailboxes, src).contains(uid));
}

/// A fresh server is consistent.
pub proof fn law_fresh_server_consistent(
    lists: Map<Seq<char>, Vec<u32>>,
    server: Server,
)
    requires
        server.mailboxes.dom() == lists.dom(),
        forall|k: Seq<char>| #[trigger]
            lists.contains_key(k) ==> server.mailboxes[k] == lists[k]@.to_set(),
        server.next_uid >= 1000,
        is_greatest(lists, (server.next_uid - 1000) as u32),
    ensures
        consistent(server),
{
    assert forall|m: Seq<char>, u: u32| #[trigger]
        held(server.mailboxes, m).contains(u) implies u < server.next_uid by {
        assert(lists.contains_key(m));
        let i = lists[m]@.index_of(u);
        assert(lists[m]@[i] == u);
    }
}

} // verus!
