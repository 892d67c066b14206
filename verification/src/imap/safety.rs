//! What a server-side move keeps, whatever the server is.

use vstd::prelude::*;

use crate::imap::fake::{held, FakeImapOps, Server};
use crate::imap::{fell_back, moved_by_uid, or_outcome, relocated, ImapMover, ImapOps};
use crate::model::{ActionView, FolderSpecView};
use crate::mover::{MoveOutcome, Mover};
use crate::namemap::imap_name;
use crate::number::decimal;
use crate::reconcile::Reconciler;

verus! {

/// A message is never lost, whatever the server does, as long as its commands do what they
/// are for. Let `kept` say that the message is in one of the two mailboxes, and `arrived`
/// that it is in the destination. If selecting, looking and a failed copy keep it, a move
/// keeps it and brings it there, a copy brings it there, and deleting at the source does
/// not touch the destination, then the message is kept, however the move ends, and it has
/// arrived if the move is reported as such.
pub proof fn law_never_lost_on_any_server<O: ImapOps>(
    pre: O,
    uid: u32,
    src: Seq<char>,
    dst: Seq<char>,
    post: O,
    r: Result<MoveOutcome, Seq<char>>,
    kept: spec_fn(O) -> bool,
    arrived: spec_fn(O) -> bool,
)
    requires
        moved_by_uid(pre, uid, src, dst, post, r),
        kept(pre),
        forall|a: O, b: O, x: Result<(), Seq<char>>|
            kept(a) && #[trigger] O::select_step(a, src, b, x) ==> kept(b),
        forall|a: O, b: O, x: Result<bool, Seq<char>>|
            kept(a) && #[trigger] O::exists_step(a, uid, b, x) ==> kept(b),
        forall|a: O, b: O, x: Result<(), Seq<char>>|
            kept(a) && #[trigger] O::uid_move_step(a, uid, dst, b, x) ==> kept(b) && (x is Ok
                ==> arrived(b)),
        forall|a: O, b: O, x: Result<(), Seq<char>>|
            kept(a) && #[trigger] O::copy_step(a, uid, dst, b, x) ==> kept(b) && (x is Ok
                ==> arrived(b)),
        forall|a: O, b: O, x: Result<(), Seq<char>>|
            arrived(a) && #[trigger] O::delete_step(a, uid, b, x) ==> arrived(b),
        forall|a: O, b: O, x: Result<(), Seq<char>>|
            arrived(a) && #[trigger] O::expunge_step(a, uid, b, x) ==> arrived(b),
        forall|a: O| #[trigger] arrived(a) ==> kept(a),
    ensures
        kept(post),
        r == Ok::<MoveOutcome, Seq<char>>(MoveOutcome::Moved) ==> arrived(post),
        r == Ok::<MoveOutcome, Seq<char>>(MoveOutcome::Simulated) ==> false,
{
}

/// A message is moved by its UID from the mailbox of its folder into the mailbox of its
/// destination; one without a UID is refused and the server left alone. Both folders count
/// as touched if and only if the message was moved.
pub proof fn law_action_on_server<O: ImapOps, R: Reconciler>(
    pre: ImapMover<O, R>,
    action: ActionView,
    post: ImapMover<O, R>,
    r: Result<MoveOutcome, Seq<char>>,
)
    requires
        ImapMover::move_step(pre, action, post, r),
    ensures
        action.uid is None ==> r is Err && post.ops == pre.ops,
        action.uid matches Some(uid) ==> moved_by_uid(
            pre.ops,
            uid,
            imap_name(action.src_folder, pre.nm.sep()),
            imap_name(action.dst_dotpath, pre.nm.sep()),
            post.ops,
            r,
        ),
        r == Ok::<MoveOutcome, Seq<char>>(MoveOutcome::Moved) ==> post.touched@.contains(
            action.src_folder,
        ) && post.touched@.contains(action.dst_dotpath),
        forall|x: Seq<char>| #[trigger]
            post.touched@.contains(x) <==> pre.touched@.contains(x) || (r == Ok::<
                MoveOutcome,
                Seq<char>,
            >(MoveOutcome::Moved) && (x == action.src_folder || x == action.dst_dotpath)),
        post.nm.sep() == pre.nm.sep(),
{
}

/// Ensuring a folder makes its mailbox, under the folder's name on the server, and leaves
/// every other mailbox alone; a mailbox that is there keeps its messages.
pub proof fn law_mailbox_ensured<R: Reconciler>(
    pre: ImapMover<FakeImapOps, R>,
    spec: FolderSpecView,
    post: ImapMover<FakeImapOps, R>,
    r: Result<(), Seq<char>>,
)
    requires
        ImapMover::folder_step(pre, spec, post, r),
    ensures
        ({
            let name = imap_name(spec.dotpath, pre.nm.sep());
            let before = pre.ops@.mailboxes;
            let after = post.ops@.mailboxes;
            &&& r is Ok
            &&& after.contains_key(name)
            &&& !before.contains_key(name) ==> after[name] == Set::<u32>::empty()
            &&& forall|m: Seq<char>| #[trigger]
                before.contains_key(m) ==> after.contains_key(m) && after[m] == before[m]
            &&& forall|m: Seq<char>| #[trigger]
                after.contains_key(m) ==> before.contains_key(m) || m == name
            &&& post.touched@.contains(spec.dotpath)
        }),
{
}

/// After the moves the reconciler runs once, and is told of every folder that was touched.
pub proof fn law_reconciler_told<O: ImapOps, R: Reconciler>(
    pre: ImapMover<O, R>,
    post: ImapMover<O, R>,
    r: Result<(), Seq<char>>,
)
    requires
        ImapMover::reconcile_step(pre, post, r),
    ensures
        R::run_step(pre.on_reconcile, pre.touched@, post.on_reconcile, r),
        post.ops == pre.ops,
{
}

/// What a move sends: the source mailbox is selected; a server with `MOVE` is then told to
/// move the message, and any other to copy it, mark it deleted and expunge it, in that
/// order. A message that is gone takes no command beyond the selection.
pub proof fn law_commands_sent(
    pre: FakeImapOps,
    uid: u32,
    src: Seq<char>,
    dst: Seq<char>,
    post: FakeImapOps,
    r: Result<MoveOutcome, Seq<char>>,
)
    requires
        moved_by_uid(pre, uid, src, dst, post, r),
        r is Ok,
    ensures
        ({
            let n = decimal(uid as nat);
            let selected = pre@.op_log.push("SELECT "@ + src);
            &&& r == Ok::<MoveOutcome, Seq<char>>(MoveOutcome::AlreadyDone) ==> post@.op_log
                == selected
            &&& r == Ok::<MoveOutcome, Seq<char>>(MoveOutcome::Moved) && pre@.supports_move
                ==> post@.op_log == selected.push("UID MOVE "@ + n + " "@ + dst)
            &&& r == Ok::<MoveOutcome, Seq<char>>(MoveOutcome::Moved) && !pre@.supports_move
                ==> post@.op_log == selected.push("UID COPY "@ + n + " "@ + dst).push(
                "STORE "@ + n + " +FLAGS \\Deleted"@,
            ).push("UID EXPUNGE "@ + n)
        }),
{
    if r == Ok::<MoveOutcome, Seq<char>>(MoveOutcome::Moved) {
        let (selected, found) = choose|selected: FakeImapOps, found: FakeImapOps|
            {
                &&& #[trigger] FakeImapOps::select_step(pre, src, selected, Ok(()))
                &&& #[trigger] FakeImapOps::exists_step(selected, uid, found, Ok(true))
                &&& relocated(found, uid, dst, post, r)
            };
        assert(found == selected);
        if pre@.supports_move {
            let last = choose|last: Result<(), Seq<char>>| #[trigger]
                FakeImapOps::uid_move_step(found, uid, dst, post, last) && r == or_outcome(
                    last,
                    MoveOutcome::Moved,
                );
            assert(last is Ok);
        } else {
            assert(fell_back(found, uid, dst, post, r));
            let (copied, marked, last) = choose|
                copied: FakeImapOps,
                marked: FakeImapOps,
                last: Result<(), Seq<char>>,
            |
                {
                    &&& #[trigger] FakeImapOps::copy_step(found, uid, dst, copied, Ok(()))
                    &&& #[trigger] FakeImapOps::delete_step(copied, uid, marked, Ok(()))
                    &&& #[trigger] FakeImapOps::expunge_step(marked, uid, post, last)
                    &&& r == or_outcome(last, MoveOutcome::Moved)
                };
            assert(last is Ok);
        }
    }
}

/// The in-memory server expunges only what is marked deleted, and a copy leaves the
/// original where it is.
pub proof fn law_server_is_careful(server: Server, uid: u32, dst: Seq<char>, box_name: Seq<char>)
    requires
        server.selected == Some(box_name),
        server.mailboxes.contains_key(box_name),
    ensures
        !held(server.deleted, box_name).contains(uid) ==> server.expunge(uid).1 is Err
            && server.expunge(uid).0.mailboxes == server.mailboxes,
        forall|m: Seq<char>| #[trigger]
            server.mailboxes.contains_key(m) && m != box_name ==> server.expunge(
                uid,
            ).0.mailboxes[m] == server.mailboxes[m],
        forall|u: u32|
            u != uid && server.mailboxes[box_name].contains(u) ==> #[trigger] server.expunge(
                uid,
            ).0.mailboxes[box_name].contains(u),
        forall|m: Seq<char>, u: u32|
            server.mailboxes.contains_key(m) && server.mailboxes[m].contains(u)
                ==> #[trigger] server.copy_uid(uid, dst).0.mailboxes[m].contains(u),
{
}

} // verus!
