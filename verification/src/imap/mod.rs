//! The server-side mover: relocate messages by talking IMAP to the server (the source of
//! truth), then let `mbsync` bring the local cache in line.
//!
//! This is the **default, safest** mover: moves happen on the server via `UID MOVE` (or a
//! `UID COPY` + `\Deleted` + `UID EXPUNGE` fallback), so no local Maildir file is ever
//! fabricated. The low-level protocol is abstracted behind [`ImapOps`], so the move
//! *logic* runs against [`FakeImapOps`] as well as against a live server.

pub mod fake;
pub mod laws;
pub mod netrc;
pub mod probe;
pub mod safety;

pub use fake::FakeImapOps;

use vstd::prelude::*;

use crate::error::{told, Error};
use crate::model::{ActionView, FolderSpec, FolderSpecView, MoveAction};
use crate::mover::{MoveOutcome, Mover};
use crate::namemap::{imap_name, NameMap};
use crate::reconcile::{NoReconciler, Reconciler};
use crate::text::opt_text;
use crate::textmap::TextSet;

verus! {

/// The minimal set of IMAP operations the mover needs. All mailbox names are full IMAP
/// names (already mapped from dotpaths). What a call may do is said by a relation between
/// the session before, the arguments, the session after and the result; of a session that
/// gives none, nothing is known.
pub trait ImapOps: Sized {
    /// `has_move` may answer `r`.
    open spec fn move_told(&self, r: bool) -> bool {
        true
    }

    /// `create_mailbox` may turn `pre` into `post` with the result `r`.
    open spec fn create_step(
        pre: Self,
        name: Seq<char>,
        post: Self,
        r: Result<(), Seq<char>>,
    ) -> bool {
        true
    }

    /// `select` may turn `pre` into `post` with the result `r`.
    open spec fn select_step(
        pre: Self,
        mailbox: Seq<char>,
        post: Self,
        r: Result<(), Seq<char>>,
    ) -> bool {
        true
    }

    /// `uid_exists` may turn `pre` into `post` with the result `r`.
    open spec fn exists_step(pre: Self, uid: u32, post: Self, r: Result<bool, Seq<char>>) -> bool {
        true
    }

    /// `uid_move` may turn `pre` into `post` with the result `r`.
    open spec fn uid_move_step(
        pre: Self,
        uid: u32,
        dst: Seq<char>,
        post: Self,
        r: Result<(), Seq<char>>,
    ) -> bool {
        true
    }

    /// `uid_copy` may turn `pre` into `post` with the result `r`.
    open spec fn copy_step(
        pre: Self,
        uid: u32,
        dst: Seq<char>,
        post: Self,
        r: Result<(), Seq<char>>,
    ) -> bool {
        true
    }

    /// `uid_store_deleted` may turn `pre` into `post` with the result `r`.
    open spec fn delete_step(pre: Self, uid: u32, post: Self, r: Result<(), Seq<char>>) -> bool {
        true
    }

    /// `uid_expunge` may turn `pre` into `post` with the result `r`.
    open spec fn expunge_step(pre: Self, uid: u32, post: Self, r: Result<(), Seq<char>>) -> bool {
        true
    }

    /// Whether the server advertised the `MOVE` capability.
    fn has_move(&self) -> (r: bool)
        ensures
            self.move_told(r),
    ;

    /// Create a mailbox. Must treat "already exists" as success (idempotent).
    fn create_mailbox(&mut self, name: &str) -> (r: Result<(), Error>)
        ensures
            Self::create_step(*old(self), name@, *final(self), told(r)),
    ;

    /// Select a mailbox for subsequent UID operations.
    fn select(&mut self, mailbox: &str) -> (r: Result<(), Error>)
        ensures
            Self::select_step(*old(self), mailbox@, *final(self), told(r)),
    ;

    /// Whether `uid` exists in the currently selected mailbox.
    fn uid_exists(&mut self, uid: u32) -> (r: Result<bool, Error>)
        ensures
            Self::exists_step(*old(self), uid, *final(self), told(r)),
    ;

    /// `UID MOVE uid dst` from the selected mailbox.
    fn uid_move(&mut self, uid: u32, dst: &str) -> (r: Result<(), Error>)
        ensures
            Self::uid_move_step(*old(self), uid, dst@, *final(self), told(r)),
    ;

    /// `UID COPY uid dst` from the selected mailbox.
    fn uid_copy(&mut self, uid: u32, dst: &str) -> (r: Result<(), Error>)
        ensures
            Self::copy_step(*old(self), uid, dst@, *final(self), told(r)),
    ;

    /// `UID STORE uid +FLAGS (\Deleted)` in the selected mailbox.
    fn uid_store_deleted(&mut self, uid: u32) -> (r: Result<(), Error>)
        ensures
            Self::delete_step(*old(self), uid, *final(self), told(r)),
    ;

    /// `UID EXPUNGE uid` in the selected mailbox (only the given uid).
    fn uid_expunge(&mut self, uid: u32) -> (r: Result<(), Error>)
        ensures
            Self::expunge_step(*old(self), uid, *final(self), told(r)),
    ;
}

/// The server-side mover. Generic over [`ImapOps`] so tests inject a fake server.
pub struct ImapMover<O: ImapOps, R: Reconciler> {
    pub ops: O,
    pub nm: NameMap,
    /// Dotpaths of every folder touched (sources + destinations), for reconcile.
    pub touched: TextSet,
    /// Run at `reconcile` time with the touched dotpaths.
    pub on_reconcile: R,
}

impl<O: ImapOps> ImapMover<O, NoReconciler> {
    /// Create a mover using `separator` (the probed IMAP hierarchy delimiter) for
    /// mapping dotpaths to IMAP names.
    pub fn new(ops: O, separator: char) -> (r: ImapMover<O, NoReconciler>)
        ensures
            r.ops == ops,
            r.nm.sep() == separator,
            r.touched@ == Set::<Seq<char>>::empty(),
    {
        ImapMover {
            ops,
            nm: NameMap::new(separator),
            touched: TextSet::new(),
            on_reconcile: NoReconciler,
        }
    }
}

impl<O: ImapOps, R: Reconciler> ImapMover<O, R> {
    /// Attach what is to run once after all moves, with the touched dotpaths.
    pub fn with_reconciler<Q: Reconciler>(self, f: Q) -> (r: ImapMover<O, Q>)
        ensures
            r.ops == self.ops,
            r.nm == self.nm,
            r.touched == self.touched,
            r.on_reconcile == f,
    {
        ImapMover { ops: self.ops, nm: self.nm, touched: self.touched, on_reconcile: f }
    }

    /// Folders touched so far (for external inspection / reconcile).
    pub fn touched(&self) -> (r: &TextSet)
        ensures
            *r == self.touched,
    {
        &self.touched
    }
}

// ---- what a move does ----

/// What `{:?}` shows of an optional text.
pub uninterp spec fn debug_text(id: Option<Seq<char>>) -> Seq<char>;

/// `format!("{:?}", ..)` of an `Option<String>`: the text that `Debug` shows, a function
/// of the value alone.
#[verifier::external_body]
fn show_debug(id: &Option<String>) -> (r: String)
    ensures
        r@ == debug_text(opt_text(*id)),
{
    format!("{:?}", id)
}

/// Why a message without a UID is refused.
pub open spec fn no_uid_message(shown: Seq<char>, folder: Seq<char>) -> Seq<char> {
    "message "@ + shown + " in "@ + folder
        + " has no IMAP UID yet; run mbsync first, then re-apply"@
}

/// The refusal of a message without a UID, shown as `shown`, in `folder`.
pub fn refuse_without_uid(shown: &str, folder: &str) -> (r: Error)
    ensures
        r@ == no_uid_message(shown@, folder@),
{
    let mut message = "message ".to_string();
    message.push_str(shown);
    message.push_str(" in ");
    message.push_str(folder);
    message.push_str(" has no IMAP UID yet; run mbsync first, then re-apply");
    Error::new(message)
}

/// A step's error as the error of the move, or the given outcome.
pub open spec fn or_outcome(r: Result<(), Seq<char>>, outcome: MoveOutcome) -> Result<
    MoveOutcome,
    Seq<char>,
> {
    match r {
        Ok(_) => Ok(outcome),
        Err(e) => Err(e),
    }
}

/// The fallback without `MOVE`: copy, mark deleted, expunge, each only after the one
/// before it succeeded.
pub open spec fn fell_back<O: ImapOps>(
    pre: O,
    uid: u32,
    dst: Seq<char>,
    post: O,
    r: Result<MoveOutcome, Seq<char>>,
) -> bool {
    ||| exists|e: Seq<char>| r == Err::<MoveOutcome, Seq<char>>(e) && #[trigger] O::copy_step(
        pre,
        uid,
        dst,
        post,
        Err(e),
    )
    ||| exists|copied: O, e: Seq<char>|
        {
            &&& #[trigger] O::copy_step(pre, uid, dst, copied, Ok(()))
            &&& #[trigger] O::delete_step(copied, uid, post, Err(e))
            &&& r == Err::<MoveOutcome, Seq<char>>(e)
        }
    ||| exists|copied: O, marked: O, last: Result<(), Seq<char>>|
        {
            &&& #[trigger] O::copy_step(pre, uid, dst, copied, Ok(()))
            &&& #[trigger] O::delete_step(copied, uid, marked, Ok(()))
            &&& #[trigger] O::expunge_step(marked, uid, post, last)
            &&& r == or_outcome(last, MoveOutcome::Moved)
        }
}

/// A move of a message that is in the selected mailbox: by `UID MOVE` if the session says
/// that the server has it, else by the fallback.
pub open spec fn relocated<O: ImapOps>(
    pre: O,
    uid: u32,
    dst: Seq<char>,
    post: O,
    r: Result<MoveOutcome, Seq<char>>,
) -> bool {
    ||| pre.move_told(true) && exists|last: Result<(), Seq<char>>| #[trigger]
        O::uid_move_step(pre, uid, dst, post, last) && r == or_outcome(last, MoveOutcome::Moved)
    ||| pre.move_told(false) && fell_back(pre, uid, dst, post, r)
}

/// A move of a message by UID: select the source, see whether the message is there, and
/// if so relocate it. A message that is gone is left at that.
pub open spec fn moved_by_uid<O: ImapOps>(
    pre: O,
    uid: u32,
    src: Seq<char>,
    dst: Seq<char>,
    post: O,
    r: Result<MoveOutcome, Seq<char>>,
) -> bool {
    ||| exists|e: Seq<char>| r == Err::<MoveOutcome, Seq<char>>(e) && #[trigger] O::select_step(
        pre,
        src,
        post,
        Err(e),
    )
    ||| exists|selected: O, e: Seq<char>|
        {
            &&& #[trigger] O::select_step(pre, src, selected, Ok(()))
            &&& #[trigger] O::exists_step(selected, uid, post, Err(e))
            &&& r == Err::<MoveOutcome, Seq<char>>(e)
        }
    ||| exists|selected: O|
        {
            &&& #[trigger] O::select_step(pre, src, selected, Ok(()))
            &&& O::exists_step(selected, uid, post, Ok(false))
            &&& r == Ok::<MoveOutcome, Seq<char>>(MoveOutcome::AlreadyDone)
        }
    ||| exists|selected: O, found: O|
        {
            &&& #[trigger] O::select_step(pre, src, selected, Ok(()))
            &&& #[trigger] O::exists_step(selected, uid, found, Ok(true))
            &&& relocated(found, uid, dst, post, r)
        }
}

/// Relocate a message that is in the selected mailbox.
fn relocate<O: ImapOps>(ops: &mut O, uid: u32, dst: &str) -> (r: Result<MoveOutcome, Error>)
    ensures
        relocated(*old(ops), uid, dst@, *final(ops), told(r)),
{
    let ghost pre = *ops;
    if ops.has_move() {
        match ops.uid_move(uid, dst) {
            Ok(_) => {
                assert(O::uid_move_step(pre, uid, dst@, *ops, Ok(())));
                Ok(MoveOutcome::Moved)
            },
            Err(e) => {
                assert(O::uid_move_step(pre, uid, dst@, *ops, Err(e@)));
                Err(e)
            },
        }
    } else {
        // Fallback: copy, mark deleted, then expunge only this UID.
        match ops.uid_copy(uid, dst) {
            Ok(_) => {},
            Err(e) => {
                return Err(e);
            },
        }
        let ghost copied = *ops;
        assert(O::copy_step(pre, uid, dst@, copied, Ok(())));
        match ops.uid_store_deleted(uid) {
            Ok(_) => {},
            Err(e) => {
                assert(O::delete_step(copied, uid, *ops, Err(e@)));
                return Err(e);
            },
        }
        let ghost marked = *ops;
        assert(O::delete_step(copied, uid, marked, Ok(())));
        match ops.uid_expunge(uid) {
            Ok(_) => {
                assert(O::expunge_step(marked, uid, *ops, Ok(())));
                Ok(MoveOutcome::Moved)
            },
            Err(e) => {
                assert(O::expunge_step(marked, uid, *ops, Err(e@)));
                Err(e)
            },
        }
    }
}

/// Move a message by UID.
fn move_by_uid<O: ImapOps>(ops: &mut O, uid: u32, src: &str, dst: &str) -> (r: Result<
    MoveOutcome,
    Error,
>)
    ensures
        moved_by_uid(*old(ops), uid, src@, dst@, *final(ops), told(r)),
{
    let ghost pre = *ops;
    match ops.select(src) {
        Ok(_) => {},
        Err(e) => {
            return Err(e);
        },
    }
    let ghost selected = *ops;
    assert(O::select_step(pre, src@, selected, Ok(())));
    match ops.uid_exists(uid) {
        Ok(true) => {},
        Ok(false) => {
            // Already gone from the source: a prior run moved it. Idempotent no-op.
            return Ok(MoveOutcome::AlreadyDone);
        },
        Err(e) => {
            assert(O::exists_step(selected, uid, *ops, Err(e@)));
            return Err(e);
        },
    }
    let ghost found = *ops;
    assert(O::exists_step(selected, uid, found, Ok(true)));
    relocate(ops, uid, dst)
}

impl<O: ImapOps, R: Reconciler> Mover for ImapMover<O, R> {
    /// The mailbox is created; the folder counts as touched if that succeeded.
    open spec fn folder_step(
        pre: ImapMover<O, R>,
        spec: FolderSpecView,
        post: ImapMover<O, R>,
        r: Result<(), Seq<char>>,
    ) -> bool {
        &&& O::create_step(pre.ops, imap_name(spec.dotpath, pre.nm.sep()), post.ops, r)
        &&& post.nm == pre.nm
        &&& post.on_reconcile == pre.on_reconcile
        &&& post.touched@ == if r is Ok {
            pre.touched@.insert(spec.dotpath)
        } else {
            pre.touched@
        }
    }

    /// A message without a UID is refused and nothing is done. Any other is moved by UID;
    /// source and destination count as touched if it was moved.
    open spec fn move_step(
        pre: ImapMover<O, R>,
        action: ActionView,
        post: ImapMover<O, R>,
        r: Result<MoveOutcome, Seq<char>>,
    ) -> bool {
        &&& match action.uid {
            None => {
                &&& post.ops == pre.ops
                &&& r == Err::<MoveOutcome, Seq<char>>(
                    no_uid_message(debug_text(action.message_id), action.src_folder),
                )
            },
            Some(uid) => moved_by_uid(
                pre.ops,
                uid,
                imap_name(action.src_folder, pre.nm.sep()),
                imap_name(action.dst_dotpath, pre.nm.sep()),
                post.ops,
                r,
            ),
        }
        &&& post.nm == pre.nm
        &&& post.on_reconcile == pre.on_reconcile
        &&& post.touched@ == if r == Ok::<MoveOutcome, Seq<char>>(MoveOutcome::Moved) {
            pre.touched@.insert(action.src_folder).insert(action.dst_dotpath)
        } else {
            pre.touched@
        }
    }

    /// The reconciler runs once, with the touched folders.
    open spec fn reconcile_step(
        pre: ImapMover<O, R>,
        post: ImapMover<O, R>,
        r: Result<(), Seq<char>>,
    ) -> bool {
        &&& R::run_step(pre.on_reconcile, pre.touched@, post.on_reconcile, r)
        &&& post.ops == pre.ops
        &&& post.nm == pre.nm
        &&& post.touched == pre.touched
    }

    fn ensure_folder(&mut self, spec: &FolderSpec) -> (r: Result<(), Error>) {
        let imap = self.nm.dotpath_to_imap(&spec.dotpath);
        match self.ops.create_mailbox(&imap) {
            Ok(_) => {},
            Err(e) => {
                return Err(e);
            },
        }
        self.touched.insert(spec.dotpath.clone());
        Ok(())
    }

    fn move_message(&mut self, action: &MoveAction) -> (r: Result<MoveOutcome, Error>) {
        // A server-side move is keyed on the IMAP UID; a message not yet assigned one
        // (e.g. still in local `new/`) cannot be moved: stop rather than guess.
        let uid: u32 = match action.uid {
            Some(uid) => uid,
            None => {
                return Err(
                    refuse_without_uid(&show_debug(&action.message_id), &action.src_folder),
                );
            },
        };
        let src = self.nm.dotpath_to_imap(&action.src_folder);
        let dst = self.nm.dotpath_to_imap(&action.dst_dotpath);
        let outcome = move_by_uid(&mut self.ops, uid, &src, &dst);
        match outcome {
            Ok(MoveOutcome::Moved) => {
                self.touched.insert(action.src_folder.clone());
                self.touched.insert(action.dst_dotpath.clone());
                Ok(MoveOutcome::Moved)
            },
            other => other,
        }
    }

    fn reconcile(&mut self) -> (r: Result<(), Error>) {
        self.on_reconcile.run(&self.touched)
    }
}

} // verus!
