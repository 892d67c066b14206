//! The **offline** mover: relocate messages by rewriting the local Maildir directly, then
//! let `mbsync` propagate the change to the server.
//!
//! It works with no network but is the sharp edge of the whole tool, because it must not
//! trip mbsync's native-scheme duplicate-UID corruption. The rules that keep it safe:
//!
//! 1. The destination file gets a **fresh, `,U=`-less** Maildir name (preserving the
//!    flags), so mbsync treats it as a brand-new local message.
//! 2. Ordering is **write, sync, verify bytes, delete source**, never delete first, so a
//!    crash at any point leaves the message in at least one place. Re-running is
//!    idempotent (a source that is already gone counts as already done).
//!
//! A move is a conversation: [`LocalMover::start`] and [`LocalMover::step`] say what is to
//! be done next, the driver does it and reports what came of it.

pub mod laws;
pub mod placing;

use vstd::prelude::*;

use crate::error::{told, Error};
use crate::filename::{local_base, parsed, MaildirName, NameView};
use crate::model::{ActionView, MoveAction};
use crate::mover::MoveOutcome;
use crate::reconcile::{NoReconciler, Reconciler};
use crate::scan::{join_path, path_join};
use crate::textmap::TextSet;

verus! {

/// How far a move has come.
#[derive(Debug, Clone, Copy, PartialEq, Eq, Structural)]
pub enum Stage {
    LookInCur,
    LookInNew,
    Reading,
    Timing,
    MakingCur,
    MakingNew,
    MakingTmp,
    Creating,
    Writing,
    Renaming,
    Syncing,
    Verifying,
    Removing,
    Finished,
}

/// A move in progress.
#[derive(Debug, Clone, PartialEq, Eq)]
pub struct LocalMove {
    pub stage: Stage,
    pub src_folder: String,
    pub src_filename: String,
    pub dst_dotpath: String,
    /// Where the message is looked for, then where it was found.
    pub src: String,
    /// The message.
    pub bytes: Vec<u8>,
    /// Where the message is written.
    pub tmp: String,
    /// Where the message goes.
    pub cur: String,
}

/// The view of a [`LocalMove`].
#[verifier::ext_equal]
pub ghost struct MoveView {
    pub stage: Stage,
    pub src_folder: Seq<char>,
    pub src_filename: Seq<char>,
    pub dst_dotpath: Seq<char>,
    pub src: Seq<char>,
    pub bytes: Seq<u8>,
    pub tmp: Seq<char>,
    pub cur: Seq<char>,
}

impl View for LocalMove {
    type V = MoveView;

    open spec fn view(&self) -> MoveView {
        MoveView {
            stage: self.stage,
            src_folder: self.src_folder@,
            src_filename: self.src_filename@,
            dst_dotpath: self.dst_dotpath@,
            src: self.src@,
            bytes: self.bytes@,
            tmp: self.tmp@,
            cur: self.cur@,
        }
    }
}

/// What the driver is to do next.
#[derive(Debug, PartialEq, Eq)]
pub enum Request {
    /// Say whether there is a regular file at the path.
    IsFile(String),
    /// Read the file.
    Read(String),
    /// Tell the time since the epoch.
    Clock,
    /// Make the directory, with those above it; one that exists is fine.
    MakeDir(String),
    /// Create an empty file.
    Create(String),
    /// Write the message into the file just created, at this path, and sync it.
    WriteSync(String),
    /// Rename the first path to the second.
    Rename(String, String),
    /// Sync the directory, as far as that is possible.
    SyncDir(String),
    /// Remove the file.
    Remove(String),
    /// The move is over.
    Finish(Result<MoveOutcome, Error>),
}

/// The view of a [`Request`].
#[verifier::ext_equal]
pub ghost enum RequestView {
    IsFile(Seq<char>),
    Read(Seq<char>),
    Clock,
    MakeDir(Seq<char>),
    Create(Seq<char>),
    WriteSync(Seq<char>),
    Rename(Seq<char>, Seq<char>),
    SyncDir(Seq<char>),
    Remove(Seq<char>),
    Finish(Result<MoveOutcome, Seq<char>>),
}

impl View for Request {
    type V = RequestView;

    open spec fn view(&self) -> RequestView {
        match self {
            Request::IsFile(p) => RequestView::IsFile(p@),
            Request::Read(p) => RequestView::Read(p@),
            Request::Clock => RequestView::Clock,
            Request::MakeDir(p) => RequestView::MakeDir(p@),
            Request::Create(p) => RequestView::Create(p@),
            Request::WriteSync(p) => RequestView::WriteSync(p@),
            Request::Rename(a, b) => RequestView::Rename(a@, b@),
            Request::SyncDir(p) => RequestView::SyncDir(p@),
            Request::Remove(p) => RequestView::Remove(p@),
            Request::Finish(r) => RequestView::Finish(told(*r)),
        }
    }
}

/// What came of a request.
#[derive(Debug, Clone, PartialEq, Eq)]
pub enum Event {
    /// Whether there is such a file.
    Answer(bool),
    /// What the file holds.
    Content(Vec<u8>),
    /// The time: seconds since the epoch, and microseconds.
    Time(u64, u32),
    /// It was done.
    Done,
    /// It could not be done, and why.
    Failed(String),
}

/// The view of an [`Event`].
#[verifier::ext_equal]
pub ghost enum EventView {
    Answer(bool),
    Content(Seq<u8>),
    Time(u64, u32),
    Done,
    Failed(Seq<char>),
}

impl View for Event {
    type V = EventView;

    open spec fn view(&self) -> EventView {
        match self {
            Event::Answer(b) => EventView::Answer(*b),
            Event::Content(v) => EventView::Content(v@),
            Event::Time(s, m) => EventView::Time(*s, *m),
            Event::Done => EventView::Done,
            Event::Failed(e) => EventView::Failed(e@),
        }
    }
}

/// The path of a file in a subdirectory of a folder.
pub open spec fn file_path(
    root: Seq<char>,
    dotpath: Seq<char>,
    sub: Seq<char>,
    name: Seq<char>,
) -> Seq<char> {
    path_join(path_join(path_join(root, dotpath), sub), name)
}

/// The path of a subdirectory of a folder.
pub open spec fn sub_path(root: Seq<char>, dotpath: Seq<char>, sub: Seq<char>) -> Seq<char> {
    path_join(path_join(root, dotpath), sub)
}

/// A fresh name for a moved message, with the flags of the old name and no UID.
pub open spec fn fresh_name(
    secs: u64,
    micros: u32,
    seq_no: u64,
    host: Seq<char>,
    old_name: Seq<char>,
) -> Seq<char> {
    (NameView {
        base: local_base(secs, micros, seq_no, host),
        uid: None,
        flags: parsed(old_name).flags,
    }).rendered()
}

impl MoveView {
    /// The move at another stage.
    pub open spec fn at(self, stage: Stage) -> MoveView {
        MoveView { stage, ..self }
    }

    /// The move is over with this result.
    pub open spec fn over(self, r: Result<MoveOutcome, Seq<char>>) -> (MoveView, RequestView) {
        (self.at(Stage::Finished), RequestView::Finish(r))
    }
}

/// Where a move begins: the message is looked for in `cur`.
pub open spec fn first_view(root: Seq<char>, action: ActionView) -> MoveView {
    MoveView {
        stage: Stage::LookInCur,
        src_folder: action.src_folder,
        src_filename: action.src_filename,
        dst_dotpath: action.dst_dotpath,
        src: file_path(root, action.src_folder, "cur"@, action.src_filename),
        bytes: Seq::empty(),
        tmp: Seq::empty(),
        cur: Seq::empty(),
    }
}

/// What follows an event: the move as it is then, and the next request. The source is
/// looked for in `cur`, then in `new`, and read; the message is written under `tmp` in the
/// destination, synced, renamed into `cur` and read back; only if that gives the same
/// bytes is the source removed.
pub open spec fn next(
    root: Seq<char>,
    host: Seq<char>,
    seq_no: u64,
    mv: MoveView,
    event: EventView,
) -> (MoveView, RequestView) {
    let dir_cur = sub_path(root, mv.dst_dotpath, "cur"@);
    let dir_new = sub_path(root, mv.dst_dotpath, "new"@);
    let dir_tmp = sub_path(root, mv.dst_dotpath, "tmp"@);
    match (mv.stage, event) {
        (Stage::LookInCur, EventView::Answer(true)) => (
            mv.at(Stage::Reading),
            RequestView::Read(mv.src),
        ),
        (Stage::LookInCur, EventView::Answer(false)) => {
            let other = file_path(root, mv.src_folder, "new"@, mv.src_filename);
            (
                MoveView { stage: Stage::LookInNew, src: other, ..mv },
                RequestView::IsFile(other),
            )
        },
        (Stage::LookInNew, EventView::Answer(true)) => (
            mv.at(Stage::Reading),
            RequestView::Read(mv.src),
        ),
        (Stage::LookInNew, EventView::Answer(false)) => mv.over(Ok(MoveOutcome::AlreadyDone)),
        (Stage::Reading, EventView::Content(bytes)) => (
            MoveView { stage: Stage::Timing, bytes, ..mv },
            RequestView::Clock,
        ),
        (Stage::Reading, EventView::Failed(_)) => mv.over(Err("reading "@ + mv.src)),
        (Stage::Timing, EventView::Time(secs, micros)) => {
            let name = fresh_name(secs, micros, seq_no, host, mv.src_filename);
            (
                MoveView {
                    stage: Stage::MakingCur,
                    tmp: file_path(root, mv.dst_dotpath, "tmp"@, name),
                    cur: file_path(root, mv.dst_dotpath, "cur"@, name),
                    ..mv
                },
                RequestView::MakeDir(dir_cur),
            )
        },
        (Stage::MakingCur, EventView::Done) => (
            mv.at(Stage::MakingNew),
            RequestView::MakeDir(dir_new),
        ),
        (Stage::MakingCur, EventView::Failed(_)) => mv.over(Err("creating "@ + dir_cur)),
        (Stage::MakingNew, EventView::Done) => (
            mv.at(Stage::MakingTmp),
            RequestView::MakeDir(dir_tmp),
        ),
        (Stage::MakingNew, EventView::Failed(_)) => mv.over(Err("creating "@ + dir_new)),
        (Stage::MakingTmp, EventView::Done) => (
            mv.at(Stage::Creating),
            RequestView::Create(mv.tmp),
        ),
        (Stage::MakingTmp, EventView::Failed(_)) => mv.over(Err("creating "@ + dir_tmp)),
        (Stage::Creating, EventView::Done) => (
            mv.at(Stage::Writing),
            RequestView::WriteSync(mv.tmp),
        ),
        (Stage::Creating, EventView::Failed(_)) => mv.over(Err("creating "@ + mv.tmp)),
        (Stage::Writing, EventView::Done) => (
            mv.at(Stage::Renaming),
            RequestView::Rename(mv.tmp, mv.cur),
        ),
        (Stage::Writing, EventView::Failed(why)) => mv.over(Err(why)),
        (Stage::Renaming, EventView::Done) => (
            mv.at(Stage::Syncing),
            RequestView::SyncDir(dir_cur),
        ),
        (Stage::Renaming, EventView::Failed(_)) => mv.over(Err("renaming into "@ + mv.cur)),
        (Stage::Syncing, EventView::Done) => (
            mv.at(Stage::Verifying),
            RequestView::Read(mv.cur),
        ),
        (Stage::Syncing, EventView::Failed(_)) => (
            mv.at(Stage::Verifying),
            RequestView::Read(mv.cur),
        ),
        (Stage::Verifying, EventView::Content(written)) => if written == mv.bytes {
            (mv.at(Stage::Removing), RequestView::Remove(mv.src))
        } else {
            mv.over(Err("verification failed: destination bytes differ for "@ + mv.cur))
        },
        (Stage::Verifying, EventView::Failed(_)) => mv.over(Err("re-reading "@ + mv.cur)),
        (Stage::Removing, EventView::Done) => mv.over(Ok(MoveOutcome::Moved)),
        (Stage::Removing, EventView::Failed(_)) => mv.over(Err("removing source "@ + mv.src)),
        _ => mv.over(Err("unexpected answer"@)),
    }
}

/// The offline mover of one account.
#[derive(Debug, Clone)]
pub struct LocalMover<R: Reconciler> {
    pub root: String,
    /// Part of the names of moved messages.
    pub host: String,
    /// Number of names made so far.
    pub seq: u64,
    /// Dotpaths of every folder touched (sources + destinations), for reconcile.
    pub touched: TextSet,
    /// Run at `reconcile` time with the touched dotpaths.
    pub on_reconcile: R,
}

/// Whether two byte strings are equal.
fn same_bytes(a: &Vec<u8>, b: &Vec<u8>) -> (r: bool)
    ensures
        r == (a@ == b@),
{
    if a.len() != b.len() {
        return false;
    }
    for i in 0..a.len()
        invariant
            a@.len() == b@.len(),
            forall|j: int| 0 <= j < i ==> a@[j] == b@[j],
    {
        if a[i] != b[i] {
            return false;
        }
    }
    assert(a@ =~= b@);
    true
}

/// A message made of a word and a path.
fn about(what: &str, path: &str) -> (r: Request)
    ensures
        r@ == RequestView::Finish(Err(what@ + path@)),
{
    let mut message = what.to_string();
    message.push_str(path);
    Request::Finish(Err(Error::new(message)))
}

impl LocalMover<NoReconciler> {
    /// A mover for the account at `root`. `host` becomes part of the names of moved
    /// messages and should tell this process from others.
    pub fn new(root: &str, host: &str) -> (r: LocalMover<NoReconciler>)
        ensures
            r.root@ == root@,
            r.host@ == host@,
            r.seq == 0,
            r.touched@ == Set::<Seq<char>>::empty(),
    {
        LocalMover {
            root: root.to_string(),
            host: host.to_string(),
            seq: 0,
            touched: TextSet::new(),
            on_reconcile: NoReconciler,
        }
    }
}

impl<R: Reconciler> LocalMover<R> {
    /// Attach what is to run once after all moves, with the touched dotpaths.
    pub fn with_reconciler<Q: Reconciler>(self, f: Q) -> (r: LocalMover<Q>)
        ensures
            r.root == self.root,
            r.host == self.host,
            r.seq == self.seq,
            r.touched == self.touched,
            r.on_reconcile == f,
    {
        LocalMover {
            root: self.root,
            host: self.host,
            seq: self.seq,
            touched: self.touched,
            on_reconcile: f,
        }
    }

    /// Reconcile after all moves.
    pub fn reconcile(&mut self) -> (r: Result<(), Error>)
        ensures
            R::run_step(
                old(self).on_reconcile,
                old(self).touched@,
                final(self).on_reconcile,
                told(r),
            ),
            final(self).root == old(self).root,
            final(self).host == old(self).host,
            final(self).seq == old(self).seq,
            final(self).touched == old(self).touched,
    {
        self.on_reconcile.run(&self.touched)
    }

    /// Folders touched so far.
    pub fn touched(&self) -> (r: &TextSet)
        ensures
            *r == self.touched,
    {
        &self.touched
    }

    /// The directories that make a folder, in the order in which to make them.
    pub fn folder_dirs(&self, dotpath: &str) -> (r: Vec<String>)
        ensures
            r@.len() == 3,
            r@[0]@ == sub_path(self.root@, dotpath@, "cur"@),
            r@[1]@ == sub_path(self.root@, dotpath@, "new"@),
            r@[2]@ == sub_path(self.root@, dotpath@, "tmp"@),
    {
        vec![
            self.dir_in(dotpath, "cur"),
            self.dir_in(dotpath, "new"),
            self.dir_in(dotpath, "tmp"),
        ]
    }

    /// The directories of a folder have been made.
    pub fn folder_made(&mut self, dotpath: &str)
        ensures
            final(self).touched@ == old(self).touched@.insert(dotpath@),
            final(self).root == old(self).root,
            final(self).host == old(self).host,
            final(self).seq == old(self).seq,
            final(self).on_reconcile == old(self).on_reconcile,
    {
        self.touched.insert(dotpath.to_string());
    }

    /// A subdirectory of a folder.
    fn dir_in(&self, dotpath: &str, sub: &str) -> (r: String)
        ensures
            r@ == sub_path(self.root@, dotpath@, sub@),
    {
        join_path(&join_path(&self.root, dotpath), sub)
    }

    /// A file in a subdirectory of a folder.
    fn file_in(&self, dotpath: &str, sub: &str, name: &str) -> (r: String)
        ensures
            r@ == file_path(self.root@, dotpath@, sub@, name@),
    {
        join_path(&self.dir_in(dotpath, sub), name)
    }

    /// Begin a move: look for the message in `cur`.
    pub fn start(&self, action: &MoveAction) -> (r: (LocalMove, Request))
        ensures
            r.0@ == first_view(self.root@, action@),
            r.1@ == RequestView::IsFile(first_view(self.root@, action@).src),
    {
        let src = self.file_in(&action.src_folder, "cur", &action.src_filename);
        let mv = LocalMove {
            stage: Stage::LookInCur,
            src_folder: action.src_folder.clone(),
            src_filename: action.src_filename.clone(),
            dst_dotpath: action.dst_dotpath.clone(),
            src: src.clone(),
            bytes: Vec::new(),
            tmp: String::new(),
            cur: String::new(),
        };
        proof {
            assert(mv.tmp@ =~= Seq::empty());
            assert(mv.cur@ =~= Seq::empty());
            assert(mv.bytes@ =~= Seq::empty());
        }
        (mv, Request::IsFile(src))
    }

    /// A fresh Maildir-unique name for a moved message, deliberately without `,U=`.
    fn make_name(&mut self, secs: u64, micros: u32, old_name: &str) -> (r: String)
        ensures
            r@ == fresh_name(secs, micros, old(self).seq, old(self).host@, old_name@),
            final(self).seq == old(self).seq.wrapping_add(1),
            final(self).root == old(self).root,
            final(self).host == old(self).host,
            final(self).touched == old(self).touched,
            final(self).on_reconcile == old(self).on_reconcile,
    {
        let seq: u64 = self.seq;
        self.seq = seq.wrapping_add(1);
        let flags = MaildirName::parse(old_name).flags;
        MaildirName::new_local(secs, micros, seq, &self.host, &flags).to_filename()
    }

    /// Go on with a move after an event.
    pub fn step(&mut self, mv: LocalMove, event: Event) -> (r: (LocalMove, Request))
        ensures
            (r.0@, r.1@) == next(old(self).root@, old(self).host@, old(self).seq, mv@, event@),
            final(self).root == old(self).root,
            final(self).host == old(self).host,
            final(self).on_reconcile == old(self).on_reconcile,
            final(self).seq == if mv.stage == Stage::Timing && event is Time {
                old(self).seq.wrapping_add(1)
            } else {
                old(self).seq
            },
            final(self).touched@ == if r.1@ == RequestView::Finish(Ok(MoveOutcome::Moved)) {
                old(self).touched@.insert(mv.src_folder@).insert(mv.dst_dotpath@)
            } else {
                old(self).touched@
            },
    {
        let mut mv = mv;
        let (stage, request): (Stage, Request) = match (mv.stage, event) {
            (Stage::LookInCur, Event::Answer(true)) => (
                Stage::Reading,
                Request::Read(mv.src.clone()),
            ),
            (Stage::LookInCur, Event::Answer(false)) => {
                let other = self.file_in(&mv.src_folder, "new", &mv.src_filename);
                mv.src = other.clone();
                (Stage::LookInNew, Request::IsFile(other))
            },
            (Stage::LookInNew, Event::Answer(true)) => (
                Stage::Reading,
                Request::Read(mv.src.clone()),
            ),
            // Gone from the source: a prior run moved it. Idempotent no-op.
            (Stage::LookInNew, Event::Answer(false)) => (
                Stage::Finished,
                Request::Finish(Ok(MoveOutcome::AlreadyDone)),
            ),
            (Stage::Reading, Event::Content(bytes)) => {
                mv.bytes = bytes;
                (Stage::Timing, Request::Clock)
            },
            (Stage::Reading, Event::Failed(_)) => (Stage::Finished, about("reading ", &mv.src)),
            (Stage::Timing, Event::Time(secs, micros)) => {
                let name = self.make_name(secs, micros, &mv.src_filename);
                mv.tmp = self.file_in(&mv.dst_dotpath, "tmp", &name);
                mv.cur = self.file_in(&mv.dst_dotpath, "cur", &name);
                (Stage::MakingCur, Request::MakeDir(self.dir_in(&mv.dst_dotpath, "cur")))
            },
            (Stage::MakingCur, Event::Done) => (
                Stage::MakingNew,
                Request::MakeDir(self.dir_in(&mv.dst_dotpath, "new")),
            ),
            (Stage::MakingCur, Event::Failed(_)) => (
                Stage::Finished,
                about("creating ", &self.dir_in(&mv.dst_dotpath, "cur")),
            ),
            (Stage::MakingNew, Event::Done) => (
                Stage::MakingTmp,
                Request::MakeDir(self.dir_in(&mv.dst_dotpath, "tmp")),
            ),
            (Stage::MakingNew, Event::Failed(_)) => (
                Stage::Finished,
                about("creating ", &self.dir_in(&mv.dst_dotpath, "new")),
            ),
            (Stage::MakingTmp, Event::Done) => (Stage::Creating, Request::Create(mv.tmp.clone())),
            (Stage::MakingTmp, Event::Failed(_)) => (
                Stage::Finished,
                about("creating ", &self.dir_in(&mv.dst_dotpath, "tmp")),
            ),
            (Stage::Creating, Event::Done) => (
                Stage::Writing,
                Request::WriteSync(mv.tmp.clone()),
            ),
            (Stage::Creating, Event::Failed(_)) => (Stage::Finished, about("creating ", &mv.tmp)),
            (Stage::Writing, Event::Done) => (
                Stage::Renaming,
                Request::Rename(mv.tmp.clone(), mv.cur.clone()),
            ),
            (Stage::Writing, Event::Failed(why)) => (
                Stage::Finished,
                Request::Finish(Err(Error::new(why))),
            ),
            (Stage::Renaming, Event::Done) => (
                Stage::Syncing,
                Request::SyncDir(self.dir_in(&mv.dst_dotpath, "cur")),
            ),
            (Stage::Renaming, Event::Failed(_)) => (
                Stage::Finished,
                about("renaming into ", &mv.cur),
            ),
            (Stage::Syncing, Event::Done) => (Stage::Verifying, Request::Read(mv.cur.clone())),
            (Stage::Syncing, Event::Failed(_)) => (
                Stage::Verifying,
                Request::Read(mv.cur.clone()),
            ),
            // Byte-verify the destination BEFORE removing the source.
            (Stage::Verifying, Event::Content(written)) => {
                if same_bytes(&written, &mv.bytes) {
                    (Stage::Removing, Request::Remove(mv.src.clone()))
                } else {
                    (
                        Stage::Finished,
                        about("verification failed: destination bytes differ for ", &mv.cur),
                    )
                }
            },
            (Stage::Verifying, Event::Failed(_)) => (
                Stage::Finished,
                about("re-reading ", &mv.cur),
            ),
            (Stage::Removing, Event::Done) => {
                self.touched.insert(mv.src_folder.clone());
                self.touched.insert(mv.dst_dotpath.clone());
                (Stage::Finished, Request::Finish(Ok(MoveOutcome::Moved)))
            },
            (Stage::Removing, Event::Failed(_)) => (
                Stage::Finished,
                about("removing source ", &mv.src),
            ),
            _ => (
                Stage::Finished,
                Request::Finish(Err(Error::new("unexpected answer".to_string()))),
            ),
        };
        mv.stage = stage;
        (mv, request)
    }
}

} // verus!
