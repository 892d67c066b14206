//! What holds of every offline move, however the file system behaves: the message is
//! never lost, no other file is touched, and moving it again does nothing.

use vstd::prelude::*;

use crate::filename::{law_fresh_name_has_no_uid, parsed, uid_mark};
use crate::local::{
    file_path, first_view, fresh_name, next, EventView, MoveView, RequestView, Stage,
};
use crate::model::ActionView;
use crate::mover::MoveOutcome;
use crate::number::{decimal, lemma_decimal_value};
use crate::scan::path_join;
use crate::text::{has_text, is_digit};

verus! {

/// The files of an account: what each path holds.
pub type Files = Map<Seq<char>, Seq<u8>>;

/// A point of a move: how far it has come, what is asked for, and the files.
#[verifier::ext_equal]
pub ghost struct Point {
    pub mv: MoveView,
    pub request: RequestView,
    pub files: Files,
}

/// How a file system may answer a request. Any request but a look or the clock may fail.
/// Nothing is said of what a write leaves in the file, whether it is reported as done or
/// as failed.
pub open spec fn answers(at: Point, after: Files, event: EventView) -> bool {
    match (at.request, event) {
        (RequestView::IsFile(p), EventView::Answer(b)) => after == at.files && b
            == at.files.contains_key(p),
        (RequestView::Read(p), EventView::Content(b)) => after == at.files
            && at.files.contains_key(p) && b == at.files[p],
        (RequestView::Read(_), EventView::Failed(_)) => after == at.files,
        (RequestView::Clock, EventView::Time(_, _)) => after == at.files,
        (RequestView::MakeDir(_), EventView::Done) => after == at.files,
        (RequestView::MakeDir(_), EventView::Failed(_)) => after == at.files,
        (RequestView::Create(p), EventView::Done) => after == at.files.insert(p, Seq::empty()),
        (RequestView::Create(_), EventView::Failed(_)) => after == at.files,
        (RequestView::WriteSync(p), EventView::Done) => after.contains_key(p) && after
            == at.files.insert(p, after[p]),
        (RequestView::WriteSync(p), EventView::Failed(_)) => after.contains_key(p) && after
            == at.files.insert(p, after[p]),
        (RequestView::Rename(a, b), EventView::Done) => at.files.contains_key(a) && after
            == at.files.remove(a).insert(b, at.files[a]),
        (RequestView::Rename(_, _), EventView::Failed(_)) => after == at.files,
        (RequestView::SyncDir(_), EventView::Done) => after == at.files,
        (RequestView::SyncDir(_), EventView::Failed(_)) => after == at.files,
        (RequestView::Remove(p), EventView::Done) => after == at.files.remove(p),
        (RequestView::Remove(_), EventView::Failed(_)) => after == at.files,
        _ => false,
    }
}

/// One point follows another by an event, with the sequence number `seq_no`. A name made
/// at this step is not in use yet.
pub open spec fn follows_by(
    root: Seq<char>,
    host: Seq<char>,
    a: Point,
    b: Point,
    event: EventView,
    seq_no: u64,
) -> bool {
    &&& answers(a, b.files, event)
    &&& (b.mv, b.request) == next(root, host, seq_no, a.mv, event)
    &&& event is Time ==> !a.files.contains_key(b.mv.tmp) && !a.files.contains_key(b.mv.cur)
}

/// One point follows another.
pub open spec fn follows(root: Seq<char>, host: Seq<char>, a: Point, b: Point) -> bool {
    exists|event: EventView, seq_no: u64| follows_by(root, host, a, b, event, seq_no)
}

/// The points that a move goes through, from its start on.
pub open spec fn is_course(
    root: Seq<char>,
    host: Seq<char>,
    action: ActionView,
    course: Seq<Point>,
) -> bool {
    &&& course.len() > 0
    &&& course[0].mv == first_view(root, action)
    &&& course[0].request == RequestView::IsFile(course[0].mv.src)
    &&& forall|i: int|
        0 <= i < course.len() - 1 ==> follows(root, host, #[trigger] course[i], course[i + 1])
}

/// The two places where the message of an action may be.
pub open spec fn in_cur(root: Seq<char>, action: ActionView) -> Seq<char> {
    file_path(root, action.src_folder, "cur"@, action.src_filename)
}

/// See [`in_cur`].
pub open spec fn in_new(root: Seq<char>, action: ActionView) -> Seq<char> {
    file_path(root, action.src_folder, "new"@, action.src_filename)
}

/// Where the message of an action is: `cur` goes before `new`.
pub open spec fn source(root: Seq<char>, action: ActionView, files: Files) -> Option<Seq<char>> {
    if files.contains_key(in_cur(root, action)) {
        Some(in_cur(root, action))
    } else if files.contains_key(in_new(root, action)) {
        Some(in_new(root, action))
    } else {
        None
    }
}

/// Two states of the files agree on every path but two.
pub open spec fn agree_but(a: Files, b: Files, p: Seq<char>, q: Seq<char>) -> bool {
    forall|x: Seq<char>|
        #![trigger a.contains_key(x)]
        #![trigger b.contains_key(x)]
        x != p && x != q ==> a.contains_key(x) == b.contains_key(x) && (a.contains_key(x)
            ==> a[x] == b[x])
}

/// What holds at a point of a move of a message that was there at the start.
spec fn sound(
    root: Seq<char>,
    action: ActionView,
    start: Files,
    src: Seq<char>,
    at: Point,
) -> bool {
    let mv = at.mv;
    let m = start[src];
    let found = mv.src == src && mv.bytes == m && !start.contains_key(mv.tmp)
        && !start.contains_key(mv.cur) && mv.tmp != mv.cur;
    match mv.stage {
        Stage::LookInCur => at.files == start && mv == first_view(root, action) && at.request
            == RequestView::IsFile(mv.src),
        Stage::LookInNew => at.files == start && src == in_new(root, action) && mv.src == src
            && at.request == RequestView::IsFile(src),
        Stage::Reading => at.files == start && mv.src == src && at.request == RequestView::Read(
            src,
        ),
        Stage::Timing => at.files == start && mv.src == src && mv.bytes == m && at.request
            == RequestView::Clock,
        Stage::MakingCur => at.files == start && found && at.request is MakeDir,
        Stage::MakingNew => at.files == start && found && at.request is MakeDir,
        Stage::MakingTmp => at.files == start && found && at.request is MakeDir,
        Stage::Creating => at.files == start && found && at.request == RequestView::Create(mv.tmp),
        Stage::Writing => agree_but(start, at.files, mv.tmp, mv.tmp) && found && at.request
            == RequestView::WriteSync(mv.tmp),
        Stage::Renaming => agree_but(start, at.files, mv.tmp, mv.tmp) && found && at.request
            == RequestView::Rename(mv.tmp, mv.cur),
        Stage::Syncing => agree_but(start, at.files, mv.cur, mv.cur) && found
            && at.request is SyncDir,
        Stage::Verifying => agree_but(start, at.files, mv.cur, mv.cur) && found && at.request
            == RequestView::Read(mv.cur),
        Stage::Removing => agree_but(start, at.files, mv.cur, mv.cur) && found
            && at.files.contains_key(mv.cur) && at.files[mv.cur] == m && at.request
            == RequestView::Remove(src),
        Stage::Finished => match at.request {
            RequestView::Finish(Ok(outcome)) => outcome == MoveOutcome::Moved && found
                && agree_but(start, at.files, mv.cur, src) && at.files.contains_key(mv.cur)
                && at.files[mv.cur] == m && !at.files.contains_key(src),
            RequestView::Finish(Err(_)) => at.files.contains_key(src) && at.files[src] == m
                && agree_but(start, at.files, mv.tmp, mv.cur),
            _ => false,
        },
    }
}

/// A fresh name has two different paths in `tmp` and in `cur`.
proof fn lemma_paths_differ(
    root: Seq<char>,
    dotpath: Seq<char>,
    secs: u64,
    micros: u32,
    seq_no: u64,
    host: Seq<char>,
    old_name: Seq<char>,
)
    ensures
        ({
            let name = fresh_name(secs, micros, seq_no, host, old_name);
            file_path(root, dotpath, "tmp"@, name) != file_path(root, dotpath, "cur"@, name)
        }),
{
    let name = fresh_name(secs, micros, seq_no, host, old_name);
    lemma_decimal_value(secs as nat);
    let d = decimal(secs as nat);
    assert(is_digit(d[0]));
    assert(name[0] == d[0]);
    reveal_strlit("tmp");
    reveal_strlit("cur");
    let dir = path_join(root, dotpath);
    let a = path_join(dir, "tmp"@);
    let b = path_join(dir, "cur"@);
    let n: int = if dir.len() > 0 && dir.last() != '/' {
        dir.len() as int + 1
    } else {
        dir.len() as int
    };
    assert(a[n] == 't' && b[n] == 'c');
    assert(a.last() == 'p' && b.last() == 'r');
    assert(path_join(a, name)[n] == 't');
    assert(path_join(b, name)[n] == 'c');
}

/// Every step keeps a move sound.
proof fn lemma_step_sound(
    root: Seq<char>,
    host: Seq<char>,
    action: ActionView,
    start: Files,
    src: Seq<char>,
    a: Point,
    b: Point,
)
    requires
        source(root, action, start) == Some(src),
        sound(root, action, start, src, a),
        follows(root, host, a, b),
    ensures
        sound(root, action, start, src, b),
{
    let (event, seq_no) = choose|event: EventView, seq_no: u64|
        follows_by(root, host, a, b, event, seq_no);
    match (a.mv.stage, event) {
        (Stage::Timing, EventView::Time(secs, micros)) => {
            lemma_paths_differ(
                root,
                a.mv.dst_dotpath,
                secs,
                micros,
                seq_no,
                host,
                a.mv.src_filename,
            );
        },
        _ => {},
    }
}

/// Every point of a move is sound.
proof fn lemma_course_sound(
    root: Seq<char>,
    host: Seq<char>,
    action: ActionView,
    course: Seq<Point>,
    src: Seq<char>,
    i: int,
)
    requires
        is_course(root, host, action, course),
        source(root, action, course[0].files) == Some(src),
        0 <= i < course.len(),
    ensures
        sound(root, action, course[0].files, src, course[i]),
    decreases i,
{
    if i > 0 {
        lemma_course_sound(root, host, action, course, src, i - 1);
        assert(follows(root, host, course[i - 1], course[i - 1 + 1]));
        lemma_step_sound(
            root,
            host,
            action,
            course[0].files,
            src,
            course[i - 1],
            course[i],
        );
    }
}

/// A move never loses its message: at every point, and so wherever a crash may stop it,
/// the message is whole at its source or in `cur` of its destination. No file is touched
/// but the source and the two that the move makes.
pub proof fn law_never_lost(
    root: Seq<char>,
    host: Seq<char>,
    action: ActionView,
    course: Seq<Point>,
    src: Seq<char>,
    i: int,
)
    requires
        is_course(root, host, action, course),
        source(root, action, course[0].files) == Some(src),
        0 <= i < course.len(),
    ensures
        ({
            let files = course[i].files;
            let cur = course[i].mv.cur;
            let message = course[0].files[src];
            ||| files.contains_key(src) && files[src] == message
            ||| files.contains_key(cur) && files[cur] == message
        }),
        forall|x: Seq<char>|
            x != src && x != course[i].mv.tmp && x != course[i].mv.cur ==> (
            #[trigger] course[i].files.contains_key(x)) == course[0].files.contains_key(x) && (
            course[i].files.contains_key(x) ==> course[i].files[x] == course[0].files[x]),
{
    lemma_course_sound(root, host, action, course, src, i);
}

/// The source is removed only after the destination was read back and held the same bytes.
pub proof fn law_verified_before_removal(
    root: Seq<char>,
    host: Seq<char>,
    action: ActionView,
    course: Seq<Point>,
    src: Seq<char>,
    i: int,
)
    requires
        is_course(root, host, action, course),
        source(root, action, course[0].files) == Some(src),
        0 <= i < course.len(),
        course[i].request is Remove,
    ensures
        course[i].request == RequestView::Remove(src),
        course[i].files.contains_key(src),
        course[i].files.contains_key(course[i].mv.cur),
        course[i].files[course[i].mv.cur] == course[0].files[src],
        course[i].files[src] == course[0].files[src],
{
    lemma_course_sound(root, host, action, course, src, i);
}

/// How a move of a message that is there ends: it is reported as moved only if the message
/// is at its destination and gone from its source, with nothing left in `tmp`; it is never
/// reported as already done; and a move that fails leaves the source as it was.
pub proof fn law_outcome(
    root: Seq<char>,
    host: Seq<char>,
    action: ActionView,
    course: Seq<Point>,
    src: Seq<char>,
    i: int,
)
    requires
        is_course(root, host, action, course),
        source(root, action, course[0].files) == Some(src),
        0 <= i < course.len(),
        course[i].request is Finish,
    ensures
        ({
            let start = course[0].files;
            let end = course[i].files;
            match course[i].request {
                RequestView::Finish(Ok(outcome)) => {
                    &&& outcome == MoveOutcome::Moved
                    &&& end == start.remove(src).insert(course[i].mv.cur, start[src])
                    &&& !start.contains_key(course[i].mv.cur)
                },
                _ => end.contains_key(src) && end[src] == start[src],
            }
        }),
{
    lemma_course_sound(root, host, action, course, src, i);
    let start = course[0].files;
    let end = course[i].files;
    let cur = course[i].mv.cur;
    if course[i].request == RequestView::Finish(Ok(MoveOutcome::Moved)) {
        assert forall|x: Seq<char>| end.contains_key(x) == start.remove(src).insert(
            cur,
            start[src],
        ).contains_key(x) by {
            assert(start.contains_key(x) || !start.contains_key(x));
        }
        assert(end =~= start.remove(src).insert(cur, start[src]));
    }
}

/// A message that is in neither place was moved before: the move ends at once as already
/// done, and no file is ever touched.
pub proof fn law_gone_is_done(
    root: Seq<char>,
    host: Seq<char>,
    action: ActionView,
    course: Seq<Point>,
    i: int,
)
    requires
        is_course(root, host, action, course),
        source(root, action, course[0].files) is None,
        0 <= i < course.len(),
    ensures
        course[i].files == course[0].files,
        i < 3,
        i == 2 ==> course[i].request == RequestView::Finish(Ok(MoveOutcome::AlreadyDone)),
        i < 2 ==> course[i].request is IsFile,
{
    let first = course[0];
    if i > 0 {
        assert(follows(root, host, course[0], course[1]));
        let (e0, s0) = choose|event: EventView, seq_no: u64|
            follows_by(root, host, course[0], course[1], event, seq_no);
        assert(e0 == EventView::Answer(false));
        assert(course[1].mv.src == in_new(root, action));
        if i > 1 {
            assert(follows(root, host, course[1], course[2]));
            let (e1, s1) = choose|event: EventView, seq_no: u64|
                follows_by(root, host, course[1], course[2], event, seq_no);
            assert(e1 == EventView::Answer(false));
            if i > 2 {
                assert(follows(root, host, course[2], course[3]));
                let (e2, s2) = choose|event: EventView, seq_no: u64|
                    follows_by(root, host, course[2], course[3], event, seq_no);
                assert(false);
            }
        }
    }
}

/// Moving again is idempotent: once a move has been reported as moved, the same move
/// finds nothing to do and touches no file. The message must not have been in both `cur`
/// and `new`, and its new path must be neither of its old ones.
pub proof fn law_move_again(
    root: Seq<char>,
    host: Seq<char>,
    action: ActionView,
    course: Seq<Point>,
    again: Seq<Point>,
    i: int,
)
    requires
        is_course(root, host, action, course),
        course.last().request == RequestView::Finish(Ok(MoveOutcome::Moved)),
        !(course[0].files.contains_key(in_cur(root, action)) && course[0].files.contains_key(
            in_new(root, action),
        )),
        course.last().mv.cur != in_cur(root, action),
        course.last().mv.cur != in_new(root, action),
        is_course(root, host, action, again),
        again[0].files == course.last().files,
        0 <= i < again.len(),
    ensures
        again[i].files == again[0].files,
        again[i].request is Finish ==> again[i].request == RequestView::Finish(
            Ok(MoveOutcome::AlreadyDone),
        ),
        i < 3,
        i == 2 ==> again[i].request is Finish,
{
    if source(root, action, course[0].files) is None {
        law_gone_is_done(root, host, action, course, course.len() - 1);
        assert(false);
    }
    let src = source(root, action, course[0].files)->0;
    law_outcome(root, host, action, course, src, course.len() - 1);
    assert(source(root, action, again[0].files) is None);
    law_gone_is_done(root, host, action, again, i);
}

/// The file made for a moved message carries the flags of the old name and no UID: a
/// copied UID would be a duplicate on the next sync. The host must not hold `,U=` or a
/// colon, and the old flags must not start with `U=` or hold `,U=`.
pub proof fn law_moved_name(
    secs: u64,
    micros: u32,
    seq_no: u64,
    host: Seq<char>,
    old_name: Seq<char>,
)
    requires
        !has_text(host, uid_mark()),
        !host.contains(':'),
        !has_text(seq![','] + parsed(old_name).flags, uid_mark()),
    ensures
        parsed(fresh_name(secs, micros, seq_no, host, old_name)).uid is None,
        parsed(fresh_name(secs, micros, seq_no, host, old_name)).flags == parsed(old_name).flags,
        !has_text(fresh_name(secs, micros, seq_no, host, old_name), uid_mark()),
{
    law_fresh_name_has_no_uid(secs, micros, seq_no, host, parsed(old_name).flags);
}

} // verus!
