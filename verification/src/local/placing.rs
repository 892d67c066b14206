//! Where an offline move puts its message.

use vstd::prelude::*;

use crate::filename::parsed;
use crate::local::laws::{follows, follows_by, is_course, law_outcome, source, Point};
use crate::local::{fresh_name, EventView, MoveView, RequestView, Stage};
use crate::model::ActionView;
use crate::mover::MoveOutcome;
use crate::number::decimal;
use crate::scan::path_join;

verus! {

/// The move has its destination: a file in `cur` of the destination folder, prepared under
/// the same name in `tmp`, with a fresh name that keeps the flags.
pub open spec fn is_placed(
    root: Seq<char>,
    host: Seq<char>,
    action: ActionView,
    mv: MoveView,
    secs: u64,
    micros: u32,
    count: u64,
) -> bool {
    let name = decimal(secs as nat) + seq!['.'] + decimal(micros as nat) + seq!['_'] + decimal(
        count as nat,
    ) + seq!['.'] + host + seq![':', '2', ','] + parsed(action.src_filename).flags;
    &&& mv.cur == path_join(path_join(path_join(root, action.dst_dotpath), "cur"@), name)
    &&& mv.tmp == path_join(path_join(path_join(root, action.dst_dotpath), "tmp"@), name)
}

/// The destination of the move is chosen.
spec fn has_place(root: Seq<char>, host: Seq<char>, action: ActionView, mv: MoveView) -> bool {
    exists|secs: u64, micros: u32, count: u64| #[trigger]
        is_placed(root, host, action, mv, secs, micros, count)
}

/// The stages after the destination was chosen.
spec fn is_late(stage: Stage) -> bool {
    match stage {
        Stage::LookInCur => false,
        Stage::LookInNew => false,
        Stage::Reading => false,
        Stage::Timing => false,
        Stage::Finished => false,
        _ => true,
    }
}

/// What every point of a move keeps.
spec fn on_track(root: Seq<char>, host: Seq<char>, action: ActionView, at: Point) -> bool {
    &&& at.mv.src_folder == action.src_folder
    &&& at.mv.src_filename == action.src_filename
    &&& at.mv.dst_dotpath == action.dst_dotpath
    &&& is_late(at.mv.stage) ==> has_place(root, host, action, at.mv)
    &&& at.mv.stage == Stage::Finished <==> at.request is Finish
    &&& at.request == RequestView::Finish(Ok(MoveOutcome::Moved)) ==> has_place(
        root,
        host,
        action,
        at.mv,
    )
    &&& at.request matches RequestView::MakeDir(dir) ==> is_dir_of(root, action.dst_dotpath, dir)
    &&& at.request matches RequestView::Create(path) ==> path == at.mv.tmp
    &&& at.request matches RequestView::WriteSync(path) ==> path == at.mv.tmp
    &&& at.request matches RequestView::Rename(from, to) ==> from == at.mv.tmp && to == at.mv.cur
}

/// One of the three directories of a folder.
pub open spec fn is_dir_of(root: Seq<char>, dotpath: Seq<char>, dir: Seq<char>) -> bool {
    let folder = path_join(root, dotpath);
    dir == path_join(folder, "cur"@) || dir == path_join(folder, "new"@) || dir == path_join(
        folder,
        "tmp"@,
    )
}

proof fn lemma_step_on_track(
    root: Seq<char>,
    host: Seq<char>,
    action: ActionView,
    a: Point,
    b: Point,
)
    requires
        on_track(root, host, action, a),
        follows(root, host, a, b),
    ensures
        on_track(root, host, action, b),
{
    let (event, count) = choose|event: EventView, count: u64|
        follows_by(root, host, a, b, event, count);
    if is_late(a.mv.stage) {
        let (s, m, c) = choose|s: u64, m: u32, c: u64| #[trigger]
            is_placed(root, host, action, a.mv, s, m, c);
        assert(is_placed(root, host, action, b.mv, s, m, c));
    }
    match (a.mv.stage, event) {
        (Stage::Timing, EventView::Time(secs, micros)) => {
            let name = fresh_name(secs, micros, count, host, action.src_filename);
            assert(name =~= decimal(secs as nat) + seq!['.'] + decimal(micros as nat) + seq!['_']
                + decimal(count as nat) + seq!['.'] + host + seq![':', '2', ','] + parsed(
                action.src_filename,
            ).flags);
            assert(is_placed(root, host, action, b.mv, secs, micros, count));
        },
        _ => {},
    }
}

proof fn lemma_on_track(
    root: Seq<char>,
    host: Seq<char>,
    action: ActionView,
    course: Seq<Point>,
    i: int,
)
    requires
        is_course(root, host, action, course),
        0 <= i < course.len(),
    ensures
        on_track(root, host, action, course[i]),
    decreases i,
{
    if i > 0 {
        lemma_on_track(root, host, action, course, i - 1);
        assert(follows(root, host, course[i - 1], course[i - 1 + 1]));
        lemma_step_on_track(root, host, action, course[i - 1], course[i]);
    }
}

/// A message that was moved is in `cur` of the destination folder, byte for byte, under a
/// name made of the time, a count and the host, with the flags it had and without a UID;
/// it is gone from the source, and every other file is as it was.
pub proof fn law_moved_into_destination(
    root: Seq<char>,
    host: Seq<char>,
    action: ActionView,
    course: Seq<Point>,
    src: Seq<char>,
    i: int,
)
    requires
        is_course(root, host, action, course),
        source(root, action, course[0].files) == Some(src),
        0 <= i < course.len(),
        course[i].request == RequestView::Finish(Ok(MoveOutcome::Moved)),
    ensures
        exists|secs: u64, micros: u32, count: u64| #[trigger]
            is_placed(root, host, action, course[i].mv, secs, micros, count),
        course[i].files == course[0].files.remove(src).insert(
            course[i].mv.cur,
            course[0].files[src],
        ),
{
    lemma_on_track(root, host, action, course, i);
    law_outcome(root, host, action, course, src, i);
}

/// A move makes no directory but those of the destination folder, and writes no file but
/// its own in `tmp`, which it then renames into `cur`.
pub proof fn law_writes_in_destination(
    root: Seq<char>,
    host: Seq<char>,
    action: ActionView,
    course: Seq<Point>,
    i: int,
)
    requires
        is_course(root, host, action, course),
        0 <= i < course.len(),
    ensures
        match course[i].request {
            RequestView::MakeDir(dir) => is_dir_of(root, action.dst_dotpath, dir),
            RequestView::Create(path) => path == course[i].mv.tmp && exists|
                secs: u64,
                micros: u32,
                count: u64,
            | #[trigger]
                is_placed(root, host, action, course[i].mv, secs, micros, count),
            RequestView::WriteSync(path) => path == course[i].mv.tmp,
            RequestView::Rename(from, to) => from == course[i].mv.tmp && to == course[i].mv.cur,
            _ => true,
        },
{
    lemma_on_track(root, host, action, course, i);
    if i > 0 && course[i].request is Create {
        lemma_on_track(root, host, action, course, i - 1);
        assert(follows(root, host, course[i - 1], course[i - 1 + 1]));
        let a = course[i - 1];
        let b = course[i];
        let (event, count) = choose|event: EventView, count: u64|
            follows_by(root, host, a, b, event, count);
        assert(is_late(b.mv.stage));
    }
}

/// Each of the last stages follows on one other, and keeps the files of the move.
proof fn lemma_before(
    root: Seq<char>,
    host: Seq<char>,
    action: ActionView,
    course: Seq<Point>,
    i: int,
)
    requires
        is_course(root, host, action, course),
        0 <= i < course.len(),
        is_late(course[i].mv.stage),
        course[i].mv.stage != Stage::MakingCur,
        course[i].mv.stage != Stage::MakingNew,
        course[i].mv.stage != Stage::MakingTmp,
        course[i].mv.stage != Stage::Creating,
    ensures
        i > 0,
        ({
            let a = course[i - 1];
            let b = course[i];
            &&& a.mv.cur == b.mv.cur && a.mv.tmp == b.mv.tmp && a.mv.bytes == b.mv.bytes
            &&& a.mv.src == b.mv.src
            &&& b.mv.stage == Stage::Writing ==> a.mv.stage == Stage::Creating
            &&& b.mv.stage == Stage::Renaming ==> a.mv.stage == Stage::Writing
            &&& b.mv.stage == Stage::Syncing ==> a.mv.stage == Stage::Renaming
            &&& b.mv.stage == Stage::Verifying ==> a.mv.stage == Stage::Syncing
            &&& b.mv.stage == Stage::Removing ==> a.mv.stage == Stage::Verifying
        }),
{
    lemma_on_track(root, host, action, course, i);
    if i > 0 {
        let a = course[i - 1];
        let b = course[i];
        assert(follows(root, host, course[i - 1], course[i - 1 + 1]));
        let (event, count) = choose|event: EventView, count: u64|
            follows_by(root, host, a, b, event, count);
    }
}

/// What each of the last stages asks for.
proof fn lemma_asked(
    root: Seq<char>,
    host: Seq<char>,
    action: ActionView,
    course: Seq<Point>,
    i: int,
)
    requires
        is_course(root, host, action, course),
        0 <= i < course.len(),
    ensures
        ({
            let mv = course[i].mv;
            let dir = path_join(path_join(root, action.dst_dotpath), "cur"@);
            match mv.stage {
                Stage::Creating => course[i].request == RequestView::Create(mv.tmp),
                Stage::Writing => course[i].request == RequestView::WriteSync(mv.tmp),
                Stage::Renaming => course[i].request == RequestView::Rename(mv.tmp, mv.cur),
                Stage::Syncing => course[i].request == RequestView::SyncDir(dir),
                Stage::Verifying => course[i].request == RequestView::Read(mv.cur),
                Stage::Removing => course[i].request == RequestView::Remove(mv.src),
                _ => !(course[i].request is Remove),
            }
        }),
{
    lemma_on_track(root, host, action, course, i);
    if i > 0 {
        lemma_on_track(root, host, action, course, i - 1);
        let a = course[i - 1];
        let b = course[i];
        assert(follows(root, host, course[i - 1], course[i - 1 + 1]));
        let (event, count) = choose|event: EventView, count: u64|
            follows_by(root, host, a, b, event, count);
    }
}

/// The message is safe on disk before its source is removed: the copy was created, written
/// and flushed, renamed into place, its directory was flushed, and it was read back, one
/// right after the other.
pub proof fn law_durable_before_removal(
    root: Seq<char>,
    host: Seq<char>,
    action: ActionView,
    course: Seq<Point>,
    i: int,
)
    requires
        is_course(root, host, action, course),
        0 <= i < course.len(),
        course[i].request is Remove,
    ensures
        i >= 5,
        ({
            let tmp = course[i].mv.tmp;
            let cur = course[i].mv.cur;
            let dir = path_join(path_join(root, action.dst_dotpath), "cur"@);
            &&& course[i - 5].request == RequestView::Create(tmp)
            &&& course[i - 4].request == RequestView::WriteSync(tmp)
            &&& course[i - 3].request == RequestView::Rename(tmp, cur)
            &&& course[i - 2].request == RequestView::SyncDir(dir)
            &&& course[i - 1].request == RequestView::Read(cur)
            &&& course[i - 4].mv.bytes == course[i].mv.bytes
        }),
{
    lemma_asked(root, host, action, course, i);
    lemma_before(root, host, action, course, i);
    lemma_asked(root, host, action, course, i - 1);
    lemma_before(root, host, action, course, i - 1);
    lemma_asked(root, host, action, course, i - 2);
    lemma_before(root, host, action, course, i - 2);
    lemma_asked(root, host, action, course, i - 3);
    lemma_before(root, host, action, course, i - 3);
    lemma_asked(root, host, action, course, i - 4);
    lemma_before(root, host, action, course, i - 4);
    lemma_asked(root, host, action, course, i - 5);
}

} // verus!
