//! The append-only journal: one record per event, each made durable before the mutation
//! it announces, so an interrupted run can be replayed and resumed without loss.

use std::collections::HashSet;

use vstd::prelude::*;

use crate::error::Error;
use crate::seqs::all_views;
use crate::text::{
    clone_opt, from_chars, lines, opt_text, split_lines, texts, to_chars, trim, trimmed, views,
};

verus! {

/// One journal event. `index` refers to the position of an action in the plan's
/// `actions` list.
#[derive(Debug, PartialEq, Eq)]
pub enum JournalRecord {
    PlanLoaded { plan_id: String, actions: usize },
    FolderEnsured { dotpath: String },
    /// Written and made durable *before* the move is attempted.
    ActionBegin {
        index: usize,
        message_id: Option<String>,
        src_folder: String,
        uid: Option<u32>,
        dst: String,
    },
    ActionMoved { index: usize, outcome: String },
    ActionVerified { index: usize },
    ActionSkipped { index: usize, reason: String },
    ActionFailed { index: usize, error: String },
    Reconciled,
    Done { moved: usize, skipped: usize, simulated: usize, failed: usize },
    Fatal { error: String },
}

/// The view of a [`JournalRecord`].
#[verifier::ext_equal]
pub ghost enum Event {
    PlanLoaded { plan_id: Seq<char>, actions: nat },
    FolderEnsured { dotpath: Seq<char> },
    ActionBegin {
        index: nat,
        message_id: Option<Seq<char>>,
        src_folder: Seq<char>,
        uid: Option<u32>,
        dst: Seq<char>,
    },
    ActionMoved { index: nat, outcome: Seq<char> },
    ActionVerified { index: nat },
    ActionSkipped { index: nat, reason: Seq<char> },
    ActionFailed { index: nat, error: Seq<char> },
    Reconciled,
    Done { moved: nat, skipped: nat, simulated: nat, failed: nat },
    Fatal { error: Seq<char> },
}

impl View for JournalRecord {
    type V = Event;

    open spec fn view(&self) -> Event {
        match self {
            JournalRecord::PlanLoaded { plan_id, actions } => Event::PlanLoaded {
                plan_id: plan_id@,
                actions: *actions as nat,
            },
            JournalRecord::FolderEnsured { dotpath } => Event::FolderEnsured { dotpath: dotpath@ },
            JournalRecord::ActionBegin { index, message_id, src_folder, uid, dst } =>
                Event::ActionBegin {
                index: *index as nat,
                message_id: opt_text(*message_id),
                src_folder: src_folder@,
                uid: *uid,
                dst: dst@,
            },
            JournalRecord::ActionMoved { index, outcome } => Event::ActionMoved {
                index: *index as nat,
                outcome: outcome@,
            },
            JournalRecord::ActionVerified { index } => Event::ActionVerified {
                index: *index as nat,
            },
            JournalRecord::ActionSkipped { index, reason } => Event::ActionSkipped {
                index: *index as nat,
                reason: reason@,
            },
            JournalRecord::ActionFailed { index, error } => Event::ActionFailed {
                index: *index as nat,
                error: error@,
            },
            JournalRecord::Reconciled => Event::Reconciled,
            JournalRecord::Done { moved, skipped, simulated, failed } => Event::Done {
                moved: *moved as nat,
                skipped: *skipped as nat,
                simulated: *simulated as nat,
                failed: *failed as nat,
            },
            JournalRecord::Fatal { error } => Event::Fatal { error: error@ },
        }
    }
}

impl Clone for JournalRecord {
    fn clone(&self) -> (r: JournalRecord)
        ensures
            r@ == self@,
    {
        match self {
            JournalRecord::PlanLoaded { plan_id, actions } => JournalRecord::PlanLoaded {
                plan_id: plan_id.clone(),
                actions: *actions,
            },
            JournalRecord::FolderEnsured { dotpath } => JournalRecord::FolderEnsured {
                dotpath: dotpath.clone(),
            },
            JournalRecord::ActionBegin { index, message_id, src_folder, uid, dst } =>
                JournalRecord::ActionBegin {
                index: *index,
                message_id: clone_opt(message_id),
                src_folder: src_folder.clone(),
                uid: *uid,
                dst: dst.clone(),
            },
            JournalRecord::ActionMoved { index, outcome } => JournalRecord::ActionMoved {
                index: *index,
                outcome: outcome.clone(),
            },
            JournalRecord::ActionVerified { index } => JournalRecord::ActionVerified {
                index: *index,
            },
            JournalRecord::ActionSkipped { index, reason } => JournalRecord::ActionSkipped {
                index: *index,
                reason: reason.clone(),
            },
            JournalRecord::ActionFailed { index, error } => JournalRecord::ActionFailed {
                index: *index,
                error: error.clone(),
            },
            JournalRecord::Reconciled => JournalRecord::Reconciled,
            JournalRecord::Done { moved, skipped, simulated, failed } => JournalRecord::Done {
                moved: *moved,
                skipped: *skipped,
                simulated: *simulated,
                failed: *failed,
            },
            JournalRecord::Fatal { error } => JournalRecord::Fatal { error: error.clone() },
        }
    }
}

/// A place journal records are written to. The engine emits to a sink; the command line
/// tees a durable file and a stream on standard output.
pub trait RecordSink {
    /// What is in the sink is known: [`RecordSink::log`] tells it. Where a sink does not
    /// say so, nothing is claimed of what it holds.
    open spec fn tells(&self) -> bool {
        false
    }

    /// The records written so far, if the sink tells.
    open spec fn log(&self) -> Seq<Event> {
        Seq::empty()
    }

    /// Writing to this sink always succeeds. Where a sink does not say so, it may fail.
    open spec fn never_fails(&self) -> bool {
        false
    }

    /// Write one record, durably where the sink is durable. A record whose writing is
    /// reported as failed may be there all the same.
    fn emit(&mut self, rec: &JournalRecord) -> (r: Result<(), Error>)
        ensures
            final(self).tells() == old(self).tells(),
            final(self).never_fails() == old(self).never_fails(),
            old(self).never_fails() ==> r is Ok,
            old(self).tells() ==> took(old(self).log(), final(self).log(), rec@, r is Ok),
    ;
}

/// A log has taken a record: for certain if `ok`, else perhaps.
pub open spec fn took(pre: Seq<Event>, post: Seq<Event>, event: Event, ok: bool) -> bool {
    post == pre.push(event) || (!ok && post == pre)
}

/// Collects records in memory.
#[derive(Debug, Clone)]
pub struct VecSink(pub Vec<JournalRecord>);

impl Default for VecSink {
    fn default() -> (r: VecSink)
        ensures
            r.log() == Seq::<Event>::empty(),
    {
        let r = VecSink(Vec::new());
        assert(r.log() =~= Seq::empty());
        r
    }
}

impl RecordSink for VecSink {
    open spec fn tells(&self) -> bool {
        true
    }

    open spec fn log(&self) -> Seq<Event> {
        all_views(self.0@)
    }

    open spec fn never_fails(&self) -> bool {
        true
    }

    fn emit(&mut self, rec: &JournalRecord) -> (r: Result<(), Error>)
        ensures
            r is Ok,
    {
        self.0.push(rec.clone());
        assert(self.log() =~= old(self).log().push(rec@));
        Ok(())
    }
}

/// Fans a record out to several sinks (e.g. a durable file and standard output). A record
/// counts as written once every sink has taken it.
pub struct Tee {
    pub sinks: Vec<Box<dyn RecordSink>>,
    /// The records that every sink has taken since the tee was made.
    pub accepted: Ghost<Seq<Event>>,
}

/// A record was offered to sinks in turn, up to the first that failed: those before it
/// have written the record, that one may have, and the others are as they were. It went
/// through to the end if and only if `ok`.
pub open spec fn fanned_out(
    pre: Seq<Box<dyn RecordSink>>,
    post: Seq<Box<dyn RecordSink>>,
    event: Event,
    ok: bool,
) -> bool {
    &&& post.len() == pre.len()
    &&& exists|n: int|
        #![trigger written_to(pre, post, event, n)]
        0 <= n <= pre.len() && (ok <==> n == pre.len()) && written_to(pre, post, event, n)
}

/// The first `n` sinks have written the record, the next has perhaps, and the others are
/// as they were.
pub open spec fn written_to(
    pre: Seq<Box<dyn RecordSink>>,
    post: Seq<Box<dyn RecordSink>>,
    event: Event,
    n: int,
) -> bool {
    &&& forall|i: int|
        0 <= i < pre.len() && i <= n && (#[trigger] pre[i]).tells() ==> took(
            pre[i].log(),
            post[i].log(),
            event,
            i < n,
        )
    &&& forall|i: int| n < i < pre.len() ==> (#[trigger] post[i]) == pre[i]
}

impl Tee {
    /// A tee over the given sinks.
    pub fn new(sinks: Vec<Box<dyn RecordSink>>) -> (r: Tee)
        ensures
            r.sinks == sinks,
            r.log() == Seq::<Event>::empty(),
    {
        Tee { sinks, accepted: Ghost(Seq::empty()) }
    }
}

impl RecordSink for Tee {
    open spec fn tells(&self) -> bool {
        true
    }

    open spec fn log(&self) -> Seq<Event> {
        self.accepted@
    }

    open spec fn never_fails(&self) -> bool {
        forall|i: int| 0 <= i < self.sinks@.len() ==> (#[trigger] self.sinks@[i]).never_fails()
    }

    /// The sinks take the record in turn, up to and excluding the first one that fails.
    fn emit(&mut self, rec: &JournalRecord) -> (r: Result<(), Error>)
        ensures
            fanned_out(old(self).sinks@, final(self).sinks@, rec@, r is Ok),
    {
        let n: usize = self.sinks.len();
        let ghost start = *self;
        let mut i: usize = 0;
        while i < n
            invariant
                start == *old(self),
                n == self.sinks@.len() == start.sinks@.len(),
                i <= n,
                self.accepted == start.accepted,
                forall|j: int|
                    0 <= j < i && (#[trigger] start.sinks@[j]).tells() ==> took(
                        start.sinks@[j].log(),
                        self.sinks@[j].log(),
                        rec@,
                        true,
                    ),
                forall|j: int| i <= j < n ==> (#[trigger] self.sinks@[j]) == start.sinks@[j],
                forall|j: int|
                    0 <= j < n ==> (#[trigger] self.sinks@[j]).never_fails()
                        == start.sinks@[j].never_fails(),
            decreases n - i,
        {
            match self.sinks[i].emit(rec) {
                Ok(_) => {},
                Err(e) => {
                    proof {
                        assert(!start.sinks@[i as int].never_fails());
                        assert(!self.sinks@[i as int].never_fails());
                        assert(written_to(start.sinks@, self.sinks@, rec@, i as int));
                    }
                    return Err(e);
                },
            }
            i += 1;
        }
        self.accepted = Ghost(self.accepted@.push(rec@));
        proof {
            assert(written_to(start.sinks@, self.sinks@, rec@, n as int));
            assert(self.never_fails() == start.never_fails()) by {
                if start.never_fails() {
                    assert forall|j: int| 0 <= j < n implies (
                    #[trigger] self.sinks@[j]).never_fails() by {
                        assert(start.sinks@[j].never_fails());
                    }
                }
                if self.never_fails() {
                    assert forall|j: int| 0 <= j < n implies (
                    #[trigger] start.sinks@[j]).never_fails() by {
                        assert(self.sinks@[j].never_fails());
                    }
                }
            }
        }
        Ok(())
    }
}

/// The action that an event says is done with: verified, or skipped.
pub open spec fn finished(event: Event) -> Option<nat> {
    match event {
        Event::ActionVerified { index } => Some(index),
        Event::ActionSkipped { index, .. } => Some(index),
        _ => None,
    }
}

/// The actions that a journal says are done with.
pub open spec fn completed(log: Seq<Event>) -> Set<usize> {
    Set::new(
        |i: usize| exists|k: int| 0 <= k < log.len() && finished(#[trigger] log[k]) == Some(i as nat),
    )
}

/// Indices of actions that completed safely (reached `ActionVerified` or were skipped),
/// so a resumed run can leave them alone.
pub fn completed_actions(records: &[JournalRecord]) -> (r: HashSet<usize>)
    ensures
        r@ == completed(all_views(records@)),
{
    broadcast use vstd::std_specs::hash::group_hash_axioms;

    let ghost log = all_views(records@);
    let mut done: HashSet<usize> = HashSet::new();
    assert(completed(log.take(0)) =~= Set::empty());
    for i in 0..records.len()
        invariant
            log == all_views(records@),
            done@ == completed(log.take(i as int)),
    {
        let found: Option<usize> = match &records[i] {
            JournalRecord::ActionVerified { index } => Some(*index),
            JournalRecord::ActionSkipped { index, .. } => Some(*index),
            _ => None,
        };
        let ghost was = done@;
        if let Some(index) = found {
            done.insert(index);
        }
        proof {
            let some = log.take(i as int);
            let more = log.take(i + 1);
            assert(more =~= some.push(log[i as int]));
            assert forall|x: usize| completed(more).contains(x) <==> done@.contains(x) by {
                if completed(some).contains(x) {
                    let k = choose|k: int|
                        0 <= k < some.len() && finished(#[trigger] some[k]) == Some(x as nat);
                    assert(more[k] == some[k]);
                }
                if completed(more).contains(x) {
                    let k = choose|k: int|
                        0 <= k < more.len() && finished(#[trigger] more[k]) == Some(x as nat);
                    if k < i {
                        assert(some[k] == more[k]);
                    }
                }
                assert(more[i as int] == records@[i as int]@);
            }
            assert(completed(more) =~= done@);
        }
    }
    assert(log.take(records@.len() as int) =~= log);
    done
}

/// The lines of a journal that hold a record: all but the blank ones.
pub open spec fn record_lines_of(contents: Seq<char>) -> Seq<Seq<char>> {
    lines(contents).filter(|l: Seq<char>| trim(l).len() > 0)
}

/// The lines of a journal file that hold a record (blank lines are skipped).
pub fn record_lines(contents: &str) -> (r: Vec<String>)
    ensures
        texts(r@) == record_lines_of(contents@),
{
    broadcast use vstd::seq_lib::group_seq_properties;

    let all = split_lines(&to_chars(contents));
    let ghost ls = lines(contents@);
    let ghost keep = |l: Seq<char>| trim(l).len() > 0;
    let mut r: Vec<String> = Vec::new();
    reveal(Seq::filter);
    assert(texts(r@) =~= ls.take(0).filter(keep));
    for i in 0..all.len()
        invariant
            ls == lines(contents@),
            views(all@) == ls,
            keep == (|l: Seq<char>| trim(l).len() > 0),
            texts(r@) == ls.take(i as int).filter(keep),
    {
        let ghost was = r@;
        assert(ls[i as int] == all@[i as int]@);
        if trimmed(&all[i]).len() > 0 {
            r.push(from_chars(&all[i]));
            assert(texts(r@) =~= texts(was).push(ls[i as int]));
        }
        proof {
            reveal(Seq::filter);
            assert(ls.take(i + 1).drop_last() =~= ls.take(i as int));
        }
    }
    assert(ls.take(all@.len() as int) =~= ls);
    r
}

} // verus!
