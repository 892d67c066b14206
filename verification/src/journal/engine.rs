//! The apply engine: drive a mover over a plan's actions, journaling every step so that
//! an interrupted run can be resumed idempotently.
//!
//! Per action, `ActionBegin` is emitted (and made durable) **before** the move is
//! attempted, then `ActionMoved` and `ActionVerified` after it succeeds. A mover error is
//! recorded (`ActionFailed` and `Fatal`) and stops the run.

use std::collections::HashSet;

use vstd::prelude::*;

use crate::error::{told, Error};
use crate::journal::record::{Event, JournalRecord, RecordSink};
use crate::model::{ActionView, MoveAction, Plan, PlanView};
use crate::mover::{MoveOutcome, Mover};

use crate::text::{clone_opt, opt_text};

verus! {

/// What a run has done.
#[derive(Debug, PartialEq, Eq)]
pub struct ApplyReport {
    pub folders_created: usize,
    pub moved: usize,
    pub skipped: usize,
    pub simulated: usize,
    pub failed: usize,
    /// Set when the run stopped early due to a mover error.
    pub fatal: Option<String>,
}

/// The view of an [`ApplyReport`].
#[verifier::ext_equal]
pub ghost struct ReportView {
    pub folders_created: nat,
    pub moved: nat,
    pub skipped: nat,
    pub simulated: nat,
    pub failed: nat,
    pub fatal: Option<Seq<char>>,
}

impl View for ApplyReport {
    type V = ReportView;

    open spec fn view(&self) -> ReportView {
        ReportView {
            folders_created: self.folders_created as nat,
            moved: self.moved as nat,
            skipped: self.skipped as nat,
            simulated: self.simulated as nat,
            failed: self.failed as nat,
            fatal: opt_text(self.fatal),
        }
    }
}

impl Clone for ApplyReport {
    fn clone(&self) -> (r: ApplyReport)
        ensures
            r@ == self@,
    {
        ApplyReport {
            folders_created: self.folders_created,
            moved: self.moved,
            skipped: self.skipped,
            simulated: self.simulated,
            failed: self.failed,
            fatal: clone_opt(&self.fatal),
        }
    }
}

impl Default for ApplyReport {
    fn default() -> (r: ApplyReport)
        ensures
            r@ == (ReportView {
                folders_created: 0,
                moved: 0,
                skipped: 0,
                simulated: 0,
                failed: 0,
                fatal: None,
            }),
    {
        ApplyReport {
            folders_created: 0,
            moved: 0,
            skipped: 0,
            simulated: 0,
            failed: 0,
            fatal: None,
        }
    }
}

impl ApplyReport {
    /// Whether the run went through without a failure.
    pub fn ok(&self) -> (r: bool)
        ensures
            r == (self@.fatal is None && self@.failed == 0),
    {
        self.fatal.is_none() && self.failed == 0
    }
}

// ---- what a run is ----

/// What was done about one action: it was left alone because an earlier run had finished
/// it, or the mover was asked to move the message and answered.
pub ghost enum Step {
    Resumed,
    Ran(Result<MoveOutcome, Seq<char>>),
}

/// The announcement of an action.
pub open spec fn begin(index: nat, action: ActionView) -> Event {
    Event::ActionBegin {
        index,
        message_id: action.message_id,
        src_folder: action.src_folder,
        uid: action.uid,
        dst: action.dst_dotpath,
    }
}

/// The records that the journal gets for one step.
pub open spec fn step_events(index: nat, action: ActionView, step: Step) -> Seq<Event> {
    match step {
        Step::Resumed => seq![
            Event::ActionSkipped { index, reason: "already done (resume)"@ },
        ],
        Step::Ran(Ok(MoveOutcome::Moved)) => seq![
            begin(index, action),
            Event::ActionMoved { index, outcome: "moved"@ },
            Event::ActionVerified { index },
        ],
        Step::Ran(Ok(MoveOutcome::Simulated)) => seq![
            begin(index, action),
            Event::ActionMoved { index, outcome: "simulated"@ },
        ],
        Step::Ran(Ok(MoveOutcome::AlreadyDone)) => seq![
            begin(index, action),
            Event::ActionSkipped { index, reason: "already at destination"@ },
        ],
        Step::Ran(Err(error)) => seq![
            begin(index, action),
            Event::ActionFailed { index, error },
            Event::Fatal { error },
        ],
    }
}

/// The records for the first `steps.len()` actions.
pub open spec fn action_events(actions: Seq<ActionView>, steps: Seq<Step>) -> Seq<Event>
    decreases steps.len(),
{
    if steps.len() == 0 {
        Seq::empty()
    } else {
        action_events(actions, steps.drop_last()) + step_events(
            (steps.len() - 1) as nat,
            actions[steps.len() - 1],
            steps.last(),
        )
    }
}

/// The records up to the first action, with `n` folders ensured.
pub open spec fn opening_events(plan: PlanView, n: int) -> Seq<Event> {
    seq![Event::PlanLoaded { plan_id: plan.plan_id, actions: plan.actions.len() }] + Seq::new(
        n as nat,
        |i: int| Event::FolderEnsured { dotpath: plan.folders[i].dotpath },
    )
}

/// How many steps satisfy `p`.
pub open spec fn tally(steps: Seq<Step>, p: spec_fn(Step) -> bool) -> nat
    decreases steps.len(),
{
    if steps.len() == 0 {
        0
    } else {
        tally(steps.drop_last(), p) + if p(steps.last()) {
            1nat
        } else {
            0
        }
    }
}

/// The step moved its message.
pub open spec fn was_moved() -> spec_fn(Step) -> bool {
    |s: Step| s == Step::Ran(Ok(MoveOutcome::Moved))
}

/// The step left its message alone, resumed or found at its destination.
pub open spec fn was_skipped() -> spec_fn(Step) -> bool {
    |s: Step| s == Step::Resumed || s == Step::Ran(Ok(MoveOutcome::AlreadyDone))
}

/// The step was simulated.
pub open spec fn was_simulated() -> spec_fn(Step) -> bool {
    |s: Step| s == Step::Ran(Ok(MoveOutcome::Simulated))
}

/// The step failed.
pub open spec fn was_failed() -> spec_fn(Step) -> bool {
    |s: Step| s matches Step::Ran(Err(_))
}

/// A run of the engine: the mover after each folder, the mover after each action, and
/// what was done about each action. Each list of movers starts with the mover as it was
/// before the first of them.
pub ghost struct Run<M> {
    pub folders: Seq<M>,
    pub states: Seq<M>,
    pub steps: Seq<Step>,
}

impl<M: Mover> Run<M> {
    /// Folder `i` was ensured.
    pub open spec fn folder_ok(self, plan: PlanView, i: int) -> bool {
        M::folder_step(
            self.folders[i],
            plan.folders[i],
            self.folders[i + 1],
            Ok::<(), Seq<char>>(()),
        )
    }

    /// Action `i` was left alone if it was done already, else handed to the mover. A
    /// failure ends the run.
    pub open spec fn step_ok(self, plan: PlanView, done: Set<usize>, i: int) -> bool {
        match self.steps[i] {
            Step::Resumed => done.contains(i as usize) && self.states[i + 1] == self.states[i],
            Step::Ran(r) => {
                &&& !done.contains(i as usize)
                &&& M::move_step(self.states[i], plan.actions[i], self.states[i + 1], r)
                &&& r is Err ==> i == self.steps.len() - 1
            },
        }
    }

    /// This is a run of `plan` from `start`, perhaps cut short: folders in order, then,
    /// all of them ensured, actions in order.
    pub open spec fn valid(self, plan: PlanView, done: Set<usize>, start: M) -> bool {
        &&& 1 <= self.folders.len() <= plan.folders.len() + 1
        &&& self.folders[0] == start
        &&& forall|i: int| 0 <= i < self.folders.len() - 1 ==> #[trigger] self.folder_ok(plan, i)
        &&& self.states.len() == self.steps.len() + 1
        &&& self.states[0] == self.folders.last()
        &&& self.steps.len() <= plan.actions.len()
        &&& self.steps.len() > 0 ==> self.folders.len() == plan.folders.len() + 1
        &&& forall|i: int| 0 <= i < self.steps.len() ==> #[trigger] self.step_ok(plan, done, i)
    }

    /// The mover at the end.
    pub open spec fn end(self) -> M {
        self.states.last()
    }

    /// The last action failed.
    pub open spec fn failed(self) -> bool {
        self.steps.len() > 0 && (self.steps.last() matches Step::Ran(Err(_)))
    }

    /// Every folder was ensured and every action dealt with, without a failure.
    pub open spec fn complete(self, plan: PlanView) -> bool {
        &&& self.folders.len() == plan.folders.len() + 1
        &&& self.steps.len() == plan.actions.len()
        &&& !self.failed()
    }

    /// The journal of the run.
    pub open spec fn events(self, plan: PlanView) -> Seq<Event> {
        opening_events(plan, self.folders.len() - 1) + action_events(plan.actions, self.steps)
    }

    /// How much of the journal is there at the least, whatever happens to the rest: every
    /// record up to the last mutation, and the announcement of that one if it is a move.
    pub open spec fn announced(self, plan: PlanView) -> int {
        if self.steps.len() > 0 {
            opening_events(plan, self.folders.len() - 1).len() + action_events(
                plan.actions,
                self.steps.drop_last(),
            ).len() + if self.steps.last() is Ran {
                1int
            } else {
                0
            }
        } else {
            self.folders.len() - 1
        }
    }

    /// The announcement that comes next, if the next thing to do is a move.
    pub open spec fn upcoming(self, plan: PlanView, done: Set<usize>) -> Seq<Event> {
        let n = self.steps.len();
        if self.folders.len() == plan.folders.len() + 1 && n < plan.actions.len()
            && !self.failed() && !done.contains(n as usize) {
            seq![begin(n, plan.actions[n as int])]
        } else {
            Seq::empty()
        }
    }

    /// What the run has done.
    pub open spec fn report(self) -> ReportView {
        ReportView {
            folders_created: (self.folders.len() - 1) as nat,
            moved: tally(self.steps, was_moved()),
            skipped: tally(self.steps, was_skipped()),
            simulated: tally(self.steps, was_simulated()),
            failed: tally(self.steps, was_failed()),
            fatal: if self.failed() {
                Some(self.steps.last()->Ran_0->Err_0)
            } else {
                None
            },
        }
    }
}

/// The records after the last action of a run that went through.
pub open spec fn closing_events(report: ReportView) -> Seq<Event> {
    seq![
        Event::Reconciled,
        Event::Done {
            moved: report.moved,
            skipped: report.skipped,
            simulated: report.simulated,
            failed: report.failed,
        },
    ]
}

/// A result with views in place of the report and the error.
pub open spec fn reported(r: Result<ApplyReport, Error>) -> Result<ReportView, Seq<char>> {
    match r {
        Ok(report) => Ok(report@),
        Err(e) => Err(e@),
    }
}

/// The run explains how `apply_plan` ended: the mover went from `start` to `end`, `added`
/// is what the journal gained, `sure` says that the journal cannot fail, and `r` is the
/// result.
///
/// - A run that went through was reconciled, and its journal is closed.
/// - A mover that failed to move a message ends the run, which is reported as fatal and
///   not reconciled.
/// - A mover that failed to ensure a folder, or to reconcile, gives its own error.
/// - Any other error is the journal's. Every move that was attempted stands announced, and
///   at most one more.
pub open spec fn explains<M: Mover>(
    run: Run<M>,
    plan: PlanView,
    done: Set<usize>,
    start: M,
    end: M,
    added: Seq<Event>,
    sure: bool,
    r: Result<ReportView, Seq<char>>,
) -> bool {
    &&& run.valid(plan, done, start)
    &&& match r {
        Ok(report) => {
            &&& report == run.report()
            &&& if run.failed() {
                end == run.end() && added == run.events(plan)
            } else {
                &&& run.complete(plan)
                &&& M::reconcile_step(run.end(), end, Ok::<(), Seq<char>>(()))
                &&& added == run.events(plan) + closing_events(report)
            }
        },
        Err(e) => {
            ||| {
                &&& run.steps.len() == 0
                &&& run.folders.len() <= plan.folders.len()
                &&& M::folder_step(
                    run.end(),
                    plan.folders[run.folders.len() - 1],
                    end,
                    Err::<(), Seq<char>>(e),
                )
                &&& added == run.events(plan)
            }
            ||| {
                &&& run.complete(plan)
                &&& M::reconcile_step(run.end(), end, Err::<(), Seq<char>>(e))
                &&& added == run.events(plan)
            }
            ||| {
                &&& !sure
                &&& end == run.end()
                &&& run.announced(plan) <= added.len()
                &&& added.is_prefix_of(run.events(plan) + run.upcoming(plan, done))
            }
            ||| {
                &&& !sure
                &&& run.complete(plan)
                &&& M::reconcile_step(run.end(), end, Ok::<(), Seq<char>>(()))
                &&& run.events(plan).is_prefix_of(added)
                &&& added.is_prefix_of(run.events(plan) + closing_events(run.report()))
            }
        },
    }
}

/// One more step of a run.
proof fn lemma_extend<M: Mover>(
    run: Run<M>,
    next: Run<M>,
    plan: PlanView,
    done: Set<usize>,
    start: M,
    step: Step,
    state: M,
)
    requires
        run.valid(plan, done, start),
        !run.failed(),
        run.folders.len() == plan.folders.len() + 1,
        run.steps.len() < plan.actions.len(),
        next == (Run {
            folders: run.folders,
            states: run.states.push(state),
            steps: run.steps.push(step),
        }),
        match step {
            Step::Resumed => done.contains(run.steps.len() as usize) && state == run.end(),
            Step::Ran(r) => !done.contains(run.steps.len() as usize) && M::move_step(
                run.end(),
                plan.actions[run.steps.len() as int],
                state,
                r,
            ),
        },
    ensures
        next.valid(plan, done, start),
        next.end() == state,
        next.events(plan) == run.events(plan) + step_events(
            run.steps.len(),
            plan.actions[run.steps.len() as int],
            step,
        ),
        next.announced(plan) == run.events(plan).len() + if step is Ran {
            1int
        } else {
            0
        },
        tally(next.steps, was_moved()) == tally(run.steps, was_moved()) + if was_moved()(step) {
            1nat
        } else {
            0
        },
        tally(next.steps, was_skipped()) == tally(run.steps, was_skipped()) + if was_skipped()(
            step,
        ) {
            1nat
        } else {
            0
        },
        tally(next.steps, was_simulated()) == tally(run.steps, was_simulated())
            + if was_simulated()(step) {
            1nat
        } else {
            0
        },
        tally(next.steps, was_failed()) == tally(run.steps, was_failed()) + if was_failed()(step) {
            1nat
        } else {
            0
        },
{
    let n = run.steps.len() as int;
    assert(next.steps.drop_last() =~= run.steps);
    assert forall|i: int| 0 <= i < next.folders.len() - 1 implies #[trigger] next.folder_ok(
        plan,
        i,
    ) by {
        assert(run.folder_ok(plan, i));
    }
    assert forall|i: int| 0 <= i < next.steps.len() implies #[trigger] next.step_ok(
        plan,
        done,
        i,
    ) by {
        if i < n {
            assert(run.step_ok(plan, done, i));
            assert(next.steps[i] == run.steps[i]);
            assert(next.states[i] == run.states[i]);
            assert(next.states[i + 1] == run.states[i + 1]);
            if i == n - 1 {
                assert(run.steps.last() == run.steps[i]);
            }
        } else {
            assert(next.states[n] == run.end());
        }
    }
    assert(next.events(plan) =~= run.events(plan) + step_events(
        n as nat,
        plan.actions[n],
        step,
    ));
}

/// Counts of disjoint kinds of steps do not exceed the number of steps.
proof fn lemma_tally(steps: Seq<Step>)
    ensures
        tally(steps, was_moved()) + tally(steps, was_skipped()) + tally(steps, was_simulated())
            + tally(steps, was_failed()) <= steps.len(),
    decreases steps.len(),
{
    if steps.len() > 0 {
        lemma_tally(steps.drop_last());
    }
}

/// An action was handed to the mover, which answered, and `part` is what of the records
/// about it is in the journal: the announcement at the least.
spec fn attempted<M: Mover>(
    pre: M,
    index: nat,
    action: ActionView,
    post: M,
    answer: Result<MoveOutcome, Seq<char>>,
    part: Seq<Event>,
) -> bool {
    &&& M::move_step(pre, action, post, answer)
    &&& part.len() > 0
    &&& part.is_prefix_of(step_events(index, action, Step::Ran(answer)))
}

/// Write a record behind those that were `added` to a journal that held `log`.
fn append<S: RecordSink + ?Sized>(
    sink: &mut S,
    rec: &JournalRecord,
    Ghost(log): Ghost<Seq<Event>>,
    Ghost(added): Ghost<Seq<Event>>,
) -> (r: Result<(), Error>)
    requires
        old(sink).tells() ==> old(sink).log() == log + added,
    ensures
        final(sink).tells() == old(sink).tells(),
        final(sink).never_fails() == old(sink).never_fails(),
        match r {
            Ok(_) => final(sink).tells() ==> final(sink).log() == log + added.push(rec@),
            Err(_) => {
                &&& !old(sink).never_fails()
                &&& final(sink).tells() ==> final(sink).log() == log + added || final(sink).log()
                    == log + added.push(rec@)
            },
        },
{
    let r = sink.emit(rec);
    assert((log + added).push(rec@) =~= log + added.push(rec@));
    r
}

/// Announce one action, have it moved, and record how that went, behind the records that
/// were `added` to a journal that held `log`.
///
/// `Ok` holds the mover's answer. `Err` is an error of the journal: either the mover was
/// not asked and is untouched, or the action was announced and attempted.
fn perform<M: Mover, S: RecordSink + ?Sized>(
    index: usize,
    action: &MoveAction,
    mover: &mut M,
    sink: &mut S,
    Ghost(log): Ghost<Seq<Event>>,
    Ghost(added): Ghost<Seq<Event>>,
) -> (r: Result<Result<MoveOutcome, Error>, Error>)
    requires
        old(sink).tells() ==> old(sink).log() == log + added,
    ensures
        final(sink).tells() == old(sink).tells(),
        final(sink).never_fails() == old(sink).never_fails(),
        match r {
            Ok(answer) => {
                &&& M::move_step(*old(mover), action@, *final(mover), told(answer))
                &&& final(sink).tells() ==> final(sink).log() == log + (added + step_events(
                    index as nat,
                    action@,
                    Step::Ran(told(answer)),
                ))
            },
            Err(_) => {
                &&& !old(sink).never_fails()
                &&& {
                    ||| {
                        &&& *final(mover) == *old(mover)
                        &&& final(sink).tells() ==> {
                            ||| final(sink).log() == log + added
                            ||| final(sink).log() == log + added.push(
                                begin(index as nat, action@),
                            )
                        }
                    }
                    ||| exists|answer: Result<MoveOutcome, Seq<char>>, part: Seq<Event>|
                        {
                            &&& #[trigger] attempted(
                                *old(mover),
                                index as nat,
                                action@,
                                *final(mover),
                                answer,
                                part,
                            )
                            &&& final(sink).tells() ==> final(sink).log() == log + (added + part)
                        }
                }
            },
        },
{
    // Announce intent and make it durable *before* mutating anything.
    let announcement = JournalRecord::ActionBegin {
        index,
        message_id: clone_opt(&action.message_id),
        src_folder: action.src_folder.clone(),
        uid: action.uid,
        dst: action.dst_dotpath.clone(),
    };
    match append(sink, &announcement, Ghost(log), Ghost(added)) {
        Ok(_) => {},
        Err(e) => {
            return Err(e);
        },
    }
    let answer = mover.move_message(action);
    let (first, second) = match &answer {
        Ok(MoveOutcome::Moved) => (
            JournalRecord::ActionMoved { index, outcome: "moved".to_string() },
            Some(JournalRecord::ActionVerified { index }),
        ),
        Ok(MoveOutcome::Simulated) => (
            JournalRecord::ActionMoved { index, outcome: "simulated".to_string() },
            None,
        ),
        Ok(MoveOutcome::AlreadyDone) => (
            JournalRecord::ActionSkipped { index, reason: "already at destination".to_string() },
            None,
        ),
        Err(e) => (
            JournalRecord::ActionFailed { index, error: e.to_string() },
            Some(JournalRecord::Fatal { error: e.to_string() }),
        ),
    };
    let ghost part = seq![announcement@, first@];
    proof {
        let one = part.take(1);
        assert(added.push(announcement@) =~= added + one);
        assert((added + one).push(first@) =~= added + part);
        assert(attempted(*old(mover), index as nat, action@, *mover, told(answer), one));
        assert(attempted(*old(mover), index as nat, action@, *mover, told(answer), part));
    }
    match append(sink, &first, Ghost(log), Ghost(added + part.take(1))) {
        Ok(_) => {},
        Err(e) => {
            return Err(e);
        },
    }
    if let Some(record) = second {
        let ghost all = part.push(record@);
        proof {
            assert((added + part).push(record@) =~= added + all);
            assert(attempted(*old(mover), index as nat, action@, *mover, told(answer), all));
        }
        match append(sink, &record, Ghost(log), Ghost(added + part)) {
            Ok(_) => {},
            Err(e) => {
                return Err(e);
            },
        }
        assert(all =~= step_events(index as nat, action@, Step::Ran(told(answer))));
    } else {
        assert(part =~= step_events(index as nat, action@, Step::Ran(told(answer))));
    }
    Ok(answer)
}

/// Apply `plan` using `mover`, emitting journal records to `sink`. Actions whose index is
/// in `already_done` (from replaying a prior journal) are skipped, making resume safe.
#[verifier::rlimit(60)]
pub fn apply_plan<M: Mover, S: RecordSink + ?Sized>(
    plan: &Plan,
    mover: &mut M,
    sink: &mut S,
    already_done: &HashSet<usize>,
) -> (r: Result<ApplyReport, Error>)
    ensures
        final(sink).tells() == old(sink).tells(),
        final(sink).never_fails() == old(sink).never_fails(),
        exists|run: Run<M>, added: Seq<Event>|
            {
                &&& #[trigger] explains(
                    run,
                    plan@,
                    already_done@,
                    *old(mover),
                    *final(mover),
                    added,
                    old(sink).never_fails(),
                    reported(r),
                )
                &&& old(sink).tells() ==> final(sink).log() == old(sink).log() + added
            },
{
    broadcast use vstd::std_specs::hash::group_hash_axioms;

    let ghost start = *mover;
    let ghost done = already_done@;
    let ghost log = sink.log();
    let ghost sure = sink.never_fails();
    let mut report = ApplyReport::default();
    let ghost mut run: Run<M> = Run { folders: seq![start], states: seq![start], steps: Seq::empty() };
    proof {
        assert(run.events(plan@) =~= opening_events(plan@, 0));
        assert(run.valid(plan@, done, start));
        assert(log + Seq::<Event>::empty() =~= log);
    }

    let loaded = JournalRecord::PlanLoaded {
        plan_id: plan.plan_id.clone(),
        actions: plan.actions.len(),
    };
    assert(Seq::<Event>::empty().push(loaded@) =~= run.events(plan@));
    match append(sink, &loaded, Ghost(log), Ghost(Seq::empty())) {
        Ok(_) => {},
        Err(e) => {
            proof {
                let none = Seq::<Event>::empty();
                lemma_stopped(run, plan@, done, start, none, run.events(plan@), e@);
                lemma_stopped(run, plan@, done, start, none, none, e@);
            }
            return Err(e);
        },
    }

    for i in 0..plan.folders_to_create.len()
        invariant
            log == old(sink).log(),
            start == *old(mover),
            done == already_done@,
            sure == old(sink).never_fails(),
            sink.never_fails() == sure,
            sink.tells() == old(sink).tells(),
            run.valid(plan@, done, start),
            run.folders.len() == i + 1,
            run.steps.len() == 0,
            *mover == run.end(),
            sink.tells() ==> sink.log() == log + run.events(plan@),
            report@ == run.report(),
    {
        let spec = &plan.folders_to_create[i];
        let ghost before = run;
        match mover.ensure_folder(spec) {
            Ok(_) => {},
            Err(e) => {
                proof {
                    assert(plan@.folders[i as int] == spec@);
                    assert(explains(
                        run,
                        plan@,
                        done,
                        start,
                        *mover,
                        run.events(plan@),
                        sure,
                        Err(e@),
                    ));
                }
                return Err(e);
            },
        }
        report.folders_created += 1;
        let ensured = JournalRecord::FolderEnsured { dotpath: spec.dotpath.clone() };
        proof {
            run =
            Run { folders: before.folders.push(*mover), states: seq![*mover], steps: Seq::empty() };
            assert(plan@.folders[i as int] == spec@);
            assert forall|k: int| 0 <= k < run.folders.len() - 1 implies #[trigger] run.folder_ok(
                plan@,
                k,
            ) by {
                if k < i {
                    assert(before.folder_ok(plan@, k));
                    assert(run.folders[k] == before.folders[k]);
                    assert(run.folders[k + 1] == before.folders[k + 1]);
                } else {
                    assert(before.folders.last() == before.end());
                }
            }
            assert(run.events(plan@) =~= before.events(plan@).push(ensured@));
        }
        match append(sink, &ensured, Ghost(log), Ghost(before.events(plan@))) {
            Ok(_) => {},
            Err(e) => {
                proof {
                    let some = before.events(plan@);
                    lemma_stopped(run, plan@, done, start, some, run.events(plan@), e@);
                    lemma_stopped(run, plan@, done, start, some, some, e@);
                }
                return Err(e);
            },
        }
    }

    for index in 0..plan.actions.len()
        invariant
            log == old(sink).log(),
            start == *old(mover),
            done == already_done@,
            sure == old(sink).never_fails(),
            sink.never_fails() == sure,
            sink.tells() == old(sink).tells(),
            run.valid(plan@, done, start),
            run.folders.len() == plan@.folders.len() + 1,
            run.steps.len() == index,
            !run.failed(),
            *mover == run.end(),
            sink.tells() ==> sink.log() == log + run.events(plan@),
            report@ == run.report(),
    {
        broadcast use vstd::std_specs::hash::group_hash_axioms;

        let action = &plan.actions[index];
        let ghost before = run;
        let ghost some = before.events(plan@);
        proof {
            assert(plan@.actions[index as int] == action@);
            lemma_tally(before.steps);
        }
        if already_done.contains(&index) {
            report.skipped += 1;
            let skipped = JournalRecord::ActionSkipped {
                index,
                reason: "already done (resume)".to_string(),
            };
            proof {
                run =
                Run {
                    folders: before.folders,
                    states: before.states.push(*mover),
                    steps: before.steps.push(Step::Resumed),
                };
                lemma_extend(before, run, plan@, done, start, Step::Resumed, *mover);
                assert(run.events(plan@) =~= some.push(skipped@));
            }
            match append(sink, &skipped, Ghost(log), Ghost(some)) {
                Ok(_) => {},
                Err(e) => {
                    proof {
                        lemma_stopped(run, plan@, done, start, some, run.events(plan@), e@);
                        lemma_stopped(run, plan@, done, start, some, some, e@);
                    }
                    return Err(e);
                },
            }
        } else {
            let ghost was = *mover;
            match perform(index, action, mover, sink, Ghost(log), Ghost(some)) {
                Err(e) => {
                    proof {
                        let next = begin(index as nat, action@);
                        if *mover == was && (sink.tells() ==> sink.log() == log + some
                            || sink.log() == log + some.push(next)) {
                            lemma_announced(before, plan@);
                            assert(some.push(next) =~= some + before.upcoming(plan@, done));
                            lemma_stopped(before, plan@, done, start, some, some, e@);
                            lemma_stopped(before, plan@, done, start, some, some.push(next), e@);
                        } else {
                            let (answer, part) = choose|
                                answer: Result<MoveOutcome, Seq<char>>,
                                part: Seq<Event>,
                            |
                                {
                                    &&& #[trigger] attempted(
                                        was,
                                        index as nat,
                                        action@,
                                        *mover,
                                        answer,
                                        part,
                                    )
                                    &&& sink.tells() ==> sink.log() == log + (some + part)
                                };
                            let step = Step::Ran(answer);
                            run =
                            Run {
                                folders: before.folders,
                                states: before.states.push(*mover),
                                steps: before.steps.push(step),
                            };
                            lemma_extend(before, run, plan@, done, start, step, *mover);
                            let added = some + part;
                            assert(added.is_prefix_of(run.events(plan@)));
                            lemma_stopped(run, plan@, done, start, added, added, e@);
                        }
                    }
                    return Err(e);
                },
                Ok(answer) => {
                    proof {
                        let step = Step::Ran(told(answer));
                        run =
                        Run {
                            folders: before.folders,
                            states: before.states.push(*mover),
                            steps: before.steps.push(step),
                        };
                        lemma_extend(before, run, plan@, done, start, step, *mover);
                    }
                    match answer {
                        Ok(MoveOutcome::Moved) => {
                            report.moved += 1;
                        },
                        Ok(MoveOutcome::Simulated) => {
                            report.simulated += 1;
                        },
                        Ok(MoveOutcome::AlreadyDone) => {
                            report.skipped += 1;
                        },
                        Err(e) => {
                            report.failed += 1;
                            report.fatal = Some(e.to_string());
                            proof {
                                assert(report@ =~= run.report());
                                assert(explains(
                                    run,
                                    plan@,
                                    done,
                                    start,
                                    *mover,
                                    run.events(plan@),
                                    sure,
                                    Ok(report@),
                                ));
                            }
                            return Ok(report);
                        },
                    }
                    assert(report@ =~= run.report());
                },
            }
        }
    }

    let ghost all = run.events(plan@);
    let ghost closing = closing_events(report@);
    match mover.reconcile() {
        Ok(_) => {},
        Err(e) => {
            assert(explains(run, plan@, done, start, *mover, all, sure, Err(e@)));
            return Err(e);
        },
    }
    let ghost one = all.push(Event::Reconciled);
    assert(one.is_prefix_of(all + closing));
    match append(sink, &JournalRecord::Reconciled, Ghost(log), Ghost(all)) {
        Ok(_) => {},
        Err(e) => {
            proof {
                assert(explains(run, plan@, done, start, *mover, all, sure, Err(e@)));
                assert(explains(run, plan@, done, start, *mover, one, sure, Err(e@)));
            }
            return Err(e);
        },
    }
    let finished = JournalRecord::Done {
        moved: report.moved,
        skipped: report.skipped,
        simulated: report.simulated,
        failed: report.failed,
    };
    assert(one.push(finished@) =~= all + closing);
    match append(sink, &finished, Ghost(log), Ghost(one)) {
        Ok(_) => {},
        Err(e) => {
            proof {
                assert(explains(run, plan@, done, start, *mover, one, sure, Err(e@)));
                assert(explains(run, plan@, done, start, *mover, all + closing, sure, Err(e@)));
            }
            return Err(e);
        },
    }
    assert(explains(run, plan@, done, start, *mover, all + closing, sure, Ok(report@)));
    Ok(report)
}

/// A run that the journal cut short.
proof fn lemma_stopped<M: Mover>(
    run: Run<M>,
    plan: PlanView,
    done: Set<usize>,
    start: M,
    least: Seq<Event>,
    added: Seq<Event>,
    e: Seq<char>,
)
    requires
        run.valid(plan, done, start),
        run.announced(plan) <= least.len(),
        least.is_prefix_of(added),
        added.is_prefix_of(run.events(plan)) || added == run.events(plan) + run.upcoming(
            plan,
            done,
        ),
    ensures
        explains(run, plan, done, start, run.end(), added, false, Err(e)),
{
}

/// What is announced at the least is no more than the whole journal.
pub proof fn lemma_announced<M: Mover>(run: Run<M>, plan: PlanView)
    requires
        run.folders.len() >= 1,
    ensures
        run.announced(plan) <= run.events(plan).len(),
{
    if run.steps.len() > 0 {
        let n = run.steps.len() as int;
        assert(step_events((n - 1) as nat, plan.actions[n - 1], run.steps.last()).len() >= 1);
    }
}

} // verus!
