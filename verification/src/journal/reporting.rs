//! What a journal and a report are for: they tell what was done, and a journal that is read
//! again tells what need not be done.

use vstd::prelude::*;

use crate::journal::engine::{
    action_events, begin, closing_events, explains, opening_events, step_events, tally, was_failed,
    was_moved, was_simulated, was_skipped, ReportView, Run, Step,
};
use crate::journal::record::{
    completed, fanned_out, finished, record_lines_of, written_to, Event, RecordSink,
};
use crate::journal::verify::{is_census, once_each};
use crate::model::{ActionView, PlanView};
use crate::mover::{all_ids, id_before, FakeMsgView, MoveOutcome, Mover};
use crate::text::laws::law_lines;
use crate::text::{lines, trim};

verus! {

// ---- reports ----

/// The message was moved.
pub open spec fn moved() -> spec_fn(Step) -> bool {
    |s: Step| s == Step::Ran(Ok(MoveOutcome::Moved))
}

/// The action was left alone, or found done.
pub open spec fn skipped() -> spec_fn(Step) -> bool {
    |s: Step| s == Step::Resumed || s == Step::Ran(Ok(MoveOutcome::AlreadyDone))
}

/// The move was only simulated.
pub open spec fn simulated() -> spec_fn(Step) -> bool {
    |s: Step| s == Step::Ran(Ok(MoveOutcome::Simulated))
}

/// The move failed.
pub open spec fn failed() -> spec_fn(Step) -> bool {
    |s: Step| s matches Step::Ran(Err(_))
}

proof fn lemma_tally_filter(steps: Seq<Step>, p: spec_fn(Step) -> bool, q: spec_fn(Step) -> bool)
    requires
        forall|s: Step| #[trigger] p(s) == q(s),
    ensures
        tally(steps, p) == steps.filter(q).len(),
    decreases steps.len(),
{
    reveal(Seq::filter);
    if steps.len() > 0 {
        lemma_tally_filter(steps.drop_last(), p, q);
    }
}

proof fn lemma_parts_add_up(steps: Seq<Step>)
    ensures
        tally(steps, was_moved()) + tally(steps, was_skipped()) + tally(steps, was_simulated())
            + tally(steps, was_failed()) == steps.len(),
    decreases steps.len(),
{
    if steps.len() > 0 {
        lemma_parts_add_up(steps.drop_last());
        match steps.last() {
            Step::Resumed => {},
            Step::Ran(Ok(MoveOutcome::Moved)) => {},
            Step::Ran(Ok(MoveOutcome::Simulated)) => {},
            Step::Ran(Ok(MoveOutcome::AlreadyDone)) => {},
            Step::Ran(Err(_)) => {},
        }
    }
}

/// A report counts what was done: each kind of step, and the folders. Every step counts
/// once. A failure is reported as fatal, with the mover's error.
pub proof fn law_report_counts<M: Mover>(run: Run<M>)
    ensures
        run.report().moved == run.steps.filter(moved()).len(),
        run.report().skipped == run.steps.filter(skipped()).len(),
        run.report().simulated == run.steps.filter(simulated()).len(),
        run.report().failed == run.steps.filter(failed()).len(),
        run.report().moved + run.report().skipped + run.report().simulated + run.report().failed
            == run.steps.len(),
        run.folders.len() > 0 ==> run.report().folders_created == run.folders.len() - 1,
        match run.report().fatal {
            Some(error) => run.steps.len() > 0 && run.steps.last() == Step::Ran(Err(error)),
            None => run.steps.len() > 0 ==> !(run.steps.last() matches Step::Ran(Err(_))),
        },
{
    lemma_tally_filter(run.steps, was_moved(), moved());
    lemma_tally_filter(run.steps, was_skipped(), skipped());
    lemma_tally_filter(run.steps, was_simulated(), simulated());
    lemma_tally_filter(run.steps, was_failed(), failed());
    lemma_parts_add_up(run.steps);
}

/// What `Ok` means: every folder was ensured; and either a move failed, after which nothing
/// was tried, or every action was dealt with and the mover was reconciled. An action that
/// was done already was left alone, any other was handed to the mover, in order.
pub proof fn law_ok_means_dealt_with<M: Mover>(
    run: Run<M>,
    plan: PlanView,
    done: Set<usize>,
    start: M,
    end: M,
    added: Seq<Event>,
    sure: bool,
    report: ReportView,
)
    requires
        explains(run, plan, done, start, end, added, sure, Ok(report)),
    ensures
        run.folders[0] == start,
        report.folders_created == plan.folders.len(),
        forall|i: int|
            0 <= i < plan.folders.len() ==> #[trigger] M::folder_step(
                run.folders[i],
                plan.folders[i],
                run.folders[i + 1],
                Ok(()),
            ),
        run.states[0] == run.folders[plan.folders.len() as int],
        forall|i: int|
            #![trigger run.steps[i]]
            0 <= i < run.steps.len() ==> if done.contains(i as usize) {
                run.steps[i] == Step::Resumed && run.states[i + 1] == run.states[i]
            } else {
                run.steps[i] matches Step::Ran(answer) && M::move_step(
                    run.states[i],
                    plan.actions[i],
                    run.states[i + 1],
                    answer,
                ) && (answer is Err ==> i == run.steps.len() - 1)
            },
        report.fatal is None ==> {
            &&& run.steps.len() == plan.actions.len()
            &&& M::reconcile_step(run.states[plan.actions.len() as int], end, Ok(()))
            &&& report.moved + report.skipped + report.simulated == plan.actions.len()
        },
        report.fatal is Some ==> end == run.states[run.steps.len() as int],
{
    law_report_counts(run);
    assert forall|i: int| 0 <= i < plan.folders.len() implies #[trigger] M::folder_step(
        run.folders[i],
        plan.folders[i],
        run.folders[i + 1],
        Ok(()),
    ) by {
        assert(run.folder_ok(plan, i));
    }
    assert forall|i: int|
        #![trigger run.steps[i]]
        0 <= i < run.steps.len() implies if done.contains(i as usize) {
        run.steps[i] == Step::Resumed && run.states[i + 1] == run.states[i]
    } else {
        run.steps[i] matches Step::Ran(answer) && M::move_step(
            run.states[i],
            plan.actions[i],
            run.states[i + 1],
            answer,
        ) && (answer is Err ==> i == run.steps.len() - 1)
    } by {
        assert(run.step_ok(plan, done, i));
    }
    if report.fatal is None {
        lemma_no_failure(run, plan, done, start);
    }
}

proof fn lemma_no_failure<M: Mover>(run: Run<M>, plan: PlanView, done: Set<usize>, start: M)
    requires
        run.valid(plan, done, start),
        !run.failed(),
    ensures
        tally(run.steps, was_failed()) == 0,
{
    assert forall|i: int| 0 <= i < run.steps.len() implies !was_failed()(
        #[trigger] run.steps[i],
    ) by {
        assert(run.step_ok(plan, done, i));
        assert(run.steps.last() == run.steps[run.steps.len() - 1]);
    }
    lemma_tally_none(run.steps, was_failed());
}

proof fn lemma_tally_none(steps: Seq<Step>, p: spec_fn(Step) -> bool)
    requires
        forall|i: int| 0 <= i < steps.len() ==> !p(#[trigger] steps[i]),
    ensures
        tally(steps, p) == 0,
    decreases steps.len(),
{
    if steps.len() > 0 {
        let less = steps.drop_last();
        assert forall|i: int| 0 <= i < less.len() implies !p(#[trigger] less[i]) by {
            assert(less[i] == steps[i]);
        }
        lemma_tally_none(less, p);
        assert(steps.last() == steps[steps.len() - 1]);
    }
}

// ---- journals ----

/// What an announcement says: which message, from where, to where.
pub proof fn law_announcement(index: nat, action: ActionView)
    ensures
        begin(index, action) == (Event::ActionBegin {
            index,
            message_id: action.message_id,
            src_folder: action.src_folder,
            uid: action.uid,
            dst: action.dst_dotpath,
        }),
{
}

/// What the journal says of a step: an action that was left alone is skipped; any other is
/// announced first, and then told to be moved and verified, simulated, skipped because it
/// was done, or failed with the mover's error.
pub proof fn law_step_told(index: nat, action: ActionView, step: Step)
    ensures
        ({
            let told = step_events(index, action, step);
            match step {
                Step::Resumed => told.len() == 1 && (told[0] matches Event::ActionSkipped {
                    index: i,
                    ..
                } && i == index),
                Step::Ran(answer) => {
                    &&& told.len() > 1
                    &&& told[0] == begin(index, action)
                    &&& match answer {
                        Ok(MoveOutcome::Moved) => told.len() == 3 && told[1] == (
                        Event::ActionMoved { index, outcome: "moved"@ }) && told[2] == (
                        Event::ActionVerified { index }),
                        Ok(MoveOutcome::Simulated) => told.len() == 2 && told[1] == (
                        Event::ActionMoved { index, outcome: "simulated"@ }),
                        Ok(MoveOutcome::AlreadyDone) => told.len() == 2 && (
                        told[1] matches Event::ActionSkipped { index: i, .. } && i == index),
                        Err(error) => told.len() == 3 && told[1] == (Event::ActionFailed {
                            index,
                            error,
                        }) && told[2] == (Event::Fatal { error }),
                    }
                },
            }
        }),
{
}

/// The journal of the steps, one after the other.
proof fn lemma_one_more_step(actions: Seq<ActionView>, steps: Seq<Step>)
    requires
        steps.len() > 0,
    ensures
        action_events(actions, steps) == action_events(actions, steps.drop_last()) + step_events(
            (steps.len() - 1) as nat,
            actions[steps.len() - 1],
            steps.last(),
        ),
{
}

/// A journal starts with the plan and the folders that were ensured, in order, and goes on
/// with the steps. If the run went through, it ends with the reconciliation and the counts
/// of the report. If a move failed, it ends with the failure.
pub proof fn law_journal_tells<M: Mover>(
    run: Run<M>,
    plan: PlanView,
    done: Set<usize>,
    start: M,
    end: M,
    added: Seq<Event>,
    sure: bool,
    report: ReportView,
)
    requires
        explains(run, plan, done, start, end, added, sure, Ok(report)),
    ensures
        added.len() > plan.folders.len(),
        added[0] == (Event::PlanLoaded { plan_id: plan.plan_id, actions: plan.actions.len() }),
        forall|i: int|
            0 <= i < plan.folders.len() ==> #[trigger] added[i + 1] == (Event::FolderEnsured {
                dotpath: plan.folders[i].dotpath,
            }),
        report.fatal is None ==> {
            let n = added.len() as int;
            &&& n >= 3 + plan.folders.len()
            &&& added[n - 2] == Event::Reconciled
            &&& added[n - 1] == (Event::Done {
                moved: report.moved,
                skipped: report.skipped,
                simulated: report.simulated,
                failed: report.failed,
            })
        },
        report.fatal matches Some(error) ==> {
            let n = added.len() as int;
            let k = (run.steps.len() - 1) as nat;
            &&& n >= 4 + plan.folders.len()
            &&& added[n - 3] == begin(k, plan.actions[k as int])
            &&& added[n - 2] == (Event::ActionFailed { index: k, error })
            &&& added[n - 1] == (Event::Fatal { error })
        },
{
    let all = run.events(plan);
    let opening = opening_events(plan, run.folders.len() - 1);
    let closing = closing_events(report);
    assert(opening.len() == 1 + plan.folders.len());
    assert(opening[0] == (Event::PlanLoaded {
        plan_id: plan.plan_id,
        actions: plan.actions.len(),
    }));
    assert forall|i: int| 0 <= i < plan.folders.len() implies #[trigger] added[i + 1] == (
    Event::FolderEnsured { dotpath: plan.folders[i].dotpath }) by {
        assert(added[i + 1] == opening[i + 1]);
    }
    assert(added[0] == opening[0]);
    if run.failed() {
        let n = run.steps.len() as int;
        let steps = action_events(plan.actions, run.steps);
        lemma_one_more_step(plan.actions, run.steps);
        let some = action_events(plan.actions, run.steps.drop_last());
        let told = step_events((n - 1) as nat, plan.actions[n - 1], run.steps.last());
        assert(told.len() == 3);
        assert(steps =~= some + told);
        let l = added.len() as int;
        assert(added[l - 1] == told[2]);
        assert(added[l - 2] == told[1]);
        assert(added[l - 3] == told[0]);
    } else {
        let l = added.len() as int;
        assert(added =~= all + closing);
        assert(added[l - 1] == closing[1]);
        assert(added[l - 2] == closing[0]);
    }
}

/// A journal says that an action is done with if and only if it has been verified or
/// skipped; announcing, moving or failing is not enough.
pub proof fn law_done_with(log: Seq<Event>, i: usize)
    ensures
        completed(log).contains(i) <==> exists|k: int|
            {
                &&& 0 <= k < log.len()
                &&& match #[trigger] log[k] {
                    Event::ActionVerified { index } => index == i,
                    Event::ActionSkipped { index, .. } => index == i,
                    _ => false,
                }
            },
{
    if completed(log).contains(i) {
        let k = choose|k: int| 0 <= k < log.len() && finished(#[trigger] log[k]) == Some(i as nat);
        assert(match log[k] {
            Event::ActionVerified { index } => index == i,
            Event::ActionSkipped { index, .. } => index == i,
            _ => false,
        });
    }
    if exists|k: int|
        {
            &&& 0 <= k < log.len()
            &&& match #[trigger] log[k] {
                Event::ActionVerified { index } => index == i,
                Event::ActionSkipped { index, .. } => index == i,
                _ => false,
            }
        } {
        let k = choose|k: int|
            {
                &&& 0 <= k < log.len()
                &&& match #[trigger] log[k] {
                    Event::ActionVerified { index } => index == i,
                    Event::ActionSkipped { index, .. } => index == i,
                    _ => false,
                }
            };
        assert(finished(log[k]) == Some(i as nat));
    }
}

/// Each line of a journal file that is not blank is a record, as it is written; blank lines
/// are passed over.
pub proof fn law_lines_are_records(line: Seq<char>, rest: Seq<char>)
    requires
        !line.contains('\n'),
        line.len() > 0 ==> line.last() != '\r',
    ensures
        record_lines_of(line + seq!['\n'] + rest) == if trim(line).len() > 0 {
            seq![line] + record_lines_of(rest)
        } else {
            record_lines_of(rest)
        },
        record_lines_of(Seq::empty()) == Seq::<Seq<char>>::empty(),
{
    reveal(Seq::filter);
    let keep = |l: Seq<char>| trim(l).len() > 0;
    law_lines(line, rest);
    let one = seq![line];
    Seq::filter_distributes_over_add(one, lines(rest), keep);
    let none = Seq::<Seq<char>>::empty();
    assert(one.drop_last() =~= none);
    assert(none.filter(keep) == none);
    if trim(line).len() > 0 {
        assert(one.filter(keep) =~= one);
    } else {
        assert(one.filter(keep) =~= none);
        assert(none + lines(rest).filter(keep) =~= lines(rest).filter(keep));
    }
}

// ---- the no-loss checks ----

/// A census is right if and only if it is sorted and each Message-ID occurs in it as often
/// as in the mailbox. So two mailboxes with the same census hold the same messages.
pub proof fn law_census(
    ids: Seq<Option<Seq<char>>>,
    folders: Map<Seq<char>, Seq<FakeMsgView>>,
    others: Map<Seq<char>, Seq<FakeMsgView>>,
)
    ensures
        is_census(ids, folders) ==> forall|x: Option<Seq<char>>| #[trigger]
            ids.to_multiset().count(x) == all_ids(folders).count(x),
        is_census(ids, folders) ==> forall|i: int, j: int|
            0 <= i < j < ids.len() ==> !id_before(#[trigger] ids[j], #[trigger] ids[i]),
        (forall|x: Option<Seq<char>>| #[trigger]
            ids.to_multiset().count(x) == all_ids(folders).count(x)) && (forall|i: int, j: int|
            0 <= i < j < ids.len() ==> !id_before(#[trigger] ids[j], #[trigger] ids[i]))
            ==> is_census(ids, folders),
        is_census(ids, folders) && is_census(ids, others) ==> all_ids(folders) == all_ids(others),
{
    if forall|x: Option<Seq<char>>| #[trigger]
        ids.to_multiset().count(x) == all_ids(folders).count(x) {
        assert(ids.to_multiset() =~= all_ids(folders));
    }
}

/// Each message is there once if and only if no Message-ID occurs twice in all folders
/// together; messages without one do not count.
pub proof fn law_once_each(folders: Map<Seq<char>, Seq<FakeMsgView>>)
    ensures
        once_each(folders) <==> forall|id: Seq<char>| #[trigger]
            all_ids(folders).count(Some(id)) < 2,
{
}

/// A journal that cannot fail leaves only the mover's errors: a folder that could not be
/// ensured, or a reconciliation that failed. With a mover that has neither, there is none.
pub proof fn law_errors_are_the_movers<M: Mover>(
    run: Run<M>,
    plan: PlanView,
    done: Set<usize>,
    start: M,
    end: M,
    added: Seq<Event>,
    e: Seq<char>,
)
    requires
        explains(run, plan, done, start, end, added, true, Err(e)),
    ensures
        ({
            ||| run.folders.len() <= plan.folders.len() && M::folder_step(
                run.states.last(),
                plan.folders[run.folders.len() - 1],
                end,
                Err(e),
            )
            ||| run.steps.len() == plan.actions.len() && M::reconcile_step(
                run.states.last(),
                end,
                Err(e),
            )
        }),
{
}

/// A record that several sinks have taken is in each of them.
pub proof fn law_tee_reaches_all(
    pre: Seq<Box<dyn RecordSink>>,
    post: Seq<Box<dyn RecordSink>>,
    event: Event,
    i: int,
)
    requires
        fanned_out(pre, post, event, true),
        0 <= i < pre.len(),
        pre[i].tells(),
    ensures
        post.len() == pre.len(),
        post[i].log() == pre[i].log().push(event),
{
    let n = choose|n: int|
        #![trigger written_to(pre, post, event, n)]
        0 <= n <= pre.len() && (true <==> n == pre.len()) && written_to(pre, post, event, n);
    assert(pre[i].tells());
}

} // verus!
