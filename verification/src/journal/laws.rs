//! What holds of every run of the engine: nothing is lost, every attempt is announced,
//! an interrupted run resumes to the same end, and a repeated run changes nothing.

use vstd::prelude::*;

use crate::journal::engine::{
    action_events, begin, closing_events, explains, lemma_announced, opening_events, step_events,
    tally, was_failed, was_moved, was_simulated, was_skipped, ReportView, Run, Step,
};
use crate::journal::record::{completed, finished, Event};
use crate::journal::verify::once_each;
use crate::model::{ActionView, FolderSpecView, PlanView};
use crate::mover::{
    all_ids, first_match, has_source, law_folder_conserves, law_move_conserves,
    lemma_first_match, listed, refiled, DryRunMover, FakeMover, FakeMsgView, MoveOutcome, Mover,
};

verus! {

// ---- conservation ----

/// No message is lost or duplicated by a run, however it ends: the Message-IDs in all
/// folders together, counted with multiplicity, are the same before and after, and if
/// each occurred once before, each occurs once after.
pub proof fn law_run_conserves(
    run: Run<FakeMover>,
    plan: PlanView,
    done: Set<usize>,
    start: FakeMover,
)
    requires
        run.valid(plan, done, start),
        start@.folders.dom().finite(),
    ensures
        run.end()@.folders.dom().finite(),
        all_ids(run.end()@.folders) == all_ids(start@.folders),
        once_each(start@.folders) ==> once_each(run.end()@.folders),
{
    lemma_conserves_folders(run, plan, done, start, run.folders.len() - 1);
    lemma_conserves_steps(run, plan, done, start, run.steps.len() as int);
}

/// Applying a plan conserves messages, whatever comes of it: be the plan carried out, cut
/// short by the mover or by the journal, the Message-IDs in all folders together are the
/// same before and after, and if each occurred once before, each occurs once after.
pub proof fn law_apply_conserves(
    run: Run<FakeMover>,
    plan: PlanView,
    done: Set<usize>,
    start: FakeMover,
    end: FakeMover,
    added: Seq<Event>,
    sure: bool,
    r: Result<ReportView, Seq<char>>,
)
    requires
        explains(run, plan, done, start, end, added, sure, r),
        start@.folders.dom().finite(),
    ensures
        all_ids(end@.folders) == all_ids(start@.folders),
        once_each(start@.folders) ==> once_each(end@.folders),
{
    law_run_conserves(run, plan, done, start);
    if end@.folders != run.end()@.folders {
        law_folder_conserves(run.end()@, plan.folders[run.folders.len() - 1].dotpath);
    }
}

proof fn lemma_conserves_folders(
    run: Run<FakeMover>,
    plan: PlanView,
    done: Set<usize>,
    start: FakeMover,
    n: int,
)
    requires
        run.valid(plan, done, start),
        start@.folders.dom().finite(),
        0 <= n < run.folders.len(),
    ensures
        run.folders[n]@.folders.dom().finite(),
        all_ids(run.folders[n]@.folders) == all_ids(start@.folders),
    decreases n,
{
    if n > 0 {
        lemma_conserves_folders(run, plan, done, start, n - 1);
        assert(run.folder_ok(plan, n - 1));
        law_folder_conserves(run.folders[n - 1]@, plan.folders[n - 1].dotpath);
    }
}

proof fn lemma_conserves_steps(
    run: Run<FakeMover>,
    plan: PlanView,
    done: Set<usize>,
    start: FakeMover,
    n: int,
)
    requires
        run.valid(plan, done, start),
        run.states[0]@.folders.dom().finite(),
        0 <= n < run.states.len(),
    ensures
        run.states[n]@.folders.dom().finite(),
        all_ids(run.states[n]@.folders) == all_ids(run.states[0]@.folders),
    decreases n,
{
    if n > 0 {
        lemma_conserves_steps(run, plan, done, start, n - 1);
        assert(run.step_ok(plan, done, n - 1));
        law_move_conserves(run.states[n - 1]@, plan.actions[n - 1]);
    }
}

// ---- the journal ----

/// The journal of the first `n` actions is a prefix of the whole.
proof fn lemma_events_prefix(actions: Seq<ActionView>, steps: Seq<Step>, n: int)
    requires
        0 <= n <= steps.len(),
    ensures
        action_events(actions, steps.take(n)).is_prefix_of(action_events(actions, steps)),
    decreases steps.len(),
{
    if n < steps.len() {
        lemma_events_prefix(actions, steps.drop_last(), n);
        assert(steps.drop_last().take(n) =~= steps.take(n));
    } else {
        assert(steps.take(n) =~= steps);
    }
}

/// The announcement of an action that was attempted is in the part of the journal that is
/// there in any case.
proof fn lemma_attempt_announced<M: Mover>(run: Run<M>, plan: PlanView, i: int)
    requires
        run.folders.len() >= 1,
        0 <= i < run.steps.len(),
        run.steps[i] is Ran,
    ensures
        exists|k: int|
            0 <= k < run.announced(plan) && k < run.events(plan).len() && (
            #[trigger] run.events(plan)[k]) == begin(i as nat, plan.actions[i]),
{
    let opening = opening_events(plan, run.folders.len() - 1);
    let earlier = action_events(plan.actions, run.steps.take(i));
    let through = action_events(plan.actions, run.steps.take(i + 1));
    let here = step_events(i as nat, plan.actions[i], run.steps[i]);
    assert(run.steps.take(i + 1).drop_last() =~= run.steps.take(i));
    assert(through =~= earlier + here);
    lemma_events_prefix(plan.actions, run.steps, i + 1);
    let all = action_events(plan.actions, run.steps);
    assert(through.is_prefix_of(all));
    let k = (opening.len() + earlier.len()) as int;
    assert(run.events(plan)[k] == all[earlier.len() as int]);
    assert(all[earlier.len() as int] == through[earlier.len() as int]);
    assert(through[earlier.len() as int] == here[0]);
    assert(here[0] == begin(i as nat, plan.actions[i]));
    if i == run.steps.len() - 1 {
        assert(run.steps.drop_last() =~= run.steps.take(i));
        assert(run.steps.last() == run.steps[i]);
    } else {
        let before_last = run.steps.drop_last();
        lemma_events_prefix(plan.actions, before_last, i + 1);
        assert(before_last.take(i + 1) =~= run.steps.take(i + 1));
    }
    assert(k < run.announced(plan));
}

/// Every attempt is announced first: however applying a plan ends, what the journal gained
/// holds the announcement of each action that the mover was asked to perform.
pub proof fn law_attempts_announced<M: Mover>(
    run: Run<M>,
    plan: PlanView,
    done: Set<usize>,
    start: M,
    end: M,
    added: Seq<Event>,
    sure: bool,
    r: Result<ReportView, Seq<char>>,
    i: int,
)
    requires
        explains(run, plan, done, start, end, added, sure, r),
        0 <= i < run.steps.len(),
        run.steps[i] is Ran,
    ensures
        added.contains(begin(i as nat, plan.actions[i])),
{
    lemma_attempt_announced(run, plan, i);
    lemma_announced(run, plan);
    let all = run.events(plan);
    let k = choose|k: int|
        0 <= k < run.announced(plan) && k < all.len() && (#[trigger] all[k]) == begin(
            i as nat,
            plan.actions[i],
        );
    assert(added[k] == all[k]);
}

/// A step is over and done with: resumed, moved, or found at its destination.
pub open spec fn settled(step: Step) -> bool {
    match step {
        Step::Resumed => true,
        Step::Ran(Ok(MoveOutcome::Moved)) => true,
        Step::Ran(Ok(MoveOutcome::AlreadyDone)) => true,
        _ => false,
    }
}

/// The actions that a run's journal says are done with are exactly those that the run
/// settled: neither a failed nor a merely simulated one.
pub proof fn law_completed<M: Mover>(run: Run<M>, plan: PlanView, i: usize)
    requires
        run.steps.len() <= plan.actions.len(),
    ensures
        completed(run.events(plan)).contains(i) <==> i < run.steps.len() && settled(
            run.steps[i as int],
        ),
{
    let opening = opening_events(plan, run.folders.len() - 1);
    let tail = action_events(plan.actions, run.steps);
    let log = run.events(plan);
    lemma_completed_steps(plan.actions, run.steps, i);
    if completed(log).contains(i) {
        let k = choose|k: int|
            0 <= k < log.len() && finished(#[trigger] log[k]) == Some(i as nat);
        assert(k >= opening.len()) by {
            if k < opening.len() {
                assert(log[k] == opening[k]);
            }
        }
        assert(log[k] == tail[k - opening.len()]);
    }
    if completed(tail).contains(i) {
        let k = choose|k: int|
            0 <= k < tail.len() && finished(#[trigger] tail[k]) == Some(i as nat);
        assert(log[k + opening.len()] == tail[k]);
    }
}

proof fn lemma_completed_steps(actions: Seq<ActionView>, steps: Seq<Step>, i: usize)
    ensures
        completed(action_events(actions, steps)).contains(i) <==> i < steps.len() && settled(
            steps[i as int],
        ),
    decreases steps.len(),
{
    let log = action_events(actions, steps);
    if steps.len() > 0 {
        let n = steps.len() - 1;
        let some = action_events(actions, steps.drop_last());
        let here = step_events(n as nat, actions[n], steps.last());
        lemma_completed_steps(actions, steps.drop_last(), i);
        if completed(log).contains(i) {
            let k = choose|k: int|
                0 <= k < log.len() && finished(#[trigger] log[k]) == Some(i as nat);
            if k < some.len() {
                assert(some[k] == log[k]);
                assert(completed(some).contains(i));
            } else {
                assert(here[k - some.len()] == log[k]);
            }
        }
        if completed(some).contains(i) {
            let k = choose|k: int|
                0 <= k < some.len() && finished(#[trigger] some[k]) == Some(i as nat);
            assert(log[k] == some[k]);
        }
        if i == n && settled(steps.last()) {
            let j = here.len() - 1;
            assert(finished(here[j]) == Some(i as nat));
            assert(log[some.len() + j] == here[j]);
        }
    }
}

// ---- dry runs ----

/// A dry run moves nothing and fails at nothing: every action that is not resumed is
/// simulated.
pub proof fn law_dry_run(run: Run<DryRunMover>, plan: PlanView, done: Set<usize>, start: DryRunMover)
    requires
        run.valid(plan, done, start),
    ensures
        !run.failed(),
        run.report().moved == 0,
        run.report().failed == 0,
        run.report().simulated + run.report().skipped == run.steps.len(),
        forall|i: int|
            0 <= i < run.steps.len() ==> (#[trigger] run.steps[i]) == if done.contains(i as usize) {
                Step::Resumed
            } else {
                Step::Ran(Ok(MoveOutcome::Simulated))
            },
{
    assert forall|i: int| 0 <= i < run.steps.len() implies (#[trigger] run.steps[i])
        == if done.contains(i as usize) {
        Step::Resumed
    } else {
        Step::Ran(Ok(MoveOutcome::Simulated))
    } by {
        assert(run.step_ok(plan, done, i));
    }
    lemma_dry_tally(run.steps);
}

proof fn lemma_dry_tally(steps: Seq<Step>)
    requires
        forall|i: int|
            0 <= i < steps.len() ==> (#[trigger] steps[i]) == Step::Resumed || steps[i]
                == Step::Ran(Ok(MoveOutcome::Simulated)),
    ensures
        tally(steps, was_moved()) == 0,
        tally(steps, was_failed()) == 0,
        tally(steps, was_simulated()) + tally(steps, was_skipped()) == steps.len(),
    decreases steps.len(),
{
    if steps.len() > 0 {
        assert forall|i: int| 0 <= i < steps.drop_last().len() implies (
        #[trigger] steps.drop_last()[i]) == Step::Resumed || steps.drop_last()[i] == Step::Ran(
            Ok(MoveOutcome::Simulated),
        ) by {
            assert(steps.drop_last()[i] == steps[i]);
        }
        lemma_dry_tally(steps.drop_last());
        assert(steps.last() == steps[steps.len() - 1]);
    }
}

// ---- resuming ----

/// A folder of that name is to be created.
pub open spec fn named(specs: Seq<FolderSpecView>, path: Seq<char>) -> bool {
    exists|i: int| 0 <= i < specs.len() && (#[trigger] specs[i]).dotpath == path
}

/// The folders with those to be created made sure of.
pub open spec fn founded(
    folders: Map<Seq<char>, Seq<FakeMsgView>>,
    specs: Seq<FolderSpecView>,
) -> Map<Seq<char>, Seq<FakeMsgView>> {
    Map::new(
        |p: Seq<char>| folders.contains_key(p) || named(specs, p),
        |p: Seq<char>| listed(folders, p),
    )
}

/// The folders after all of `actions`, in order.
pub open spec fn filed(
    folders: Map<Seq<char>, Seq<FakeMsgView>>,
    actions: Seq<ActionView>,
) -> Map<Seq<char>, Seq<FakeMsgView>>
    decreases actions.len(),
{
    if actions.len() == 0 {
        folders
    } else {
        refiled(filed(folders, actions.drop_last()), actions.last())
    }
}

/// The first `k` actions.
pub open spec fn first_actions(k: int) -> Set<usize> {
    Set::new(|i: usize| i < k)
}

/// `folders` stand where the plan, applied to `origin`, has them after `k` actions; some
/// of the folders to be created may still be missing.
pub open spec fn caught_up(
    plan: PlanView,
    origin: Map<Seq<char>, Seq<FakeMsgView>>,
    folders: Map<Seq<char>, Seq<FakeMsgView>>,
    k: int,
) -> bool {
    founded(folders, plan.folders) == filed(
        founded(origin, plan.folders),
        plan.actions.take(k),
    )
}

proof fn lemma_founding(
    run: Run<FakeMover>,
    plan: PlanView,
    done: Set<usize>,
    start: FakeMover,
    n: int,
)
    requires
        run.valid(plan, done, start),
        0 <= n < run.folders.len(),
    ensures
        run.folders[n]@.folders == founded(start@.folders, plan.folders.take(n)),
    decreases n,
{
    let specs = plan.folders;
    if n == 0 {
        assert(run.folders[0]@.folders =~= founded(start@.folders, specs.take(0)));
    } else {
        lemma_founding(run, plan, done, start, n - 1);
        assert(run.folder_ok(plan, n - 1));
        let before = run.folders[n - 1]@.folders;
        let after = run.folders[n]@.folders;
        let path = specs[n - 1].dotpath;
        assert forall|p: Seq<char>| named(specs.take(n), p) <==> named(specs.take(n - 1), p) || p
            == path by {
            if named(specs.take(n), p) {
                let i = choose|i: int|
                    0 <= i < specs.take(n).len() && (#[trigger] specs.take(n)[i]).dotpath == p;
                if i < n - 1 {
                    assert(specs.take(n - 1)[i].dotpath == p);
                }
            }
            if named(specs.take(n - 1), p) {
                let i = choose|i: int|
                    0 <= i < specs.take(n - 1).len() && (#[trigger] specs.take(n - 1)[i]).dotpath
                        == p;
                assert(specs.take(n)[i].dotpath == p);
            }
            assert(specs.take(n)[n - 1].dotpath == path);
        }
        assert(after =~= founded(start@.folders, specs.take(n)));
    }
}

/// Actions keep the folders that are there.
proof fn lemma_filed_keeps(
    folders: Map<Seq<char>, Seq<FakeMsgView>>,
    actions: Seq<ActionView>,
    p: Seq<char>,
)
    requires
        folders.contains_key(p),
    ensures
        filed(folders, actions).contains_key(p),
    decreases actions.len(),
{
    if actions.len() > 0 {
        lemma_filed_keeps(folders, actions.drop_last(), p);
    }
}

/// With every folder there, founding changes nothing.
proof fn lemma_founded_filed(
    origin: Map<Seq<char>, Seq<FakeMsgView>>,
    specs: Seq<FolderSpecView>,
    actions: Seq<ActionView>,
)
    ensures
        founded(filed(founded(origin, specs), actions), specs) == filed(
            founded(origin, specs),
            actions,
        ),
{
    let base = founded(origin, specs);
    let now = filed(base, actions);
    assert forall|p: Seq<char>| named(specs, p) implies now.contains_key(p) by {
        assert(base.contains_key(p));
        lemma_filed_keeps(base, actions, p);
    }
    assert(founded(now, specs) =~= now);
}

/// At most one message of the list is the one that the action refers to.
pub open spec fn at_most_one(list: Seq<FakeMsgView>, action: ActionView) -> bool {
    forall|p: int, q: int|
        0 <= p < list.len() && 0 <= q < list.len() && (#[trigger] list[p]).matches(action) && (
        #[trigger] list[q]).matches(action) ==> p == q
}

/// No message of the list is the one that the action refers to.
pub open spec fn no_match(list: Seq<FakeMsgView>, action: ActionView) -> bool {
    forall|p: int| 0 <= p < list.len() ==> !(#[trigger] list[p]).matches(action)
}

/// Actions whose effects a repetition can recognise: none files into a folder that one of
/// them takes from, and each refers to one message at the most.
pub open spec fn repeatable(
    folders: Map<Seq<char>, Seq<FakeMsgView>>,
    actions: Seq<ActionView>,
) -> bool {
    &&& forall|i: int, j: int|
        0 <= i < actions.len() && 0 <= j < actions.len() ==> (#[trigger] actions[i]).dst_dotpath
            != (#[trigger] actions[j]).src_folder
    &&& forall|i: int|
        0 <= i < actions.len() ==> at_most_one(
            listed(folders, (#[trigger] actions[i]).src_folder),
            actions[i],
        )
}

/// After the first `n` actions the sources hold no message that one of those refers to,
/// and still at most one that any other refers to.
proof fn lemma_sources_emptied(
    folders: Map<Seq<char>, Seq<FakeMsgView>>,
    actions: Seq<ActionView>,
    n: int,
    j: int,
)
    requires
        repeatable(folders, actions),
        0 <= n <= actions.len(),
        0 <= j < actions.len(),
    ensures
        at_most_one(listed(filed(folders, actions.take(n)), actions[j].src_folder), actions[j]),
        j < n ==> no_match(
            listed(filed(folders, actions.take(n)), actions[j].src_folder),
            actions[j],
        ),
        j < n ==> filed(folders, actions.take(n)).contains_key(actions[j].src_folder),
    decreases n,
{
    if n > 0 {
        let i = n - 1;
        lemma_sources_emptied(folders, actions, i, j);
        assert(actions.take(n).drop_last() =~= actions.take(i));
        assert(actions.take(n).last() == actions[i]);
        let before = filed(folders, actions.take(i));
        let after = filed(folders, actions.take(n));
        let here = actions[i];
        let src = listed(before, here.src_folder);
        let p = first_match(src, here);
        lemma_first_match(src, here);
        assert(after == refiled(before, here));
        assert(here.dst_dotpath != actions[j].src_folder);
        assert(here.dst_dotpath != here.src_folder);
        let old_list = listed(before, actions[j].src_folder);
        let new_list = listed(after, actions[j].src_folder);
        if actions[j].src_folder == here.src_folder {
            if p < src.len() {
                assert(new_list == src.remove(p));
                assert forall|q: int| 0 <= q < new_list.len() implies #[trigger] new_list[q]
                    == old_list[if q < p {
                    q
                } else {
                    q + 1
                }] by {}
                if j == i {
                    assert forall|q: int| 0 <= q < new_list.len() implies !(
                    #[trigger] new_list[q]).matches(here) by {
                        let q0 = if q < p {
                            q
                        } else {
                            q + 1
                        };
                        assert(new_list[q] == old_list[q0]);
                        assert(old_list[p].matches(here));
                    }
                }
            } else {
                assert(new_list == src);
                if j == i {
                    assert forall|q: int| 0 <= q < new_list.len() implies !(
                    #[trigger] new_list[q]).matches(here) by {}
                }
            }
        } else {
            assert(new_list == old_list);
        }
    } else {
        assert(actions.take(0) =~= Seq::empty());
    }
}

/// Once the first `n` actions are performed, none of them finds its message, and trying
/// changes nothing.
proof fn lemma_nothing_left(
    base: Map<Seq<char>, Seq<FakeMsgView>>,
    actions: Seq<ActionView>,
    n: int,
    i: int,
)
    requires
        repeatable(base, actions),
        0 <= i < n <= actions.len(),
    ensures
        !has_source(filed(base, actions.take(n)), actions[i]),
        refiled(filed(base, actions.take(n)), actions[i]) == filed(base, actions.take(n)),
{
    let folders = filed(base, actions.take(n));
    lemma_sources_emptied(base, actions, n, i);
    let src = listed(folders, actions[i].src_folder);
    lemma_first_match(src, actions[i]);
    assert(!has_source(folders, actions[i]));
    assert(refiled(folders, actions[i]) =~= folders);
}

/// Where a resumed run has the mailbox after `n` steps, if it started after `m` actions:
/// it is ahead of `n` until the run catches up, and a step that fails does not count.
spec fn reached(steps: Seq<Step>, n: int, m: int) -> int {
    let r = if n > 0 && (steps[n - 1] matches Step::Ran(Err(_))) {
        n - 1
    } else {
        n
    };
    if r < m {
        m
    } else {
        r
    }
}

/// The steps of a resumed run on a mailbox that stands after `m` actions, of which the
/// first `k` are known to be done. Those are left alone, the rest of the `m` find nothing
/// to move, and the others bring the folders on by one action each, but for one that
/// fails.
proof fn lemma_resumed_steps(
    run: Run<FakeMover>,
    plan: PlanView,
    done: Set<usize>,
    start: FakeMover,
    base: Map<Seq<char>, Seq<FakeMsgView>>,
    k: int,
    m: int,
    n: int,
)
    requires
        run.valid(plan, done, start),
        done == first_actions(k),
        0 <= k <= m <= plan.actions.len() <= usize::MAX,
        run.states[0]@.folders == filed(base, plan.actions.take(m)),
        k < m ==> repeatable(base, plan.actions),
        0 <= n <= run.steps.len(),
    ensures
        run.states[n]@.folders == filed(base, plan.actions.take(reached(run.steps, n, m))),
    decreases n,
{
    if n > 0 {
        lemma_resumed_steps(run, plan, done, start, base, k, m, n - 1);
        let i = n - 1;
        assert(run.step_ok(plan, done, i));
        if i > 0 {
            assert(run.step_ok(plan, done, i - 1));
        }
        let before = run.states[i]@;
        let action = plan.actions[i];
        if i < k {
            assert(done.contains(i as usize));
            assert(run.steps[i] is Resumed);
        } else {
            assert(!done.contains(i as usize));
            if before.failing() {
                assert(run.steps[i] matches Step::Ran(Err(_)));
            } else {
                assert(run.states[n]@.folders == refiled(before.folders, action));
                if i < m {
                    assert(before.folders == filed(base, plan.actions.take(m)));
                    lemma_nothing_left(base, plan.actions, m, i);
                } else {
                    assert(before.folders == filed(base, plan.actions.take(i)));
                    assert(plan.actions.take(n).drop_last() =~= plan.actions.take(i));
                    assert(plan.actions.take(n).last() == action);
                }
            }
        }
    }
}

/// On the in-memory mailbox every step but a failed one is settled.
proof fn lemma_resumed_settled(
    run: Run<FakeMover>,
    plan: PlanView,
    done: Set<usize>,
    start: FakeMover,
    i: int,
)
    requires
        run.valid(plan, done, start),
        0 <= i < run.steps.len(),
    ensures
        settled(run.steps[i]) <==> !(i == run.steps.len() - 1 && run.failed()),
{
    assert(run.step_ok(plan, done, i));
    assert(run.steps.last() == run.steps[run.steps.len() - 1]);
}

/// Where a resumed run ends.
proof fn lemma_resumed_end(
    run: Run<FakeMover>,
    plan: PlanView,
    done: Set<usize>,
    start: FakeMover,
    origin: Map<Seq<char>, Seq<FakeMsgView>>,
    k: int,
    m: int,
)
    requires
        run.valid(plan, done, start),
        0 <= k <= m <= plan.actions.len() <= usize::MAX,
        done == first_actions(k),
        caught_up(plan, origin, start@.folders, m),
        k < m ==> repeatable(founded(origin, plan.folders), plan.actions),
    ensures
        caught_up(
            plan,
            origin,
            run.end()@.folders,
            reached(run.steps, run.steps.len() as int, m),
        ),
        run.complete(plan) ==> run.end()@.folders == filed(
            founded(origin, plan.folders),
            plan.actions,
        ),
{
    let base = founded(origin, plan.folders);
    let f = run.folders.len() - 1;
    let n = run.steps.len() as int;
    let e = reached(run.steps, n, m);
    lemma_founding(run, plan, done, start, f);
    if n > 0 {
        assert(run.steps.last() == run.steps[n - 1]);
    }
    if f == plan.folders.len() {
        assert(plan.folders.take(f) =~= plan.folders);
        assert(run.states[0]@.folders == filed(base, plan.actions.take(m)));
        lemma_resumed_steps(run, plan, done, start, base, k, m, n);
        lemma_founded_filed(origin, plan.folders, plan.actions.take(e));
        assert(run.end()@.folders == filed(base, plan.actions.take(e)));
        if run.complete(plan) {
            assert(plan.actions.take(e) =~= plan.actions);
        }
    } else {
        let part = plan.folders.take(f);
        assert forall|p: Seq<char>| named(part, p) implies named(plan.folders, p) by {
            let i = choose|i: int| 0 <= i < part.len() && (#[trigger] part[i]).dotpath == p;
            assert(plan.folders[i].dotpath == p);
        }
        assert(founded(founded(start@.folders, part), plan.folders) =~= founded(
            start@.folders,
            plan.folders,
        ));
    }
}

/// What is known to be done after a run of which the whole journal is there.
proof fn lemma_known(
    run: Run<FakeMover>,
    plan: PlanView,
    done: Set<usize>,
    start: FakeMover,
    k: int,
)
    requires
        run.valid(plan, done, start),
        0 <= k <= plan.actions.len() <= usize::MAX,
        done == first_actions(k),
    ensures
        done.union(completed(run.events(plan))) == first_actions(
            reached(run.steps, run.steps.len() as int, k),
        ),
{
    let n = run.steps.len() as int;
    if n > 0 {
        assert(run.steps.last() == run.steps[n - 1]);
    }
    assert forall|i: usize| done.union(completed(run.events(plan))).contains(i)
        <==> first_actions(reached(run.steps, n, k)).contains(i) by {
        law_completed(run, plan, i);
        if i < run.steps.len() {
            lemma_resumed_settled(run, plan, done, start, i as int);
        }
    }
    assert(done.union(completed(run.events(plan))) =~= first_actions(reached(run.steps, n, k)));
}

/// Resuming is safe, and loses no progress. Say that `start` stands where the plan has
/// the mailbox after `k` actions, and exactly those are known to be done. Then a run from
/// there, cut short by a failure or not, leaves the mailbox where the plan has it after
/// some number of actions, and what was known to be done, with what the run's journal
/// adds, is exactly those. A run that goes through leaves the mailbox as an uninterrupted
/// run of the whole plan would have left it.
pub proof fn law_resume(
    run: Run<FakeMover>,
    plan: PlanView,
    done: Set<usize>,
    start: FakeMover,
    origin: Map<Seq<char>, Seq<FakeMsgView>>,
    k: int,
)
    requires
        run.valid(plan, done, start),
        0 <= k <= plan.actions.len() <= usize::MAX,
        done == first_actions(k),
        caught_up(plan, origin, start@.folders, k),
    ensures
        exists|m: int|
            {
                &&& k <= m <= plan.actions.len()
                &&& #[trigger] caught_up(plan, origin, run.end()@.folders, m)
                &&& done.union(completed(run.events(plan))) == first_actions(m)
            },
        run.complete(plan) ==> run.end()@.folders == filed(
            founded(origin, plan.folders),
            plan.actions,
        ),
{
    lemma_resumed_end(run, plan, done, start, origin, k, k);
    lemma_known(run, plan, done, start, k);
    let m = reached(run.steps, run.steps.len() as int, k);
    assert(caught_up(plan, origin, run.end()@.folders, m));
}

/// Resuming catches up with moves that the journal missed. Say that `start` stands where
/// the plan has the mailbox after `m` actions, while only the first `k` of them are known
/// to be done. Then a run that goes through leaves the mailbox as an uninterrupted run of
/// the whole plan would have left it, provided that the effect of an action can be
/// recognised.
pub proof fn law_resume_catches_up(
    run: Run<FakeMover>,
    plan: PlanView,
    done: Set<usize>,
    start: FakeMover,
    origin: Map<Seq<char>, Seq<FakeMsgView>>,
    k: int,
    m: int,
)
    requires
        run.valid(plan, done, start),
        run.complete(plan),
        0 <= k <= m <= plan.actions.len() <= usize::MAX,
        done == first_actions(k),
        caught_up(plan, origin, start@.folders, m),
        repeatable(founded(origin, plan.folders), plan.actions),
    ensures
        run.end()@.folders == filed(founded(origin, plan.folders), plan.actions),
{
    lemma_resumed_end(run, plan, done, start, origin, k, m);
}

/// What two journals together say is done with.
proof fn lemma_completed_union(a: Seq<Event>, b: Seq<Event>)
    ensures
        completed(a + b) == completed(a).union(completed(b)),
{
    let all = a + b;
    assert forall|i: usize| completed(all).contains(i) <==> completed(a).union(
        completed(b),
    ).contains(i) by {
        if completed(all).contains(i) {
            let x = choose|x: int|
                0 <= x < all.len() && finished(#[trigger] all[x]) == Some(i as nat);
            if x < a.len() {
                assert(all[x] == a[x]);
            } else {
                assert(all[x] == b[x - a.len()]);
            }
        }
        if completed(a).contains(i) {
            let x = choose|x: int| 0 <= x < a.len() && finished(#[trigger] a[x]) == Some(i as nat);
            assert(all[x] == a[x]);
        }
        if completed(b).contains(i) {
            let x = choose|x: int| 0 <= x < b.len() && finished(#[trigger] b[x]) == Some(i as nat);
            assert(all[x + a.len()] == b[x]);
        }
    }
    assert(completed(all) =~= completed(a).union(completed(b)));
}

/// A journal without the records that say an action is done with.
proof fn lemma_completed_none(log: Seq<Event>)
    requires
        forall|x: int| 0 <= x < log.len() ==> finished(#[trigger] log[x]) is None,
    ensures
        completed(log) == Set::<usize>::empty(),
{
    assert(completed(log) =~= Set::empty());
}

/// A run without its last step.
proof fn lemma_shorter(run: Run<FakeMover>, plan: PlanView, done: Set<usize>, start: FakeMover)
    requires
        run.valid(plan, done, start),
        run.steps.len() > 0,
    ensures
        ({
            let n = run.steps.len() - 1;
            let less = Run { states: run.states.take(n + 1), steps: run.steps.take(n), ..run };
            &&& less.valid(plan, done, start)
            &&& !less.failed()
            &&& run.events(plan) == less.events(plan) + step_events(
                n as nat,
                plan.actions[n],
                run.steps[n],
            )
            &&& run.announced(plan) >= less.events(plan).len()
        }),
{
    let n = run.steps.len() - 1;
    let less = Run { states: run.states.take(n + 1), steps: run.steps.take(n), ..run };
    assert(run.steps.drop_last() =~= less.steps);
    assert(run.steps.last() == run.steps[n]);
    assert forall|i: int| 0 <= i < less.folders.len() - 1 implies #[trigger] less.folder_ok(
        plan,
        i,
    ) by {
        assert(run.folder_ok(plan, i));
    }
    assert forall|i: int| 0 <= i < less.steps.len() implies #[trigger] less.step_ok(
        plan,
        done,
        i,
    ) by {
        assert(run.step_ok(plan, done, i));
    }
    if n > 0 {
        assert(run.step_ok(plan, done, n - 1));
        assert(less.steps.last() == run.steps[n - 1]);
    }
    assert(run.events(plan) =~= less.events(plan) + step_events(
        n as nat,
        plan.actions[n],
        run.steps[n],
    ));
}

/// What is known to be done when the end of a run's journal is missing: what the run got
/// through, but perhaps for its last step.
proof fn lemma_known_part(
    run: Run<FakeMover>,
    plan: PlanView,
    done: Set<usize>,
    start: FakeMover,
    added: Seq<Event>,
    k: int,
) -> (j: int)
    requires
        run.valid(plan, done, start),
        0 <= k <= plan.actions.len() <= usize::MAX,
        done == first_actions(k),
        run.announced(plan) <= added.len() < run.events(plan).len(),
        added.is_prefix_of(run.events(plan)),
    ensures
        done.union(completed(added)) == first_actions(j),
        k <= j <= reached(run.steps, run.steps.len() as int, k) <= j + 1,
{
    let n = run.steps.len() - 1;
    let opening = opening_events(plan, run.folders.len() - 1);
    if n < 0 {
        assert(run.events(plan) =~= opening);
        assert forall|x: int| 0 <= x < added.len() implies finished(
            #[trigger] added[x],
        ) is None by {
            assert(added[x] == opening[x]);
        }
        lemma_completed_none(added);
        assert(done.union(Set::empty()) =~= done);
        k
    } else {
        let less = Run { states: run.states.take(n + 1), steps: run.steps.take(n), ..run };
        let whole = step_events(n as nat, plan.actions[n], run.steps[n]);
        let some = less.events(plan);
        lemma_shorter(run, plan, done, start);
        let part = added.skip(some.len() as int);
        assert(added =~= some + part);
        assert forall|x: int| 0 <= x < part.len() implies finished(
            #[trigger] part[x],
        ) is None by {
            assert(part[x] == whole[x]);
        }
        lemma_completed_none(part);
        lemma_completed_union(some, part);
        assert(completed(some).union(Set::empty()) =~= completed(some));
        lemma_known(less, plan, done, start, k);
        if n > 0 {
            assert(less.steps.last() == less.steps[n - 1]);
        }
        reached(less.steps, n, k)
    }
}

/// Whatever interrupts the applying of a plan, little is lost. Say that `start` stands
/// where the plan has the mailbox after `m` actions, of which the first `k` are known to
/// be done. However the run ends, the journal failing included, the mailbox again stands
/// where the plan has it after some number of actions, and what was known to be done, with
/// what the journal gained, is the first `j` of those for some `j`. The mailbox is at most
/// one move ahead of that, unless it was further ahead from the start.
pub proof fn law_interrupted(
    run: Run<FakeMover>,
    plan: PlanView,
    done: Set<usize>,
    start: FakeMover,
    end: FakeMover,
    added: Seq<Event>,
    sure: bool,
    r: Result<ReportView, Seq<char>>,
    origin: Map<Seq<char>, Seq<FakeMsgView>>,
    k: int,
    m: int,
)
    requires
        explains(run, plan, done, start, end, added, sure, r),
        0 <= k <= m <= plan.actions.len() <= usize::MAX,
        done == first_actions(k),
        caught_up(plan, origin, start@.folders, m),
        k < m ==> repeatable(founded(origin, plan.folders), plan.actions),
    ensures
        exists|j: int, now: int|
            {
                &&& k <= j <= now && m <= now <= plan.actions.len()
                &&& now <= m || now <= j + 1
                &&& done.union(completed(added)) == #[trigger] first_actions(j)
                &&& #[trigger] caught_up(plan, origin, end@.folders, now)
            },
{
    let n = run.steps.len() as int;
    let all = run.events(plan);
    let now = reached(run.steps, n, m);
    lemma_resumed_end(run, plan, done, start, origin, k, m);
    assert(end@.folders == run.end()@.folders);
    assert(caught_up(plan, origin, end@.folders, now));
    if added.len() < all.len() {
        let j = lemma_known_part(run, plan, done, start, added, k);
        assert(done.union(completed(added)) == first_actions(j));
    } else {
        lemma_known(run, plan, done, start, k);
        let j = reached(run.steps, n, k);
        let rest = added.skip(all.len() as int);
        let next = run.upcoming(plan, done);
        let closing = closing_events(run.report());
        assert(added =~= all + rest);
        assert forall|x: int| 0 <= x < rest.len() implies finished(
            #[trigger] rest[x],
        ) is None by {
            assert(rest[x] == added[x + all.len()]);
            if rest.len() <= next.len() && added.is_prefix_of(all + next) {
                assert((all + next)[x + all.len()] == next[x]);
            } else {
                assert((all + closing)[x + all.len()] == closing[x]);
            }
        }
        lemma_completed_none(rest);
        lemma_completed_union(all, rest);
        assert(completed(all).union(Set::empty()) =~= completed(all));
        assert(done.union(completed(added)) == first_actions(j));
    }
}

/// A crash and a resume come to the same as an uninterrupted run. The plan is applied,
/// however that ends; then a run resumes on the mailbox as it was left, knowing what the
/// first journal says is done. If that run goes through, the mailbox ends as an
/// uninterrupted run of the whole plan would have left it, provided that the effect of an
/// action can be recognised.
pub proof fn law_crash_and_resume(
    first: Run<FakeMover>,
    second: Run<FakeMover>,
    plan: PlanView,
    start: FakeMover,
    end: FakeMover,
    added: Seq<Event>,
    sure: bool,
    r: Result<ReportView, Seq<char>>,
    again: FakeMover,
)
    requires
        explains(first, plan, Set::empty(), start, end, added, sure, r),
        again@.folders == end@.folders,
        second.valid(plan, completed(added), again),
        second.complete(plan),
        plan.actions.len() <= usize::MAX,
        repeatable(founded(start@.folders, plan.folders), plan.actions),
    ensures
        second.end()@.folders == filed(founded(start@.folders, plan.folders), plan.actions),
{
    let none = Set::<usize>::empty();
    let origin = start@.folders;
    assert(first_actions(0) =~= none);
    assert(plan.actions.take(0) =~= Seq::empty());
    law_interrupted(first, plan, none, start, end, added, sure, r, origin, 0, 0);
    let (j, now) = choose|j: int, now: int|
        {
            &&& 0 <= j <= now && 0 <= now <= plan.actions.len()
            &&& now <= 0 || now <= j + 1
            &&& none.union(completed(added)) == #[trigger] first_actions(j)
            &&& #[trigger] caught_up(plan, origin, end@.folders, now)
        };
    assert(none.union(completed(added)) =~= completed(added));
    law_resume_catches_up(second, plan, completed(added), again, origin, j, now);
}

/// An uninterrupted run performs the whole plan: every folder to be created is there,
/// then every action is performed in order.
pub proof fn law_whole_run(run: Run<FakeMover>, plan: PlanView, start: FakeMover)
    requires
        run.valid(plan, Set::empty(), start),
        run.complete(plan),
        plan.actions.len() <= usize::MAX,
    ensures
        run.end()@.folders == filed(founded(start@.folders, plan.folders), plan.actions),
{
    assert(first_actions(0) =~= Set::<usize>::empty());
    assert(plan.actions.take(0) =~= Seq::empty());
    law_resume(run, plan, Set::empty(), start, start@.folders, 0);
}

// ---- repeating ----

/// A repeated run changes nothing, even if it is not told what is done: once the plan has
/// been performed, every action finds its message gone from the source, and every folder
/// keeps its messages.
pub proof fn law_repeated_run(
    run: Run<FakeMover>,
    plan: PlanView,
    start: FakeMover,
    origin: Map<Seq<char>, Seq<FakeMsgView>>,
)
    requires
        run.valid(plan, Set::empty(), start),
        start@.fail_after is None,
        repeatable(founded(origin, plan.folders), plan.actions),
        start@.folders == filed(founded(origin, plan.folders), plan.actions),
        plan.actions.len() <= usize::MAX,
    ensures
        run.end()@.folders == start@.folders,
        !run.failed(),
        forall|i: int|
            0 <= i < run.steps.len() ==> (#[trigger] run.steps[i]) == Step::Ran(
                Ok(MoveOutcome::AlreadyDone),
            ),
        run.report().moved == 0,
        run.report().skipped == run.steps.len(),
{
    lemma_founding(run, plan, Set::empty(), start, run.folders.len() - 1);
    let specs = plan.folders.take(run.folders.len() - 1);
    let base = founded(origin, plan.folders);
    assert forall|p: Seq<char>| named(specs, p) implies start@.folders.contains_key(p) by {
        let i = choose|i: int| 0 <= i < specs.len() && (#[trigger] specs[i]).dotpath == p;
        assert(plan.folders[i].dotpath == p);
        assert(base.contains_key(p));
        lemma_filed_keeps(base, plan.actions, p);
    }
    assert(founded(start@.folders, specs) =~= start@.folders);
    lemma_founding_keeps_plan(run, plan, start, run.folders.len() - 1);
    lemma_repeated_steps(run, plan, start, base, run.steps.len() as int);
    assert forall|i: int| 0 <= i < run.steps.len() implies (#[trigger] run.steps[i])
        == Step::Ran(Ok(MoveOutcome::AlreadyDone)) by {
        lemma_repeated_steps(run, plan, start, base, i + 1);
    }
    assert(!run.failed()) by {
        if run.steps.len() > 0 {
            assert(run.steps.last() == run.steps[run.steps.len() - 1]);
        }
    }
    lemma_skipped_tally(run.steps);
}

/// Ensuring folders does not make moves fail.
proof fn lemma_founding_keeps_plan(run: Run<FakeMover>, plan: PlanView, start: FakeMover, n: int)
    requires
        run.valid(plan, Set::empty(), start),
        0 <= n < run.folders.len(),
    ensures
        run.folders[n]@.fail_after == start@.fail_after,
    decreases n,
{
    if n > 0 {
        lemma_founding_keeps_plan(run, plan, start, n - 1);
        assert(run.folder_ok(plan, n - 1));
    }
}

proof fn lemma_repeated_steps(
    run: Run<FakeMover>,
    plan: PlanView,
    start: FakeMover,
    base: Map<Seq<char>, Seq<FakeMsgView>>,
    n: int,
)
    requires
        run.valid(plan, Set::empty(), start),
        repeatable(base, plan.actions),
        run.states[0]@.folders == filed(base, plan.actions),
        run.states[0]@.fail_after is None,
        0 <= n <= run.steps.len(),
    ensures
        run.states[n]@.folders == run.states[0]@.folders,
        run.states[n]@.fail_after is None,
        n > 0 ==> run.steps[n - 1] == Step::Ran(Ok(MoveOutcome::AlreadyDone)),
    decreases n,
{
    if n > 0 {
        let i = n - 1;
        lemma_repeated_steps(run, plan, start, base, i);
        assert(run.step_ok(plan, Set::empty(), i));
        let action = plan.actions[i];
        let folders = run.states[i]@.folders;
        assert(plan.actions.take(plan.actions.len() as int) =~= plan.actions);
        lemma_nothing_left(base, plan.actions, plan.actions.len() as int, i);
        assert(run.states[n]@.folders == folders);
    }
}

proof fn lemma_skipped_tally(steps: Seq<Step>)
    requires
        forall|i: int|
            0 <= i < steps.len() ==> (#[trigger] steps[i]) == Step::Ran(
                Ok(MoveOutcome::AlreadyDone),
            ),
    ensures
        tally(steps, was_moved()) == 0,
        tally(steps, was_skipped()) == steps.len(),
    decreases steps.len(),
{
    if steps.len() > 0 {
        assert forall|i: int| 0 <= i < steps.drop_last().len() implies (
        #[trigger] steps.drop_last()[i]) == Step::Ran(Ok(MoveOutcome::AlreadyDone)) by {
            assert(steps.drop_last()[i] == steps[i]);
        }
        lemma_skipped_tally(steps.drop_last());
        assert(steps.last() == steps[steps.len() - 1]);
    }
}

} // verus!
