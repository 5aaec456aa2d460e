//! What holds of a broker over any number of operations.

use vstd::prelude::*;

use crate::broker_laws::{
    law_poll_hands_out_a_waiting_task, law_recovery_forgets_no_task, law_resume_keys_differ,
    resumable,
};
use crate::envelope::{ReportView, TaskStatus, TaskView, resume_key_chars};
use crate::error::ErrorView;
use crate::limiter::LimiterView;
use crate::model::{BrokerView, lemma_first_ready, recovered_broker};
use crate::queue::queue_of;
use crate::schedule::lemma_schedule_contains;
use crate::task_laws::{
    law_checkpoint_records_the_report, law_failure_records_the_report,
    law_poll_hands_out_the_task_as_it_was, law_recovery_keeps_tasks, same_request, same_work,
};
use crate::usd::UsdView;

verus! {

/// An operation on a broker, with what was given to it and what chance and the
/// clock added.
pub enum Step {
    Poll { model: Seq<char>, now: int },
    Checkpoint { id: u128, report: ReportView, now: int, key_id: u128 },
    Complete { id: u128, output: Seq<char>, tokens_used: u32, cost_usd: UsdView, now: int },
    Fail { id: u128, error: Seq<char>, tokens_used: u32, cost_usd: UsdView, now: int },
    Resume { id: u128, key: Seq<char>, now: int },
    Settle { task: TaskView, saved: Result<(), Seq<char>> },
    Submit { task: TaskView, saved: Result<(), Seq<char>> },
    Sweep { now: int },
    /// A change of the limiter alone, as a new limit is.
    Relimit { limiter: LimiterView },
}

impl Step {
    /// The broker after the operation.
    pub open spec fn apply(self, b: BrokerView) -> BrokerView {
        match self {
            Step::Poll { model, now } => b.polled(model, now),
            Step::Checkpoint { id, report, now, key_id } => b.checkpointed(id, report, now, key_id),
            Step::Complete { id, output, tokens_used, cost_usd, now } => b.completed(
                id,
                output,
                tokens_used,
                cost_usd,
                now,
            ),
            Step::Fail { id, error, tokens_used, cost_usd, now } => b.failed(
                id,
                error,
                tokens_used,
                cost_usd,
                now,
            ),
            Step::Resume { id, key, now } => b.resumed(id, key, now),
            Step::Settle { task, saved } => b.settled(task, saved),
            Step::Submit { task, saved } => b.submitted(task, saved),
            Step::Sweep { now } => b.swept(now),
            Step::Relimit { limiter } => BrokerView { limiter, ..b },
        }
    }

    /// Whether the operation submits a task under the given identifier.
    pub open spec fn submits(self, id: u128) -> bool {
        self matches Step::Submit { task, .. } && task.task_id == id
    }

    /// Whether the operation fails the given task.
    pub open spec fn fails(self, id: u128) -> bool {
        self matches Step::Fail { id: x, .. } && x == id
    }

    /// Whether the operation resumes the given task, or tries to.
    pub open spec fn resumes(self, id: u128) -> bool {
        self matches Step::Resume { id: x, .. } && x == id
    }

    /// Whether the operation is a report of a worker on the given task.
    pub open spec fn reports(self, id: u128) -> bool {
        match self {
            Step::Checkpoint { id: x, .. } => x == id,
            Step::Complete { id: x, .. } => x == id,
            Step::Fail { id: x, .. } => x == id,
            _ => false,
        }
    }

    /// Whether the operation asks to pause the given task under the given key.
    pub open spec fn issues(self, id: u128, key: Seq<char>) -> bool {
        self matches Step::Checkpoint { id: x, report, key_id, .. } && x == id
            && report.pause_request && resume_key_chars(key_id) == key
    }

    /// Whether the operation reports on the given task with the given identifier drawn
    /// for a key.
    pub open spec fn draws(self, id: u128, key_id: u128) -> bool {
        self matches Step::Checkpoint { id: x, key_id: k, .. } && x == id && k == key_id
    }
}

/// A broker after a history of operations.
pub open spec fn after(b: BrokerView, steps: Seq<Step>) -> BrokerView
    decreases steps.len(),
{
    if steps.len() == 0 {
        b
    } else {
        steps.last().apply(after(b, steps.drop_last()))
    }
}

/// How often a history fails a task.
pub open spec fn failures(steps: Seq<Step>, id: u128) -> nat
    decreases steps.len(),
{
    if steps.len() == 0 {
        0
    } else if steps.last().fails(id) {
        failures(steps.drop_last(), id) + 1
    } else {
        failures(steps.drop_last(), id)
    }
}

/// The models of a task from the current one on.
pub open spec fn route(t: TaskView) -> Seq<Seq<char>> {
    seq![t.current_model] + t.fallback_models
}

/// Whether a task has come from one state to another by using up fallback models,
/// `used` of them.
pub open spec fn moved_on(from: TaskView, to: TaskView, used: int) -> bool {
    &&& 0 <= used <= from.fallback_models.len()
    &&& to.trace_depth == from.trace_depth + used
    &&& route(to) == route(from).skip(used)
}

/// Each task stays filed under its own identifier, and each paused task keeps its key.
proof fn lemma_step_keeps_invariants(b: BrokerView, step: Step)
    requires
        b.filed(),
    ensures
        step.apply(b).filed(),
        resumable(b) && !(step matches Step::Submit { task, .. } && task.status
            == TaskStatus::Paused) ==> resumable(step.apply(b)),
{
    if let Step::Poll { model, now } = step {
        lemma_first_ready(b, model, b.offers(model), now);
    }
}

/// A history keeps each task filed under its own identifier.
proof fn lemma_after_filed(b: BrokerView, steps: Seq<Step>)
    requires
        b.filed(),
    ensures
        after(b, steps).filed(),
    decreases steps.len(),
{
    if steps.len() > 0 {
        lemma_after_filed(b, steps.drop_last());
        lemma_step_keeps_invariants(after(b, steps.drop_last()), steps.last());
    }
}

/// Whatever happens to a broker, each task is filed under its own identifier, and
/// each paused task has a key with which it can be resumed.
pub proof fn law_invariants_always_hold(b: BrokerView, steps: Seq<Step>)
    requires
        b.filed(),
        resumable(b),
        forall|i: int|
            0 <= i < steps.len() ==> !((#[trigger] steps[i]) matches Step::Submit { task, .. }
                && task.status == TaskStatus::Paused),
    ensures
        after(b, steps).filed(),
        resumable(after(b, steps)),
    decreases steps.len(),
{
    if steps.len() > 0 {
        let rest = steps.drop_last();
        assert forall|i: int| 0 <= i < rest.len() implies !((
        #[trigger] rest[i]) matches Step::Submit { task, .. } && task.status
            == TaskStatus::Paused) by {
            assert(rest[i] == steps[i]);
        }
        law_invariants_always_hold(b, rest);
        assert(steps[steps.len() - 1] == steps.last());
        lemma_step_keeps_invariants(after(b, rest), steps.last());
    }
}

/// A task that does not wait is handed out to no worker of any model at any time.
pub proof fn law_only_waiting_tasks_are_handed_out(
    b: BrokerView,
    id: u128,
    model: Seq<char>,
    now: int,
)
    requires
        b.tasks.contains_key(id) ==> b.tasks[id].status != TaskStatus::Pending,
    ensures
        b.next_task(model, now) != Some(id),
{
    let order = b.offers(model);
    lemma_first_ready(b, model, order, now);
    if b.next_task(model, now) == Some(id) {
        assert(order.contains(id));
        lemma_schedule_contains(b.tasks, queue_of(b.queues, model).waiting(), id);
    }
}

/// A task that does not wait goes on not waiting until it is failed, resumed or
/// submitted.
pub proof fn law_only_failing_and_resuming_put_back(b: BrokerView, step: Step, id: u128)
    requires
        b.filed(),
        b.tasks.contains_key(id) ==> b.tasks[id].status != TaskStatus::Pending,
        !step.fails(id),
        !step.resumes(id),
        !step.submits(id),
    ensures
        step.apply(b).tasks.contains_key(id) ==> step.apply(b).tasks[id].status
            != TaskStatus::Pending,
{
    if let Step::Poll { model, now } = step {
        lemma_first_ready(b, model, b.offers(model), now);
    }
}

/// A task that does not wait, through a history that does not put it back.
proof fn lemma_not_put_back(b: BrokerView, steps: Seq<Step>, id: u128)
    requires
        b.filed(),
        b.tasks.contains_key(id) ==> b.tasks[id].status != TaskStatus::Pending,
        forall|i: int|
            0 <= i < steps.len() ==> !(#[trigger] steps[i]).fails(id) && !steps[i].resumes(id)
                && !steps[i].submits(id),
    ensures
        after(b, steps).tasks.contains_key(id) ==> after(b, steps).tasks[id].status
            != TaskStatus::Pending,
    decreases steps.len(),
{
    if steps.len() > 0 {
        let rest = steps.drop_last();
        assert forall|i: int| 0 <= i < rest.len() implies !(#[trigger] rest[i]).fails(id)
            && !rest[i].resumes(id) && !rest[i].submits(id) by {
            assert(rest[i] == steps[i]);
        }
        lemma_not_put_back(b, rest, id);
        lemma_after_filed(b, rest);
        assert(steps[steps.len() - 1] == steps.last());
        law_only_failing_and_resuming_put_back(after(b, rest), steps.last(), id);
    }
}

/// No task is delivered twice without being put back: after a task was handed out,
/// whatever happens short of failing it, resuming it or submitting one under its
/// identifier, no worker of any model is handed it again.
pub proof fn law_no_double_delivery(
    b: BrokerView,
    model: Seq<char>,
    now: int,
    id: u128,
    steps: Seq<Step>,
    other_model: Seq<char>,
    later: int,
)
    requires
        b.filed(),
        b.next_task(model, now) == Some(id),
        forall|i: int|
            0 <= i < steps.len() ==> !(#[trigger] steps[i]).fails(id) && !steps[i].resumes(id)
                && !steps[i].submits(id),
    ensures
        after(b.polled(model, now), steps).next_task(other_model, later) != Some(id),
{
    let handed_out = b.polled(model, now);
    lemma_step_keeps_invariants(b, Step::Poll { model, now });
    lemma_not_put_back(handed_out, steps, id);
    law_only_waiting_tasks_are_handed_out(after(handed_out, steps), id, other_model, later);
}

/// Only failing a task moves it along its route, by one model while it has a
/// fallback left, and no operation but a submission makes a task known.
pub proof fn law_step_keeps_route(b: BrokerView, step: Step, id: u128)
    requires
        b.filed(),
        !step.submits(id),
        step.apply(b).tasks.contains_key(id),
        b.tasks.contains_key(id) && b.tasks[id].fallback_models.len() > 0
            ==> b.tasks[id].trace_depth < u32::MAX,
    ensures
        b.tasks.contains_key(id),
        moved_on(
            b.tasks[id],
            step.apply(b).tasks[id],
            if step.fails(id) && b.tasks[id].fallback_models.len() > 0 {
                1
            } else {
                0
            },
        ),
{
    if let Step::Poll { model, now } = step {
        lemma_first_ready(b, model, b.offers(model), now);
    }
    let from = b.tasks[id];
    let to = step.apply(b).tasks[id];
    if step.fails(id) && from.fallback_models.len() > 0 {
        assert(route(to) =~= route(from).skip(1));
    } else {
        assert(route(to) =~= route(from).skip(0));
    }
}

/// Over its life a task uses its fallback models in turn, one for each failure until
/// none is left: the depth of its trace and the fallback models left always add up to
/// the same, and its current model with those left is the end of the list that it
/// started with. With none left, the next failure is final.
pub proof fn law_fallbacks_over_a_life(b: BrokerView, steps: Seq<Step>, id: u128)
    requires
        b.filed(),
        b.tasks.contains_key(id),
        b.tasks[id].trace_depth + b.tasks[id].fallback_models.len() <= u32::MAX,
        forall|i: int| 0 <= i < steps.len() ==> !(#[trigger] steps[i]).submits(id),
        after(b, steps).tasks.contains_key(id),
    ensures
        ({
            let from = b.tasks[id];
            let to = after(b, steps).tasks[id];
            let n = failures(steps, id);
            &&& moved_on(
                from,
                to,
                if n < from.fallback_models.len() {
                    n as int
                } else {
                    from.fallback_models.len() as int
                },
            )
            &&& to.trace_depth + to.fallback_models.len() == from.trace_depth
                + from.fallback_models.len()
            &&& n >= from.fallback_models.len() ==> forall|
                error: Seq<char>,
                tokens_used: u32,
                cost_usd: UsdView,
                now: int,
            | (#[trigger] to.failed_over(error, tokens_used, cost_usd, now)).status
                == TaskStatus::Failed
        }),
    decreases steps.len(),
{
    let from = b.tasks[id];
    let to = after(b, steps).tasks[id];
    if steps.len() == 0 {
        assert(route(to) =~= route(from).skip(0));
    } else {
        let rest = steps.drop_last();
        let before = after(b, rest);
        let step = steps.last();
        assert forall|i: int| 0 <= i < rest.len() implies !(#[trigger] rest[i]).submits(id) by {
            assert(rest[i] == steps[i]);
        }
        assert(steps[steps.len() - 1] == step);
        lemma_after_filed(b, rest);
        lemma_known_before(before, step, id);
        law_fallbacks_over_a_life(b, rest, id);
        law_step_keeps_route(before, step, id);
        let n = failures(rest, id);
        let used = if n < from.fallback_models.len() {
            n as int
        } else {
            from.fallback_models.len() as int
        };
        let more: int = if step.fails(id) && before.tasks[id].fallback_models.len() > 0 {
            1
        } else {
            0
        };
        assert(route(before.tasks[id]).len() == route(from).len() - used);
        assert(route(from).skip(used).skip(more) =~= route(from).skip(used + more));
        assert(route(to).len() == route(from).len() - used - more);
    }
}

/// No operation but a submission makes a task known.
proof fn lemma_known_before(b: BrokerView, step: Step, id: u128)
    requires
        b.filed(),
        !step.submits(id),
        step.apply(b).tasks.contains_key(id),
    ensures
        b.tasks.contains_key(id),
{
    if let Step::Poll { model, now } = step {
        lemma_first_ready(b, model, b.offers(model), now);
    }
}

/// A submitted task, at any later time: as many of its models are behind it as its
/// trace is deep, and it goes through them in the order in which it was submitted.
pub proof fn law_submitted_route(b: BrokerView, task: TaskView, steps: Seq<Step>)
    requires
        b.filed(),
        task.trace_depth == 0,
        task.fallback_models.len() <= u32::MAX,
        forall|i: int| 0 <= i < steps.len() ==> !(#[trigger] steps[i]).submits(task.task_id),
        after(b.submitted(task, Ok(())), steps).tasks.contains_key(task.task_id),
    ensures
        ({
            let now = after(b.submitted(task, Ok(())), steps).tasks[task.task_id];
            &&& now.trace_depth + now.fallback_models.len() == task.fallback_models.len()
            &&& route(now) == route(task).skip(now.trace_depth as int)
        }),
{
    lemma_step_keeps_invariants(b, Step::Submit { task, saved: Ok(()) });
    law_fallbacks_over_a_life(b.submitted(task, Ok(())), steps, task.task_id);
}

/// A task whose key is not `key` does not come to have it unless a pause issues it.
proof fn lemma_key_not_issued(b: BrokerView, step: Step, id: u128, key: Seq<char>)
    requires
        b.filed(),
        b.tasks.contains_key(id) ==> b.tasks[id].resume_key != Some(key),
        !step.submits(id),
        !step.issues(id, key),
    ensures
        step.apply(b).tasks.contains_key(id) ==> step.apply(b).tasks[id].resume_key != Some(key),
{
    if let Step::Poll { model, now } = step {
        lemma_first_ready(b, model, b.offers(model), now);
    }
}

/// A key that was not issued again, over a history.
proof fn lemma_key_stays_away(b: BrokerView, steps: Seq<Step>, id: u128, key: Seq<char>)
    requires
        b.filed(),
        b.tasks.contains_key(id) ==> b.tasks[id].resume_key != Some(key),
        forall|i: int|
            0 <= i < steps.len() ==> !(#[trigger] steps[i]).submits(id) && !steps[i].issues(
                id,
                key,
            ),
    ensures
        after(b, steps).tasks.contains_key(id) ==> after(b, steps).tasks[id].resume_key != Some(
            key,
        ),
    decreases steps.len(),
{
    if steps.len() > 0 {
        let rest = steps.drop_last();
        assert forall|i: int| 0 <= i < rest.len() implies !(#[trigger] rest[i]).submits(id)
            && !rest[i].issues(id, key) by {
            assert(rest[i] == steps[i]);
        }
        lemma_key_stays_away(b, rest, id, key);
        lemma_after_filed(b, rest);
        assert(steps[steps.len() - 1] == steps.last());
        lemma_key_not_issued(after(b, rest), steps.last(), id, key);
    }
}

/// What a client is answered that resumes a task with a key that no longer is the
/// key of it.
pub open spec fn refusal_of_used_key(b: BrokerView, id: u128) -> ErrorView {
    if !b.tasks.contains_key(id) {
        ErrorView::TaskNotFound(id)
    } else if b.tasks[id].status == TaskStatus::Paused {
        ErrorView::InvalidResumeKey(id)
    } else {
        ErrorView::InvalidStatus {
            task_id: id,
            expected: "paused"@,
            actual: b.tasks[id].status,
        }
    }
}

/// A used key stays refused: once a task was resumed with a key, and as long as no
/// later pause of it issues the same, that key never resumes it again. While the task
/// is paused the key is wrong; otherwise there is nothing to resume.
pub proof fn law_used_key_stays_refused(
    b: BrokerView,
    id: u128,
    key: Seq<char>,
    now: int,
    steps: Seq<Step>,
    later: int,
)
    requires
        b.filed(),
        b.resume_answer(id, key, now) is Ok,
        forall|i: int|
            0 <= i < steps.len() ==> !(#[trigger] steps[i]).submits(id) && !steps[i].issues(
                id,
                key,
            ),
    ensures
        ({
            let then = after(b.resumed(id, key, now), steps);
            then.resume_answer(id, key, later) == Err::<TaskView, ErrorView>(
                refusal_of_used_key(then, id),
            )
        }),
{
    let resumed = b.resumed(id, key, now);
    lemma_step_keeps_invariants(b, Step::Resume { id, key, now });
    lemma_key_stays_away(resumed, steps, id, key);
}

/// A used key that was made from `a` stays refused as long as no later report on the
/// task comes with `a` drawn again.
pub proof fn law_drawn_key_stays_refused(
    b: BrokerView,
    id: u128,
    a: u128,
    now: int,
    steps: Seq<Step>,
    later: int,
)
    requires
        b.filed(),
        b.resume_answer(id, resume_key_chars(a), now) is Ok,
        forall|i: int|
            0 <= i < steps.len() ==> !(#[trigger] steps[i]).submits(id) && !steps[i].draws(id, a),
    ensures
        ({
            let then = after(b.resumed(id, resume_key_chars(a), now), steps);
            then.resume_answer(id, resume_key_chars(a), later) == Err::<TaskView, ErrorView>(
                refusal_of_used_key(then, id),
            )
        }),
{
    assert forall|i: int| 0 <= i < steps.len() implies !(#[trigger] steps[i]).submits(id)
        && !steps[i].issues(id, resume_key_chars(a)) by {
        if let Step::Checkpoint { key_id, .. } = steps[i] {
            if key_id != a {
                law_resume_keys_differ(key_id, a);
            }
        }
    }
    law_used_key_stays_refused(b, id, resume_key_chars(a), now, steps, later);
}

/// No operation but a submission changes what was asked for, and none but the report of a
/// worker changes the work on record.
proof fn lemma_step_keeps_request(b: BrokerView, step: Step, id: u128)
    requires
        b.filed(),
        !step.submits(id),
        step.apply(b).tasks.contains_key(id),
    ensures
        b.tasks.contains_key(id),
        same_request(step.apply(b).tasks[id], b.tasks[id]),
        !step.reports(id) ==> same_work(step.apply(b).tasks[id], b.tasks[id]),
{
    if let Step::Poll { model, now } = step {
        lemma_first_ready(b, model, b.offers(model), now);
    }
}

/// Whatever happens to a task, its prompt, its context, its budgets, its priority, its
/// time to live and the time of its submission stay as they were submitted.
pub proof fn law_request_never_changes(b: BrokerView, steps: Seq<Step>, id: u128)
    requires
        b.filed(),
        forall|i: int| 0 <= i < steps.len() ==> !(#[trigger] steps[i]).submits(id),
        after(b, steps).tasks.contains_key(id),
    ensures
        b.tasks.contains_key(id),
        same_request(after(b, steps).tasks[id], b.tasks[id]),
    decreases steps.len(),
{
    if steps.len() > 0 {
        let rest = steps.drop_last();
        assert forall|i: int| 0 <= i < rest.len() implies !(#[trigger] rest[i]).submits(id) by {
            assert(rest[i] == steps[i]);
        }
        assert(steps[steps.len() - 1] == steps.last());
        lemma_after_filed(b, rest);
        lemma_step_keeps_request(after(b, rest), steps.last(), id);
        law_request_never_changes(b, rest, id);
    }
}

/// What was submitted is what is worked on: at any later time the task is still the one
/// that the client submitted.
pub proof fn law_submitted_request_never_changes(b: BrokerView, task: TaskView, steps: Seq<Step>)
    requires
        b.filed(),
        forall|i: int| 0 <= i < steps.len() ==> !(#[trigger] steps[i]).submits(task.task_id),
        after(b.submitted(task, Ok(())), steps).tasks.contains_key(task.task_id),
    ensures
        same_request(after(b.submitted(task, Ok(())), steps).tasks[task.task_id], task),
{
    lemma_step_keeps_invariants(b, Step::Submit { task, saved: Ok(()) });
    law_request_never_changes(b.submitted(task, Ok(())), steps, task.task_id);
}

/// What a worker reported stays on record until the next report: tokens, cost and output
/// survive a pause, a resume, a poll and all else.
pub proof fn law_work_stays_on_record(b: BrokerView, steps: Seq<Step>, id: u128)
    requires
        b.filed(),
        forall|i: int|
            0 <= i < steps.len() ==> !(#[trigger] steps[i]).submits(id) && !steps[i].reports(id),
        after(b, steps).tasks.contains_key(id),
    ensures
        b.tasks.contains_key(id),
        same_work(after(b, steps).tasks[id], b.tasks[id]),
    decreases steps.len(),
{
    if steps.len() > 0 {
        let rest = steps.drop_last();
        assert forall|i: int| 0 <= i < rest.len() implies !(#[trigger] rest[i]).submits(id)
            && !rest[i].reports(id) by {
            assert(rest[i] == steps[i]);
        }
        assert(steps[steps.len() - 1] == steps.last());
        lemma_after_filed(b, rest);
        lemma_step_keeps_request(after(b, rest), steps.last(), id);
        law_work_stays_on_record(b, rest, id);
    }
}

/// A paused task comes back to a worker with what was checkpointed: whatever happens
/// between its pause and the poll that hands it out, short of another report on it, the
/// worker is handed the output, the tokens and the cost that were reported with the
/// pause.
pub proof fn law_checkpoint_survives_the_pause(
    b: BrokerView,
    id: u128,
    report: ReportView,
    now: int,
    key_id: u128,
    steps: Seq<Step>,
    model: Seq<char>,
    later: int,
)
    requires
        b.filed(),
        b.tasks.contains_key(id),
        b.tasks[id].status == TaskStatus::Processing,
        forall|i: int|
            0 <= i < steps.len() ==> !(#[trigger] steps[i]).submits(id) && !steps[i].reports(id),
        after(b.checkpointed(id, report, now, key_id), steps).next_task(model, later) == Some(id),
    ensures
        ({
            let t = after(b.checkpointed(id, report, now, key_id), steps).poll_answer(
                model,
                later,
            )->0;
            &&& t.output == (if report.output is Some {
                report.output
            } else {
                b.tasks[id].output
            })
            &&& t.tokens_used == report.tokens_used
            &&& t.cost_usd == report.cost_usd
            &&& same_request(t, b.tasks[id])
        }),
{
    let checkpointed = b.checkpointed(id, report, now, key_id);
    let then = after(checkpointed, steps);
    lemma_step_keeps_invariants(b, Step::Checkpoint { id, report, now, key_id });
    law_checkpoint_records_the_report(b, id, report, now, key_id);
    law_poll_hands_out_a_waiting_task(then, model, later, id);
    law_work_stays_on_record(checkpointed, steps, id);
    law_request_never_changes(checkpointed, steps, id);
    law_poll_hands_out_the_task_as_it_was(then, model, later, id);
}

/// A task that has spent more than it may is handed to no worker, whatever happens, until
/// a later report changes what it has spent.
pub proof fn law_overspent_task_is_never_handed_out(
    b: BrokerView,
    id: u128,
    steps: Seq<Step>,
    model: Seq<char>,
    now: int,
)
    requires
        b.filed(),
        b.tasks.contains_key(id) ==> b.tasks[id].cost_usd.exceeds(b.tasks[id].max_cost_usd),
        forall|i: int|
            0 <= i < steps.len() ==> !(#[trigger] steps[i]).submits(id) && !steps[i].reports(id),
    ensures
        after(b, steps).next_task(model, now) != Some(id),
{
    let then = after(b, steps);
    if then.next_task(model, now) == Some(id) {
        law_poll_hands_out_a_waiting_task(then, model, now, id);
        law_work_stays_on_record(b, steps, id);
        law_request_never_changes(b, steps, id);
    }
}

/// A task that was failed at a cost above its limit is handed to no worker, of its next
/// model or any other, until a later report changes what it has spent.
pub proof fn law_failed_over_cost_is_never_handed_out(
    b: BrokerView,
    id: u128,
    error: Seq<char>,
    tokens_used: u32,
    cost_usd: UsdView,
    now: int,
    steps: Seq<Step>,
    model: Seq<char>,
    later: int,
)
    requires
        b.filed(),
        b.tasks.contains_key(id),
        b.tasks[id].fallback_models.len() > 0 ==> b.tasks[id].trace_depth < u32::MAX,
        cost_usd.exceeds(b.tasks[id].max_cost_usd),
        forall|i: int|
            0 <= i < steps.len() ==> !(#[trigger] steps[i]).submits(id) && !steps[i].reports(id),
    ensures
        after(b.failed(id, error, tokens_used, cost_usd, now), steps).next_task(model, later)
            != Some(id),
{
    lemma_step_keeps_invariants(b, Step::Fail { id, error, tokens_used, cost_usd, now });
    law_failure_records_the_report(b, id, error, tokens_used, cost_usd, now);
    law_overspent_task_is_never_handed_out(
        b.failed(id, error, tokens_used, cost_usd, now),
        id,
        steps,
        model,
        later,
    );
}

/// A restart does not touch the route of a task: a running task that waits again goes on
/// through the models that it had left, one for each failure.
pub proof fn law_fallbacks_go_on_after_a_restart(
    limiter: LimiterView,
    stored: Seq<TaskView>,
    now: int,
    i: int,
    steps: Seq<Step>,
)
    requires
        0 <= i < stored.len(),
        forall|j: int|
            0 <= j < stored.len() && j != i ==> (#[trigger] stored[j]).task_id
                != stored[i].task_id,
        stored[i].trace_depth + stored[i].fallback_models.len() <= u32::MAX,
        forall|j: int| 0 <= j < steps.len() ==> !(#[trigger] steps[j]).submits(stored[i].task_id),
        after(recovered_broker(limiter, stored, now), steps).tasks.contains_key(stored[i].task_id),
    ensures
        route(recovered_broker(limiter, stored, now).tasks[stored[i].task_id]) == route(stored[i]),
        ({
            let then = after(recovered_broker(limiter, stored, now), steps).tasks[stored[i].task_id];
            let n = failures(steps, stored[i].task_id);
            let left = stored[i].fallback_models.len();
            &&& moved_on(
                stored[i],
                then,
                if n < left {
                    n as int
                } else {
                    left as int
                },
            )
            &&& same_request(then, stored[i])
        }),
{
    let b = recovered_broker(limiter, stored, now);
    law_recovery_forgets_no_task(limiter, stored, now);
    law_recovery_keeps_tasks(limiter, stored, now, i);
    law_fallbacks_over_a_life(b, steps, stored[i].task_id);
    law_request_never_changes(b, steps, stored[i].task_id);
}

} // verus!
