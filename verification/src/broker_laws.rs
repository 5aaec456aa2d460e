//! Laws of the broker: what holds of every poll, what one operation undoes of
//! another, and what all of them keep.

use vstd::prelude::*;

use crate::clock::{reading, seconds};
use crate::envelope::{ReportView, TaskStatus, TaskView, resume_key_chars};
use crate::error::ErrorView;
use crate::ids::lemma_simple_chars_injective;
use crate::limiter::{LimiterView, within};
use crate::limiter_laws::law_admitted_stays_within_limit;
use crate::model::{
    BrokerView, DeliveryView, RETENTION_SECS, lemma_first_ready, recovered_broker,
    recovered_queue, recovered_tasks, still_waiting, waits,
};
use crate::queue::{QueueView, queue_of, sent_to};
use crate::schedule::{
    lemma_schedule_contains, lemma_schedule_fair, lemma_schedule_keeps_all, lemma_schedule_sorted,
};
use crate::usd::UsdView;

verus! {

/// A task that is handed out waited in the queue, was within its cost limit and
/// its time to live, and was admitted by the limiter. From then on it is in the
/// hands of a worker.
pub proof fn law_poll_hands_out_a_waiting_task(b: BrokerView, model: Seq<char>, now: int, id: u128)
    requires
        b.next_task(model, now) == Some(id),
    ensures
        queue_of(b.queues, model).waiting().contains(id),
        b.tasks.contains_key(id),
        b.tasks[id].status == TaskStatus::Pending,
        !b.tasks[id].over_budget(),
        !b.tasks[id].expired(now),
        b.limiter.admits(model, b.tasks[id].token_budget, now),
        b.polled(model, now).tasks[id].status == TaskStatus::Processing,
        b.poll_answer(model, now) == Some(b.polled(model, now).tasks[id]),
{
    let order = b.offers(model);
    lemma_first_ready(b, model, order, now);
    assert(order.contains(id));
    lemma_schedule_contains(b.tasks, queue_of(b.queues, model).waiting(), id);
}

/// No task blocks the tasks behind it: as long as any task in the queue of a model
/// can be handed out, a worker that asks is handed one.
pub proof fn law_no_head_of_line_blocking(b: BrokerView, model: Seq<char>, now: int, id: u128)
    requires
        queue_of(b.queues, model).waiting().contains(id),
        b.ready(model, id, now),
    ensures
        b.next_task(model, now) is Some,
        b.poll_answer(model, now) is Some,
{
    let order = b.offers(model);
    lemma_first_ready(b, model, order, now);
    lemma_schedule_contains(b.tasks, queue_of(b.queues, model).waiting(), id);
    let j = choose|j: int| 0 <= j < order.len() && order[j] == id;
    assert(b.ready(model, order[j], now));
}

/// The task handed out is the first in turn of those that can be: no other that
/// can be handed out has a higher priority, or the same priority and an earlier
/// submission.
pub proof fn law_poll_respects_priority(
    b: BrokerView,
    model: Seq<char>,
    now: int,
    id: u128,
    other: u128,
)
    requires
        b.next_task(model, now) == Some(id),
        queue_of(b.queues, model).waiting().contains(other),
        b.ready(model, other, now),
    ensures
        b.tasks[other].priority <= b.tasks[id].priority,
        b.tasks[other].priority == b.tasks[id].priority
            ==> !b.tasks[other].created_at.before(b.tasks[id].created_at),
{
    let waiting = queue_of(b.queues, model).waiting();
    let order = b.offers(model);
    let k = b.first_ready(model, order, now);
    lemma_first_ready(b, model, order, now);
    lemma_schedule_contains(b.tasks, waiting, other);
    let j = choose|j: int| 0 <= j < order.len() && order[j] == other;
    assert(b.ready(model, order[j], now));
    assert(k <= j);
    if k < j {
        lemma_schedule_sorted(b.tasks, waiting, k, j);
    }
}

/// What is handed out keeps to the limit of the model: with the new task, the
/// requests and tokens that count are within it.
pub proof fn law_poll_keeps_to_the_limit(b: BrokerView, model: Seq<char>, now: int, id: u128)
    requires
        b.next_task(model, now) == Some(id),
        b.limiter.limits.contains_key(model),
    ensures
        within(b.polled(model, now).limiter.active(model, now), b.limiter.limits[model]),
        b.polled(model, now).limiter.active(model, now).len() == b.limiter.active(model, now).len()
            + 1,
{
    law_poll_hands_out_a_waiting_task(b, model, now, id);
    law_admitted_stays_within_limit(b.limiter, model, id, b.tasks[id].token_budget, now);
}

/// An element of a list, taken apart in front of and behind a place, is on one of
/// the two sides or in the place.
proof fn lemma_sides(order: Seq<u128>, k: int, j: int)
    requires
        0 <= k < order.len(),
        0 <= j < order.len(),
    ensures
        order.take(k).contains(order[j]) || order[j] == order[k] || order.skip(k + 1).contains(
            order[j],
        ),
{
    if j < k {
        assert(order.take(k)[j] == order[j]);
    } else if j > k {
        assert(order.skip(k + 1)[j - k - 1] == order[j]);
    }
}

/// What still waits of the tasks passed is kept.
proof fn lemma_still_waiting_contains(
    tasks: Map<u128, TaskView>,
    ids: Seq<u128>,
    now: int,
    id: u128,
)
    requires
        ids.contains(id),
        waits(tasks, id, now),
    ensures
        still_waiting(tasks, ids, now).contains(id),
{
    let i = choose|i: int| 0 <= i < ids.len() && ids[i] == id;
    ids.lemma_filter_contains(|x: u128| waits(tasks, x, now), i);
}

/// A list contains what either of its parts contains.
proof fn lemma_contains_add(a: Seq<u128>, b: Seq<u128>, id: u128)
    ensures
        (a + b).contains(id) <==> a.contains(id) || b.contains(id),
{
    if a.contains(id) {
        let i = choose|i: int| 0 <= i < a.len() && a[i] == id;
        assert((a + b)[i] == id);
    }
    if b.contains(id) {
        let i = choose|i: int| 0 <= i < b.len() && b[i] == id;
        assert((a + b)[a.len() + i] == id);
    }
}

/// A poll passes over tasks without losing them: every task of the queue that goes
/// on waiting after the poll is still in the queue.
pub proof fn law_poll_keeps_waiting_tasks(b: BrokerView, model: Seq<char>, now: int, id: u128)
    requires
        queue_of(b.queues, model).waiting().contains(id),
        b.tasks.contains_key(id),
        b.polled(model, now).tasks[id].status == TaskStatus::Pending,
    ensures
        queue_of(b.polled(model, now).queues, model).waiting().contains(id),
{
    if b.queues.contains_key(model) {
        let order = b.offers(model);
        let k = b.first_ready(model, order, now);
        let passed = order.take(k);
        let kept = still_waiting(b.tasks, passed, now);
        lemma_first_ready(b, model, order, now);
        lemma_schedule_contains(b.tasks, queue_of(b.queues, model).waiting(), id);
        let j = choose|j: int| 0 <= j < order.len() && order[j] == id;
        let deferred = queue_of(b.polled(model, now).queues, model).deferred;
        assert(queue_of(b.polled(model, now).queues, model).waiting() =~= deferred);
        if k < order.len() {
            lemma_sides(order, k, j);
            lemma_contains_add(kept, order.skip(k + 1), id);
        } else {
            assert(passed =~= order);
        }
        if passed.contains(id) {
            lemma_still_waiting_contains(b.tasks, passed, now, id);
        }
    }
}

/// A poll of one model leaves the queues of all other models alone, and every task
/// that is not in its own queue.
pub proof fn law_poll_touches_one_queue(
    b: BrokerView,
    model: Seq<char>,
    now: int,
    other_model: Seq<char>,
    id: u128,
)
    requires
        other_model != model,
        b.tasks.contains_key(id),
        !queue_of(b.queues, model).waiting().contains(id),
    ensures
        queue_of(b.polled(model, now).queues, other_model) == queue_of(b.queues, other_model),
        b.polled(model, now).tasks.contains_key(id),
        b.polled(model, now).tasks[id] == b.tasks[id],
{
    let order = b.offers(model);
    let k = b.first_ready(model, order, now);
    lemma_first_ready(b, model, order, now);
    lemma_schedule_contains(b.tasks, queue_of(b.queues, model).waiting(), id);
    if order.take(k).contains(id) {
        let j = choose|j: int| 0 <= j < order.take(k).len() && order.take(k)[j] == id;
        assert(order[j] == id);
    }
    if k < order.len() {
        assert(order.contains(order[k]));
    }
}

/// A waiting task that has spent too much or has expired is never handed out; a
/// poll that hands out nothing has failed every such task of the queue.
pub proof fn law_doomed_tasks_fail(b: BrokerView, model: Seq<char>, now: int, id: u128)
    requires
        queue_of(b.queues, model).waiting().contains(id),
        b.tasks.contains_key(id),
        b.tasks[id].status == TaskStatus::Pending,
        b.tasks[id].doomed(now),
    ensures
        b.next_task(model, now) != Some(id),
        b.next_task(model, now) is None ==> b.polled(model, now).tasks[id]
            == b.tasks[id].invalidated(now) && b.polled(model, now).tasks[id].status
            == TaskStatus::Failed,
{
    let order = b.offers(model);
    let k = b.first_ready(model, order, now);
    lemma_first_ready(b, model, order, now);
    lemma_schedule_contains(b.tasks, queue_of(b.queues, model).waiting(), id);
    if b.next_task(model, now) is None {
        assert(order.take(k) =~= order);
    }
}

/// A worker that pauses a task gets a key with which the task can be resumed, and
/// the task then waits again as it did, for the same model.
pub proof fn law_resume_undoes_pause(
    b: BrokerView,
    id: u128,
    report: ReportView,
    now: int,
    key_id: u128,
    later: int,
)
    requires
        b.filed(),
        b.tasks.contains_key(id),
        b.tasks[id].status == TaskStatus::Processing,
        report.pause_request,
        !report.cost_usd.exceeds(b.tasks[id].max_cost_usd),
    ensures
        ({
            let paused = b.checkpointed(id, report, now, key_id);
            let key = resume_key_chars(key_id);
            &&& paused.tasks[id].status == TaskStatus::Paused
            &&& paused.tasks[id].resume_key == Some(key)
            &&& paused.resume_answer(id, key, later) is Ok
            &&& paused.resumed(id, key, later).tasks[id].status == TaskStatus::Pending
            &&& paused.resumed(id, key, later).tasks[id].resume_key is None
            &&& paused.resumed(id, key, later).tasks[id].current_model == b.tasks[id].current_model
        }),
{
}

/// A paused task is resumed with its own key only: any other is refused, and
/// nothing changes.
pub proof fn law_wrong_key_is_refused(b: BrokerView, id: u128, key: Seq<char>, now: int)
    requires
        b.tasks.contains_key(id),
        b.tasks[id].status == TaskStatus::Paused,
        b.tasks[id].resume_key != Some(key),
    ensures
        b.resume_answer(id, key, now) == Err::<TaskView, ErrorView>(
            ErrorView::InvalidResumeKey(id),
        ),
        b.resumed(id, key, now) == b,
{
}

/// A key works once: a task that was resumed cannot be resumed again with it.
pub proof fn law_key_works_once(b: BrokerView, id: u128, key: Seq<char>, now: int, later: int)
    requires
        b.resume_answer(id, key, now) is Ok,
    ensures
        b.resumed(id, key, now).resume_answer(id, key, later) == Err::<TaskView, ErrorView>(
            ErrorView::InvalidStatus {
                task_id: id,
                expected: "paused"@,
                actual: TaskStatus::Pending,
            },
        ),
{
}

/// Keys made from different identifiers differ.
pub proof fn law_resume_keys_differ(a: u128, b: u128)
    requires
        a != b,
    ensures
        resume_key_chars(a) != resume_key_chars(b),
{
    let prefix = "x-resume-"@;
    if resume_key_chars(a) == resume_key_chars(b) {
        assert(resume_key_chars(a).skip(prefix.len() as int) =~= crate::ids::simple_chars(a));
        assert(resume_key_chars(b).skip(prefix.len() as int) =~= crate::ids::simple_chars(b));
        lemma_simple_chars_injective(a, b);
    }
}

/// Whether every paused task can be resumed: it has a key.
pub open spec fn resumable(b: BrokerView) -> bool {
    forall|id: u128| #[trigger]
        b.tasks.contains_key(id) && b.tasks[id].status == TaskStatus::Paused
            ==> b.tasks[id].resume_key is Some
}

/// No operation leaves a paused task without its key.
pub proof fn law_paused_tasks_keep_their_keys(
    b: BrokerView,
    model: Seq<char>,
    id: u128,
    report: ReportView,
    text: Seq<char>,
    task: TaskView,
    saved: Result<(), Seq<char>>,
    now: int,
    key_id: u128,
)
    requires
        b.filed(),
        resumable(b),
        task.status != TaskStatus::Paused,
    ensures
        resumable(b.polled(model, now)),
        resumable(b.checkpointed(id, report, now, key_id)),
        resumable(b.completed(id, text, report.tokens_used, report.cost_usd, now)),
        resumable(b.failed(id, text, report.tokens_used, report.cost_usd, now)),
        resumable(b.resumed(id, text, now)),
        resumable(b.settled(task, saved)),
        resumable(b.submitted(task, saved)),
        resumable(b.swept(now)),
{
    lemma_first_ready(b, model, b.offers(model), now);
}

/// A failed task falls back as long as it can: it then waits for the first of its
/// fallback models, which leaves the list, and its trace is one deeper. With none
/// left it has failed. The depth of the trace and the fallback models left always
/// add up to the same.
pub proof fn law_fallbacks_are_used_in_turn(
    t: TaskView,
    error: Seq<char>,
    tokens_used: u32,
    cost_usd: UsdView,
    now: int,
)
    requires
        t.trace_depth < u32::MAX,
    ensures
        ({
            let after = t.failed_over(error, tokens_used, cost_usd, now);
            if t.fallback_models.len() > 0 {
                &&& after.status == TaskStatus::Pending
                &&& t.fallback_models == seq![after.current_model] + after.fallback_models
                &&& after.trace_depth == t.trace_depth + 1
                &&& after.trace_depth + after.fallback_models.len() == t.trace_depth
                    + t.fallback_models.len()
            } else {
                &&& after.status == TaskStatus::Failed
                &&& after.current_model == t.current_model
                &&& after.trace_depth == t.trace_depth
            }
        }),
{
    if t.fallback_models.len() > 0 {
        let after = t.failed_over(error, tokens_used, cost_usd, now);
        assert(t.fallback_models =~= seq![after.current_model] + after.fallback_models);
    }
}

/// Whether no waiting task is forgotten: each is in the queue of its model.
pub open spec fn attended(b: BrokerView) -> bool {
    forall|id: u128| #[trigger]
        b.tasks.contains_key(id) && b.tasks[id].status == TaskStatus::Pending ==> queue_of(
            b.queues,
            b.tasks[id].current_model,
        ).waiting().contains(id)
}

/// A task sent to a queue leaves in place all that waits, and waits itself if the
/// queue had room.
proof fn lemma_sent_to_waiting(
    queues: Map<Seq<char>, QueueView>,
    model: Seq<char>,
    task_id: u128,
    other_model: Seq<char>,
    id: u128,
)
    ensures
        queue_of(queues, other_model).waiting().contains(id) ==> queue_of(
            sent_to(queues, model, task_id),
            other_model,
        ).waiting().contains(id),
        queue_of(queues, model).has_room() ==> queue_of(
            sent_to(queues, model, task_id),
            model,
        ).waiting().contains(task_id),
{
    let before = queue_of(queues, model);
    let after = queue_of(sent_to(queues, model, task_id), model);
    if before.has_room() {
        assert(after.sent[before.sent.len() as int] == task_id);
        lemma_contains_add(after.deferred, after.sent, task_id);
        assert(after.sent.contains(task_id));
        if other_model == model && before.waiting().contains(id) {
            lemma_contains_add(before.deferred, before.sent, id);
            lemma_contains_add(after.deferred, after.sent, id);
            if before.sent.contains(id) {
                let i = choose|i: int| 0 <= i < before.sent.len() && before.sent[i] == id;
                assert(after.sent[i] == id);
            }
        }
    }
}

/// A task that waits, once it is written and its queue had room, is there for a
/// worker: one that asks is handed a task, as soon as the limiter admits this one
/// and unless it has spent too much or has expired. Where the queue had no room,
/// nothing changes and the task is to be settled again.
pub proof fn law_settled_task_can_be_picked_up(b: BrokerView, task: TaskView, now: int)
    requires
        b.tasks.contains_pair(task.task_id, task),
        task.status == TaskStatus::Pending,
    ensures
        ({
            let after = b.settled(task, Ok(()));
            if queue_of(b.queues, task.current_model).has_room() {
                &&& b.settle_answer(task, Ok(())) == Ok::<DeliveryView, ErrorView>(
                    DeliveryView::Done(task),
                )
                &&& queue_of(after.queues, task.current_model).waiting().contains(task.task_id)
                &&& !task.doomed(now) && b.limiter.admits(
                    task.current_model,
                    task.token_budget,
                    now,
                ) ==> after.poll_answer(task.current_model, now) is Some
            } else {
                &&& b.settle_answer(task, Ok(())) == Ok::<DeliveryView, ErrorView>(
                    DeliveryView::QueueFull(task),
                )
                &&& after == b
            }
        }),
{
    let after = b.settled(task, Ok(()));
    if queue_of(b.queues, task.current_model).has_room() {
        lemma_sent_to_waiting(
            b.queues,
            task.current_model,
            task.task_id,
            task.current_model,
            task.task_id,
        );
        if after.ready(task.current_model, task.task_id, now) {
            law_no_head_of_line_blocking(after, task.current_model, now, task.task_id);
        }
    }
}

/// A queue that is full takes tasks again as soon as a worker has asked for one.
pub proof fn law_poll_makes_room(b: BrokerView, model: Seq<char>, now: int)
    ensures
        queue_of(b.polled(model, now).queues, model).has_room(),
{
}

/// No poll forgets a waiting task.
pub proof fn law_poll_forgets_no_task(b: BrokerView, model: Seq<char>, now: int)
    requires
        attended(b),
    ensures
        attended(b.polled(model, now)),
{
    let after = b.polled(model, now);
    let order = b.offers(model);
    let k = b.first_ready(model, order, now);
    lemma_first_ready(b, model, order, now);
    assert forall|id: u128| #[trigger]
        after.tasks.contains_key(id) && after.tasks[id].status == TaskStatus::Pending implies queue_of(
        after.queues,
        after.tasks[id].current_model,
    ).waiting().contains(id) by {
        assert(b.tasks.contains_key(id));
        assert(after.tasks[id] == b.tasks[id]);
        if b.tasks[id].current_model == model {
            law_poll_keeps_waiting_tasks(b, model, now, id);
        }
    }
}

/// No sweep forgets a waiting task.
pub proof fn law_sweep_forgets_no_task(b: BrokerView, now: int)
    requires
        attended(b),
    ensures
        attended(b.swept(now)),
{
}

/// Neither a report on a task nor its completion forgets a waiting task.
pub proof fn law_reports_forget_no_task(
    b: BrokerView,
    id: u128,
    report: ReportView,
    output: Seq<char>,
    now: int,
    key_id: u128,
)
    requires
        b.filed(),
        attended(b),
    ensures
        attended(b.checkpointed(id, report, now, key_id)),
        attended(b.completed(id, output, report.tokens_used, report.cost_usd, now)),
{
}

/// A changed task that was written and settled is attended to, and so is all else.
proof fn lemma_settled_attended(b: BrokerView, changed: BrokerView, task: TaskView)
    requires
        attended(b),
        changed.queues == b.queues,
        changed.tasks == b.tasks.insert(task.task_id, task),
        task.status == TaskStatus::Pending ==> queue_of(
            b.queues,
            task.current_model,
        ).has_room(),
    ensures
        attended(changed.settled(task, Ok(()))),
{
    let after = changed.settled(task, Ok(()));
    assert forall|x: u128| #[trigger]
        after.tasks.contains_key(x) && after.tasks[x].status == TaskStatus::Pending implies queue_of(
        after.queues,
        after.tasks[x].current_model,
    ).waiting().contains(x) by {
        lemma_sent_to_waiting(
            b.queues,
            task.current_model,
            task.task_id,
            after.tasks[x].current_model,
            x,
        );
        if x != task.task_id {
            assert(b.tasks.contains_key(x));
        }
    }
}

/// A task that fails over or is resumed, once it is written and settled in a queue
/// with room, is in the queue of its model, and no other waiting task is forgotten.
pub proof fn law_requeued_tasks_are_attended(
    b: BrokerView,
    id: u128,
    error: Seq<char>,
    tokens_used: u32,
    cost_usd: UsdView,
    key: Seq<char>,
    now: int,
)
    requires
        b.filed(),
        attended(b),
    ensures
        b.fail_answer(id, error, tokens_used, cost_usd, now) matches Ok(task) ==> queue_of(
            b.queues,
            task.current_model,
        ).has_room() ==> {
            &&& attended(
                b.failed(id, error, tokens_used, cost_usd, now).settled(task, Ok(())),
            )
            &&& b.failed(id, error, tokens_used, cost_usd, now).settle_answer(task, Ok(())) == Ok::<
                DeliveryView,
                ErrorView,
            >(DeliveryView::Done(task))
        },
        b.resume_answer(id, key, now) matches Ok(task) ==> queue_of(
            b.queues,
            task.current_model,
        ).has_room() ==> {
            &&& attended(b.resumed(id, key, now).settled(task, Ok(())))
            &&& b.resumed(id, key, now).settle_answer(task, Ok(())) == Ok::<
                DeliveryView,
                ErrorView,
            >(DeliveryView::Done(task))
        },
{
    if let Ok(task) = b.fail_answer(id, error, tokens_used, cost_usd, now) {
        if queue_of(b.queues, task.current_model).has_room() {
            lemma_settled_attended(b, b.failed(id, error, tokens_used, cost_usd, now), task);
        }
    }
    if let Ok(task) = b.resume_answer(id, key, now) {
        if queue_of(b.queues, task.current_model).has_room() {
            lemma_settled_attended(b, b.resumed(id, key, now), task);
        }
    }
}

/// A new task that was written and that its queue had room for is known to the
/// broker and in the queue of its model, and no other waiting task is forgotten. One
/// that was not written leaves no trace.
pub proof fn law_submitted_tasks_are_attended(
    b: BrokerView,
    task: TaskView,
    saved: Result<(), Seq<char>>,
)
    requires
        attended(b),
        task.status == TaskStatus::Pending,
        queue_of(b.queues, task.current_model).has_room(),
    ensures
        attended(b.submitted(task, saved)),
        saved is Ok ==> b.submitted(task, saved).tasks.contains_pair(task.task_id, task)
            && queue_of(b.submitted(task, saved).queues, task.current_model).waiting().contains(
            task.task_id,
        ),
        saved is Err ==> b.submitted(task, saved) == b,
{
    if saved is Ok {
        let known = BrokerView { tasks: b.tasks.insert(task.task_id, task), ..b };
        lemma_settled_attended(b, known, task);
        lemma_sent_to_waiting(
            b.queues,
            task.current_model,
            task.task_id,
            task.current_model,
            task.task_id,
        );
    }
}

/// A recovered task is one that was stored, as it is taken up.
proof fn lemma_recovered_tasks(stored: Seq<TaskView>, now: int, id: u128)
    ensures
        recovered_tasks(stored, now).contains_key(id) <==> exists|i: int|
            0 <= i < stored.len() && (#[trigger] stored[i]).task_id == id,
        recovered_tasks(stored, now).contains_key(id) ==> exists|i: int|
            0 <= i < stored.len() && (#[trigger] stored[i]).task_id == id && recovered_tasks(
                stored,
                now,
            )[id] == stored[i].recovered(now),
    decreases stored.len(),
{
    if stored.len() > 0 {
        let rest = stored.drop_last();
        lemma_recovered_tasks(rest, now, id);
        if stored.last().task_id == id {
            assert(stored[stored.len() - 1].task_id == id);
        } else {
            if recovered_tasks(rest, now).contains_key(id) {
                let i = choose|i: int|
                    0 <= i < rest.len() && (#[trigger] rest[i]).task_id == id && recovered_tasks(
                        rest,
                        now,
                    )[id] == rest[i].recovered(now);
                assert(stored[i] == rest[i]);
            }
            if exists|i: int| 0 <= i < stored.len() && (#[trigger] stored[i]).task_id == id {
                let i = choose|i: int| 0 <= i < stored.len() && (#[trigger] stored[i]).task_id == id;
                assert(rest[i] == stored[i]);
            }
        }
    }
}

/// A restarted broker knows every stored task; none is left in the hands of a
/// worker that is gone, and every one that waits is in the queue of its model.
pub proof fn law_recovery_forgets_no_task(
    limiter: LimiterView,
    stored: Seq<TaskView>,
    now: int,
)
    ensures
        attended(recovered_broker(limiter, stored, now)),
        recovered_broker(limiter, stored, now).filed(),
        forall|i: int|
            0 <= i < stored.len() ==> recovered_broker(limiter, stored, now).tasks.contains_key(
                (#[trigger] stored[i]).task_id,
            ),
        forall|id: u128| #[trigger]
            recovered_broker(limiter, stored, now).tasks.contains_key(id) ==> recovered_broker(
                limiter,
                stored,
                now,
            ).tasks[id].status != TaskStatus::Processing,
{
    let b = recovered_broker(limiter, stored, now);
    assert forall|i: int| 0 <= i < stored.len() implies b.tasks.contains_key(
        (#[trigger] stored[i]).task_id,
    ) by {
        lemma_recovered_tasks(stored, now, stored[i].task_id);
    }
    assert forall|id: u128| #[trigger] b.tasks.contains_key(id) implies b.tasks[id].task_id == id
        && b.tasks[id].status != TaskStatus::Processing by {
        lemma_recovered_tasks(stored, now, id);
    }
    assert forall|id: u128| #[trigger]
        b.tasks.contains_key(id) && b.tasks[id].status == TaskStatus::Pending implies queue_of(
        b.queues,
        b.tasks[id].current_model,
    ).waiting().contains(id) by {
        lemma_recovered_tasks(stored, now, id);
        let i = choose|i: int|
            0 <= i < stored.len() && (#[trigger] stored[i]).task_id == id && b.tasks[id]
                == stored[i].recovered(now);
        let m = stored[i].current_model;
        let p = |t: TaskView|
            (t.status == TaskStatus::Pending || t.status == TaskStatus::Processing)
                && t.current_model == m;
        stored.lemma_filter_contains(p, i);
        let kept = stored.filter(p);
        let j = choose|j: int| 0 <= j < kept.len() && kept[j] == stored[i];
        assert(recovered_queue(stored, m)[j] == id);
        let queue = queue_of(b.queues, m);
        assert(queue.sent =~= recovered_queue(stored, m));
        assert(queue.sent.contains(id));
        lemma_contains_add(queue.deferred, queue.sent, id);
    }
}

/// A sweep takes out the finished tasks that nobody touched for a day, and nothing
/// else: every other task stays as it is.
pub proof fn law_sweep_keeps_the_rest(b: BrokerView, now: int, id: u128)
    requires
        b.tasks.contains_key(id),
    ensures
        b.swept(now).tasks.contains_key(id) <==> !(b.tasks[id].status.is_terminal()
            && b.tasks[id].updated_at.before(reading(now - seconds(RETENTION_SECS as int)))),
        b.swept(now).tasks.contains_key(id) ==> b.swept(now).tasks[id] == b.tasks[id],
        b.swept(now).queues == b.queues,
        b.swept(now).limiter == b.limiter,
{
}

/// A sweep right after a sweep finds nothing.
pub proof fn law_sweep_twice_is_once(b: BrokerView, now: int)
    ensures
        b.swept(now).swept(now) == b.swept(now),
{
    assert(b.swept(now).swept(now).tasks =~= b.swept(now).tasks);
}

/// A refused request changes nothing.
pub proof fn law_refused_requests_change_nothing(
    b: BrokerView,
    id: u128,
    report: ReportView,
    text: Seq<char>,
    now: int,
    key_id: u128,
)
    ensures
        b.checkpoint_answer(id, report, now, key_id) is Err ==> b.checkpointed(
            id,
            report,
            now,
            key_id,
        ) == b,
        b.complete_answer(id, text, report.tokens_used, report.cost_usd, now) is Err
            ==> b.completed(id, text, report.tokens_used, report.cost_usd, now) == b,
        b.fail_answer(id, text, report.tokens_used, report.cost_usd, now) is Err ==> b.failed(
            id,
            text,
            report.tokens_used,
            report.cost_usd,
            now,
        ) == b,
        b.resume_answer(id, text, now) is Err ==> b.resumed(id, text, now) == b,
{
}

/// An operation on one task leaves all other tasks as they are.
pub proof fn law_tasks_are_independent(
    b: BrokerView,
    id: u128,
    report: ReportView,
    text: Seq<char>,
    now: int,
    key_id: u128,
    other: u128,
)
    requires
        b.filed(),
        other != id,
    ensures
        b.checkpointed(id, report, now, key_id).tasks.index_opt(other) == b.tasks.index_opt(other),
        b.completed(id, text, report.tokens_used, report.cost_usd, now).tasks.index_opt(other)
            == b.tasks.index_opt(other),
        b.failed(id, text, report.tokens_used, report.cost_usd, now).tasks.index_opt(other)
            == b.tasks.index_opt(other),
        b.resumed(id, text, now).tasks.index_opt(other) == b.tasks.index_opt(other),
{
}

/// No worker completes or keeps running a task over its cost limit: what was reported
/// to cost more has failed.
pub proof fn law_cost_limit_is_final(
    b: BrokerView,
    id: u128,
    report: ReportView,
    output: Seq<char>,
    now: int,
    key_id: u128,
)
    requires
        b.filed(),
        b.tasks.contains_key(id),
        report.cost_usd.exceeds(b.tasks[id].max_cost_usd),
    ensures
        b.tasks[id].status == TaskStatus::Processing ==> b.checkpointed(
            id,
            report,
            now,
            key_id,
        ).tasks[id].status == TaskStatus::Failed,
        b.completed(id, output, report.tokens_used, report.cost_usd, now).tasks[id].status
            == TaskStatus::Failed,
{
}

/// Of two waiting tasks of one priority and one time of submission, a worker is handed
/// the one that waits ahead, if it can be handed out.
pub proof fn law_poll_is_fair(b: BrokerView, model: Seq<char>, now: int, p: int, q: int)
    requires
        ({
            let waiting = queue_of(b.queues, model).waiting();
            &&& 0 <= p < q < waiting.len()
            &&& b.ready(model, waiting[p], now)
            &&& b.tasks.contains_key(waiting[q])
            &&& b.tasks[waiting[p]].priority == b.tasks[waiting[q]].priority
            &&& b.tasks[waiting[p]].created_at == b.tasks[waiting[q]].created_at
            &&& !waiting.take(q).contains(waiting[q])
        }),
    ensures
        b.next_task(model, now) != Some(queue_of(b.queues, model).waiting()[q]),
{
    let waiting = queue_of(b.queues, model).waiting();
    let order = b.offers(model);
    let k = b.first_ready(model, order, now);
    lemma_first_ready(b, model, order, now);
    if b.next_task(model, now) == Some(waiting[q]) {
        lemma_schedule_fair(b.tasks, waiting, p, q, k);
        let j = choose|j: int| 0 <= j < k && order.take(k)[j] == waiting[p];
        assert(order[j] == waiting[p]);
    }
}

/// What a filter keeps stays in its order.
proof fn lemma_filter_order(s: Seq<u128>, p: spec_fn(u128) -> bool, i: int, j: int)
    requires
        0 <= i < j < s.len(),
        p(s[i]),
        p(s[j]),
    ensures
        exists|a: int, c: int|
            0 <= a < c < s.filter(p).len() && #[trigger] s.filter(p)[a] == s[i]
                && #[trigger] s.filter(p)[c] == s[j],
    decreases s.len(),
{
    reveal(Seq::filter);
    let rest = s.drop_last();
    let kept = s.filter(p);
    if j < rest.len() {
        lemma_filter_order(rest, p, i, j);
        let (a, c) = choose|a: int, c: int|
            0 <= a < c < rest.filter(p).len() && #[trigger] rest.filter(p)[a] == rest[i]
                && #[trigger] rest.filter(p)[c] == rest[j];
        assert(kept[a] == s[i] && kept[c] == s[j]);
    } else {
        rest.lemma_filter_contains(p, i);
        let a = choose|a: int| 0 <= a < rest.filter(p).len() && rest.filter(p)[a] == rest[i];
        assert(kept[a] == s[i] && kept[kept.len() - 1] == s[j]);
    }
}

/// What a filter keeps, it keeps as often as it was there.
proof fn lemma_filter_count(s: Seq<u128>, p: spec_fn(u128) -> bool, x: u128)
    requires
        p(x),
    ensures
        s.filter(p).to_multiset().count(x) == s.to_multiset().count(x),
    decreases s.len(),
{
    broadcast use vstd::seq_lib::group_to_multiset_ensures;

    reveal(Seq::filter);
    if s.len() > 0 {
        lemma_filter_count(s.drop_last(), p, x);
        assert(s =~= s.drop_last().push(s.last()));
    }
}

/// A poll leaves the tasks that it passes over, or does not come to, in the order in
/// which they were offered, as long as they wait.
pub proof fn law_poll_keeps_the_order(b: BrokerView, model: Seq<char>, now: int, p: int, q: int)
    requires
        b.queues.contains_key(model),
        0 <= p < q < b.offers(model).len(),
        b.tasks.contains_key(b.offers(model)[p]),
        b.tasks.contains_key(b.offers(model)[q]),
        b.polled(model, now).tasks[b.offers(model)[p]].status == TaskStatus::Pending,
        b.polled(model, now).tasks[b.offers(model)[q]].status == TaskStatus::Pending,
    ensures
        exists|i: int, j: int|
            0 <= i < j < queue_of(b.polled(model, now).queues, model).waiting().len()
                && #[trigger] queue_of(b.polled(model, now).queues, model).waiting()[i]
                == b.offers(model)[p] && #[trigger] queue_of(
                b.polled(model, now).queues,
                model,
            ).waiting()[j] == b.offers(model)[q],
{
    let order = b.offers(model);
    let k = b.first_ready(model, order, now);
    let passed = order.take(k);
    let keep = |id: u128| waits(b.tasks, id, now);
    let kept = passed.filter(keep);
    lemma_first_ready(b, model, order, now);
    let then = queue_of(b.polled(model, now).queues, model).waiting();
    assert(p != k && q != k);
    if k < order.len() {
        assert(then =~= kept + order.skip(k + 1));
    } else {
        assert(then =~= kept);
    }
    if p < k {
        assert(passed[p] == order[p]);
        assert(passed.contains(order[p]));
    }
    if q < k {
        assert(passed[q] == order[q]);
        assert(passed.contains(order[q]));
        lemma_filter_order(passed, keep, p, q);
        let (i, j) = choose|i: int, j: int|
            0 <= i < j < kept.len() && #[trigger] kept[i] == passed[p] && #[trigger] kept[j]
                == passed[q];
        assert(then[i] == order[p] && then[j] == order[q]);
    } else if p < k {
        passed.lemma_filter_contains(keep, p);
        let i = choose|i: int| 0 <= i < kept.len() && kept[i] == passed[p];
        let j = kept.len() + q - k - 1;
        assert(then[i] == order[p] && then[j] == order[q]);
    } else {
        let i = kept.len() + p - k - 1;
        let j = kept.len() + q - k - 1;
        assert(then[i] == order[p] && then[j] == order[q]);
    }
}

/// A poll takes the task that it hands out from the queue once. Every task that waits on
/// stays as often as it was there, and nothing comes in.
pub proof fn law_poll_takes_one_task(b: BrokerView, model: Seq<char>, now: int, x: u128)
    ensures
        ({
            let before = queue_of(b.queues, model).waiting().to_multiset();
            let then = queue_of(b.polled(model, now).queues, model).waiting().to_multiset();
            &&& then.count(x) <= before.count(x)
            &&& b.next_task(model, now) == Some(x) ==> then.count(x) == before.count(x) - 1
            &&& b.next_task(model, now) != Some(x) && b.tasks.contains_key(x) && b.polled(
                model,
                now,
            ).tasks[x].status == TaskStatus::Pending ==> then.count(x) == before.count(x)
        }),
{
    broadcast use vstd::seq_lib::group_to_multiset_ensures;

    if b.queues.contains_key(model) {
        let waiting = queue_of(b.queues, model).waiting();
        let order = b.offers(model);
        let k = b.first_ready(model, order, now);
        let passed = order.take(k);
        let keep = |id: u128| waits(b.tasks, id, now);
        let kept = passed.filter(keep);
        let then = queue_of(b.polled(model, now).queues, model).waiting();
        lemma_first_ready(b, model, order, now);
        lemma_schedule_keeps_all(b.tasks, waiting, x);
        lemma_filter_count_bound(passed, keep, x);
        if keep(x) {
            lemma_filter_count(passed, keep, x);
        }
        if k < order.len() {
            let rest = order.skip(k + 1);
            assert(then =~= kept + rest);
            assert(order =~= passed.push(order[k]) + rest);
            vstd::seq_lib::lemma_multiset_commutative(kept, rest);
            vstd::seq_lib::lemma_multiset_commutative(passed.push(order[k]), rest);
        } else {
            assert(then =~= kept);
            assert(passed =~= order);
        }
        if b.tasks.contains_key(x) && b.polled(model, now).tasks[x].status == TaskStatus::Pending
            && !keep(x) {
            assert(!passed.contains(x));
        }
        if b.next_task(model, now) == Some(x) {
            assert(keep(x));
        }
    }
}

/// A filter repeats nothing.
proof fn lemma_filter_count_bound(s: Seq<u128>, p: spec_fn(u128) -> bool, x: u128)
    ensures
        s.filter(p).to_multiset().count(x) <= s.to_multiset().count(x),
        !s.contains(x) ==> s.to_multiset().count(x) == 0,
    decreases s.len(),
{
    broadcast use vstd::seq_lib::group_to_multiset_ensures;

    reveal(Seq::filter);
    if s.len() > 0 {
        lemma_filter_count_bound(s.drop_last(), p, x);
        assert(s =~= s.drop_last().push(s.last()));
    }
}

/// Handing out a task of a limited model sets its budget aside: the window of the model
/// then is what still counted of it and, last, the task with its whole budget, not yet
/// resolved. No other window changes, no limit does, and a model without a limit has
/// nothing recorded.
pub proof fn law_poll_reserves_the_budget(b: BrokerView, model: Seq<char>, now: int, id: u128)
    requires
        b.next_task(model, now) == Some(id),
    ensures
        ({
            let then = b.polled(model, now).limiter;
            &&& then.limits == b.limiter.limits
            &&& forall|m: Seq<char>|
                m != model ==> #[trigger] then.window(m) == b.limiter.window(m)
            &&& if b.limiter.limits.contains_key(model) {
                &&& then.window(model).len() == b.limiter.active(model, now).len() + 1
                &&& then.window(model).drop_last() == b.limiter.active(model, now)
                &&& then.window(model).last().task_id == id
                &&& then.window(model).last().tokens == b.tasks[id].token_budget
                &&& then.window(model).last().timestamp == now
                &&& !then.window(model).last().resolved
            } else {
                then == b.limiter
            }
        }),
{
    if b.limiter.limits.contains_key(model) {
        let then = b.polled(model, now).limiter;
        assert(then.window(model).drop_last() =~= b.limiter.active(model, now));
    }
}

/// A poll that hands out nothing reserves nothing: at most it takes out of the window of
/// the model what no longer counts.
pub proof fn law_empty_poll_reserves_nothing(b: BrokerView, model: Seq<char>, now: int)
    requires
        b.next_task(model, now) is None,
    ensures
        ({
            let then = b.polled(model, now).limiter;
            &&& then.limits == b.limiter.limits
            &&& forall|m: Seq<char>|
                m != model ==> #[trigger] then.window(m) == b.limiter.window(m)
            &&& then.window(model) == b.limiter.window(model) || then.window(model)
                == b.limiter.active(model, now)
        }),
{
}

/// A poll of a model that never had a task finds nothing and changes nothing.
pub proof fn law_poll_without_a_queue(b: BrokerView, model: Seq<char>, now: int)
    requires
        !b.queues.contains_key(model),
    ensures
        b.poll_answer(model, now) is None,
        b.polled(model, now) == b,
{
}

/// What a poll comes to and what does not wait leaves the queue: all of it where nothing
/// is handed out, and otherwise each task whose turn comes before that of the task handed
/// out.
pub proof fn law_poll_clears_the_queue(b: BrokerView, model: Seq<char>, now: int, x: u128)
    requires
        b.queues.contains_key(model),
        queue_of(b.polled(model, now).queues, model).waiting().contains(x),
    ensures
        match b.next_task(model, now) {
            None => b.tasks.contains_key(x) && b.polled(model, now).tasks[x].status
                == TaskStatus::Pending,
            Some(id) => b.tasks.contains_key(x) && (b.tasks[x].priority > b.tasks[id].priority || (
            b.tasks[x].priority == b.tasks[id].priority && b.tasks[x].created_at.before(
                b.tasks[id].created_at,
            ))) ==> b.polled(model, now).tasks[x].status == TaskStatus::Pending,
        },
{
    let waiting = queue_of(b.queues, model).waiting();
    let order = b.offers(model);
    let k = b.first_ready(model, order, now);
    let passed = order.take(k);
    let keep = |id: u128| waits(b.tasks, id, now);
    let kept = passed.filter(keep);
    let then = queue_of(b.polled(model, now).queues, model).waiting();
    lemma_first_ready(b, model, order, now);
    if kept.contains(x) {
        let i = choose|i: int| 0 <= i < kept.len() && kept[i] == x;
        passed.lemma_filter_pred(keep, i);
        assert(keep(x));
        passed.lemma_filter_contains_rev(keep, x);
        let j = choose|j: int| 0 <= j < passed.len() && passed[j] == x;
        assert(order[j] == x);
    }
    if k < order.len() {
        let rest = order.skip(k + 1);
        assert(then =~= kept + rest);
        lemma_contains_add(kept, rest, x);
        if rest.contains(x) && b.tasks.contains_key(x) {
            let j = choose|j: int| 0 <= j < rest.len() && rest[j] == x;
            assert(order[k + 1 + j] == x);
            lemma_schedule_sorted(b.tasks, waiting, k, k + 1 + j);
        }
    } else {
        assert(then =~= kept);
    }
}

} // verus!
