//! Laws of what becomes of a task: what each operation records of it, what it leaves
//! alone, and what it is answered.

use vstd::prelude::*;

use crate::broker::{Delivery, delivery_view};
use crate::envelope::{
    MessageEnvelope, Report, ReportView, TaskStatus, TaskView, report_view, text_view, texts_view,
    ttl_limit,
};
use crate::error::{BrokerError, ErrorView};
use crate::ids::simple_chars;
use crate::limiter::{
    EventView, LimiterView, answer_view, first_event_of, lemma_first_event_of,
};
use crate::model::{
    BrokerView, DeliveryView, lemma_first_ready, list_view, lists, lists_changes, option_view,
    outcome_view, recoverable, recovered_broker, recovered_changes, recovered_queue,
    recovered_tasks,
};
use crate::queue::queue_of;
use crate::schedule::{lemma_schedule_contains, lemma_schedule_sorted};
use crate::text::{decimal_chars, signed_decimal_chars};
use crate::usd::UsdView;

verus! {

/// Whether two states are of one request: what a client submits and nobody changes.
pub open spec fn same_request(a: TaskView, b: TaskView) -> bool {
    &&& a.task_id == b.task_id
    &&& a.prompt_data == b.prompt_data
    &&& a.system_context == b.system_context
    &&& a.token_budget == b.token_budget
    &&& a.max_cost_usd == b.max_cost_usd
    &&& a.priority == b.priority
    &&& a.ttl_seconds == b.ttl_seconds
    &&& a.created_at == b.created_at
}

/// Whether two states are at one point of the route through the models.
pub open spec fn same_route(a: TaskView, b: TaskView) -> bool {
    &&& a.current_model == b.current_model
    &&& a.fallback_models == b.fallback_models
    &&& a.trace_depth == b.trace_depth
}

/// Whether two states have the same work on record: tokens, cost and output.
pub open spec fn same_work(a: TaskView, b: TaskView) -> bool {
    &&& a.tokens_used == b.tokens_used
    &&& a.cost_usd == b.cost_usd
    &&& a.output == b.output
}

/// Whether a task was last touched at a time, in nanoseconds since the Unix epoch.
pub open spec fn touched_at(t: TaskView, now: int) -> bool {
    &&& t.updated_at.secs * 1_000_000_000 + t.updated_at.nanos == now
    &&& 0 <= t.updated_at.nanos < 1_000_000_000
}

/// Whether a message tells of a cost over the limit.
pub open spec fn tells_of_cost(message: Option<Seq<char>>, limit: UsdView, used: UsdView) -> bool {
    message == Some("Cost budget exceeded: limit is $"@ + limit.text + ", used $"@ + used.text)
}

/// A task as it is submitted holds what the client gave, waits, and has nothing on
/// record yet.
pub proof fn law_fresh_task(
    prompt_data: Seq<char>,
    system_context: Option<Seq<char>>,
    token_budget: u32,
    max_cost_usd: UsdView,
    model: Seq<char>,
    fallback_models: Seq<Seq<char>>,
    priority: i8,
    ttl_seconds: Option<u64>,
    task_id: u128,
    now: int,
)
    ensures
        ({
            let t = TaskView::fresh(
                prompt_data,
                system_context,
                token_budget,
                max_cost_usd,
                model,
                fallback_models,
                priority,
                ttl_seconds,
                task_id,
                now,
            );
            &&& t.task_id == task_id
            &&& t.prompt_data == prompt_data
            &&& t.system_context == system_context
            &&& t.token_budget == token_budget
            &&& t.max_cost_usd == max_cost_usd
            &&& t.current_model == model
            &&& t.fallback_models == fallback_models
            &&& t.priority == priority
            &&& t.ttl_seconds == ttl_seconds
            &&& t.trace_depth == 0
            &&& t.status == TaskStatus::Pending
            &&& t.resume_key is None
            &&& t.tokens_used == 0
            &&& t.cost_usd.bits == 0
            &&& t.cost_usd.text == "0.00000"@
            &&& t.output is None
            &&& t.error_message is None
            &&& t.created_at == t.updated_at
            &&& touched_at(t, now)
        }),
{
}

/// What a task, a report and the answers stand for is all that they hold.
pub proof fn law_views_leave_nothing_out(
    t: MessageEnvelope,
    r: Report,
    tasks: Seq<MessageEnvelope>,
    e: BrokerError,
    d: Delivery,
    message: String,
    texts: Seq<String>,
)
    ensures
        t@.task_id == t.task_id,
        t@.prompt_data == t.prompt_data@,
        t@.system_context is Some <==> t.system_context is Some,
        t.system_context matches Some(s) ==> t@.system_context->0 == s@,
        t@.token_budget == t.token_budget,
        t@.max_cost_usd.bits == t.max_cost_usd.bits,
        t@.max_cost_usd.text == t.max_cost_usd.text@,
        t@.trace_depth == t.trace_depth,
        t@.priority == t.priority,
        t@.ttl_seconds == t.ttl_seconds,
        t@.status == t.status,
        t@.resume_key is Some <==> t.resume_key is Some,
        t.resume_key matches Some(s) ==> t@.resume_key->0 == s@,
        t@.current_model == t.current_model@,
        t@.fallback_models.len() == t.fallback_models@.len(),
        forall|i: int|
            0 <= i < t.fallback_models@.len() ==> #[trigger] t@.fallback_models[i]
                == t.fallback_models@[i]@,
        t@.tokens_used == t.tokens_used,
        t@.cost_usd.bits == t.cost_usd.bits,
        t@.cost_usd.text == t.cost_usd.text@,
        t@.output is Some <==> t.output is Some,
        t.output matches Some(s) ==> t@.output->0 == s@,
        t@.error_message is Some <==> t.error_message is Some,
        t.error_message matches Some(s) ==> t@.error_message->0 == s@,
        t@.created_at == t.created_at@,
        t@.updated_at == t.updated_at@,
        r@ == report_view(r.tokens_used, r.cost_usd, r.output, r.error_message, r.pause_request),
        r@.tokens_used == r.tokens_used,
        r@.cost_usd.bits == r.cost_usd.bits,
        r@.cost_usd.text == r.cost_usd.text@,
        r@.output is Some <==> r.output is Some,
        r.output matches Some(s) ==> r@.output->0 == s@,
        r@.error_message is Some <==> r.error_message is Some,
        r.error_message matches Some(s) ==> r@.error_message->0 == s@,
        r@.pause_request == r.pause_request,
        text_view(Some(message)) == Some(message@),
        text_view(None) is None,
        texts_view(texts).len() == texts.len(),
        forall|i: int| 0 <= i < texts.len() ==> #[trigger] texts_view(texts)[i] == texts[i]@,
        option_view(Some(t)) == Some(t@),
        option_view(None) is None,
        outcome_view(Ok(t)) == Ok::<TaskView, ErrorView>(t@),
        outcome_view(Err(e)) == Err::<TaskView, ErrorView>(e@),
        delivery_view(Ok(d)) == Ok::<DeliveryView, ErrorView>(d@),
        delivery_view(Err(e)) == Err::<DeliveryView, ErrorView>(e@),
        d matches Delivery::Done(task) ==> d@ == DeliveryView::Done(task@),
        d matches Delivery::QueueFull(task) ==> d@ == DeliveryView::QueueFull(task@),
        answer_view(Ok(())) == Ok::<(), Seq<char>>(()),
        answer_view(Err(message)) == Err::<(), Seq<char>>(message@),
        list_view(tasks).len() == tasks.len(),
        forall|i: int| 0 <= i < tasks.len() ==> #[trigger] list_view(tasks)[i] == tasks[i]@,
{
}

/// The task that a poll hands out is the waiting one in everything but its status and
/// the time it was last touched, and so is the one that the broker keeps.
pub proof fn law_poll_hands_out_the_task_as_it_was(
    b: BrokerView,
    model: Seq<char>,
    now: int,
    id: u128,
)
    requires
        b.next_task(model, now) == Some(id),
    ensures
        b.poll_answer(model, now) is Some,
        ({
            let t = b.poll_answer(model, now)->0;
            &&& same_request(t, b.tasks[id])
            &&& same_route(t, b.tasks[id])
            &&& same_work(t, b.tasks[id])
            &&& t.error_message == b.tasks[id].error_message
            &&& t.resume_key == b.tasks[id].resume_key
            &&& t.status == TaskStatus::Processing
            &&& touched_at(t, now)
            &&& b.polled(model, now).tasks.contains_key(id)
            &&& b.polled(model, now).tasks[id] == t
        }),
{
}

/// A worker that is handed no task is answered so.
pub proof fn law_poll_answers_no_more_than_a_task(b: BrokerView, model: Seq<char>, now: int)
    ensures
        b.poll_answer(model, now) is Some <==> b.next_task(model, now) is Some,
{
}

/// A poll makes no task known and forgets none. A task that it does not hand out stays
/// as it is, unless it waited in that queue and has spent too much or has expired: then
/// it may have failed, for that reason, with all else as it was.
pub proof fn law_poll_leaves_other_tasks(b: BrokerView, model: Seq<char>, now: int, x: u128)
    requires
        b.next_task(model, now) != Some(x),
    ensures
        b.polled(model, now).tasks.contains_key(x) <==> b.tasks.contains_key(x),
        b.tasks.contains_key(x) ==> {
            let t = b.tasks[x];
            let s = b.polled(model, now).tasks[x];
            s == t || {
                &&& queue_of(b.queues, model).waiting().contains(x)
                &&& t.status == TaskStatus::Pending
                &&& s.status == TaskStatus::Failed
                &&& same_request(s, t)
                &&& same_route(s, t)
                &&& same_work(s, t)
                &&& s.resume_key == t.resume_key
                &&& touched_at(s, now)
                &&& if t.cost_usd.exceeds(t.max_cost_usd) {
                    tells_of_cost(s.error_message, t.max_cost_usd, t.cost_usd)
                } else {
                    &&& t.ttl_seconds is Some
                    &&& t.age(now) >= ttl_limit(t.ttl_seconds->0)
                    &&& s.error_message == Some(
                        "Task expired: TTL of "@ + decimal_chars(t.ttl_seconds->0 as nat)
                            + "s exceeded (elapsed: "@ + signed_decimal_chars(t.age(now)) + "s)"@,
                    )
                }
            }
        },
{
    let order = b.offers(model);
    let k = b.first_ready(model, order, now);
    lemma_first_ready(b, model, order, now);
    if order.take(k).contains(x) {
        let j = choose|j: int| 0 <= j < order.take(k).len() && order.take(k)[j] == x;
        assert(order[j] == x);
        lemma_schedule_contains(b.tasks, queue_of(b.queues, model).waiting(), x);
    }
}

/// A waiting task that has spent too much or has expired fails at a poll if its turn
/// comes before that of the task handed out, and stays if it comes after.
pub proof fn law_doomed_tasks_fail_in_turn(
    b: BrokerView,
    model: Seq<char>,
    now: int,
    id: u128,
    x: u128,
)
    requires
        b.next_task(model, now) == Some(id),
        queue_of(b.queues, model).waiting().contains(x),
        b.tasks.contains_key(x),
        b.tasks[x].status == TaskStatus::Pending,
        b.tasks[x].cost_usd.exceeds(b.tasks[x].max_cost_usd) || (b.tasks[x].ttl_seconds is Some
            && b.tasks[x].age(now) >= ttl_limit(b.tasks[x].ttl_seconds->0)),
    ensures
        x != id,
        b.tasks[x].priority > b.tasks[id].priority || (b.tasks[x].priority == b.tasks[id].priority
            && b.tasks[x].created_at.before(b.tasks[id].created_at)) ==> b.polled(
            model,
            now,
        ).tasks[x].status == TaskStatus::Failed,
        b.tasks[x].priority < b.tasks[id].priority || (b.tasks[x].priority == b.tasks[id].priority
            && b.tasks[id].created_at.before(b.tasks[x].created_at)) ==> b.polled(
            model,
            now,
        ).tasks[x] == b.tasks[x],
{
    let waiting = queue_of(b.queues, model).waiting();
    let order = b.offers(model);
    let k = b.first_ready(model, order, now);
    lemma_first_ready(b, model, order, now);
    lemma_schedule_contains(b.tasks, waiting, x);
    let j = choose|j: int| 0 <= j < order.len() && order[j] == x;
    assert(j != k);
    if j < k {
        assert(order.take(k)[j] == x);
        assert(order.take(k).contains(x));
        lemma_schedule_sorted(b.tasks, waiting, j, k);
    } else {
        lemma_schedule_sorted(b.tasks, waiting, k, j);
        if order.take(k).contains(x) {
            let i = choose|i: int| 0 <= i < k && order.take(k)[i] == x;
            assert(order[i] == x);
            lemma_schedule_sorted(b.tasks, waiting, i, k);
        }
    }
}

/// A task with a time to live within the signed range, submitted at an ordinary second,
/// has expired from the nanosecond on at which that time has passed; one to live for no
/// time at all, as soon as it is less than a second from being submitted; one beyond that
/// range, at once. A task without one never expires. Its age is in whole seconds.
pub proof fn law_expiry(t: TaskView, now: int)
    requires
        0 <= t.created_at.nanos < 1_000_000_000,
    ensures
        ({
            let lived = now - (t.created_at.secs * 1_000_000_000 + t.created_at.nanos);
            match t.ttl_seconds {
                None => !t.expired(now),
                Some(ttl) => {
                    &&& 0 < ttl <= i64::MAX ==> (t.expired(now) <==> lived >= ttl * 1_000_000_000)
                    &&& ttl == 0 ==> (t.expired(now) <==> lived > -1_000_000_000)
                    &&& ttl > i64::MAX && lived >= 0 ==> t.expired(now)
                },
            }
        }),
        ({
            let lived = now - (t.created_at.secs * 1_000_000_000 + t.created_at.nanos);
            &&& lived >= 0 ==> 0 <= lived - t.age(now) * 1_000_000_000 < 1_000_000_000
            &&& lived <= 0 ==> -1_000_000_000 < lived - t.age(now) * 1_000_000_000 <= 0
        }),
        t.doomed(now) <==> t.cost_usd.exceeds(t.max_cost_usd) || t.expired(now),
{
}

/// A checkpoint that is taken up records what was reported, whether or not it pauses
/// the task: tokens and cost as reported, and output and error where there is one
/// reported. Over its cost limit the task fails, and says so; otherwise it runs on, or
/// is paused under the key made from the identifier drawn.
pub proof fn law_checkpoint_records_the_report(
    b: BrokerView,
    id: u128,
    report: ReportView,
    now: int,
    key_id: u128,
)
    requires
        b.filed(),
        b.tasks.contains_key(id),
        b.tasks[id].status == TaskStatus::Processing,
    ensures
        b.checkpoint_answer(id, report, now, key_id) is Ok,
        ({
            let t = b.tasks[id];
            let s = b.checkpoint_answer(id, report, now, key_id)->Ok_0;
            let after = b.checkpointed(id, report, now, key_id);
            &&& after.tasks.contains_key(id)
            &&& after.tasks[id] == s
            &&& after.queues == b.queues
            &&& same_request(s, t)
            &&& same_route(s, t)
            &&& s.tokens_used == report.tokens_used
            &&& s.cost_usd == report.cost_usd
            &&& report.output is Some ==> s.output == report.output
            &&& report.output is None ==> s.output == t.output
            &&& touched_at(s, now)
            &&& if report.cost_usd.exceeds(t.max_cost_usd) {
                &&& s.status == TaskStatus::Failed
                &&& tells_of_cost(s.error_message, t.max_cost_usd, report.cost_usd)
                &&& s.resume_key == t.resume_key
            } else {
                &&& report.error_message is Some ==> s.error_message == report.error_message
                &&& report.error_message is None ==> s.error_message == t.error_message
                &&& report.pause_request ==> s.status == TaskStatus::Paused && s.resume_key
                    == Some("x-resume-"@ + simple_chars(key_id))
                &&& !report.pause_request ==> s.status == TaskStatus::Processing && s.resume_key
                    == t.resume_key
            }
        }),
{
}

/// A completed task has its result, and what it used and cost as reported. Within its
/// cost limit it is completed and has no error left; over it, it has failed and says so.
pub proof fn law_completion_records_the_result(
    b: BrokerView,
    id: u128,
    output: Seq<char>,
    tokens_used: u32,
    cost_usd: UsdView,
    now: int,
)
    requires
        b.filed(),
        b.tasks.contains_key(id),
    ensures
        b.complete_answer(id, output, tokens_used, cost_usd, now) is Ok,
        ({
            let t = b.tasks[id];
            let s = b.complete_answer(id, output, tokens_used, cost_usd, now)->Ok_0;
            let after = b.completed(id, output, tokens_used, cost_usd, now);
            &&& after.tasks.contains_key(id)
            &&& after.tasks[id] == s
            &&& after.queues == b.queues
            &&& same_request(s, t)
            &&& same_route(s, t)
            &&& s.resume_key == t.resume_key
            &&& s.output == Some(output)
            &&& s.tokens_used == tokens_used
            &&& s.cost_usd == cost_usd
            &&& touched_at(s, now)
            &&& if cost_usd.exceeds(t.max_cost_usd) {
                &&& s.status == TaskStatus::Failed
                &&& tells_of_cost(s.error_message, t.max_cost_usd, cost_usd)
            } else {
                &&& s.status == TaskStatus::Completed
                &&& s.error_message is None
            }
        }),
{
}

/// A failed task carries what was reported, with or without a fallback model left:
/// tokens, cost and the reason. It waits for its next model, one deeper in its trace, or
/// has failed for good. Where it has spent more than it may, no worker is handed it.
pub proof fn law_failure_records_the_report(
    b: BrokerView,
    id: u128,
    error: Seq<char>,
    tokens_used: u32,
    cost_usd: UsdView,
    now: int,
)
    requires
        b.filed(),
        b.tasks.contains_key(id),
        b.tasks[id].fallback_models.len() > 0 ==> b.tasks[id].trace_depth < u32::MAX,
    ensures
        b.fail_answer(id, error, tokens_used, cost_usd, now) is Ok,
        ({
            let t = b.tasks[id];
            let s = b.fail_answer(id, error, tokens_used, cost_usd, now)->Ok_0;
            let after = b.failed(id, error, tokens_used, cost_usd, now);
            &&& after.tasks.contains_key(id)
            &&& after.tasks[id] == s
            &&& after.queues == b.queues
            &&& same_request(s, t)
            &&& s.output == t.output
            &&& s.resume_key == t.resume_key
            &&& s.tokens_used == tokens_used
            &&& s.cost_usd == cost_usd
            &&& s.error_message == Some(error)
            &&& touched_at(s, now)
            &&& if t.fallback_models.len() > 0 {
                &&& s.status == TaskStatus::Pending
                &&& s.current_model == t.fallback_models[0]
                &&& s.fallback_models.len() == t.fallback_models.len() - 1
                &&& forall|i: int|
                    0 <= i < s.fallback_models.len() ==> #[trigger] s.fallback_models[i]
                        == t.fallback_models[i + 1]
                &&& s.trace_depth == t.trace_depth + 1
            } else {
                &&& s.status == TaskStatus::Failed
                &&& same_route(s, t)
            }
        }),
        cost_usd.exceeds(b.tasks[id].max_cost_usd) ==> forall|model: Seq<char>, later: int|
            #[trigger] b.failed(id, error, tokens_used, cost_usd, now).next_task(model, later)
                != Some(id),
{
    let after = b.failed(id, error, tokens_used, cost_usd, now);
    if cost_usd.exceeds(b.tasks[id].max_cost_usd) {
        assert forall|model: Seq<char>, later: int| #[trigger] after.next_task(model, later)
            != Some(id) by {
            lemma_first_ready(after, model, after.offers(model), later);
        }
    }
}

/// Resuming a task changes its status, takes its key and touches it, and that is all:
/// what it had on record when it was paused, it has when it waits again.
pub proof fn law_resume_changes_nothing_else(b: BrokerView, id: u128, key: Seq<char>, now: int)
    requires
        b.tasks.contains_key(id),
        b.tasks[id].status == TaskStatus::Paused,
        b.tasks[id].resume_key == Some(key),
    ensures
        b.resume_answer(id, key, now) is Ok,
        ({
            let t = b.tasks[id];
            let s = b.resume_answer(id, key, now)->Ok_0;
            let after = b.resumed(id, key, now);
            &&& after.tasks.contains_key(id)
            &&& after.tasks[id] == s
            &&& after.queues == b.queues
            &&& after.limiter == b.limiter
            &&& same_request(s, t)
            &&& same_route(s, t)
            &&& same_work(s, t)
            &&& s.error_message == t.error_message
            &&& s.status == TaskStatus::Pending
            &&& s.resume_key is None
            &&& touched_at(s, now)
        }),
{
}

/// Who is refused, and why: all who ask for a task that is not known, who report on one
/// that does not run, or who resume one that is not paused or without its key. Nobody
/// else is.
pub proof fn law_refusals(
    b: BrokerView,
    id: u128,
    report: ReportView,
    text: Seq<char>,
    now: int,
    key_id: u128,
)
    ensures
        ({
            let unknown = Err::<TaskView, ErrorView>(ErrorView::TaskNotFound(id));
            let checkpoint = b.checkpoint_answer(id, report, now, key_id);
            let complete = b.complete_answer(id, text, report.tokens_used, report.cost_usd, now);
            let fail = b.fail_answer(id, text, report.tokens_used, report.cost_usd, now);
            let resume = b.resume_answer(id, text, now);
            if !b.tasks.contains_key(id) {
                checkpoint == unknown && complete == unknown && fail == unknown && resume
                    == unknown
            } else {
                let status = b.tasks[id].status;
                &&& complete is Ok
                &&& fail is Ok
                &&& checkpoint is Ok <==> status == TaskStatus::Processing
                &&& status != TaskStatus::Processing ==> checkpoint == Err::<TaskView, ErrorView>(
                    ErrorView::InvalidStatus {
                        task_id: id,
                        expected: "processing"@,
                        actual: status,
                    },
                )
                &&& resume is Ok <==> status == TaskStatus::Paused && b.tasks[id].resume_key
                    == Some(text)
                &&& status != TaskStatus::Paused ==> resume == Err::<TaskView, ErrorView>(
                    ErrorView::InvalidStatus { task_id: id, expected: "paused"@, actual: status },
                )
                &&& status == TaskStatus::Paused && b.tasks[id].resume_key != Some(text) ==> resume
                    == Err::<TaskView, ErrorView>(ErrorView::InvalidResumeKey(id))
            }
        }),
{
}

/// What a client learns of a task that was to be written: the reason where it was not,
/// and otherwise the task itself, unless it waits and its queue holds a thousand. Only a
/// task that was written changes anything, and only one that waits is sent to a queue.
pub proof fn law_settling(b: BrokerView, task: TaskView, saved: Result<(), Seq<char>>)
    ensures
        ({
            let full = queue_of(b.queues, task.current_model).sent.len() >= 1000;
            let waits = task.status == TaskStatus::Pending;
            let answer = b.settle_answer(task, saved);
            let settled = b.settled(task, saved);
            let submitted = b.submitted(task, saved);
            &&& settled.tasks == b.tasks
            &&& settled.limiter == b.limiter
            &&& submitted.limiter == b.limiter
            &&& match saved {
                Err(reason) => {
                    &&& answer == Err::<DeliveryView, ErrorView>(ErrorView::Storage(reason))
                    &&& settled == b
                    &&& submitted == b
                },
                Ok(_) => {
                    &&& answer == Ok::<DeliveryView, ErrorView>(
                        if waits && full {
                            DeliveryView::QueueFull(task)
                        } else {
                            DeliveryView::Done(task)
                        },
                    )
                    &&& submitted.tasks == b.tasks.insert(task.task_id, task)
                    &&& submitted.queues == settled.queues
                    &&& !waits || full ==> settled.queues == b.queues
                },
            }
        }),
{
}

/// A task sent to a queue goes behind all that was sent there, and nothing else moves.
pub proof fn law_settling_sends_to_the_end(b: BrokerView, task: TaskView, other_model: Seq<char>)
    requires
        task.status == TaskStatus::Pending,
        queue_of(b.queues, task.current_model).sent.len() < 1000,
    ensures
        ({
            let before = queue_of(b.queues, task.current_model);
            let then = queue_of(b.settled(task, Ok(())).queues, task.current_model);
            &&& then.deferred == before.deferred
            &&& then.sent == before.sent + seq![task.task_id]
            &&& then.waiting() == before.deferred + before.sent + seq![task.task_id]
            &&& b.settled(task, Ok(())).queues.contains_key(task.current_model)
        }),
        other_model != task.current_model ==> queue_of(
            b.settled(task, Ok(())).queues,
            other_model,
        ) == queue_of(b.queues, other_model),
{
    let before = queue_of(b.queues, task.current_model);
    let then = queue_of(b.settled(task, Ok(())).queues, task.current_model);
    assert(then.sent =~= before.sent + seq![task.task_id]);
    assert(then.waiting() =~= before.deferred + before.sent + seq![task.task_id]);
}

/// Whether a window has an event of a task.
pub open spec fn has_event(window: Seq<EventView>, id: u128) -> bool {
    exists|j: int| 0 <= j < window.len() && (#[trigger] window[j]).task_id == id
}

/// Whether a window is another one with the first event of a task, if it has one, set to
/// what the task actually used.
pub open spec fn usage_set(
    before: Seq<EventView>,
    then: Seq<EventView>,
    id: u128,
    tokens: u32,
    resolved: bool,
) -> bool {
    &&& then.len() == before.len()
    &&& forall|i: int|
        0 <= i < before.len() ==> {
            let first = before[i].task_id == id && !has_event(before.take(i), id);
            &&& (#[trigger] then[i]).timestamp == before[i].timestamp
            &&& then[i].task_id == before[i].task_id
            &&& then[i].tokens == (if first {
                tokens
            } else {
                before[i].tokens
            })
            &&& then[i].resolved == (if first {
                resolved
            } else {
                before[i].resolved
            })
        }
}

/// A report of actual usage reaches the first event of the task in the window of the
/// model, and no other event, window or limit.
pub proof fn law_usage_reaches_one_event(
    l: LimiterView,
    model: Seq<char>,
    id: u128,
    tokens: u32,
    resolved: bool,
)
    ensures
        usage_set(
            l.window(model),
            l.with_usage(model, id, tokens, resolved).window(model),
            id,
            tokens,
            resolved,
        ),
        forall|m: Seq<char>|
            m != model ==> #[trigger] l.with_usage(model, id, tokens, resolved).window(m)
                == l.window(m),
        l.with_usage(model, id, tokens, resolved).limits == l.limits,
{
    let window = l.window(model);
    let first = first_event_of(window, id);
    lemma_first_event_of(window, id);
    let then = l.with_usage(model, id, tokens, resolved).window(model);
    assert forall|i: int| 0 <= i < window.len() implies {
        let is_first = window[i].task_id == id && !has_event(window.take(i), id);
        &&& (#[trigger] then[i]).timestamp == window[i].timestamp
        &&& then[i].task_id == window[i].task_id
        &&& then[i].tokens == (if is_first {
            tokens
        } else {
            window[i].tokens
        })
        &&& then[i].resolved == (if is_first {
            resolved
        } else {
            window[i].resolved
        })
    } by {
        if has_event(window.take(i), id) {
            let j = choose|j: int| 0 <= j < i && (#[trigger] window.take(i)[j]).task_id == id;
            assert(window[j].task_id == id);
        }
        if first < i {
            assert(window.take(i)[first].task_id == id);
        }
    }
}

/// What a task used goes to the window of the model that it ran on, whatever model it
/// waits for next: for good where it completed or failed, was stopped for its cost or
/// was paused, and for the time being where it runs on. The windows of all other models,
/// and all limits, stay as they are.
pub proof fn law_usage_goes_to_the_model_that_ran(
    b: BrokerView,
    id: u128,
    report: ReportView,
    text: Seq<char>,
    now: int,
    key_id: u128,
)
    requires
        b.filed(),
        b.tasks.contains_key(id),
    ensures
        ({
            let ran = b.tasks[id].current_model;
            let window = b.limiter.window(ran);
            let tokens = report.tokens_used;
            let failed = b.failed(id, text, tokens, report.cost_usd, now).limiter;
            let completed = b.completed(id, text, tokens, report.cost_usd, now).limiter;
            let checkpointed = b.checkpointed(id, report, now, key_id).limiter;
            &&& usage_set(window, failed.window(ran), id, tokens, true)
            &&& usage_set(window, completed.window(ran), id, tokens, true)
            &&& b.tasks[id].status == TaskStatus::Processing ==> usage_set(
                window,
                checkpointed.window(ran),
                id,
                tokens,
                report.pause_request || report.cost_usd.exceeds(b.tasks[id].max_cost_usd),
            )
            &&& forall|m: Seq<char>|
                m != ran ==> #[trigger] failed.window(m) == b.limiter.window(m)
            &&& forall|m: Seq<char>|
                m != ran ==> #[trigger] completed.window(m) == b.limiter.window(m)
            &&& forall|m: Seq<char>|
                m != ran ==> #[trigger] checkpointed.window(m) == b.limiter.window(m)
            &&& failed.limits == b.limiter.limits
            &&& completed.limits == b.limiter.limits
            &&& checkpointed.limits == b.limiter.limits
        }),
{
    let ran = b.tasks[id].current_model;
    law_usage_reaches_one_event(b.limiter, ran, id, report.tokens_used, true);
    law_usage_reaches_one_event(b.limiter, ran, id, report.tokens_used, false);
}

/// What is to be written after a poll is what it changed: each changed task as it is
/// now, once, and nothing else.
pub proof fn law_changes_are_listed(
    changed: Seq<TaskView>,
    before: Map<u128, TaskView>,
    then: Map<u128, TaskView>,
    id: u128,
)
    requires
        lists_changes(changed, before, then),
    ensures
        then.contains_key(id) && (!before.contains_key(id) || then[id] != before[id])
            ==> changed.contains(then[id]),
        forall|i: int|
            0 <= i < changed.len() && (#[trigger] changed[i]).task_id == id ==> then.contains_key(
                id,
            ) && changed[i] == then[id] && (!before.contains_key(id) || then[id] != before[id]),
        forall|i: int, j: int|
            0 <= i < j < changed.len() ==> (#[trigger] changed[i]).task_id != (
            #[trigger] changed[j]).task_id,
{
    if then.contains_key(id) && (!before.contains_key(id) || then[id] != before[id]) {
        assert(lists(changed, id));
        let i = choose|i: int| 0 <= i < changed.len() && (#[trigger] changed[i]).task_id == id;
        assert(changed[i] == then[id]);
    }
    assert forall|i: int|
        0 <= i < changed.len() && (#[trigger] changed[i]).task_id == id implies then.contains_key(
        id,
    ) && changed[i] == then[id] && (!before.contains_key(id) || then[id] != before[id]) by {
        assert(lists(changed, id));
    }
}

/// What is known after a restart of the tasks that were stored, as far as one identifier
/// is concerned that no other stored task has.
proof fn lemma_recovered_alone(stored: Seq<TaskView>, now: int, i: int)
    requires
        0 <= i < stored.len(),
        forall|j: int|
            0 <= j < stored.len() && j != i ==> (#[trigger] stored[j]).task_id
                != stored[i].task_id,
    ensures
        recovered_tasks(stored, now).contains_key(stored[i].task_id),
        recovered_tasks(stored, now)[stored[i].task_id] == stored[i].recovered(now),
    decreases stored.len(),
{
    let rest = stored.drop_last();
    if i < rest.len() {
        assert forall|j: int| 0 <= j < rest.len() && j != i implies (
        #[trigger] rest[j]).task_id != rest[i].task_id by {
            assert(rest[j] == stored[j]);
        }
        lemma_recovered_alone(rest, now, i);
        assert(stored[stored.len() - 1].task_id != stored[i].task_id);
    }
}

/// A restart changes nothing of a stored task but the status of one that was running,
/// which waits again, and the time it was last touched. The limiter is the one that the
/// broker was given.
pub proof fn law_recovery_keeps_tasks(
    limiter: LimiterView,
    stored: Seq<TaskView>,
    now: int,
    i: int,
)
    requires
        0 <= i < stored.len(),
        forall|j: int|
            0 <= j < stored.len() && j != i ==> (#[trigger] stored[j]).task_id
                != stored[i].task_id,
    ensures
        ({
            let t = stored[i];
            let b = recovered_broker(limiter, stored, now);
            let s = b.tasks[t.task_id];
            &&& b.limiter == limiter
            &&& b.tasks.contains_key(t.task_id)
            &&& same_request(s, t)
            &&& same_route(s, t)
            &&& same_work(s, t)
            &&& s.error_message == t.error_message
            &&& s.resume_key == t.resume_key
            &&& if t.status == TaskStatus::Processing {
                s.status == TaskStatus::Pending && touched_at(s, now)
            } else {
                s == t
            }
        }),
{
    lemma_recovered_alone(stored, now, i);
}

/// A restart makes no task up: what the broker knows was stored.
pub proof fn law_recovery_makes_no_task_up(
    limiter: LimiterView,
    stored: Seq<TaskView>,
    now: int,
    id: u128,
)
    requires
        recovered_broker(limiter, stored, now).tasks.contains_key(id),
    ensures
        exists|i: int| 0 <= i < stored.len() && (#[trigger] stored[i]).task_id == id,
    decreases stored.len(),
{
    let rest = stored.drop_last();
    if stored.last().task_id == id {
        assert(stored[stored.len() - 1].task_id == id);
    } else {
        law_recovery_makes_no_task_up(limiter, rest, now, id);
        let i = choose|i: int| 0 <= i < rest.len() && (#[trigger] rest[i]).task_id == id;
        assert(stored[i].task_id == id);
    }
}

/// A restart has written what it changed: the tasks that were running, as the broker now
/// knows them, and no others.
pub proof fn law_recovery_lists_its_changes(
    limiter: LimiterView,
    stored: Seq<TaskView>,
    now: int,
    i: int,
)
    requires
        0 <= i < stored.len(),
        forall|j: int, k: int|
            0 <= j < k < stored.len() ==> (#[trigger] stored[j]).task_id != (
            #[trigger] stored[k]).task_id,
    ensures
        stored[i].status == TaskStatus::Processing <==> recovered_changes(stored, now).contains(
            recovered_broker(limiter, stored, now).tasks[stored[i].task_id],
        ),
        forall|c: TaskView| #[trigger]
            recovered_changes(stored, now).contains(c) ==> recovered_broker(
                limiter,
                stored,
                now,
            ).tasks.contains_pair(c.task_id, c),
{
    let b = recovered_broker(limiter, stored, now);
    let p = |t: TaskView| t.status == TaskStatus::Processing;
    let ran = stored.filter(p);
    let changes = recovered_changes(stored, now);
    assert forall|c: TaskView| #[trigger] changes.contains(c) implies b.tasks.contains_pair(
        c.task_id,
        c,
    ) && exists|j: int|
        0 <= j < stored.len() && (#[trigger] stored[j]).task_id == c.task_id && stored[j].status
            == TaskStatus::Processing by {
        let n = choose|n: int| 0 <= n < changes.len() && changes[n] == c;
        assert(c == ran[n].recovered(now));
        stored.lemma_filter_pred(p, n);
        assert(ran.contains(ran[n]));
        stored.lemma_filter_contains_rev(p, ran[n]);
        let j = choose|j: int| 0 <= j < stored.len() && stored[j] == ran[n];
        lemma_recovered_alone(stored, now, j);
        assert(stored[j].task_id == c.task_id);
    }
    lemma_recovered_alone(stored, now, i);
    let s = b.tasks[stored[i].task_id];
    if stored[i].status == TaskStatus::Processing {
        stored.lemma_filter_contains(p, i);
        let n = choose|n: int| 0 <= n < ran.len() && ran[n] == stored[i];
        assert(changes[n] == s);
    } else if changes.contains(s) {
        let j = choose|j: int|
            0 <= j < stored.len() && (#[trigger] stored[j]).task_id == s.task_id && stored[j].status
                == TaskStatus::Processing;
        assert(j == i);
    }
}

/// Whether a stored task waits for a model after a restart.
pub open spec fn waits_after_restart(t: TaskView, model: Seq<char>) -> bool {
    t.current_model == model && (t.status == TaskStatus::Pending || t.status
        == TaskStatus::Processing)
}

/// One more stored task goes to the end of the queue of its model, if it waits.
proof fn lemma_recovered_queue_last(stored: Seq<TaskView>, model: Seq<char>)
    requires
        stored.len() > 0,
    ensures
        recovered_queue(stored, model) == (if waits_after_restart(stored.last(), model) {
            recovered_queue(stored.drop_last(), model).push(stored.last().task_id)
        } else {
            recovered_queue(stored.drop_last(), model)
        }),
{
    reveal(Seq::filter);
    assert(recovered_queue(stored, model) =~= (if waits_after_restart(stored.last(), model) {
        recovered_queue(stored.drop_last(), model).push(stored.last().task_id)
    } else {
        recovered_queue(stored.drop_last(), model)
    }));
}

/// How many stored tasks wait for a model after a restart.
pub open spec fn waiting_after_restart(stored: Seq<TaskView>, model: Seq<char>) -> nat
    decreases stored.len(),
{
    if stored.len() == 0 {
        0
    } else {
        waiting_after_restart(stored.drop_last(), model) + (if waits_after_restart(
            stored.last(),
            model,
        ) {
            1nat
        } else {
            0
        })
    }
}

/// After a restart each model has in its queue the stored tasks that wait for it, in the
/// order in which they were stored, and nothing else.
pub proof fn law_recovery_queues_in_order(
    limiter: LimiterView,
    stored: Seq<TaskView>,
    now: int,
    model: Seq<char>,
    i: int,
)
    requires
        0 <= i < stored.len(),
    ensures
        ({
            let queue = queue_of(recovered_broker(limiter, stored, now).queues, model).waiting();
            &&& queue.len() == waiting_after_restart(stored, model)
            &&& waits_after_restart(stored[i], model) ==> {
                let place = waiting_after_restart(stored.take(i), model) as int;
                0 <= place < queue.len() && queue[place] == stored[i].task_id
            }
        }),
{
    let b = recovered_broker(limiter, stored, now);
    lemma_recovered_queue_len(stored, model);
    if waits_after_restart(stored[i], model) {
        lemma_recovered_queue_place(stored, model, i);
    }
    assert(queue_of(b.queues, model).waiting() =~= recovered_queue(stored, model));
}

/// As many tasks are in the queue of a model as wait for it.
proof fn lemma_recovered_queue_len(stored: Seq<TaskView>, model: Seq<char>)
    ensures
        recovered_queue(stored, model).len() == waiting_after_restart(stored, model),
    decreases stored.len(),
{
    if stored.len() == 0 {
        reveal(Seq::filter);
    } else {
        lemma_recovered_queue_len(stored.drop_last(), model);
        lemma_recovered_queue_last(stored, model);
    }
}

/// The place of a stored task in the queue of its model.
proof fn lemma_recovered_queue_place(stored: Seq<TaskView>, model: Seq<char>, i: int)
    requires
        0 <= i < stored.len(),
        waits_after_restart(stored[i], model),
    ensures
        ({
            let place = waiting_after_restart(stored.take(i), model) as int;
            0 <= place < recovered_queue(stored, model).len() && recovered_queue(
                stored,
                model,
            )[place] == stored[i].task_id
        }),
    decreases stored.len(),
{
    let rest = stored.drop_last();
    lemma_recovered_queue_last(stored, model);
    if i < rest.len() {
        lemma_recovered_queue_place(rest, model, i);
        assert(rest.take(i) =~= stored.take(i));
    } else {
        lemma_recovered_queue_len(rest, model);
        assert(stored.take(i) =~= rest);
        assert(stored[i] == stored.last());
    }
}

/// A restart is possible as long as no model has more than a thousand stored tasks that
/// wait for it.
pub proof fn law_recovery_is_possible(stored: Seq<TaskView>, model: Seq<char>)
    ensures
        recoverable(stored) ==> waiting_after_restart(stored, model) <= 1000,
        (forall|m: Seq<char>| (#[trigger] waiting_after_restart(stored, m)) <= 1000)
            ==> recoverable(stored),
{
    assert forall|m: Seq<char>| (#[trigger] recovered_queue(stored, m)).len()
        == waiting_after_restart(stored, m) by {
        lemma_recovered_queue_len(stored, m);
    }
    assert(recovered_queue(stored, model).len() == waiting_after_restart(stored, model));
}

/// A sweep takes out the completed and failed tasks last touched more than a day, that
/// is 86400 seconds, before; every other task, all queues and the limiter stay.
pub proof fn law_sweep_takes_out_old_finished_tasks(b: BrokerView, now: int, id: u128)
    requires
        b.tasks.contains_key(id) ==> 0 <= b.tasks[id].updated_at.nanos < 1_000_000_000,
    ensures
        b.swept(now).queues == b.queues,
        b.swept(now).limiter == b.limiter,
        b.swept(now).tasks.contains_key(id) <==> b.tasks.contains_key(id) && {
            let t = b.tasks[id];
            let touched = t.updated_at.secs * 1_000_000_000 + t.updated_at.nanos;
            !((t.status == TaskStatus::Completed || t.status == TaskStatus::Failed) && now - touched
                > 86_400_000_000_000)
        },
        b.swept(now).tasks.contains_key(id) ==> b.swept(now).tasks[id] == b.tasks[id],
{
}

} // verus!
