//! What the broker does, as functions from one state to the next.

use vstd::prelude::*;

use crate::clock::seconds;
use crate::envelope::{MessageEnvelope, ReportView, TaskStatus, TaskView};
use crate::error::{BrokerError, ErrorView};
use crate::limiter::LimiterView;
use crate::queue::{QUEUE_CAPACITY, QueueView, queue_of, sent_to};
use crate::schedule::schedule;
use crate::usd::UsdView;

verus! {

/// How long a finished task is kept.
pub const RETENTION_SECS: u32 = 86_400;

/// What a broker stands for.
#[verifier::ext_equal]
pub struct BrokerView {
    pub tasks: Map<u128, TaskView>,
    pub queues: Map<Seq<char>, QueueView>,
    pub limiter: LimiterView,
}

/// What an operation on a task answered.
pub open spec fn outcome_view(r: Result<MessageEnvelope, BrokerError>) -> Result<
    TaskView,
    ErrorView,
> {
    match r {
        Ok(task) => Ok(task@),
        Err(e) => Err(e@),
    }
}

/// A task, if there is one.
pub open spec fn option_view(t: Option<MessageEnvelope>) -> Option<TaskView> {
    match t {
        Some(task) => Some(task@),
        None => None,
    }
}

/// A list of tasks.
pub open spec fn list_view(tasks: Seq<MessageEnvelope>) -> Seq<TaskView> {
    tasks.map_values(|t: MessageEnvelope| t@)
}

/// Whether `changed` lists, once each and as they are now, the tasks that differ
/// from what they were.
pub open spec fn lists_changes(
    changed: Seq<TaskView>,
    before: Map<u128, TaskView>,
    after: Map<u128, TaskView>,
) -> bool {
    &&& forall|i: int|
        0 <= i < changed.len() ==> after.contains_key((#[trigger] changed[i]).task_id)
            && after[changed[i].task_id] == changed[i]
    &&& forall|i: int, j: int|
        0 <= i < j < changed.len() ==> (#[trigger] changed[i]).task_id != (
        #[trigger] changed[j]).task_id
    &&& forall|id: u128| #[trigger]
        after.contains_key(id) ==> ((!before.contains_key(id) || after[id] != before[id])
            <==> lists(changed, id))
}

/// Whether a list has a task of the given identifier.
pub open spec fn lists(changed: Seq<TaskView>, id: u128) -> bool {
    exists|i: int| 0 <= i < changed.len() && (#[trigger] changed[i]).task_id == id
}

/// Whether a task waits and may be handed to a worker as far as its own limits
/// go.
pub open spec fn waits(tasks: Map<u128, TaskView>, id: u128, now: int) -> bool {
    tasks.contains_key(id) && tasks[id].status == TaskStatus::Pending && !tasks[id].doomed(now)
}

/// Whether a task waits but may no longer be handed to a worker.
pub open spec fn must_fail(tasks: Map<u128, TaskView>, id: u128, now: int) -> bool {
    tasks.contains_key(id) && tasks[id].status == TaskStatus::Pending && tasks[id].doomed(now)
}

/// Those of the tasks that wait and may be handed to a worker as far as their own
/// limits go.
pub open spec fn still_waiting(tasks: Map<u128, TaskView>, ids: Seq<u128>, now: int) -> Seq<u128> {
    ids.filter(|id: u128| waits(tasks, id, now))
}

/// The tasks after a worker was offered the given ones: those that may no longer
/// be handed out have failed.
pub open spec fn after_passing(tasks: Map<u128, TaskView>, passed: Seq<u128>, now: int) -> Map<
    u128,
    TaskView,
> {
    Map::new(
        |id: u128| tasks.contains_key(id),
        |id: u128|
            if passed.contains(id) && must_fail(tasks, id, now) {
                tasks[id].invalidated(now)
            } else {
                tasks[id]
            },
    )
}

impl BrokerView {
    /// Whether each task is filed under its own identifier.
    pub open spec fn filed(self) -> bool {
        forall|id: u128| #[trigger]
            self.tasks.contains_key(id) ==> self.tasks[id].task_id == id
    }

    /// Whether a task can be handed to a worker of a model: it waits, and the
    /// limiter admits its budget.
    pub open spec fn ready(self, model: Seq<char>, id: u128, now: int) -> bool {
        waits(self.tasks, id, now) && self.limiter.admits(model, self.tasks[id].token_budget, now)
    }

    /// The index of the first task that can be handed out, or the number of
    /// tasks where none can.
    pub open spec fn first_ready(self, model: Seq<char>, order: Seq<u128>, now: int) -> int
        decreases order.len(),
    {
        if order.len() == 0 || self.ready(model, order[0], now) {
            0
        } else {
            1 + self.first_ready(model, order.skip(1), now)
        }
    }

    /// The order in which the tasks of a model are offered.
    pub open spec fn offers(self, model: Seq<char>) -> Seq<u128> {
        schedule(self.tasks, queue_of(self.queues, model).waiting())
    }

    /// The task that a worker of a model is handed, if there is one: the first on
    /// offer that can be handed out.
    pub open spec fn next_task(self, model: Seq<char>, now: int) -> Option<u128> {
        let order = self.offers(model);
        let k = self.first_ready(model, order, now);
        if self.queues.contains_key(model) && k < order.len() {
            Some(order[k])
        } else {
            None
        }
    }

    /// What a worker that asks for a task is answered.
    pub open spec fn poll_answer(self, model: Seq<char>, now: int) -> Option<TaskView> {
        match self.next_task(model, now) {
            Some(id) => Some(self.tasks[id].started(now)),
            None => None,
        }
    }

    /// The broker after a worker asked for a task. All that was offered ahead of
    /// the task handed out stays in the queue if it still waits, and leaves it
    /// otherwise; what was not offered stays.
    pub open spec fn polled(self, model: Seq<char>, now: int) -> BrokerView {
        let order = self.offers(model);
        let k = self.first_ready(model, order, now);
        let passed = order.take(k);
        let kept = still_waiting(self.tasks, passed, now);
        let tasks = after_passing(self.tasks, passed, now);
        if !self.queues.contains_key(model) {
            self
        } else if k < order.len() {
            let id = order[k];
            BrokerView {
                tasks: tasks.insert(id, self.tasks[id].started(now)),
                queues: self.queues.insert(
                    model,
                    QueueView { sent: Seq::empty(), deferred: kept + order.skip(k + 1) },
                ),
                limiter: self.limiter.recorded(model, id, self.tasks[id].token_budget, now),
            }
        } else {
            BrokerView {
                tasks,
                queues: self.queues.insert(
                    model,
                    QueueView { sent: Seq::empty(), deferred: kept },
                ),
                limiter: if kept.len() > 0 {
                    self.limiter.refreshed(model, now)
                } else {
                    self.limiter
                },
            }
        }
    }
}

impl BrokerView {
    /// The broker with one task changed, and with what it used of its model made
    /// known to the limiter.
    pub open spec fn with_spending(self, task: TaskView, model: Seq<char>, resolved: bool) -> BrokerView {
        BrokerView {
            tasks: self.tasks.insert(task.task_id, task),
            limiter: self.limiter.with_usage(model, task.task_id, task.tokens_used, resolved),
            ..self
        }
    }

    /// What a worker that reports on a task is answered.
    pub open spec fn checkpoint_answer(
        self,
        id: u128,
        report: ReportView,
        now: int,
        key_id: u128,
    ) -> Result<TaskView, ErrorView> {
        if !self.tasks.contains_key(id) {
            Err(ErrorView::TaskNotFound(id))
        } else if self.tasks[id].status != TaskStatus::Processing {
            Err(
                ErrorView::InvalidStatus {
                    task_id: id,
                    expected: "processing"@,
                    actual: self.tasks[id].status,
                },
            )
        } else {
            Ok(self.tasks[id].checkpointed(report, now, key_id))
        }
    }

    /// The broker after a worker reported on a task. What the task used of its
    /// model is final if the report ends or pauses its run.
    pub open spec fn checkpointed(
        self,
        id: u128,
        report: ReportView,
        now: int,
        key_id: u128,
    ) -> BrokerView {
        match self.checkpoint_answer(id, report, now, key_id) {
            Ok(task) => self.with_spending(
                task,
                self.tasks[id].current_model,
                report.cost_usd.exceeds(self.tasks[id].max_cost_usd) || report.pause_request,
            ),
            Err(_) => self,
        }
    }

    /// What a worker that completes a task is answered.
    pub open spec fn complete_answer(
        self,
        id: u128,
        output: Seq<char>,
        tokens_used: u32,
        cost_usd: UsdView,
        now: int,
    ) -> Result<TaskView, ErrorView> {
        if !self.tasks.contains_key(id) {
            Err(ErrorView::TaskNotFound(id))
        } else {
            Ok(self.tasks[id].completed(output, tokens_used, cost_usd, now))
        }
    }

    /// The broker after a worker completed a task.
    pub open spec fn completed(
        self,
        id: u128,
        output: Seq<char>,
        tokens_used: u32,
        cost_usd: UsdView,
        now: int,
    ) -> BrokerView {
        match self.complete_answer(id, output, tokens_used, cost_usd, now) {
            Ok(task) => self.with_spending(task, self.tasks[id].current_model, true),
            Err(_) => self,
        }
    }

    /// What a worker that fails a task is answered.
    pub open spec fn fail_answer(
        self,
        id: u128,
        error: Seq<char>,
        tokens_used: u32,
        cost_usd: UsdView,
        now: int,
    ) -> Result<TaskView, ErrorView> {
        if !self.tasks.contains_key(id) {
            Err(ErrorView::TaskNotFound(id))
        } else {
            Ok(self.tasks[id].failed_over(error, tokens_used, cost_usd, now))
        }
    }

    /// The broker after a worker failed a task.
    pub open spec fn failed(
        self,
        id: u128,
        error: Seq<char>,
        tokens_used: u32,
        cost_usd: UsdView,
        now: int,
    ) -> BrokerView {
        match self.fail_answer(id, error, tokens_used, cost_usd, now) {
            Ok(task) => self.with_spending(task, self.tasks[id].current_model, true),
            Err(_) => self,
        }
    }

    /// What a client that resumes a task is answered.
    pub open spec fn resume_answer(self, id: u128, key: Seq<char>, now: int) -> Result<
        TaskView,
        ErrorView,
    > {
        if !self.tasks.contains_key(id) {
            Err(ErrorView::TaskNotFound(id))
        } else if self.tasks[id].status != TaskStatus::Paused {
            Err(
                ErrorView::InvalidStatus {
                    task_id: id,
                    expected: "paused"@,
                    actual: self.tasks[id].status,
                },
            )
        } else if self.tasks[id].resume_key != Some(key) {
            Err(ErrorView::InvalidResumeKey(id))
        } else {
            Ok(self.tasks[id].resumed(now))
        }
    }

    /// The broker after a client resumed a task.
    pub open spec fn resumed(self, id: u128, key: Seq<char>, now: int) -> BrokerView {
        match self.resume_answer(id, key, now) {
            Ok(task) => BrokerView { tasks: self.tasks.insert(id, task), ..self },
            Err(_) => self,
        }
    }

    /// The broker with a task sent to the queue of its model.
    pub open spec fn enqueued(self, task: TaskView) -> BrokerView {
        BrokerView { queues: sent_to(self.queues, task.current_model, task.task_id), ..self }
    }

    /// What becomes of a task that was to be written.
    pub open spec fn settle_answer(
        self,
        task: TaskView,
        saved: Result<(), Seq<char>>,
    ) -> Result<DeliveryView, ErrorView> {
        match saved {
            Err(reason) => Err(ErrorView::Storage(reason)),
            Ok(()) => if task.status == TaskStatus::Pending && !queue_of(
                self.queues,
                task.current_model,
            ).has_room() {
                Ok(DeliveryView::QueueFull(task))
            } else {
                Ok(DeliveryView::Done(task))
            },
        }
    }

    /// The broker after a task was to be written: one that was, and that waits, is
    /// sent to the queue of its model.
    pub open spec fn settled(self, task: TaskView, saved: Result<(), Seq<char>>) -> BrokerView {
        if saved is Ok && task.status == TaskStatus::Pending {
            self.enqueued(task)
        } else {
            self
        }
    }

    /// The broker after a new task was to be written: one that was is known from
    /// then on, and sent to the queue of its model.
    pub open spec fn submitted(self, task: TaskView, saved: Result<(), Seq<char>>) -> BrokerView {
        if saved is Ok {
            BrokerView { tasks: self.tasks.insert(task.task_id, task), ..self }.settled(task, saved)
        } else {
            self
        }
    }

    /// The broker without the finished tasks that nobody touched for a day.
    pub open spec fn swept(self, now: int) -> BrokerView {
        BrokerView {
            tasks: self.tasks.restrict(
                Set::new(|id: u128| !self.tasks[id].stale(now - seconds(RETENTION_SECS as int))),
            ),
            ..self
        }
    }
}

/// The stored tasks as a restarted broker takes them up, by their identifiers.
pub open spec fn recovered_tasks(stored: Seq<TaskView>, now: int) -> Map<u128, TaskView>
    decreases stored.len(),
{
    if stored.len() == 0 {
        Map::empty()
    } else {
        recovered_tasks(stored.drop_last(), now).insert(
            stored.last().task_id,
            stored.last().recovered(now),
        )
    }
}

/// The stored tasks that wait for a model when the broker is restarted.
pub open spec fn recovered_queue(stored: Seq<TaskView>, model: Seq<char>) -> Seq<u128> {
    stored.filter(
        |t: TaskView|
            (t.status == TaskStatus::Pending || t.status == TaskStatus::Processing)
                && t.current_model == model,
    ).map_values(|t: TaskView| t.task_id)
}

/// The queues of a restarted broker: the stored tasks that wait, in their order.
pub open spec fn recovered_queues(stored: Seq<TaskView>) -> Map<Seq<char>, QueueView> {
    Map::new(
        |m: Seq<char>| recovered_queue(stored, m).len() > 0,
        |m: Seq<char>| QueueView { sent: recovered_queue(stored, m), deferred: Seq::empty() },
    )
}

/// The stored tasks that change when the broker is restarted, as they are then.
pub open spec fn recovered_changes(stored: Seq<TaskView>, now: int) -> Seq<TaskView> {
    stored.filter(|t: TaskView| t.status == TaskStatus::Processing).map_values(
        |t: TaskView| t.recovered(now),
    )
}

/// Whether the queues can take all the stored tasks that wait.
pub open spec fn recoverable(stored: Seq<TaskView>) -> bool {
    forall|m: Seq<char>| (#[trigger] recovered_queue(stored, m)).len() <= QUEUE_CAPACITY
}

/// A restarted broker.
pub open spec fn recovered_broker(limiter: LimiterView, stored: Seq<TaskView>, now: int) -> BrokerView {
    BrokerView {
        tasks: recovered_tasks(stored, now),
        queues: recovered_queues(stored),
        limiter,
    }
}

/// What a delivery stands for.
pub enum DeliveryView {
    Done(TaskView),
    QueueFull(TaskView),
}

/// The first task that can be handed out can be, and none ahead of it.
pub(crate) proof fn lemma_first_ready(b: BrokerView, model: Seq<char>, order: Seq<u128>, now: int)
    ensures
        0 <= b.first_ready(model, order, now) <= order.len(),
        forall|j: int|
            0 <= j < b.first_ready(model, order, now) ==> !b.ready(model, #[trigger] order[j], now),
        b.first_ready(model, order, now) < order.len() ==> b.ready(
            model,
            order[b.first_ready(model, order, now)],
            now,
        ),
    decreases order.len(),
{
    if order.len() > 0 && !b.ready(model, order[0], now) {
        let rest = order.skip(1);
        lemma_first_ready(b, model, rest, now);
        assert forall|j: int| 0 <= j < b.first_ready(model, order, now) implies !b.ready(
            model,
            #[trigger] order[j],
            now,
        ) by {
            if j > 0 {
                assert(rest[j - 1] == order[j]);
            }
        }
    }
}

/// Where all tasks ahead of one cannot be handed out, and it can be or there is
/// none, it is the first.
pub(crate) proof fn lemma_first_ready_is(b: BrokerView, model: Seq<char>, order: Seq<u128>, now: int, k: int)
    requires
        0 <= k <= order.len(),
        forall|j: int| 0 <= j < k ==> !b.ready(model, #[trigger] order[j], now),
        k < order.len() ==> b.ready(model, order[k], now),
    ensures
        b.first_ready(model, order, now) == k,
{
    lemma_first_ready(b, model, order, now);
    let f = b.first_ready(model, order, now);
    if f < k {
        assert(!b.ready(model, order[f], now));
    } else if f > k {
        assert(!b.ready(model, order[k], now));
    }
}

/// What waits among the tasks passed, with one more.
pub(crate) proof fn lemma_still_waiting_push(tasks: Map<u128, TaskView>, ids: Seq<u128>, id: u128, now: int)
    ensures
        still_waiting(tasks, ids.push(id), now) == (if waits(tasks, id, now) {
            still_waiting(tasks, ids, now).push(id)
        } else {
            still_waiting(tasks, ids, now)
        }),
{
    reveal(Seq::filter);
    assert(ids.push(id).drop_last() =~= ids);
}

/// A list with one more element has that one and those it had.
pub(crate) proof fn lemma_push_contains(ids: Seq<u128>, id: u128)
    ensures
        forall|x: u128| #[trigger] ids.push(id).contains(x) <==> ids.contains(x) || x == id,
{
    let more = ids.push(id);
    assert forall|x: u128| #[trigger] more.contains(x) <==> ids.contains(x) || x == id by {
        if ids.contains(x) {
            let i = choose|i: int| 0 <= i < ids.len() && ids[i] == x;
            assert(more[i] == x);
        }
        if x == id {
            assert(more[ids.len() as int] == x);
        }
        if more.contains(x) && x != id {
            let i = choose|i: int| 0 <= i < more.len() && more[i] == x;
            assert(ids[i] == x);
        }
    }
}

/// The tasks after one more was passed.
pub(crate) proof fn lemma_after_passing_push(tasks: Map<u128, TaskView>, ids: Seq<u128>, id: u128, now: int)
    ensures
        after_passing(tasks, ids.push(id), now) == (if must_fail(tasks, id, now) {
            after_passing(tasks, ids, now).insert(id, tasks[id].invalidated(now))
        } else {
            after_passing(tasks, ids, now)
        }),
{
    let more = ids.push(id);
    lemma_push_contains(ids, id);
    let a = after_passing(tasks, more, now);
    let b = after_passing(tasks, ids, now);
    if must_fail(tasks, id, now) {
        assert(a =~= b.insert(id, tasks[id].invalidated(now)));
    } else {
        assert(a =~= b);
    }
}

/// A list of changes with one more task, which had not changed before.
pub(crate) proof fn lemma_lists_changes_push(
    changed: Seq<TaskView>,
    before: Map<u128, TaskView>,
    after: Map<u128, TaskView>,
    task: TaskView,
)
    requires
        lists_changes(changed, before, after),
        before.contains_key(task.task_id),
        after.contains_key(task.task_id),
        after[task.task_id] == before[task.task_id],
        task != before[task.task_id],
    ensures
        lists_changes(changed.push(task), before, after.insert(task.task_id, task)),
{
    let more = changed.push(task);
    let then = after.insert(task.task_id, task);
    assert(!lists(changed, task.task_id));
    assert forall|i: int, j: int| 0 <= i < j < more.len() implies (
    #[trigger] more[i]).task_id != (#[trigger] more[j]).task_id by {
        assert(more[i] == changed[i]);
        if j < changed.len() {
            assert(more[j] == changed[j]);
        }
    }
    assert forall|i: int| 0 <= i < more.len() implies then.contains_key(
        (#[trigger] more[i]).task_id,
    ) && then[more[i].task_id] == more[i] by {
        if i < changed.len() {
            assert(more[i] == changed[i]);
            assert(changed[i].task_id != task.task_id);
        }
    }
    assert forall|id: u128| #[trigger] then.contains_key(id) implies ((!before.contains_key(id)
        || then[id] != before[id]) <==> lists(more, id)) by {
        if id == task.task_id {
            assert(more[changed.len() as int].task_id == id);
        } else {
            assert(after.contains_key(id));
            if lists(changed, id) {
                let i = choose|i: int|
                    0 <= i < changed.len() && (#[trigger] changed[i]).task_id == id;
                assert(more[i].task_id == id);
            }
            if lists(more, id) {
                let i = choose|i: int| 0 <= i < more.len() && (#[trigger] more[i]).task_id == id;
                assert(changed[i].task_id == id);
            }
        }
    }
}

/// Taking up one more stored task.
pub(crate) proof fn lemma_recovered_push(stored: Seq<TaskView>, task: TaskView, now: int)
    ensures
        forall|m: Seq<char>| #[trigger]
            recovered_queue(stored.push(task), m) == (if task.recovered(now).status
                == TaskStatus::Pending && task.current_model == m {
                recovered_queue(stored, m).push(task.task_id)
            } else {
                recovered_queue(stored, m)
            }),
        recovered_changes(stored.push(task), now) == (if task.status == TaskStatus::Processing {
            recovered_changes(stored, now).push(task.recovered(now))
        } else {
            recovered_changes(stored, now)
        }),
        recoverable(stored) ==> {
            let room = queue_of(recovered_queues(stored), task.current_model).has_room();
            if task.recovered(now).status != TaskStatus::Pending {
                recoverable(stored.push(task)) && recovered_queues(stored.push(task))
                    == recovered_queues(stored)
            } else if room {
                recoverable(stored.push(task)) && recovered_queues(stored.push(task)) == sent_to(
                    recovered_queues(stored),
                    task.current_model,
                    task.task_id,
                )
            } else {
                recovered_queue(stored.push(task), task.current_model).len() > QUEUE_CAPACITY
            }
        },
{
    reveal(Seq::filter);
    let more = stored.push(task);
    assert(more.drop_last() =~= stored);
    assert forall|m: Seq<char>| #[trigger]
        recovered_queue(more, m) == (if task.recovered(now).status == TaskStatus::Pending
            && task.current_model == m {
            recovered_queue(stored, m).push(task.task_id)
        } else {
            recovered_queue(stored, m)
        }) by {
        assert(recovered_queue(more, m) =~= (if task.recovered(now).status == TaskStatus::Pending
            && task.current_model == m {
            recovered_queue(stored, m).push(task.task_id)
        } else {
            recovered_queue(stored, m)
        }));
    }
    assert(recovered_changes(more, now) =~= (if task.status == TaskStatus::Processing {
        recovered_changes(stored, now).push(task.recovered(now))
    } else {
        recovered_changes(stored, now)
    }));
    if recoverable(stored) {
        let m = task.current_model;
        let before = recovered_queue(stored, m);
        assert(queue_of(recovered_queues(stored), m).sent =~= before);
        if task.recovered(now).status != TaskStatus::Pending {
            assert(recovered_queues(more) =~= recovered_queues(stored));
        } else if before.len() < QUEUE_CAPACITY {
            assert(recovered_queues(more) =~= sent_to(recovered_queues(stored), m, task.task_id));
        }
    }
}

/// More stored tasks wait for a model than among the first of them.
pub(crate) proof fn lemma_recovered_queue_prefix(stored: Seq<TaskView>, k: int, model: Seq<char>)
    requires
        0 <= k <= stored.len(),
    ensures
        recovered_queue(stored.take(k), model).len() <= recovered_queue(stored, model).len(),
    decreases stored.len(),
{
    if k == stored.len() {
        assert(stored.take(k) =~= stored);
    } else {
        let rest = stored.drop_last();
        lemma_recovered_queue_prefix(rest, k, model);
        assert(rest.take(k) =~= stored.take(k));
        assert(rest.push(stored.last()) =~= stored);
        lemma_recovered_push(rest, stored.last(), 0);
    }
}

} // verus!
