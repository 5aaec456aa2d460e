//! The broker: tasks, their queues and the rate limiter under one roof.
//!
//! The broker decides; it neither reads nor writes storage. An operation that
//! changes a task hands the changed task out to be written, and
//! [`Broker::settle`] takes up whether that went well.

use std::collections::HashMap;
use vstd::prelude::*;

use crate::clock::{Reading, earliest, seconds};
use crate::envelope::{MessageEnvelope, Report, TaskStatus, TaskView, report_view};
use crate::error::{BrokerError, ErrorView};
use crate::ids::{is_random_id, random_id};
use crate::limiter::{
    LimiterView, ModelLimit, TokenRateLimiter, UNRESOLVED_SAFETY_WINDOW_SECS, answer_view,
    lemma_refreshed_same,
};
use crate::model::{
    BrokerView, DeliveryView, RETENTION_SECS, after_passing, lemma_after_passing_push,
    lemma_first_ready_is, lemma_lists_changes_push, lemma_push_contains, lemma_recovered_push,
    lemma_recovered_queue_prefix, lemma_still_waiting_push, list_view, lists_changes, must_fail,
    option_view, outcome_view, recoverable, recovered_broker, recovered_changes, recovered_queues,
    recovered_tasks, still_waiting, waits,
};
use crate::queue::{QueueTable, QueueView};
use crate::schedule::{order_tasks, tasks_view};
use crate::usd::Usd;

verus! {

broadcast use vstd::std_specs::hash::group_hash_axioms;

/// What became of a task that was written.
#[derive(Debug)]
pub enum Delivery {
    /// All is done.
    Done(MessageEnvelope),
    /// The task waits, but the queue of its model has no room for it yet: it is to
    /// be settled again later.
    QueueFull(MessageEnvelope),
}

impl View for Delivery {
    type V = DeliveryView;

    open spec fn view(&self) -> DeliveryView {
        match self {
            Delivery::Done(task) => DeliveryView::Done(task@),
            Delivery::QueueFull(task) => DeliveryView::QueueFull(task@),
        }
    }
}

/// What settling a task answered.
pub open spec fn delivery_view(r: Result<Delivery, BrokerError>) -> Result<
    DeliveryView,
    ErrorView,
> {
    match r {
        Ok(d) => Ok(d@),
        Err(e) => Err(e@),
    }
}

/// A restarted broker, and the tasks that changed and are to be written.
pub struct Recovery {
    pub broker: Broker,
    pub changed: Vec<MessageEnvelope>,
}

/// A broker.
pub struct Broker {
    pub limiter: TokenRateLimiter,
    tasks: HashMap<u128, MessageEnvelope>,
    queues: QueueTable,
}

impl View for Broker {
    type V = BrokerView;

    closed spec fn view(&self) -> BrokerView {
        BrokerView {
            tasks: tasks_view(self.tasks@),
            queues: self.queues@,
            limiter: self.limiter@,
        }
    }
}

/// What a poll hands out: the task for the worker, if there is one, and all
/// tasks that changed and are to be written.
pub struct Poll {
    pub task: Option<MessageEnvelope>,
    pub changed: Vec<MessageEnvelope>,
}

/// Changing one task of the broker changes its view.
proof fn lemma_tasks_insert(tasks: Map<u128, MessageEnvelope>, id: u128, task: MessageEnvelope)
    ensures
        tasks_view(tasks.insert(id, task)) == tasks_view(tasks).insert(id, task@),
{
    assert(tasks_view(tasks.insert(id, task)) =~= tasks_view(tasks).insert(id, task@));
}

impl Broker {
    /// Each task is filed under its own identifier, and each model has a queue of
    /// its own.
    pub closed spec fn wf(&self) -> bool {
        self.queues.wf() && self@.filed()
    }

    /// In a broker each task is filed under its own identifier.
    pub proof fn lemma_filed(&self)
        requires
            self.wf(),
        ensures
            self@.filed(),
    {
    }

    /// A broker that takes up the tasks stored by an earlier run, at the time that
    /// the clock shows, and the tasks that this changes, to be written. There is none
    /// where more tasks wait for a model than its queue takes.
    pub fn new(limiter: TokenRateLimiter, stored: Vec<MessageEnvelope>) -> (r: Option<Recovery>)
        ensures
            r is Some <==> recoverable(list_view(stored@)),
            r matches Some(recovery) ==> {
                &&& recovery.broker.wf()
                &&& exists|now: int|
                    {
                        &&& 0 <= now
                        &&& recovery.broker@ == #[trigger] recovered_broker(
                            limiter@,
                            list_view(stored@),
                            now,
                        )
                        &&& list_view(recovery.changed@) == recovered_changes(
                            list_view(stored@),
                            now,
                        )
                    }
            },
    {
        let now = Reading::now();
        Broker::new_at(limiter, stored, now)
    }

    /// A broker that takes up stored tasks at the time `now`.
    pub fn new_at(limiter: TokenRateLimiter, stored: Vec<MessageEnvelope>, now: Reading) -> (r:
        Option<Recovery>)
        ensures
            r is Some <==> recoverable(list_view(stored@)),
            r matches Some(recovery) ==> {
                &&& recovery.broker.wf()
                &&& recovery.broker@ == recovered_broker(limiter@, list_view(stored@), now@)
                &&& list_view(recovery.changed@) == recovered_changes(list_view(stored@), now@)
            },
    {
        let ghost views = list_view(stored@);
        let mut tasks: HashMap<u128, MessageEnvelope> = HashMap::new();
        let mut queues: QueueTable = QueueTable::new();
        let mut changed: Vec<MessageEnvelope> = Vec::new();
        let mut i: usize = 0;
        proof {
            reveal(Seq::filter);
            assert(views.take(0) =~= Seq::<TaskView>::empty());
            assert(tasks_view(tasks@) =~= Map::empty());
            assert(queues@ =~= recovered_queues(views.take(0)));
            assert(list_view(changed@) =~= recovered_changes(views.take(0), now@));
        }
        while i < stored.len()
            invariant
                i <= stored.len(),
                views == list_view(stored@),
                queues.wf(),
                forall|id: u128| #[trigger]
                    tasks_view(tasks@).contains_key(id) ==> tasks_view(tasks@)[id].task_id == id,
                tasks_view(tasks@) == recovered_tasks(views.take(i as int), now@),
                queues@ == recovered_queues(views.take(i as int)),
                list_view(changed@) == recovered_changes(views.take(i as int), now@),
                recoverable(views.take(i as int)),
            decreases stored.len() - i,
        {
            let ghost seen = views.take(i as int);
            let ghost stored_task = views[i as int];
            let mut task: MessageEnvelope = stored[i].clone();
            proof {
                assert(views.take(i + 1) =~= seen.push(stored_task));
                assert(seen.push(stored_task).drop_last() =~= seen);
                lemma_recovered_push(seen, stored_task, now@);
            }
            if task.recover(now) {
                let copy: MessageEnvelope = task.clone();
                assert(list_view(changed@.push(copy)) =~= list_view(changed@).push(copy@));
                changed.push(copy);
            }
            let task_id: u128 = task.task_id;
            if task.status == TaskStatus::Pending {
                let model: String = task.current_model.clone();
                if !queues.send(model.as_str(), task_id) {
                    proof {
                        lemma_recovered_queue_prefix(views, i + 1, model@);
                    }
                    return None;
                }
            }
            proof {
                lemma_tasks_insert(tasks@, task_id, task);
            }
            tasks.insert(task_id, task);
            i = i + 1;
        }
        assert(views.take(i as int) =~= views);
        Some(Recovery { broker: Broker { limiter, tasks, queues }, changed })
    }

    /// Fails a waiting task that may no longer be handed out, lists it as changed,
    /// and says whether it did so.
    fn check_and_invalidate_task(
        &mut self,
        task_id: u128,
        now: Reading,
        changed: &mut Vec<MessageEnvelope>,
    ) -> (r: bool)
        requires
            old(self).wf(),
        ensures
            final(self).wf(),
            r == must_fail(old(self)@.tasks, task_id, now@),
            r ==> {
                &&& final(self)@ == (BrokerView {
                    tasks: old(self)@.tasks.insert(
                        task_id,
                        old(self)@.tasks[task_id].invalidated(now@),
                    ),
                    ..old(self)@
                })
                &&& list_view(final(changed)@) == list_view(old(changed)@).push(
                    old(self)@.tasks[task_id].invalidated(now@),
                )
            },
            !r ==> *final(self) == *old(self) && *final(changed) == *old(changed),
    {
        match self.tasks.get(&task_id) {
            Some(task) => {
                if task.status != TaskStatus::Pending {
                    return false;
                }
                let mut task: MessageEnvelope = task.clone();
                if !task.invalidate(now) {
                    return false;
                }
                let copy: MessageEnvelope = task.clone();
                proof {
                    assert(self@.tasks.contains_key(task_id));
                    lemma_tasks_insert(self.tasks@, task_id, task);
                    assert(list_view(changed@.push(copy)) =~= list_view(changed@).push(copy@));
                }
                changed.push(copy);
                self.tasks.insert(task_id, task);
                true
            },
            None => false,
        }
    }

    /// Puts a waiting task in the hands of a worker, unless it may no longer be
    /// handed out: then it fails. Either way it is listed as changed.
    fn set_task_processing(
        &mut self,
        task_id: u128,
        now: Reading,
        changed: &mut Vec<MessageEnvelope>,
    ) -> (r: Option<MessageEnvelope>)
        requires
            old(self).wf(),
        ensures
            final(self).wf(),
            waits(old(self)@.tasks, task_id, now@) ==> {
                let task = old(self)@.tasks[task_id].started(now@);
                &&& option_view(r) == Some(task)
                &&& final(self)@ == (BrokerView {
                    tasks: old(self)@.tasks.insert(task_id, task),
                    ..old(self)@
                })
                &&& list_view(final(changed)@) == list_view(old(changed)@).push(task)
            },
            must_fail(old(self)@.tasks, task_id, now@) ==> {
                let task = old(self)@.tasks[task_id].invalidated(now@);
                &&& r is None
                &&& final(self)@ == (BrokerView {
                    tasks: old(self)@.tasks.insert(task_id, task),
                    ..old(self)@
                })
                &&& list_view(final(changed)@) == list_view(old(changed)@).push(task)
            },
            !waits(old(self)@.tasks, task_id, now@) && !must_fail(
                old(self)@.tasks,
                task_id,
                now@,
            ) ==> r is None && *final(self) == *old(self) && *final(changed) == *old(changed),
    {
        if self.check_and_invalidate_task(task_id, now, changed) {
            return None;
        }
        match self.tasks.get(&task_id) {
            Some(task) => {
                if task.status != TaskStatus::Pending {
                    return None;
                }
                let mut task: MessageEnvelope = task.clone();
                task.start(now);
                let copy: MessageEnvelope = task.clone();
                let handed_out: MessageEnvelope = task.clone();
                proof {
                    assert(self@.tasks.contains_key(task_id));
                    lemma_tasks_insert(self.tasks@, task_id, task);
                    assert(list_view(changed@.push(copy)) =~= list_view(changed@).push(copy@));
                }
                changed.push(copy);
                self.tasks.insert(task_id, task);
                Some(handed_out)
            },
            None => None,
        }
    }

    /// Hands a worker of a model, at the time that the clock shows, the task
    /// whose turn it is.
    pub fn poll_task(&mut self, model: &str) -> (r: Poll)
        requires
            old(self).wf(),
        ensures
            final(self).wf(),
            exists|now: int|
                0 <= now && final(self)@ == #[trigger] old(self)@.polled(model@, now)
                    && option_view(r.task) == old(self)@.poll_answer(model@, now),
            lists_changes(list_view(r.changed@), old(self)@.tasks, final(self)@.tasks),
    {
        let now = Reading::now();
        self.poll_task_at(model, now)
    }

    /// Hands a worker of a model, at the time `now`, the task whose turn it is.
    pub fn poll_task_at(&mut self, model: &str, now: Reading) -> (r: Poll)
        requires
            old(self).wf(),
            now@ - seconds(UNRESOLVED_SAFETY_WINDOW_SECS as int) >= earliest(),
        ensures
            final(self).wf(),
            final(self)@ == old(self)@.polled(model@, now@),
            option_view(r.task) == old(self)@.poll_answer(model@, now@),
            lists_changes(list_view(r.changed@), old(self)@.tasks, final(self)@.tasks),
    {
        let ghost before = self@;
        let mut changed: Vec<MessageEnvelope> = Vec::new();
        let waiting: Vec<u128> = match self.queues.drain(model) {
            Some(waiting) => waiting,
            None => {
                assert(lists_changes(list_view(changed@), before.tasks, self@.tasks));
                return Poll { task: None, changed };
            },
        };
        let order: Vec<u128> = order_tasks(&self.tasks, &waiting);
        assert(order@ == before.offers(model@));
        let mut kept: Vec<u128> = Vec::new();
        let mut i: usize = 0;
        proof {
            reveal(Seq::filter);
            assert(order@.take(0) =~= Seq::<u128>::empty());
            assert(after_passing(before.tasks, order@.take(0), now@) =~= before.tasks);
            assert(lists_changes(list_view(changed@), before.tasks, self@.tasks));
        }
        while i < order.len()
            invariant
                i <= order.len(),
                self.wf(),
                now@ - seconds(UNRESOLVED_SAFETY_WINDOW_SECS as int) >= earliest(),
                before == old(self)@,
                before.queues.contains_key(model@),
                order@ == before.offers(model@),
                self@.queues == before.queues.insert(model@, QueueView::empty()),
                self@.tasks == after_passing(before.tasks, order@.take(i as int), now@),
                kept@ == still_waiting(before.tasks, order@.take(i as int), now@),
                self@.limiter == (if kept@.len() > 0 {
                    before.limiter.refreshed(model@, now@)
                } else {
                    before.limiter
                }),
                forall|j: int| 0 <= j < i ==> !before.ready(model@, #[trigger] order@[j], now@),
                before.filed(),
                lists_changes(list_view(changed@), before.tasks, self@.tasks),
            decreases order.len() - i,
        {
            let task_id: u128 = order[i];
            let ghost passed = order@.take(i as int);
            let ghost tasks_before = self@.tasks;
            let ghost changed_before = list_view(changed@);
            proof {
                assert(order@.take(i + 1) =~= passed.push(task_id));
                lemma_after_passing_push(before.tasks, passed, task_id, now@);
                lemma_still_waiting_push(before.tasks, passed, task_id, now@);
            }
            if self.check_and_invalidate_task(task_id, now, &mut changed) {
                proof {
                    assert(must_fail(before.tasks, task_id, now@));
                    lemma_lists_changes_push(
                        changed_before,
                        before.tasks,
                        tasks_before,
                        before.tasks[task_id].invalidated(now@),
                    );
                }
                i = i + 1;
                continue;
            }
            let budget: Option<u32> = match self.tasks.get(&task_id) {
                Some(task) => if task.status == TaskStatus::Pending {
                    Some(task.token_budget)
                } else {
                    None
                },
                None => None,
            };
            proof {
                assert(self@.tasks.contains_key(task_id) == before.tasks.contains_key(task_id));
                if before.tasks.contains_key(task_id) {
                    assert(self@.tasks[task_id] == self.tasks@[task_id]@);
                    assert(self@.tasks[task_id] == (if passed.contains(task_id) && must_fail(
                        before.tasks,
                        task_id,
                        now@,
                    ) {
                        before.tasks[task_id].invalidated(now@)
                    } else {
                        before.tasks[task_id]
                    }));
                }
                assert((budget is Some) == waits(before.tasks, task_id, now@));
            }
            if let Some(token_budget) = budget {
                proof {
                    lemma_refreshed_same(
                        before.limiter,
                        model@,
                        task_id,
                        token_budget,
                        now@,
                    );
                }
                if self.limiter.check_and_record_at(model, task_id, token_budget, now).is_ok() {
                    proof {
                        lemma_first_ready_is(before, model@, order@, now@, i as int);
                    }
                    let mut j: usize = i + 1;
                    assert(order@.subrange(i + 1, j as int) =~= Seq::<u128>::empty());
                    let ghost kept_before = kept@;
                    while j < order.len()
                        invariant
                            i < j <= order.len(),
                            kept@ == kept_before + order@.subrange(i + 1, j as int),
                        decreases order.len() - j,
                    {
                        kept.push(order[j]);
                        assert(kept@ =~= kept_before + order@.subrange(i + 1, j + 1));
                        j = j + 1;
                    }
                    assert(order@.subrange(i + 1, j as int) =~= order@.skip(i + 1));
                    self.queues.defer(model, kept);
                    let task = self.set_task_processing(task_id, now, &mut changed);
                    proof {
                        lemma_lists_changes_push(
                            changed_before,
                            before.tasks,
                            tasks_before,
                            before.tasks[task_id].started(now@),
                        );
                        assert(self@.queues =~= before.polled(model@, now@).queues);
                    }
                    return Poll { task, changed };
                }
                kept.push(task_id);
            }
            i = i + 1;
        }
        proof {
            assert(order@.take(i as int) =~= order@);
            lemma_first_ready_is(before, model@, order@, now@, i as int);
        }
        self.queues.defer(model, kept);
        assert(self@.queues =~= before.polled(model@, now@).queues);
        Poll { task: None, changed }
    }

    /// Takes up the report of a worker on a task, at the time that the clock shows
    /// and with a resume key drawn at random. The task that it answers with is to
    /// be written and settled.
    pub fn checkpoint_task(
        &mut self,
        task_id: u128,
        tokens_used: u32,
        cost_usd: Usd,
        output: Option<String>,
        error_message: Option<String>,
        pause_request: bool,
    ) -> (r: Result<MessageEnvelope, BrokerError>)
        requires
            old(self).wf(),
        ensures
            final(self).wf(),
            exists|now: int, key_id: u128|
                {
                    &&& 0 <= now
                    &&& is_random_id(key_id)
                    &&& final(self)@ == #[trigger] old(self)@.checkpointed(
                        task_id,
                        report_view(tokens_used, cost_usd, output, error_message, pause_request),
                        now,
                        key_id,
                    )
                    &&& outcome_view(r) == old(self)@.checkpoint_answer(
                        task_id,
                        report_view(tokens_used, cost_usd, output, error_message, pause_request),
                        now,
                        key_id,
                    )
                },
    {
        let now = Reading::now();
        let key_id: u128 = random_id();
        let report = Report { tokens_used, cost_usd, output, error_message, pause_request };
        self.checkpoint_task_at(task_id, report, now, key_id)
    }

    /// Takes up the report of a worker on a task at the time `now`. Where the task
    /// is paused, its resume key is made from `key_id`.
    pub fn checkpoint_task_at(
        &mut self,
        task_id: u128,
        report: Report,
        now: Reading,
        key_id: u128,
    ) -> (r: Result<MessageEnvelope, BrokerError>)
        requires
            old(self).wf(),
        ensures
            final(self).wf(),
            final(self)@ == old(self)@.checkpointed(task_id, report@, now@, key_id),
            outcome_view(r) == old(self)@.checkpoint_answer(task_id, report@, now@, key_id),
    {
        let mut task: MessageEnvelope = match self.tasks.get(&task_id) {
            Some(task) => task.clone(),
            None => {
                return Err(BrokerError::TaskNotFound(task_id));
            },
        };
        if task.status != TaskStatus::Processing {
            return Err(
                BrokerError::InvalidStatus {
                    task_id,
                    expected: "processing".to_owned(),
                    actual: task.status,
                },
            );
        }
        let resolved: bool = report.cost_usd.exceeds(&task.max_cost_usd) || report.pause_request;
        self.limiter.report_actual_usage(
            task.current_model.as_str(),
            task_id,
            report.tokens_used,
            resolved,
        );
        task.checkpoint(report, now, key_id);
        let copy: MessageEnvelope = task.clone();
        proof {
            lemma_tasks_insert(self.tasks@, task_id, task);
        }
        self.tasks.insert(task_id, task);
        Ok(copy)
    }

    /// Gives a task its result, at the time that the clock shows. The task that it
    /// answers with is to be written and settled.
    pub fn complete_task(
        &mut self,
        task_id: u128,
        output: String,
        tokens_used: u32,
        cost_usd: Usd,
    ) -> (r: Result<MessageEnvelope, BrokerError>)
        requires
            old(self).wf(),
        ensures
            final(self).wf(),
            exists|now: int|
                {
                    &&& 0 <= now
                    &&& final(self)@ == #[trigger] old(self)@.completed(
                        task_id,
                        output@,
                        tokens_used,
                        cost_usd@,
                        now,
                    )
                    &&& outcome_view(r) == old(self)@.complete_answer(
                        task_id,
                        output@,
                        tokens_used,
                        cost_usd@,
                        now,
                    )
                },
    {
        let now = Reading::now();
        self.complete_task_at(task_id, output, tokens_used, cost_usd, now)
    }

    /// Gives a task its result at the time `now`.
    pub fn complete_task_at(
        &mut self,
        task_id: u128,
        output: String,
        tokens_used: u32,
        cost_usd: Usd,
        now: Reading,
    ) -> (r: Result<MessageEnvelope, BrokerError>)
        requires
            old(self).wf(),
        ensures
            final(self).wf(),
            final(self)@ == old(self)@.completed(
                task_id,
                output@,
                tokens_used,
                cost_usd@,
                now@,
            ),
            outcome_view(r) == old(self)@.complete_answer(
                task_id,
                output@,
                tokens_used,
                cost_usd@,
                now@,
            ),
    {
        let mut task: MessageEnvelope = match self.tasks.get(&task_id) {
            Some(task) => task.clone(),
            None => {
                return Err(BrokerError::TaskNotFound(task_id));
            },
        };
        self.limiter.report_actual_usage(task.current_model.as_str(), task_id, tokens_used, true);
        task.complete(output, tokens_used, cost_usd, now);
        let copy: MessageEnvelope = task.clone();
        proof {
            lemma_tasks_insert(self.tasks@, task_id, task);
        }
        self.tasks.insert(task_id, task);
        Ok(copy)
    }

    /// Takes up the failure of a task, at the time that the clock shows: it waits
    /// again for its next fallback model, or has failed where it has none. The task
    /// that it answers with is to be written and settled.
    pub fn fail_task(
        &mut self,
        task_id: u128,
        error: String,
        tokens_used: u32,
        cost_usd: Usd,
    ) -> (r: Result<MessageEnvelope, BrokerError>)
        requires
            old(self).wf(),
            old(self)@.tasks.contains_key(task_id)
                && old(self)@.tasks[task_id].fallback_models.len() > 0
                ==> old(self)@.tasks[task_id].trace_depth < u32::MAX,
        ensures
            final(self).wf(),
            exists|now: int|
                {
                    &&& 0 <= now
                    &&& final(self)@ == #[trigger] old(self)@.failed(
                        task_id,
                        error@,
                        tokens_used,
                        cost_usd@,
                        now,
                    )
                    &&& outcome_view(r) == old(self)@.fail_answer(
                        task_id,
                        error@,
                        tokens_used,
                        cost_usd@,
                        now,
                    )
                },
    {
        let now = Reading::now();
        self.fail_task_at(task_id, error, tokens_used, cost_usd, now)
    }

    /// Takes up the failure of a task at the time `now`.
    pub fn fail_task_at(
        &mut self,
        task_id: u128,
        error: String,
        tokens_used: u32,
        cost_usd: Usd,
        now: Reading,
    ) -> (r: Result<MessageEnvelope, BrokerError>)
        requires
            old(self).wf(),
            old(self)@.tasks.contains_key(task_id)
                && old(self)@.tasks[task_id].fallback_models.len() > 0
                ==> old(self)@.tasks[task_id].trace_depth < u32::MAX,
        ensures
            final(self).wf(),
            final(self)@ == old(self)@.failed(task_id, error@, tokens_used, cost_usd@, now@),
            outcome_view(r) == old(self)@.fail_answer(
                task_id,
                error@,
                tokens_used,
                cost_usd@,
                now@,
            ),
    {
        let mut task: MessageEnvelope = match self.tasks.get(&task_id) {
            Some(task) => task.clone(),
            None => {
                return Err(BrokerError::TaskNotFound(task_id));
            },
        };
        self.limiter.report_actual_usage(task.current_model.as_str(), task_id, tokens_used, true);
        assert(task@ == self@.tasks[task_id]);
        assert(task@.fallback_models.len() == task.fallback_models@.len());
        task.fail_over(error, tokens_used, cost_usd, now);
        let copy: MessageEnvelope = task.clone();
        proof {
            lemma_tasks_insert(self.tasks@, task_id, task);
        }
        self.tasks.insert(task_id, task);
        Ok(copy)
    }

    /// Lets a paused task wait again, at the time that the clock shows, for who
    /// knows its resume key. The task that it answers with is to be written and
    /// settled.
    pub fn resume_task(&mut self, task_id: u128, resume_key: &str) -> (r: Result<
        MessageEnvelope,
        BrokerError,
    >)
        requires
            old(self).wf(),
        ensures
            final(self).wf(),
            exists|now: int|
                {
                    &&& 0 <= now
                    &&& final(self)@ == #[trigger] old(self)@.resumed(task_id, resume_key@, now)
                    &&& outcome_view(r) == old(self)@.resume_answer(task_id, resume_key@, now)
                },
    {
        let now = Reading::now();
        self.resume_task_at(task_id, resume_key, now)
    }

    /// Lets a paused task wait again at the time `now` for who knows its resume
    /// key.
    pub fn resume_task_at(&mut self, task_id: u128, resume_key: &str, now: Reading) -> (r: Result<
        MessageEnvelope,
        BrokerError,
    >)
        requires
            old(self).wf(),
        ensures
            final(self).wf(),
            final(self)@ == old(self)@.resumed(task_id, resume_key@, now@),
            outcome_view(r) == old(self)@.resume_answer(task_id, resume_key@, now@),
    {
        let mut task: MessageEnvelope = match self.tasks.get(&task_id) {
            Some(task) => task.clone(),
            None => {
                return Err(BrokerError::TaskNotFound(task_id));
            },
        };
        if task.status != TaskStatus::Paused {
            return Err(
                BrokerError::InvalidStatus {
                    task_id,
                    expected: "paused".to_owned(),
                    actual: task.status,
                },
            );
        }
        let given: String = resume_key.to_owned();
        let matches_key: bool = match &task.resume_key {
            Some(key) => *key == given,
            None => false,
        };
        if !matches_key {
            return Err(BrokerError::InvalidResumeKey(task_id));
        }
        task.resume(now);
        let copy: MessageEnvelope = task.clone();
        proof {
            lemma_tasks_insert(self.tasks@, task_id, task);
        }
        self.tasks.insert(task_id, task);
        Ok(copy)
    }

    /// Takes up whether a changed task was written. One that waits is sent to the
    /// queue of its model, if that has room.
    pub fn settle(&mut self, task: MessageEnvelope, saved: Result<(), String>) -> (r: Result<
        Delivery,
        BrokerError,
    >)
        requires
            old(self).wf(),
        ensures
            final(self).wf(),
            final(self)@ == old(self)@.settled(task@, answer_view(saved)),
            delivery_view(r) == old(self)@.settle_answer(task@, answer_view(saved)),
    {
        match saved {
            Err(reason) => Err(BrokerError::Storage(reason)),
            Ok(()) => {
                if task.status != TaskStatus::Pending {
                    return Ok(Delivery::Done(task));
                }
                if self.queues.send(task.current_model.as_str(), task.task_id) {
                    Ok(Delivery::Done(task))
                } else {
                    Ok(Delivery::QueueFull(task))
                }
            },
        }
    }

    /// Takes in a new task, once it is known whether it was written, and sends it to
    /// the queue of its model, if that has room.
    pub fn submit_task(&mut self, task: MessageEnvelope, saved: Result<(), String>) -> (r: Result<
        Delivery,
        BrokerError,
    >)
        requires
            old(self).wf(),
        ensures
            final(self).wf(),
            final(self)@ == old(self)@.submitted(task@, answer_view(saved)),
            delivery_view(r) == old(self)@.settle_answer(task@, answer_view(saved)),
    {
        if saved.is_ok() {
            let copy: MessageEnvelope = task.clone();
            proof {
                lemma_tasks_insert(self.tasks@, task.task_id, copy);
            }
            self.tasks.insert(task.task_id, copy);
        }
        self.settle(task, saved)
    }

    /// Takes the finished tasks that nobody touched for a day, by the time that the
    /// clock shows, out of the broker, and lists them, to be deleted from storage.
    pub fn sweep_old_tasks(&mut self) -> (r: Vec<u128>)
        requires
            old(self).wf(),
        ensures
            final(self).wf(),
            exists|now: int| 0 <= now && final(self)@ == #[trigger] old(self)@.swept(now),
            r@.no_duplicates(),
            forall|id: u128|
                r@.contains(id) <==> old(self)@.tasks.contains_key(id)
                    && !final(self)@.tasks.contains_key(id),
    {
        let now = Reading::now();
        self.sweep_old_tasks_at(now)
    }

    /// Takes the finished tasks that nobody touched for a day before `now` out of
    /// the broker, and lists them.
    pub fn sweep_old_tasks_at(&mut self, now: Reading) -> (r: Vec<u128>)
        requires
            old(self).wf(),
            now@ - seconds(RETENTION_SECS as int) >= earliest(),
        ensures
            final(self).wf(),
            final(self)@ == old(self)@.swept(now@),
            r@.no_duplicates(),
            forall|id: u128|
                r@.contains(id) <==> old(self)@.tasks.contains_key(id)
                    && !final(self)@.tasks.contains_key(id),
    {
        let cutoff = now.minus_seconds(RETENTION_SECS);
        let stale: Vec<u128> = self.stale_tasks(&cutoff);
        let ghost before = self@;
        let mut i: usize = 0;
        assert(self@.tasks =~= before.tasks.remove_keys(stale@.take(0).to_set()));
        while i < stale.len()
            invariant
                i <= stale.len(),
                self.wf(),
                self@.limiter == before.limiter,
                self@.queues == before.queues,
                self@.tasks == before.tasks.remove_keys(stale@.take(i as int).to_set()),
            decreases stale.len() - i,
        {
            let id: u128 = stale[i];
            self.tasks.remove(&id);
            proof {
                let more = stale@.take(i + 1);
                assert(more =~= stale@.take(i as int).push(id));
                assert(self@.tasks =~= before.tasks.remove_keys(stale@.take(i as int).to_set()).remove(id));
                lemma_push_contains(stale@.take(i as int), id);
                assert(self@.tasks =~= before.tasks.remove_keys(more.to_set()));
            }
            i = i + 1;
        }
        proof {
            assert(stale@.take(i as int) =~= stale@);
            assert(self@.tasks =~= before.swept(now@).tasks);
        }
        stale
    }

    /// Lists the finished tasks that nobody touched since `cutoff`.
    fn stale_tasks(&self, cutoff: &Reading) -> (r: Vec<u128>)
        ensures
            r@.no_duplicates(),
            forall|id: u128| #[trigger]
                r@.contains(id) <==> self@.tasks.contains_key(id) && self@.tasks[id].stale(cutoff@),
    {
        let mut stale: Vec<u128> = Vec::new();
        let ghost mut seen: Seq<u128> = Seq::empty();
        for id in iter: self.tasks.keys()
            invariant
                seen == iter.seq().unref().take(iter.index()),
                iter.index() == iter.seq().len() ==> seen == iter.seq().unref(),
                iter.seq().no_duplicates(),
                iter.seq().unref().to_set() == self.tasks@.dom(),
                stale@.no_duplicates(),
                forall|x: u128| #[trigger]
                    stale@.contains(x) <==> seen.contains(x) && self@.tasks[x].stale(cutoff@),
        {
            let ghost ids = iter.seq().unref();
            let ghost k = iter.index();
            let ghost stale_before = stale@;
            proof {
                assert(ids[k] == *id);
                assert(ids.to_set().contains(*id));
                assert(self.tasks@.contains_key(*id));
                assert(self@.tasks[*id] == self.tasks@[*id]@);
                assert(!ids.take(k).contains(*id)) by {
                    if ids.take(k).contains(*id) {
                        let j = choose|j: int| 0 <= j < k && ids.take(k)[j] == *id;
                        assert(iter.seq()[j] == iter.seq()[k]);
                    }
                }
            }
            if let Some(task) = self.tasks.get(id) {
                if task.is_stale(cutoff) {
                    stale.push(*id);
                }
            }
            proof {
                assert(ids.take(k + 1) =~= ids.take(k).push(*id));
                lemma_push_contains(seen, *id);
                lemma_push_contains(stale_before, *id);
                assert forall|i: int| 0 <= i < stale_before.len() implies stale_before[i] != *id by {
                    assert(stale_before.contains(stale_before[i]));
                }
                assert forall|x: u128| #[trigger]
                    stale@.contains(x) <==> seen.push(*id).contains(x) && self@.tasks[x].stale(
                        cutoff@,
                    ) by {
                    assert(stale_before.contains(x) <==> seen.contains(x) && self@.tasks[x].stale(
                        cutoff@,
                    ));
                }
                seen = seen.push(*id);
                assert(k + 1 == ids.len() ==> seen =~= ids);
            }
        }
        proof {
            assert forall|id: u128| #[trigger] stale@.contains(id) <==> self@.tasks.contains_key(id)
                && self@.tasks[id].stale(cutoff@) by {
                assert(seen.to_set().contains(id) <==> self.tasks@.dom().contains(id));
            }
        }
        stale
    }

    /// Sets the limit of a model.
    pub fn set_limit(&mut self, model: String, tpm: u32, rpm: u32)
        requires
            old(self).wf(),
        ensures
            final(self).wf(),
            final(self)@ == (BrokerView {
                limiter: LimiterView {
                    limits: old(self)@.limiter.limits.insert(model@, ModelLimit { tpm, rpm }),
                    ..old(self)@.limiter
                },
                ..old(self)@
            }),
    {
        self.limiter.set_limit(model, tpm, rpm);
    }

    /// A task, if the broker knows it.
    pub fn get_task(&self, task_id: u128) -> (r: Option<MessageEnvelope>)
        ensures
            option_view(r) == (if self@.tasks.contains_key(task_id) {
                Some(self@.tasks[task_id])
            } else {
                None
            }),
    {
        match self.tasks.get(&task_id) {
            Some(task) => Some(task.clone()),
            None => None,
        }
    }
}

} // verus!
