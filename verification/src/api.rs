//! What the requests of clients and workers mean to the broker.

use vstd::prelude::*;

use crate::broker::Broker;
use crate::envelope::{MessageEnvelope, TaskView, text_view, texts_view};
use crate::error::{BrokerError, ErrorView};
use crate::ids::is_random_id;
use crate::model::outcome_view;
use crate::usd::Usd;

verus! {

/// How long a worker that names no time waits for a task.
pub const DEFAULT_POLL_SECS: u64 = 30;

/// How long a waiting worker goes without another look at the queue.
pub const POLL_INTERVAL_MILLIS: u64 = 100;

/// What a client submits.
#[derive(Debug)]
pub struct SubmitRequest {
    pub prompt_data: String,
    pub system_context: Option<String>,
    pub token_budget: u32,
    pub max_cost_usd: Usd,
    pub model: String,
    pub fallback_models: Option<Vec<String>>,
    pub priority: Option<i8>,
    pub ttl_seconds: Option<u64>,
}

impl SubmitRequest {
    /// The fallback models that the client asked for: none where it named none.
    pub open spec fn fallbacks(self) -> Seq<Seq<char>> {
        match self.fallback_models {
            Some(models) => texts_view(models@),
            None => Seq::empty(),
        }
    }

    /// The priority that the client asked for: an ordinary one where it named none.
    pub open spec fn priority_or_zero(self) -> i8 {
        match self.priority {
            Some(priority) => priority,
            None => 0,
        }
    }

    /// The task that a client asks for.
    pub fn into_task(self) -> (r: MessageEnvelope)
        ensures
            is_random_id(r.task_id),
            exists|now: int|
                0 <= now && r@ == #[trigger] TaskView::fresh(
                    self.prompt_data@,
                    text_view(self.system_context),
                    self.token_budget,
                    self.max_cost_usd@,
                    self.model@,
                    self.fallbacks(),
                    self.priority_or_zero(),
                    self.ttl_seconds,
                    r.task_id,
                    now,
                ),
    {
        let priority: i8 = match self.priority {
            Some(priority) => priority,
            None => 0,
        };
        let fallback_models: Vec<String> = match self.fallback_models {
            Some(models) => models,
            None => Vec::new(),
        };
        assert(texts_view(fallback_models@) == self.fallbacks());
        assert(priority == self.priority_or_zero());
        MessageEnvelope::new(
            self.prompt_data,
            self.system_context,
            self.token_budget,
            self.max_cost_usd,
            self.model,
            fallback_models,
            priority,
            self.ttl_seconds,
        )
    }
}

/// The time in seconds that a worker waits for a task.
pub fn poll_timeout_seconds(asked: Option<u64>) -> (r: u64)
    ensures
        r == (match asked {
            Some(secs) => secs,
            None => 30,
        }),
{
    match asked {
        Some(secs) => secs,
        None => DEFAULT_POLL_SECS,
    }
}

/// How many milliseconds a worker that found no task waits before it looks again:
/// none, and it gives up, once it has waited for as long as it would.
pub fn next_poll_delay(waited_millis: u128, timeout_seconds: u64) -> (r: Option<u64>)
    ensures
        r is None <==> waited_millis >= timeout_seconds * 1000,
        r matches Some(delay) ==> {
            let left = timeout_seconds * 1000 - waited_millis;
            delay == (if left < POLL_INTERVAL_MILLIS {
                left
            } else {
                POLL_INTERVAL_MILLIS as int
            })
        },
{
    let timeout_millis: u128 = timeout_seconds as u128 * 1000;
    if waited_millis >= timeout_millis {
        return None;
    }
    let left: u128 = timeout_millis - waited_millis;
    if left < POLL_INTERVAL_MILLIS as u128 {
        Some(left as u64)
    } else {
        Some(POLL_INTERVAL_MILLIS)
    }
}

/// The task that a client asks to see.
pub fn find_task(broker: &Broker, task_id: u128) -> (r: Result<MessageEnvelope, BrokerError>)
    ensures
        outcome_view(r) == (if broker@.tasks.contains_key(task_id) {
            Ok::<TaskView, ErrorView>(broker@.tasks[task_id])
        } else {
            Err(ErrorView::TaskNotFound(task_id))
        }),
{
    match broker.get_task(task_id) {
        Some(task) => Ok(task),
        None => Err(BrokerError::TaskNotFound(task_id)),
    }
}

/// The resume key that a request carries in its header. A request without one, or
/// with one that is no text, is refused.
pub fn resume_key_of(header: Option<String>) -> (r: Result<String, BrokerError>)
    ensures
        match header {
            Some(key) => r matches Ok(k) && k@ == key@,
            None => r matches Err(e) && e@ == ErrorView::Internal("Missing x-resume-key header"@),
        },
{
    match header {
        Some(key) => Ok(key),
        None => Err(BrokerError::Internal("Missing x-resume-key header".to_owned())),
    }
}

/// A request stands for what it names; where it names no fallback models it has none, and
/// where it names no priority that is zero.
pub proof fn law_request_defaults(r: SubmitRequest)
    ensures
        r.fallback_models is None ==> r.fallbacks().len() == 0,
        r.fallback_models matches Some(models) ==> {
            &&& r.fallbacks().len() == models@.len()
            &&& forall|i: int|
                0 <= i < models@.len() ==> #[trigger] r.fallbacks()[i] == models@[i]@
        },
        r.priority is None ==> r.priority_or_zero() == 0,
        r.priority matches Some(priority) ==> r.priority_or_zero() == priority,
{
}

} // verus!
