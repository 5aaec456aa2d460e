//! Tasks: what a client submits, and how a task changes over its life.

use vstd::prelude::*;

use crate::clock::{Instant, Reading, Timestamp, elapsed, reading, whole_seconds};
use crate::ids::{is_random_id, random_id, simple_chars, simple_text};
use crate::text::{decimal, decimal_chars, signed_decimal, signed_decimal_chars};
use crate::usd::{Usd, UsdView};

verus! {

/// Where a task stands.
#[derive(Debug, Clone, Copy, PartialEq, Eq, Structural)]
pub enum TaskStatus {
    Pending,
    Processing,
    Paused,
    Completed,
    Failed,
}

impl TaskStatus {
    /// The name of the status.
    pub open spec fn name_chars(self) -> Seq<char> {
        match self {
            TaskStatus::Pending => "Pending"@,
            TaskStatus::Processing => "Processing"@,
            TaskStatus::Paused => "Paused"@,
            TaskStatus::Completed => "Completed"@,
            TaskStatus::Failed => "Failed"@,
        }
    }

    /// Whether a task in this status is finished for good.
    pub open spec fn is_terminal(self) -> bool {
        self == TaskStatus::Completed || self == TaskStatus::Failed
    }

    /// The name of the status.
    pub fn name(self) -> (s: &'static str)
        ensures
            s@ == self.name_chars(),
    {
        match self {
            TaskStatus::Pending => "Pending",
            TaskStatus::Processing => "Processing",
            TaskStatus::Paused => "Paused",
            TaskStatus::Completed => "Completed",
            TaskStatus::Failed => "Failed",
        }
    }
}

/// A task with its routing, its spending so far and its result.
#[derive(Debug)]
pub struct MessageEnvelope {
    pub task_id: u128,
    pub prompt_data: String,
    pub system_context: Option<String>,
    pub token_budget: u32,
    pub max_cost_usd: Usd,
    pub trace_depth: u32,
    pub priority: i8,
    pub ttl_seconds: Option<u64>,
    pub status: TaskStatus,
    pub resume_key: Option<String>,
    pub current_model: String,
    pub fallback_models: Vec<String>,
    pub tokens_used: u32,
    pub cost_usd: Usd,
    pub output: Option<String>,
    pub error_message: Option<String>,
    pub created_at: Timestamp,
    pub updated_at: Timestamp,
}

/// What a task stands for: its texts as sequences of characters and its times
/// as points on the calendar.
#[verifier::ext_equal]
pub struct TaskView {
    pub task_id: u128,
    pub prompt_data: Seq<char>,
    pub system_context: Option<Seq<char>>,
    pub token_budget: u32,
    pub max_cost_usd: UsdView,
    pub trace_depth: u32,
    pub priority: i8,
    pub ttl_seconds: Option<u64>,
    pub status: TaskStatus,
    pub resume_key: Option<Seq<char>>,
    pub current_model: Seq<char>,
    pub fallback_models: Seq<Seq<char>>,
    pub tokens_used: u32,
    pub cost_usd: UsdView,
    pub output: Option<Seq<char>>,
    pub error_message: Option<Seq<char>>,
    pub created_at: Instant,
    pub updated_at: Instant,
}

/// An optional text as characters.
pub open spec fn text_view(s: Option<String>) -> Option<Seq<char>> {
    match s {
        Some(t) => Some(t@),
        None => None,
    }
}

/// A list of texts as characters.
pub open spec fn texts_view(s: Seq<String>) -> Seq<Seq<char>> {
    s.map_values(|t: String| t@)
}

impl View for MessageEnvelope {
    type V = TaskView;

    open spec fn view(&self) -> TaskView {
        TaskView {
            task_id: self.task_id,
            prompt_data: self.prompt_data@,
            system_context: text_view(self.system_context),
            token_budget: self.token_budget,
            max_cost_usd: self.max_cost_usd@,
            trace_depth: self.trace_depth,
            priority: self.priority,
            ttl_seconds: self.ttl_seconds,
            status: self.status,
            resume_key: text_view(self.resume_key),
            current_model: self.current_model@,
            fallback_models: texts_view(self.fallback_models@),
            tokens_used: self.tokens_used,
            cost_usd: self.cost_usd@,
            output: text_view(self.output),
            error_message: text_view(self.error_message),
            created_at: self.created_at@,
            updated_at: self.updated_at@,
        }
    }
}

/// The message of a task whose spending went over its limit.
pub open spec fn cost_message_chars(limit: UsdView, used: UsdView) -> Seq<char> {
    "Cost budget exceeded: limit is $"@ + limit.text + ", used $"@ + used.text
}

/// The message of a task that outlived its time to live.
pub open spec fn ttl_message_chars(ttl: u64, elapsed: int) -> Seq<char> {
    "Task expired: TTL of "@ + decimal_chars(ttl as nat) + "s exceeded (elapsed: "@
        + signed_decimal_chars(elapsed) + "s)"@
}

/// The resume key made from a random identifier.
pub open spec fn resume_key_chars(key_id: u128) -> Seq<char> {
    "x-resume-"@ + simple_chars(key_id)
}

/// The age in seconds from which a task with this time to live has expired: the
/// time to live as a signed 64-bit number, so that one beyond its range wraps
/// to below zero.
pub open spec fn ttl_limit(ttl: u64) -> int {
    if ttl <= i64::MAX {
        ttl as int
    } else {
        ttl - 0x1_0000_0000_0000_0000
    }
}

/// What a worker reports of a task in progress.
pub struct ReportView {
    pub tokens_used: u32,
    pub cost_usd: UsdView,
    pub output: Option<Seq<char>>,
    pub error_message: Option<Seq<char>>,
    pub pause_request: bool,
}

/// A report, put together from its parts.
pub open spec fn report_view(
    tokens_used: u32,
    cost_usd: Usd,
    output: Option<String>,
    error_message: Option<String>,
    pause_request: bool,
) -> ReportView {
    ReportView {
        tokens_used,
        cost_usd: cost_usd@,
        output: text_view(output),
        error_message: text_view(error_message),
        pause_request,
    }
}

/// The new text where there is one, else the old one.
pub open spec fn text_or(new: Option<Seq<char>>, old_text: Option<Seq<char>>) -> Option<Seq<char>> {
    match new {
        Some(_) => new,
        None => old_text,
    }
}

impl TaskView {
    /// A task as it is submitted.
    pub open spec fn fresh(
        prompt_data: Seq<char>,
        system_context: Option<Seq<char>>,
        token_budget: u32,
        max_cost_usd: UsdView,
        model: Seq<char>,
        fallback_models: Seq<Seq<char>>,
        priority: i8,
        ttl_seconds: Option<u64>,
        task_id: u128,
        now: int,
    ) -> TaskView {
        TaskView {
            task_id,
            prompt_data,
            system_context,
            token_budget,
            max_cost_usd,
            trace_depth: 0,
            priority,
            ttl_seconds,
            status: TaskStatus::Pending,
            resume_key: None,
            current_model: model,
            fallback_models,
            tokens_used: 0,
            cost_usd: UsdView { bits: 0, text: "0.00000"@ },
            output: None,
            error_message: None,
            created_at: reading(now),
            updated_at: reading(now),
        }
    }

    /// Whether the task has spent more than it may.
    pub open spec fn over_budget(self) -> bool {
        self.cost_usd.exceeds(self.max_cost_usd)
    }

    /// How many whole seconds ago the task was submitted.
    pub open spec fn age(self, now: int) -> int {
        whole_seconds(elapsed(self.created_at, reading(now)))
    }

    /// Whether the task has outlived its time to live.
    pub open spec fn expired(self, now: int) -> bool {
        self.ttl_seconds matches Some(ttl) && self.age(now) >= ttl_limit(ttl)
    }

    /// Whether the task may no longer be handed to a worker.
    pub open spec fn doomed(self, now: int) -> bool {
        self.over_budget() || self.expired(now)
    }

    /// The task, failed with a message.
    pub open spec fn failed_with(self, message: Seq<char>, now: int) -> TaskView {
        TaskView {
            status: TaskStatus::Failed,
            error_message: Some(message),
            updated_at: reading(now),
            ..self
        }
    }

    /// The task, failed for having spent too much or else for having expired.
    pub open spec fn invalidated(self, now: int) -> TaskView {
        if self.over_budget() {
            self.failed_with(cost_message_chars(self.max_cost_usd, self.cost_usd), now)
        } else {
            self.failed_with(ttl_message_chars(self.ttl_seconds->0, self.age(now)), now)
        }
    }

    /// The task in the hands of a worker.
    pub open spec fn started(self, now: int) -> TaskView {
        TaskView { status: TaskStatus::Processing, updated_at: reading(now), ..self }
    }

    /// The task after a report of a worker. Over the cost limit it fails;
    /// otherwise what the worker reported is kept, and on request the task is
    /// paused under the resume key made from `key_id`.
    pub open spec fn checkpointed(self, report: ReportView, now: int, key_id: u128) -> TaskView {
        let spent = TaskView {
            tokens_used: report.tokens_used,
            cost_usd: report.cost_usd,
            output: text_or(report.output, self.output),
            updated_at: reading(now),
            ..self
        };
        if report.cost_usd.exceeds(self.max_cost_usd) {
            spent.failed_with(cost_message_chars(self.max_cost_usd, report.cost_usd), now)
        } else {
            TaskView {
                error_message: text_or(report.error_message, self.error_message),
                status: if report.pause_request {
                    TaskStatus::Paused
                } else {
                    self.status
                },
                resume_key: if report.pause_request {
                    Some(resume_key_chars(key_id))
                } else {
                    self.resume_key
                },
                ..spent
            }
        }
    }

    /// The task with its result, completed or, over the cost limit, failed.
    pub open spec fn completed(
        self,
        output: Seq<char>,
        tokens_used: u32,
        cost_usd: UsdView,
        now: int,
    ) -> TaskView {
        let over = cost_usd.exceeds(self.max_cost_usd);
        TaskView {
            status: if over {
                TaskStatus::Failed
            } else {
                TaskStatus::Completed
            },
            error_message: if over {
                Some(cost_message_chars(self.max_cost_usd, cost_usd))
            } else {
                None
            },
            output: Some(output),
            tokens_used,
            cost_usd,
            updated_at: reading(now),
            ..self
        }
    }

    /// The task after a worker failed it: waiting again for the first of its
    /// fallback models, or failed where it has none left.
    pub open spec fn failed_over(
        self,
        error: Seq<char>,
        tokens_used: u32,
        cost_usd: UsdView,
        now: int,
    ) -> TaskView {
        let spent = TaskView {
            tokens_used,
            cost_usd,
            error_message: Some(error),
            updated_at: reading(now),
            ..self
        };
        if self.fallback_models.len() > 0 {
            TaskView {
                current_model: self.fallback_models[0],
                fallback_models: self.fallback_models.skip(1),
                status: TaskStatus::Pending,
                trace_depth: (self.trace_depth + 1) as u32,
                ..spent
            }
        } else {
            TaskView { status: TaskStatus::Failed, ..spent }
        }
    }

    /// The task, waiting again after a pause.
    pub open spec fn resumed(self, now: int) -> TaskView {
        TaskView { status: TaskStatus::Pending, resume_key: None, updated_at: reading(now), ..self }
    }

    /// The task as a restarted broker takes it up: one that was in the hands of
    /// a worker waits again.
    pub open spec fn recovered(self, now: int) -> TaskView {
        if self.status == TaskStatus::Processing {
            TaskView { status: TaskStatus::Pending, updated_at: reading(now), ..self }
        } else {
            self
        }
    }

    /// Whether the task is finished and was last touched before `cutoff`.
    pub open spec fn stale(self, cutoff: int) -> bool {
        self.status.is_terminal() && self.updated_at.before(reading(cutoff))
    }
}

impl Clone for MessageEnvelope {
    fn clone(&self) -> (r: MessageEnvelope)
        ensures
            r@ == self@,
    {
        let r = MessageEnvelope {
            task_id: self.task_id,
            prompt_data: self.prompt_data.clone(),
            system_context: self.system_context.clone(),
            token_budget: self.token_budget,
            max_cost_usd: self.max_cost_usd.clone(),
            trace_depth: self.trace_depth,
            priority: self.priority,
            ttl_seconds: self.ttl_seconds,
            status: self.status,
            resume_key: self.resume_key.clone(),
            current_model: self.current_model.clone(),
            fallback_models: self.fallback_models.clone(),
            tokens_used: self.tokens_used,
            cost_usd: self.cost_usd.clone(),
            output: self.output.clone(),
            error_message: self.error_message.clone(),
            created_at: self.created_at,
            updated_at: self.updated_at,
        };
        assert(r@.fallback_models =~= self@.fallback_models);
        r
    }
}

/// Writes the message of a task whose spending went over its limit.
fn cost_message(limit: &Usd, used: &Usd) -> (s: String)
    ensures
        s@ == cost_message_chars(limit@, used@),
{
    let mut s = "Cost budget exceeded: limit is $".to_owned();
    s.append(limit.text.as_str());
    s.append(", used $");
    s.append(used.text.as_str());
    s
}

/// Writes the message of a task that outlived its time to live.
fn ttl_message(ttl: u64, elapsed: i64) -> (s: String)
    ensures
        s@ == ttl_message_chars(ttl, elapsed as int),
{
    let mut s = "Task expired: TTL of ".to_owned();
    s.append(decimal(ttl as u128).as_str());
    s.append("s exceeded (elapsed: ");
    s.append(signed_decimal(elapsed).as_str());
    s.append("s)");
    s
}

/// Whether an age in seconds has reached a time to live.
fn ttl_reached(elapsed: i64, ttl: u64) -> (r: bool)
    ensures
        r == (elapsed >= ttl_limit(ttl)),
{
    let limit: i128 = if ttl <= 0x7fff_ffff_ffff_ffff {
        ttl as i128
    } else {
        ttl as i128 - 0x1_0000_0000_0000_0000
    };
    elapsed as i128 >= limit
}

impl MessageEnvelope {
    /// A task as it is submitted: waiting, with an identifier drawn at random,
    /// at the time that the clock shows.
    pub fn new(
        prompt_data: String,
        system_context: Option<String>,
        token_budget: u32,
        max_cost_usd: Usd,
        model: String,
        fallback_models: Vec<String>,
        priority: i8,
        ttl_seconds: Option<u64>,
    ) -> (r: MessageEnvelope)
        ensures
            is_random_id(r.task_id),
            exists|now: int|
                0 <= now && r@ == #[trigger] TaskView::fresh(
                    prompt_data@,
                    text_view(system_context),
                    token_budget,
                    max_cost_usd@,
                    model@,
                    texts_view(fallback_models@),
                    priority,
                    ttl_seconds,
                    r.task_id,
                    now,
                ),
    {
        MessageEnvelope::new_at(
            prompt_data,
            system_context,
            token_budget,
            max_cost_usd,
            model,
            fallback_models,
            priority,
            ttl_seconds,
            random_id(),
            Reading::now(),
        )
    }

    /// A task as it is submitted under the identifier `task_id` at the time
    /// `now`.
    pub fn new_at(
        prompt_data: String,
        system_context: Option<String>,
        token_budget: u32,
        max_cost_usd: Usd,
        model: String,
        fallback_models: Vec<String>,
        priority: i8,
        ttl_seconds: Option<u64>,
        task_id: u128,
        now: Reading,
    ) -> (r: MessageEnvelope)
        ensures
            r@ == TaskView::fresh(
                prompt_data@,
                text_view(system_context),
                token_budget,
                max_cost_usd@,
                model@,
                texts_view(fallback_models@),
                priority,
                ttl_seconds,
                task_id,
                now@,
            ),
    {
        MessageEnvelope {
            task_id,
            prompt_data,
            system_context,
            token_budget,
            max_cost_usd,
            trace_depth: 0,
            priority,
            ttl_seconds,
            status: TaskStatus::Pending,
            resume_key: None,
            current_model: model,
            fallback_models,
            tokens_used: 0,
            cost_usd: Usd::zero(),
            output: None,
            error_message: None,
            created_at: Timestamp::at(now),
            updated_at: Timestamp::at(now),
        }
    }

    /// Fails a task that has spent too much or has expired, and says whether it
    /// did.
    pub(crate) fn invalidate(&mut self, now: Reading) -> (r: bool)
        ensures
            r == old(self)@.doomed(now@),
            final(self)@ == (if r {
                old(self)@.invalidated(now@)
            } else {
                old(self)@
            }),
    {
        if self.cost_usd.exceeds(&self.max_cost_usd) {
            self.error_message = Some(cost_message(&self.max_cost_usd, &self.cost_usd));
            self.status = TaskStatus::Failed;
            self.updated_at = Timestamp::at(now);
            return true;
        }
        if let Some(ttl) = self.ttl_seconds {
            let elapsed: i64 = now.seconds_since(&self.created_at);
            if ttl_reached(elapsed, ttl) {
                self.error_message = Some(ttl_message(ttl, elapsed));
                self.status = TaskStatus::Failed;
                self.updated_at = Timestamp::at(now);
                return true;
            }
        }
        false
    }

    /// Puts the task in the hands of a worker.
    pub(crate) fn start(&mut self, now: Reading)
        ensures
            final(self)@ == old(self)@.started(now@),
    {
        self.status = TaskStatus::Processing;
        self.updated_at = Timestamp::at(now);
    }

    /// Takes up the report of a worker.
    pub(crate) fn checkpoint(&mut self, report: Report, now: Reading, key_id: u128)
        ensures
            final(self)@ == old(self)@.checkpointed(report@, now@, key_id),
    {
        let over = report.cost_usd.exceeds(&self.max_cost_usd);
        if over {
            self.status = TaskStatus::Failed;
            self.error_message = Some(cost_message(&self.max_cost_usd, &report.cost_usd));
        }
        self.tokens_used = report.tokens_used;
        self.cost_usd = report.cost_usd;
        self.updated_at = Timestamp::at(now);
        if let Some(output) = report.output {
            self.output = Some(output);
        }
        if !over {
            if let Some(message) = report.error_message {
                self.error_message = Some(message);
            }
            if report.pause_request {
                self.status = TaskStatus::Paused;
                let mut key = "x-resume-".to_owned();
                key.append(simple_text(key_id).as_str());
                self.resume_key = Some(key);
            }
        }
    }

    /// Gives the task its result.
    pub(crate) fn complete(
        &mut self,
        output: String,
        tokens_used: u32,
        cost_usd: Usd,
        now: Reading,
    )
        ensures
            final(self)@ == old(self)@.completed(output@, tokens_used, cost_usd@, now@),
    {
        if cost_usd.exceeds(&self.max_cost_usd) {
            self.status = TaskStatus::Failed;
            self.error_message = Some(cost_message(&self.max_cost_usd, &cost_usd));
        } else {
            self.status = TaskStatus::Completed;
            self.error_message = None;
        }
        self.output = Some(output);
        self.tokens_used = tokens_used;
        self.cost_usd = cost_usd;
        self.updated_at = Timestamp::at(now);
    }

    /// Routes a failed task to its next fallback model, or fails it for good.
    pub(crate) fn fail_over(
        &mut self,
        error: String,
        tokens_used: u32,
        cost_usd: Usd,
        now: Reading,
    )
        requires
            old(self).fallback_models.len() > 0 ==> old(self).trace_depth < u32::MAX,
        ensures
            final(self)@ == old(self)@.failed_over(error@, tokens_used, cost_usd@, now@),
    {
        self.tokens_used = tokens_used;
        self.cost_usd = cost_usd;
        self.error_message = Some(error);
        self.updated_at = Timestamp::at(now);
        if self.fallback_models.len() > 0 {
            let ghost models = self.fallback_models@;
            self.current_model = self.fallback_models.remove(0);
            self.status = TaskStatus::Pending;
            self.trace_depth = self.trace_depth + 1;
            assert(texts_view(self.fallback_models@) =~= texts_view(models).skip(1));
        } else {
            self.status = TaskStatus::Failed;
        }
    }

    /// Lets a paused task wait again.
    pub(crate) fn resume(&mut self, now: Reading)
        ensures
            final(self)@ == old(self)@.resumed(now@),
    {
        self.status = TaskStatus::Pending;
        self.resume_key = None;
        self.updated_at = Timestamp::at(now);
    }

    /// Takes up a task that was stored by an earlier run of the broker, and says
    /// whether that changed it.
    pub(crate) fn recover(&mut self, now: Reading) -> (r: bool)
        ensures
            r == (old(self)@.status == TaskStatus::Processing),
            final(self)@ == old(self)@.recovered(now@),
    {
        if self.status == TaskStatus::Processing {
            self.status = TaskStatus::Pending;
            self.updated_at = Timestamp::at(now);
            true
        } else {
            false
        }
    }

    /// Whether the task is finished and was last touched before `cutoff`.
    pub(crate) fn is_stale(&self, cutoff: &Reading) -> (r: bool)
        ensures
            r == self@.stale(cutoff@),
    {
        (self.status == TaskStatus::Completed || self.status == TaskStatus::Failed)
            && self.updated_at.before(&Timestamp::at(*cutoff))
    }
}

/// What a worker reports of a task in progress.
#[derive(Debug)]
pub struct Report {
    pub tokens_used: u32,
    pub cost_usd: Usd,
    pub output: Option<String>,
    pub error_message: Option<String>,
    pub pause_request: bool,
}

impl View for Report {
    type V = ReportView;

    open spec fn view(&self) -> ReportView {
        ReportView {
            tokens_used: self.tokens_used,
            cost_usd: self.cost_usd@,
            output: text_view(self.output),
            error_message: text_view(self.error_message),
            pause_request: self.pause_request,
        }
    }
}

} // verus!
