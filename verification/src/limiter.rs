//! The rate limiter: requests and tokens per minute of each model, over a
//! sliding window of what was handed out.

use vstd::hash_map::StringHashMap;
use vstd::prelude::*;

use crate::clock::{Reading, earliest, seconds};
use crate::text::{decimal, decimal_chars, parse_u32, parsed_u32};

verus! {

/// What a model may be asked for within a minute.
#[derive(Debug, Clone, Copy, PartialEq, Eq)]
pub struct ModelLimit {
    /// Tokens per minute.
    pub tpm: u32,
    /// Requests per minute.
    pub rpm: u32,
}

/// A request that was let through to a model.
#[derive(Debug, Clone, Copy)]
pub struct RateEvent {
    pub timestamp: Reading,
    pub task_id: u128,
    pub tokens: u32,
    pub resolved: bool,
}

/// What an event stands for.
pub struct EventView {
    pub timestamp: int,
    pub task_id: u128,
    pub tokens: u32,
    pub resolved: bool,
}

impl View for RateEvent {
    type V = EventView;

    open spec fn view(&self) -> EventView {
        EventView {
            timestamp: self.timestamp@,
            task_id: self.task_id,
            tokens: self.tokens,
            resolved: self.resolved,
        }
    }
}

/// How long every event counts.
pub const SLIDING_WINDOW_SECS: u32 = 60;

/// How long an event counts whose actual usage is not known.
pub const UNRESOLVED_SAFETY_WINDOW_SECS: u32 = 600;

/// The events of a window.
pub open spec fn events_view(events: Seq<RateEvent>) -> Seq<EventView> {
    events.map_values(|e: RateEvent| e@)
}

/// Whether an event still counts: for a minute in any case, and for ten minutes
/// while its actual usage is not known.
pub open spec fn counts(e: EventView, now: int) -> bool {
    e.timestamp > now - seconds(SLIDING_WINDOW_SECS as int) || (!e.resolved && e.timestamp > now
        - seconds(UNRESOLVED_SAFETY_WINDOW_SECS as int))
}

/// The events of a window that still count.
pub open spec fn pruned(window: Seq<EventView>, now: int) -> Seq<EventView> {
    window.filter(|e: EventView| counts(e, now))
}

/// The tokens of all events of a window.
pub open spec fn total_tokens(window: Seq<EventView>) -> nat
    decreases window.len(),
{
    if window.len() == 0 {
        0
    } else {
        total_tokens(window.drop_last()) + window.last().tokens as nat
    }
}

/// Whether a window keeps to a limit.
pub open spec fn within(window: Seq<EventView>, limit: ModelLimit) -> bool {
    window.len() <= limit.rpm && total_tokens(window) <= limit.tpm
}

/// The index of the first event of a task in a window, or the length of the
/// window where there is none.
pub open spec fn first_event_of(window: Seq<EventView>, task_id: u128) -> int
    decreases window.len(),
{
    if window.len() == 0 || window[0].task_id == task_id {
        0
    } else {
        1 + first_event_of(window.skip(1), task_id)
    }
}

/// The window after a report of what a task actually used: its first event
/// there, if it has one, is set to that.
pub open spec fn reported(
    window: Seq<EventView>,
    task_id: u128,
    actual_tokens: u32,
    resolved: bool,
) -> Seq<EventView> {
    let i = first_event_of(window, task_id);
    if i < window.len() {
        window.update(i, EventView { tokens: actual_tokens, resolved, ..window[i] })
    } else {
        window
    }
}

/// The message that refuses a request over the requests per minute.
pub open spec fn rpm_message_chars(model: Seq<char>, current: nat, limit: u32) -> Seq<char> {
    "RPM limit exceeded for model '"@ + model + "'. Current: "@ + decimal_chars(current)
        + "/min, Limit: "@ + decimal_chars(limit as nat) + "/min"@
}

/// The message that refuses a request over the tokens per minute.
pub open spec fn tpm_message_chars(
    model: Seq<char>,
    current: nat,
    budget: u32,
    limit: u32,
) -> Seq<char> {
    "TPM limit exceeded for model '"@ + model + "'. Active window tokens: "@ + decimal_chars(
        current,
    ) + " + budget: "@ + decimal_chars(budget as nat) + " exceeds limit: "@ + decimal_chars(
        limit as nat,
    ) + "/min"@
}

/// What a limiter stands for: the limit of each limited model, and the window of
/// each model that was asked for.
#[verifier::ext_equal]
pub struct LimiterView {
    pub limits: Map<Seq<char>, ModelLimit>,
    pub history: Map<Seq<char>, Seq<EventView>>,
}

impl LimiterView {
    /// The window of a model, empty where the model was never asked for.
    pub open spec fn window(self, model: Seq<char>) -> Seq<EventView> {
        if self.history.contains_key(model) {
            self.history[model]
        } else {
            Seq::empty()
        }
    }

    /// What still counts of the window of a model.
    pub open spec fn active(self, model: Seq<char>, now: int) -> Seq<EventView> {
        pruned(self.window(model), now)
    }

    /// Whether a model may be asked once more, with a budget of tokens.
    pub open spec fn admits(self, model: Seq<char>, token_budget: u32, now: int) -> bool {
        self.limits.contains_key(model) ==> {
            &&& self.active(model, now).len() + 1 <= self.limits[model].rpm
            &&& total_tokens(self.active(model, now)) + token_budget <= self.limits[model].tpm
        }
    }

    /// Why a model may not be asked once more: its requests come first.
    pub open spec fn refusal(self, model: Seq<char>, token_budget: u32, now: int) -> Seq<char> {
        let active = self.active(model, now);
        let limit = self.limits[model];
        if active.len() + 1 > limit.rpm {
            rpm_message_chars(model, active.len(), limit.rpm)
        } else {
            tpm_message_chars(model, total_tokens(active), token_budget, limit.tpm)
        }
    }

    /// The limiter with what no longer counts taken out of the window of a
    /// limited model.
    pub open spec fn refreshed(self, model: Seq<char>, now: int) -> LimiterView {
        if self.limits.contains_key(model) {
            LimiterView { history: self.history.insert(model, self.active(model, now)), ..self }
        } else {
            self
        }
    }

    /// The limiter after a request was let through: for a limited model the
    /// request is the last event of its window.
    pub open spec fn recorded(
        self,
        model: Seq<char>,
        task_id: u128,
        token_budget: u32,
        now: int,
    ) -> LimiterView {
        if self.limits.contains_key(model) {
            LimiterView {
                history: self.history.insert(
                    model,
                    self.active(model, now).push(
                        EventView {
                            timestamp: now,
                            task_id,
                            tokens: token_budget,
                            resolved: false,
                        },
                    ),
                ),
                ..self
            }
        } else {
            self
        }
    }

    /// The limiter after a request was let through or refused.
    pub open spec fn checked(
        self,
        model: Seq<char>,
        task_id: u128,
        token_budget: u32,
        now: int,
    ) -> LimiterView {
        if self.admits(model, token_budget, now) {
            self.recorded(model, task_id, token_budget, now)
        } else {
            self.refreshed(model, now)
        }
    }

    /// The limiter after a report of what a task actually used.
    pub open spec fn with_usage(
        self,
        model: Seq<char>,
        task_id: u128,
        actual_tokens: u32,
        resolved: bool,
    ) -> LimiterView {
        if self.history.contains_key(model) {
            LimiterView {
                history: self.history.insert(
                    model,
                    reported(self.history[model], task_id, actual_tokens, resolved),
                ),
                ..self
            }
        } else {
            self
        }
    }
}

/// Settings that may replace the default limits, as texts, and the name under which
/// the Sonnet model is asked for, which is not built in.
#[derive(Debug)]
pub struct LimitSettings {
    pub gpt4o_tpm: Option<String>,
    pub gpt4o_rpm: Option<String>,
    pub gpt4o_mini_tpm: Option<String>,
    pub gpt4o_mini_rpm: Option<String>,
    pub claude_sonnet_model: String,
    pub claude_sonnet_tpm: Option<String>,
    pub claude_sonnet_rpm: Option<String>,
}

/// The number that a setting gives, or the default where it is missing or does
/// not read as a number.
pub open spec fn setting_or(setting: Option<String>, default: u32) -> u32 {
    match setting {
        Some(text) => match parsed_u32(text@) {
            Some(n) => n,
            None => default,
        },
        None => default,
    }
}

/// Reads a setting, with a default.
fn read_setting(setting: &Option<String>, default: u32) -> (r: u32)
    ensures
        r == setting_or(*setting, default),
{
    match setting {
        Some(text) => match parse_u32(text.as_str()) {
            Some(n) => n,
            None => default,
        },
        None => default,
    }
}

impl LimitSettings {
    /// No settings but the name of the Sonnet model.
    pub fn none(claude_sonnet_model: String) -> (r: LimitSettings)
        ensures
            r.claude_sonnet_model@ == claude_sonnet_model@,
            r.gpt4o_tpm is None,
            r.gpt4o_rpm is None,
            r.gpt4o_mini_tpm is None,
            r.gpt4o_mini_rpm is None,
            r.claude_sonnet_tpm is None,
            r.claude_sonnet_rpm is None,
    {
        LimitSettings {
            gpt4o_tpm: None,
            gpt4o_rpm: None,
            gpt4o_mini_tpm: None,
            gpt4o_mini_rpm: None,
            claude_sonnet_model,
            claude_sonnet_tpm: None,
            claude_sonnet_rpm: None,
        }
    }

    /// The limits that a new limiter starts with.
    pub open spec fn limits(self) -> Map<Seq<char>, ModelLimit> {
        Map::<Seq<char>, ModelLimit>::empty().insert(
            self.claude_sonnet_model@,
            ModelLimit {
                tpm: setting_or(self.claude_sonnet_tpm, 40000),
                rpm: setting_or(self.claude_sonnet_rpm, 25),
            },
        ).insert(
            "gpt-4o"@,
            ModelLimit {
                tpm: setting_or(self.gpt4o_tpm, 30000),
                rpm: setting_or(self.gpt4o_rpm, 20),
            },
        ).insert(
            "gpt-4o-mini"@,
            ModelLimit {
                tpm: setting_or(self.gpt4o_mini_tpm, 150000),
                rpm: setting_or(self.gpt4o_mini_rpm, 100),
            },
        )
    }
}

/// Limits the requests and tokens per minute of each model.
pub struct TokenRateLimiter {
    limits: StringHashMap<ModelLimit>,
    history: StringHashMap<Vec<RateEvent>>,
}

impl View for TokenRateLimiter {
    type V = LimiterView;

    closed spec fn view(&self) -> LimiterView {
        LimiterView {
            limits: self.limits@,
            history: self.history@.map_values(|events: Vec<RateEvent>| events_view(events@)),
        }
    }
}

/// Taking one more event into account adds it to what was pruned before, if it
/// counts.
pub(crate) proof fn lemma_pruned_push(window: Seq<EventView>, e: EventView, now: int)
    ensures
        pruned(window.push(e), now) == (if counts(e, now) {
            pruned(window, now).push(e)
        } else {
            pruned(window, now)
        }),
{
    reveal(Seq::filter);
    assert(window.push(e).drop_last() =~= window);
}

/// The tokens of a window with one more event.
pub(crate) proof fn lemma_total_tokens_push(window: Seq<EventView>, e: EventView)
    ensures
        total_tokens(window.push(e)) == total_tokens(window) + e.tokens,
{
    assert(window.push(e).drop_last() =~= window);
}

/// The tokens of a window stay within what as many full events could hold.
proof fn lemma_total_tokens_bound(window: Seq<EventView>)
    ensures
        total_tokens(window) <= window.len() * u32::MAX,
    decreases window.len(),
{
    if window.len() > 0 {
        lemma_total_tokens_bound(window.drop_last());
        assert(window.len() * u32::MAX == (window.len() - 1) * u32::MAX + u32::MAX)
            by (nonlinear_arith)
            requires
                window.len() > 0,
        ;
    }
}

/// Takes out of a window what no longer counts.
fn prune(events: &Vec<RateEvent>, now: &Reading) -> (r: Vec<RateEvent>)
    requires
        now@ - seconds(UNRESOLVED_SAFETY_WINDOW_SECS as int) >= earliest(),
    ensures
        events_view(r@) == pruned(events_view(events@), now@),
{
    let standard_cutoff = now.minus_seconds(SLIDING_WINDOW_SECS);
    let safety_cutoff = now.minus_seconds(UNRESOLVED_SAFETY_WINDOW_SECS);
    let mut kept: Vec<RateEvent> = Vec::new();
    let mut i: usize = 0;
    proof {
        reveal(Seq::filter);
        assert(events_view(events@).take(0) =~= Seq::<EventView>::empty());
        assert(events_view(kept@) =~= Seq::<EventView>::empty());
    }
    while i < events.len()
        invariant
            i <= events.len(),
            standard_cutoff@ == now@ - seconds(SLIDING_WINDOW_SECS as int),
            safety_cutoff@ == now@ - seconds(UNRESOLVED_SAFETY_WINDOW_SECS as int),
            events_view(kept@) == pruned(events_view(events@).take(i as int), now@),
        decreases events.len() - i,
    {
        let event: RateEvent = events[i];
        proof {
            let views = events_view(events@);
            assert(views.take(i + 1) =~= views.take(i as int).push(event@));
            lemma_pruned_push(views.take(i as int), event@, now@);
            assert(events_view(kept@.push(event)) =~= events_view(kept@).push(event@));
        }
        if standard_cutoff.before(&event.timestamp) || (!event.resolved && safety_cutoff.before(
            &event.timestamp,
        )) {
            kept.push(event);
        }
        i = i + 1;
    }
    assert(events_view(events@).take(i as int) =~= events_view(events@));
    kept
}

/// Adds up the tokens of a window.
fn sum_tokens(events: &Vec<RateEvent>) -> (r: u128)
    ensures
        r == total_tokens(events_view(events@)),
{
    let mut sum: u128 = 0;
    let mut i: usize = 0;
    assert(events_view(events@).take(0) =~= Seq::<EventView>::empty());
    while i < events.len()
        invariant
            i <= events.len(),
            sum == total_tokens(events_view(events@).take(i as int)),
        decreases events.len() - i,
    {
        proof {
            let views = events_view(events@);
            assert(views.take(i + 1) =~= views.take(i as int).push(views[i as int]));
            lemma_total_tokens_push(views.take(i as int), views[i as int]);
            lemma_total_tokens_bound(views.take(i + 1));
            assert((i + 1) * u32::MAX <= 0x1_0000_0000_0000_0000 * 0x1_0000_0000)
                by (nonlinear_arith)
                requires
                    i + 1 <= 0x1_0000_0000_0000_0000,
            ;
        }
        sum = sum + events[i].tokens as u128;
        i = i + 1;
    }
    assert(events_view(events@).take(i as int) =~= events_view(events@));
    sum
}

/// Writes the message that refuses a request over the requests per minute.
fn rpm_message(model: &str, current: usize, limit: u32) -> (s: String)
    ensures
        s@ == rpm_message_chars(model@, current as nat, limit),
{
    let mut s = "RPM limit exceeded for model '".to_owned();
    s.append(model);
    s.append("'. Current: ");
    s.append(decimal(current as u128).as_str());
    s.append("/min, Limit: ");
    s.append(decimal(limit as u128).as_str());
    s.append("/min");
    s
}

/// Writes the message that refuses a request over the tokens per minute.
fn tpm_message(model: &str, current: u128, budget: u32, limit: u32) -> (s: String)
    ensures
        s@ == tpm_message_chars(model@, current as nat, budget, limit),
{
    let mut s = "TPM limit exceeded for model '".to_owned();
    s.append(model);
    s.append("'. Active window tokens: ");
    s.append(decimal(current).as_str());
    s.append(" + budget: ");
    s.append(decimal(budget as u128).as_str());
    s.append(" exceeds limit: ");
    s.append(decimal(limit as u128).as_str());
    s.append("/min");
    s
}

/// What a limiter answered.
pub open spec fn answer_view(r: Result<(), String>) -> Result<(), Seq<char>> {
    match r {
        Ok(()) => Ok(()),
        Err(message) => Err(message@),
    }
}

impl LimiterView {
    /// What the limiter answers to a request.
    pub open spec fn answer(self, model: Seq<char>, token_budget: u32, now: int) -> Result<
        (),
        Seq<char>,
    > {
        if self.admits(model, token_budget, now) {
            Ok(())
        } else {
            Err(self.refusal(model, token_budget, now))
        }
    }
}

impl TokenRateLimiter {
    /// A limiter with the default limits of three models, or those that the settings
    /// give, and with empty windows.
    pub fn new(settings: &LimitSettings) -> (r: TokenRateLimiter)
        ensures
            r@ == (LimiterView { limits: settings.limits(), history: Map::empty() }),
    {
        let mut limits: StringHashMap<ModelLimit> = StringHashMap::new();
        limits.insert(
            settings.claude_sonnet_model.clone(),
            ModelLimit {
                tpm: read_setting(&settings.claude_sonnet_tpm, 40000),
                rpm: read_setting(&settings.claude_sonnet_rpm, 25),
            },
        );
        limits.insert(
            "gpt-4o".to_owned(),
            ModelLimit {
                tpm: read_setting(&settings.gpt4o_tpm, 30000),
                rpm: read_setting(&settings.gpt4o_rpm, 20),
            },
        );
        limits.insert(
            "gpt-4o-mini".to_owned(),
            ModelLimit {
                tpm: read_setting(&settings.gpt4o_mini_tpm, 150000),
                rpm: read_setting(&settings.gpt4o_mini_rpm, 100),
            },
        );
        let r = TokenRateLimiter { limits, history: StringHashMap::new() };
        assert(r@.history =~= Map::empty());
        r
    }

    /// Sets the limit of a model.
    pub fn set_limit(&mut self, model: String, tpm: u32, rpm: u32)
        ensures
            final(self)@ == (LimiterView {
                limits: old(self)@.limits.insert(model@, ModelLimit { tpm, rpm }),
                ..old(self)@
            }),
    {
        self.limits.insert(model, ModelLimit { tpm, rpm });
    }

    /// Asks, at the time that the clock shows, whether a task may be handed out,
    /// and records it in the window of the model if so.
    pub fn check_and_record(&mut self, model: &str, task_id: u128, token_budget: u32) -> (r: Result<
        (),
        String,
    >)
        ensures
            exists|now: int|
                0 <= now && answer_view(r) == #[trigger] old(self)@.answer(
                    model@,
                    token_budget,
                    now,
                ) && final(self)@ == old(self)@.checked(model@, task_id, token_budget, now),
    {
        let now = Reading::now();
        self.check_and_record_at(model, task_id, token_budget, now)
    }

    /// Asks at the time `now` whether a task may be handed out, and records it
    /// in the window of the model if so.
    pub fn check_and_record_at(
        &mut self,
        model: &str,
        task_id: u128,
        token_budget: u32,
        now: Reading,
    ) -> (r: Result<(), String>)
        requires
            now@ - seconds(UNRESOLVED_SAFETY_WINDOW_SECS as int) >= earliest(),
        ensures
            answer_view(r) == old(self)@.answer(model@, token_budget, now@),
            final(self)@ == old(self)@.checked(model@, task_id, token_budget, now@),
    {
        let limit: ModelLimit = match self.limits.get(model) {
            Some(l) => *l,
            None => {
                return Ok(());
            },
        };
        let mut events: Vec<RateEvent> = match self.history.get(model) {
            Some(window) => prune(window, &now),
            None => Vec::new(),
        };
        proof {
            reveal(Seq::filter);
            assert(self@.limits == self.limits@);
            assert(events_view(events@) =~= self@.active(model@, now@));
        }
        let current_requests: usize = events.len();
        let current_tokens: u128 = sum_tokens(&events);
        proof {
            lemma_total_tokens_bound(events_view(events@));
            assert(current_requests * u32::MAX <= 0xffff_ffff_ffff_ffff * 0xffff_ffff)
                by (nonlinear_arith)
                requires
                    current_requests <= 0xffff_ffff_ffff_ffff,
            ;
        }
        let result: Result<(), String> = if current_requests as u128 + 1 > limit.rpm as u128 {
            Err(rpm_message(model, current_requests, limit.rpm))
        } else if current_tokens + token_budget as u128 > limit.tpm as u128 {
            Err(tpm_message(model, current_tokens, token_budget, limit.tpm))
        } else {
            let event = RateEvent { timestamp: now, task_id, tokens: token_budget, resolved: false };
            proof {
                assert(events_view(events@.push(event)) =~= events_view(events@).push(event@));
            }
            events.push(event);
            Ok(())
        };
        self.history.insert(model.to_owned(), events);
        assert(self@.history =~= old(self)@.history.insert(model@, events_view(events@)));
        result
    }

    /// Takes up what a task actually used of a model.
    pub fn report_actual_usage(
        &mut self,
        model: &str,
        task_id: u128,
        actual_tokens: u32,
        resolved: bool,
    )
        ensures
            final(self)@ == old(self)@.with_usage(model@, task_id, actual_tokens, resolved),
    {
        let window: &Vec<RateEvent> = match self.history.get(model) {
            Some(window) => window,
            None => {
                return;
            },
        };
        let mut events: Vec<RateEvent> = Vec::new();
        let mut found = false;
        let mut i: usize = 0;
        let ghost views = events_view(window@);
        let ghost first = first_event_of(views, task_id);
        let ghost target = reported(views, task_id, actual_tokens, resolved);
        proof {
            lemma_first_event_of(views, task_id);
            assert(events_view(events@) =~= target.take(0));
        }
        while i < window.len()
            invariant
                i <= window.len(),
                views == events_view(window@),
                first == first_event_of(views, task_id),
                target == reported(views, task_id, actual_tokens, resolved),
                0 <= first <= views.len(),
                forall|j: int| 0 <= j < first ==> (#[trigger] views[j]).task_id != task_id,
                first < views.len() ==> views[first].task_id == task_id,
                found == (first < i),
                events_view(events@) == target.take(i as int),
            decreases window.len() - i,
        {
            let mut event: RateEvent = window[i];
            assert(views[i as int] == event@);
            if !found && event.task_id == task_id {
                event.tokens = actual_tokens;
                event.resolved = resolved;
                found = true;
            }
            assert(event@ == target[i as int]);
            assert(target.take(i + 1) =~= target.take(i as int).push(event@));
            assert(events_view(events@.push(event)) =~= events_view(events@).push(event@));
            events.push(event);
            i = i + 1;
        }
        assert(target.take(i as int) =~= target);
        self.history.insert(model.to_owned(), events);
        assert(self@.history =~= old(self)@.history.insert(model@, target));
    }

    /// The events in the window of a model, those that no longer count
    /// included until the next request.
    pub fn events(&self, model: &str) -> (r: Vec<RateEvent>)
        ensures
            events_view(r@) == self@.window(model@),
    {
        match self.history.get(model) {
            Some(window) => {
                let r: Vec<RateEvent> = window.clone();
                assert(events_view(r@) =~= events_view(window@));
                r
            },
            None => {
                let r: Vec<RateEvent> = Vec::new();
                assert(events_view(r@) =~= Seq::<EventView>::empty());
                r
            },
        }
    }
}

/// The first event of a task is an event of it with none before.
pub(crate) proof fn lemma_first_event_of(window: Seq<EventView>, task_id: u128)
    ensures
        0 <= first_event_of(window, task_id) <= window.len(),
        forall|j: int|
            0 <= j < first_event_of(window, task_id) ==> (#[trigger] window[j]).task_id != task_id,
        first_event_of(window, task_id) < window.len() ==> window[first_event_of(
            window,
            task_id,
        )].task_id == task_id,
    decreases window.len(),
{
    if window.len() > 0 && window[0].task_id != task_id {
        let rest = window.skip(1);
        lemma_first_event_of(rest, task_id);
        assert forall|j: int| 0 <= j < first_event_of(window, task_id) implies (
        #[trigger] window[j]).task_id != task_id by {
            if j > 0 {
                assert(rest[j - 1] == window[j]);
            }
        }
    }
}

/// What still counts goes on counting: pruning twice is pruning once.
pub proof fn lemma_pruned_twice(window: Seq<EventView>, now: int)
    ensures
        pruned(pruned(window, now), now) == pruned(window, now),
    decreases window.len(),
{
    reveal(Seq::filter);
    if window.len() > 0 {
        lemma_pruned_twice(window.drop_last(), now);
        let inner = pruned(window.drop_last(), now);
        if counts(window.last(), now) {
            assert(inner.push(window.last()).drop_last() =~= inner);
        }
    }
}

/// To ask the limiter and be refused changes nothing of what it answers next.
pub(crate) proof fn lemma_refreshed_same(l: LimiterView, model: Seq<char>, id: u128, budget: u32, now: int)
    ensures
        l.refreshed(model, now).admits(model, budget, now) == l.admits(model, budget, now),
        l.refreshed(model, now).recorded(model, id, budget, now) == l.recorded(
            model,
            id,
            budget,
            now,
        ),
        l.refreshed(model, now).refreshed(model, now) == l.refreshed(model, now),
{
    lemma_pruned_twice(l.window(model), now);
    let r = l.refreshed(model, now);
    if l.limits.contains_key(model) {
        assert(r.active(model, now) == l.active(model, now));
        assert(r.recorded(model, id, budget, now).history =~= l.recorded(
            model,
            id,
            budget,
            now,
        ).history);
        assert(r.refreshed(model, now).history =~= r.history);
    }
}

} // verus!
