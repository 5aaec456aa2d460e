//! Laws of the rate limiter.

use vstd::prelude::*;

use crate::clock::seconds;
use crate::limiter::{
    EventView, LimitSettings, LimiterView, ModelLimit, RateEvent, SLIDING_WINDOW_SECS,
    UNRESOLVED_SAFETY_WINDOW_SECS, counts, events_view, first_event_of, lemma_first_event_of,
    lemma_pruned_push, lemma_pruned_twice, lemma_total_tokens_push, pruned, reported, setting_or,
    total_tokens, within,
};
use crate::text::{decimal_chars, law_decimal_reads_back, law_only_digits_are_read};

verus! {

/// A limiter always starts with a limit for three models and no others, and each of
/// the six settings gives one value of one model alone, or leaves it at its default.
/// Only a Sonnet model named as another of the three has no limit of its own.
pub proof fn law_three_models_start_limited(settings: LimitSettings)
    ensures
        forall|m: Seq<char>| #[trigger]
            settings.limits().contains_key(m) <==> m == "gpt-4o"@ || m == "gpt-4o-mini"@ || m
                == settings.claude_sonnet_model@,
        settings.limits()["gpt-4o"@] == (ModelLimit {
            tpm: setting_or(settings.gpt4o_tpm, 30000),
            rpm: setting_or(settings.gpt4o_rpm, 20),
        }),
        settings.limits()["gpt-4o-mini"@] == (ModelLimit {
            tpm: setting_or(settings.gpt4o_mini_tpm, 150000),
            rpm: setting_or(settings.gpt4o_mini_rpm, 100),
        }),
        settings.claude_sonnet_model@ != "gpt-4o"@ && settings.claude_sonnet_model@
            != "gpt-4o-mini"@ ==> settings.limits()[settings.claude_sonnet_model@] == (ModelLimit {
            tpm: setting_or(settings.claude_sonnet_tpm, 40000),
            rpm: setting_or(settings.claude_sonnet_rpm, 25),
        }),
{
    reveal_strlit("gpt-4o");
    reveal_strlit("gpt-4o-mini");
    assert("gpt-4o"@.len() != "gpt-4o-mini"@.len());
}

/// What the limiter lets through stays within the limit: with the request that
/// was let through, what counts of the window of the model has no more requests
/// and no more tokens than the limit allows.
pub proof fn law_admitted_stays_within_limit(
    l: LimiterView,
    model: Seq<char>,
    task_id: u128,
    token_budget: u32,
    now: int,
)
    requires
        l.limits.contains_key(model),
        l.admits(model, token_budget, now),
    ensures
        within(l.checked(model, task_id, token_budget, now).active(model, now), l.limits[model]),
        l.checked(model, task_id, token_budget, now).active(model, now).len() == l.active(
            model,
            now,
        ).len() + 1,
{
    let e = EventView { timestamp: now, task_id, tokens: token_budget, resolved: false };
    let active = l.active(model, now);
    lemma_pruned_twice(l.window(model), now);
    lemma_pruned_push(active, e, now);
    lemma_total_tokens_push(active, e);
}

/// A refused request uses up nothing: what the limiter answers to any request
/// afterwards is what it would have answered before.
pub proof fn law_refusal_uses_nothing(
    l: LimiterView,
    model: Seq<char>,
    task_id: u128,
    token_budget: u32,
    now: int,
    other_model: Seq<char>,
    other_budget: u32,
)
    requires
        !l.admits(model, token_budget, now),
    ensures
        l.checked(model, task_id, token_budget, now).answer(other_model, other_budget, now)
            == l.answer(other_model, other_budget, now),
{
    lemma_pruned_twice(l.window(model), now);
    let after = l.checked(model, task_id, token_budget, now);
    if other_model == model {
        assert(after.active(model, now) == l.active(model, now));
    } else {
        assert(after.window(other_model) == l.window(other_model));
    }
}

/// Requests for one model and reports on it leave the windows of all other models
/// and all limits as they are.
pub proof fn law_models_are_independent(
    l: LimiterView,
    model: Seq<char>,
    task_id: u128,
    tokens: u32,
    resolved: bool,
    now: int,
    other_model: Seq<char>,
)
    requires
        other_model != model,
    ensures
        l.checked(model, task_id, tokens, now).window(other_model) == l.window(other_model),
        l.with_usage(model, task_id, tokens, resolved).window(other_model) == l.window(other_model),
        l.checked(model, task_id, tokens, now).limits == l.limits,
        l.with_usage(model, task_id, tokens, resolved).limits == l.limits,
{
}

/// A model without a limit is never refused, and nothing is recorded of it.
pub proof fn law_unlimited_model_is_free(
    l: LimiterView,
    model: Seq<char>,
    task_id: u128,
    token_budget: u32,
    now: int,
)
    requires
        !l.limits.contains_key(model),
    ensures
        l.answer(model, token_budget, now) == Ok::<(), Seq<char>>(()),
        l.checked(model, task_id, token_budget, now) == l,
{
}

/// An event of the last minute counts, one older than ten minutes does not, and
/// one in between counts while its actual usage is not known. What counts of a
/// window is made up of those events and no others.
pub proof fn law_retention(window: Seq<EventView>, e: EventView, now: int)
    ensures
        pruned(window, now).contains(e) <==> window.contains(e) && counts(e, now),
        now - e.timestamp < seconds(SLIDING_WINDOW_SECS as int) ==> counts(e, now),
        now - e.timestamp >= seconds(UNRESOLVED_SAFETY_WINDOW_SECS as int) ==> !counts(e, now),
        seconds(SLIDING_WINDOW_SECS as int) <= now - e.timestamp < seconds(
            UNRESOLVED_SAFETY_WINDOW_SECS as int,
        ) ==> counts(e, now) == !e.resolved,
{
    let p = |x: EventView| counts(x, now);
    if pruned(window, now).contains(e) {
        window.lemma_filter_contains_rev(p, e);
        let i = choose|i: int| 0 <= i < pruned(window, now).len() && pruned(window, now)[i] == e;
        window.lemma_filter_pred(p, i);
    }
    if window.contains(e) && counts(e, now) {
        let i = choose|i: int| 0 <= i < window.len() && window[i] == e;
        window.lemma_filter_contains(p, i);
    }
}

/// As time passes, a window has ever fewer events that count, and fewer tokens.
proof fn lemma_pruned_later(window: Seq<EventView>, now: int, later: int)
    requires
        now <= later,
    ensures
        pruned(window, later).len() <= pruned(window, now).len(),
        total_tokens(pruned(window, later)) <= total_tokens(pruned(window, now)),
    decreases window.len(),
{
    if window.len() > 0 {
        let rest = window.drop_last();
        let e = window.last();
        lemma_pruned_later(rest, now, later);
        assert(window =~= rest.push(e));
        lemma_pruned_push(rest, e, now);
        lemma_pruned_push(rest, e, later);
        lemma_total_tokens_push(pruned(rest, now), e);
        lemma_total_tokens_push(pruned(rest, later), e);
    } else {
        reveal(Seq::filter);
    }
}

/// Waiting helps: what the limiter admits now it admits at any later time, as
/// long as nothing else is recorded.
pub proof fn law_waiting_frees_capacity(
    l: LimiterView,
    model: Seq<char>,
    token_budget: u32,
    now: int,
    later: int,
)
    requires
        now <= later,
        l.admits(model, token_budget, now),
    ensures
        l.admits(model, token_budget, later),
{
    lemma_pruned_later(l.window(model), now, later);
}

/// A request that has nothing to wait for but the window passes in the end: once
/// ten minutes have gone by since the last event of a model, a task within the
/// tokens per minute is admitted, unless the model allows no request at all.
pub proof fn law_window_empties(
    l: LimiterView,
    model: Seq<char>,
    token_budget: u32,
    now: int,
)
    requires
        forall|i: int|
            0 <= i < l.window(model).len() ==> now - (#[trigger] l.window(model)[i]).timestamp
                >= seconds(UNRESOLVED_SAFETY_WINDOW_SECS as int),
        l.limits.contains_key(model) ==> l.limits[model].rpm >= 1 && token_budget
            <= l.limits[model].tpm,
    ensures
        l.active(model, now).len() == 0,
        l.admits(model, token_budget, now),
{
    let window = l.window(model);
    if l.active(model, now).len() > 0 {
        let e = l.active(model, now)[0];
        assert(l.active(model, now).contains(e));
        law_retention(window, e, now);
        let i = choose|i: int| 0 <= i < window.len() && window[i] == e;
        assert(now - window[i].timestamp >= seconds(UNRESOLVED_SAFETY_WINDOW_SECS as int));
    }
}

/// The tokens of a window in which one event was replaced.
proof fn lemma_total_tokens_update(window: Seq<EventView>, i: int, e: EventView)
    requires
        0 <= i < window.len(),
    ensures
        total_tokens(window.update(i, e)) == total_tokens(window) - window[i].tokens + e.tokens,
    decreases window.len(),
{
    let changed = window.update(i, e);
    if i == window.len() - 1 {
        assert(changed.drop_last() =~= window.drop_last());
    } else {
        lemma_total_tokens_update(window.drop_last(), i, e);
        assert(changed.drop_last() =~= window.drop_last().update(i, e));
    }
}

/// A report puts what a task actually used in the place of what was set aside for
/// it: the tokens of the window change by the difference, and the number of its
/// events stays.
pub proof fn law_report_replaces_reservation(
    window: Seq<EventView>,
    task_id: u128,
    actual_tokens: u32,
    resolved: bool,
)
    ensures
        reported(window, task_id, actual_tokens, resolved).len() == window.len(),
        ({
            let i = first_event_of(window, task_id);
            if i < window.len() {
                &&& window[i].task_id == task_id
                &&& total_tokens(reported(window, task_id, actual_tokens, resolved))
                    == total_tokens(window) - window[i].tokens + actual_tokens
            } else {
                reported(window, task_id, actual_tokens, resolved) == window
            }
        }),
{
    let i = first_event_of(window, task_id);
    lemma_first_event_of(window, task_id);
    if i < window.len() {
        lemma_total_tokens_update(
            window,
            i,
            EventView { tokens: actual_tokens, resolved, ..window[i] },
        );
    }
}

/// Replacing an event by a smaller one that counts no longer than it did makes
/// what counts of a window no larger.
proof fn lemma_pruned_update(window: Seq<EventView>, i: int, e: EventView, now: int)
    requires
        0 <= i < window.len(),
        e.tokens <= window[i].tokens,
        counts(e, now) ==> counts(window[i], now),
    ensures
        pruned(window.update(i, e), now).len() <= pruned(window, now).len(),
        total_tokens(pruned(window.update(i, e), now)) <= total_tokens(pruned(window, now)),
    decreases window.len(),
{
    let changed = window.update(i, e);
    let rest = window.drop_last();
    let last = window.last();
    assert(window =~= rest.push(last));
    lemma_pruned_push(rest, last, now);
    lemma_total_tokens_push(pruned(rest, now), last);
    if i == window.len() - 1 {
        assert(changed =~= rest.push(e));
        lemma_pruned_push(rest, e, now);
        lemma_total_tokens_push(pruned(rest, now), e);
    } else {
        lemma_pruned_update(rest, i, e, now);
        let changed_rest = rest.update(i, e);
        assert(changed =~= changed_rest.push(last));
        lemma_pruned_push(changed_rest, last, now);
        lemma_total_tokens_push(pruned(changed_rest, now), last);
    }
}

/// A final report of no more than was set aside gives capacity back: whatever the
/// limiter admitted before, it admits afterwards.
pub proof fn law_report_frees_capacity(
    l: LimiterView,
    model: Seq<char>,
    task_id: u128,
    actual_tokens: u32,
    token_budget: u32,
    now: int,
)
    requires
        first_event_of(l.window(model), task_id) < l.window(model).len() ==> actual_tokens
            <= l.window(model)[first_event_of(l.window(model), task_id)].tokens,
        l.admits(model, token_budget, now),
    ensures
        l.with_usage(model, task_id, actual_tokens, true).admits(model, token_budget, now),
{
    let window = l.window(model);
    let i = first_event_of(window, task_id);
    lemma_first_event_of(window, task_id);
    let after = l.with_usage(model, task_id, actual_tokens, true);
    assert(after.window(model) =~= reported(window, task_id, actual_tokens, true));
    if i < window.len() {
        lemma_pruned_update(
            window,
            i,
            EventView { tokens: actual_tokens, resolved: true, ..window[i] },
            now,
        );
    }
}

/// What still counts of a window is, in its order, each event of less than 60 seconds
/// ago and each unresolved one of less than 600 seconds ago.
pub proof fn law_what_counts(window: Seq<EventView>, e: EventView, now: int)
    ensures
        pruned(Seq::<EventView>::empty(), now) == Seq::<EventView>::empty(),
        pruned(window.push(e), now) == (if now - e.timestamp < 60_000_000_000 || (!e.resolved && now
            - e.timestamp < 600_000_000_000) {
            pruned(window, now).push(e)
        } else {
            pruned(window, now)
        }),
{
    reveal(Seq::filter);
    lemma_pruned_push(window, e, now);
}

/// The tokens of a window are the sum of those of its events.
pub proof fn law_tokens_add_up(window: Seq<EventView>)
    ensures
        total_tokens(window) == window.fold_left(0int, |sum: int, e: EventView| sum + e.tokens),
    decreases window.len(),
{
    if window.len() > 0 {
        law_tokens_add_up(window.drop_last());
    }
}

/// A request is let through unless the model has a limit and the request would take it
/// over its requests or over its tokens; who is refused is told which, what counts, and
/// what the limit is, the requests first.
pub proof fn law_answer(l: LimiterView, model: Seq<char>, token_budget: u32, now: int)
    ensures
        ({
            let requests = l.active(model, now).len();
            let tokens = total_tokens(l.active(model, now));
            let limit = l.limits[model];
            l.answer(model, token_budget, now) == (if !l.limits.contains_key(model) {
                Ok::<(), Seq<char>>(())
            } else if requests >= limit.rpm {
                Err(
                    "RPM limit exceeded for model '"@ + model + "'. Current: "@ + decimal_chars(
                        requests,
                    ) + "/min, Limit: "@ + decimal_chars(limit.rpm as nat) + "/min"@,
                )
            } else if tokens + token_budget > limit.tpm {
                Err(
                    "TPM limit exceeded for model '"@ + model + "'. Active window tokens: "@
                        + decimal_chars(tokens) + " + budget: "@ + decimal_chars(
                        token_budget as nat,
                    ) + " exceeds limit: "@ + decimal_chars(limit.tpm as nat) + "/min"@,
                )
            } else {
                Ok(())
            })
        }),
        l.admits(model, token_budget, now) <==> l.answer(model, token_budget, now) is Ok,
{
}

/// A request to a limited model leaves in its window what still counts and, where it was
/// let through, the request with its whole budget, last and not yet resolved.
pub proof fn law_what_is_recorded(
    l: LimiterView,
    model: Seq<char>,
    task_id: u128,
    token_budget: u32,
    now: int,
)
    requires
        l.limits.contains_key(model),
    ensures
        ({
            let then = l.checked(model, task_id, token_budget, now);
            &&& then.limits == l.limits
            &&& if l.answer(model, token_budget, now) is Ok {
                &&& then.window(model).len() == l.active(model, now).len() + 1
                &&& then.window(model).drop_last() == l.active(model, now)
                &&& then.window(model).last().timestamp == now
                &&& then.window(model).last().task_id == task_id
                &&& then.window(model).last().tokens == token_budget
                &&& !then.window(model).last().resolved
            } else {
                then.window(model) == l.active(model, now)
            }
        }),
{
    let then = l.checked(model, task_id, token_budget, now);
    if l.admits(model, token_budget, now) {
        assert(then.window(model).drop_last() =~= l.active(model, now));
    }
}

/// A setting that writes a 32-bit number in decimal gives that number; a missing one, one
/// that writes a greater number and one that is no number give the default.
pub proof fn law_settings_are_read(text: String, n: nat, default: u32)
    ensures
        setting_or(None, default) == default,
        text@ == decimal_chars(n) && n <= u32::MAX ==> setting_or(Some(text), default) == n,
        text@ == decimal_chars(n) && n > u32::MAX ==> setting_or(Some(text), default) == default,
        text@.len() == 0 ==> setting_or(Some(text), default) == default,
        (exists|i: int| 0 < i < text@.len() && !('0' <= #[trigger] text@[i] <= '9')) ==> setting_or(
            Some(text),
            default,
        ) == default,
{
    law_decimal_reads_back(n);
    if exists|i: int| 0 < i < text@.len() && !('0' <= #[trigger] text@[i] <= '9') {
        law_only_digits_are_read(text@);
    }
}

/// What an event stands for is all that it holds.
pub proof fn law_event_view(events: Seq<RateEvent>, i: int)
    requires
        0 <= i < events.len(),
    ensures
        events_view(events).len() == events.len(),
        events_view(events)[i].timestamp == events[i].timestamp@,
        events_view(events)[i].task_id == events[i].task_id,
        events_view(events)[i].tokens == events[i].tokens,
        events_view(events)[i].resolved == events[i].resolved,
{
}

} // verus!
