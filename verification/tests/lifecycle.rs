use agenticmq::broker::{Broker, Delivery};
use agenticmq::clock::{Reading, Timestamp};
use agenticmq::envelope::{MessageEnvelope, Report, TaskStatus};
use agenticmq::error::BrokerError;
use agenticmq::limiter::{LimitSettings, TokenRateLimiter};
use agenticmq::usd::Usd;

fn usd(amount: f64) -> Usd {
    Usd::new(amount.to_bits(), format!("{:.5}", amount))
}

fn at(secs: i64) -> Reading {
    Reading::new(secs, 0).unwrap()
}

fn stamp(secs: i64) -> Timestamp {
    Timestamp::at(at(secs))
}

fn limiter() -> TokenRateLimiter {
    TokenRateLimiter::new(&LimitSettings::none("sonnet".to_string()))
}

fn broker_with(stored: Vec<MessageEnvelope>) -> Broker {
    match Broker::new_at(limiter(), stored, at(0)) {
        Some(recovery) => recovery.broker,
        None => panic!("the queues have room"),
    }
}

fn task(id: u128, model: &str, now: i64) -> MessageEnvelope {
    MessageEnvelope::new_at(
        "prompt".to_string(),
        Some("context".to_string()),
        100,
        usd(0.01),
        model.to_string(),
        vec![],
        0,
        None,
        id,
        at(now),
    )
}

fn submit(broker: &mut Broker, task: MessageEnvelope) {
    match broker.submit_task(task, Ok(())) {
        Ok(Delivery::Done(_)) => {}
        _ => panic!("the task is taken in"),
    }
}

fn poll(broker: &mut Broker, model: &str, now: i64) -> Option<u128> {
    broker.poll_task_at(model, at(now)).task.map(|t| t.task_id)
}

fn report(cost: f64, pause_request: bool) -> Report {
    Report { tokens_used: 50, cost_usd: usd(cost), output: None, error_message: None, pause_request }
}

#[test]
fn a_new_task_is_fresh() {
    let t = MessageEnvelope::new_at(
        "prompt".to_string(),
        Some("context".to_string()),
        100,
        usd(0.25),
        "m".to_string(),
        vec!["n".to_string()],
        -3,
        Some(60),
        7,
        at(5),
    );
    assert_eq!(t.task_id, 7);
    assert_eq!(t.prompt_data, "prompt");
    assert_eq!(t.system_context.as_deref(), Some("context"));
    assert_eq!(t.token_budget, 100);
    assert_eq!(t.max_cost_usd.text, "0.25000");
    assert_eq!(t.trace_depth, 0);
    assert_eq!(t.priority, -3);
    assert_eq!(t.ttl_seconds, Some(60));
    assert_eq!(t.status, TaskStatus::Pending);
    assert!(t.resume_key.is_none());
    assert_eq!(t.current_model, "m");
    assert_eq!(t.fallback_models, vec!["n".to_string()]);
    assert_eq!(t.tokens_used, 0);
    assert_eq!(t.cost_usd.bits, 0f64.to_bits());
    assert_eq!(t.cost_usd.text, format!("{:.5}", 0f64));
    assert!(t.output.is_none());
    assert!(t.error_message.is_none());
    assert_eq!(t.created_at, stamp(5));
    assert_eq!(t.updated_at, stamp(5));
}

#[test]
fn a_submitted_task_has_a_random_identifier() {
    let make = || {
        MessageEnvelope::new(
            String::new(),
            None,
            1,
            usd(1.0),
            "m".to_string(),
            vec![],
            0,
            None,
        )
    };
    let a = make();
    let b = make();
    assert_ne!(a.task_id, b.task_id);
    assert_eq!(uuid::Uuid::from_u128(a.task_id).get_version_num(), 4);
    assert_eq!((a.task_id >> 62) & 3, 2);
    assert_eq!(a.created_at, a.updated_at);
}

#[test]
fn a_task_that_was_not_written_is_not_taken_in() {
    let mut broker = broker_with(vec![]);
    let refused = broker.submit_task(task(1, "m", 0), Err("disk full".to_string()));
    match refused {
        Err(BrokerError::Storage(reason)) => assert_eq!(reason, "disk full"),
        _ => panic!("the storage error comes back"),
    }
    assert!(broker.get_task(1).is_none());
    assert_eq!(poll(&mut broker, "m", 1), None);
}

#[test]
fn equal_priorities_are_served_in_order_of_submission() {
    let mut broker = broker_with(vec![]);
    submit(&mut broker, task(1, "m", 30));
    submit(&mut broker, task(2, "m", 10));
    submit(&mut broker, task(3, "m", 20));
    submit(&mut broker, task(4, "m", 10));
    assert_eq!(poll(&mut broker, "m", 40), Some(2));
    assert_eq!(poll(&mut broker, "m", 40), Some(4));
    assert_eq!(poll(&mut broker, "m", 40), Some(3));
    assert_eq!(poll(&mut broker, "m", 40), Some(1));
    assert_eq!(poll(&mut broker, "m", 40), None);
}

#[test]
fn a_priority_outweighs_the_time_of_submission() {
    let mut broker = broker_with(vec![]);
    let mut urgent = task(2, "m", 100);
    urgent.priority = 127;
    let mut idle = task(3, "m", 0);
    idle.priority = -128;
    submit(&mut broker, task(1, "m", 50));
    submit(&mut broker, idle);
    submit(&mut broker, urgent);
    assert_eq!(poll(&mut broker, "m", 200), Some(2));
    assert_eq!(poll(&mut broker, "m", 200), Some(1));
    assert_eq!(poll(&mut broker, "m", 200), Some(3));
}

#[test]
fn a_task_over_the_token_limit_does_not_block_the_next() {
    let mut broker = broker_with(vec![]);
    broker.set_limit("m".to_string(), 500, 10);
    let mut large = task(1, "m", 0);
    large.token_budget = 501;
    large.priority = 9;
    submit(&mut broker, large);
    submit(&mut broker, task(2, "m", 1));
    assert_eq!(poll(&mut broker, "m", 2), Some(2));
    assert_eq!(poll(&mut broker, "m", 2), None);
    assert_eq!(broker.get_task(1).unwrap().status, TaskStatus::Pending);
    broker.set_limit("m".to_string(), 601, 10);
    assert_eq!(poll(&mut broker, "m", 2), Some(1));
}

#[test]
fn a_poll_of_an_unknown_model_finds_nothing() {
    let mut broker = broker_with(vec![]);
    submit(&mut broker, task(1, "m", 0));
    let answer = broker.poll_task_at("other", at(1));
    assert!(answer.task.is_none());
    assert!(answer.changed.is_empty());
    assert_eq!(poll(&mut broker, "m", 1), Some(1));
}

#[test]
fn a_poll_lists_what_is_to_be_written() {
    let mut broker = broker_with(vec![]);
    let mut expired = task(1, "m", 0);
    expired.ttl_seconds = Some(5);
    submit(&mut broker, expired);
    submit(&mut broker, task(2, "m", 1));
    submit(&mut broker, task(3, "m", 2));
    let answer = broker.poll_task_at("m", at(5));
    let handed_out = answer.task.unwrap();
    assert_eq!(handed_out.task_id, 2);
    assert_eq!(handed_out.status, TaskStatus::Processing);
    assert_eq!(handed_out.updated_at, stamp(5));
    let changed: Vec<(u128, TaskStatus)> =
        answer.changed.iter().map(|t| (t.task_id, t.status)).collect();
    assert_eq!(changed, vec![(1, TaskStatus::Failed), (2, TaskStatus::Processing)]);
    assert_eq!(
        answer.changed[0].error_message.as_deref(),
        Some("Task expired: TTL of 5s exceeded (elapsed: 5s)")
    );
    assert_eq!(broker.get_task(3).unwrap().status, TaskStatus::Pending);
}

#[test]
fn a_task_lives_until_its_time_to_live_is_reached() {
    let mut broker = broker_with(vec![]);
    broker.set_limit("m".to_string(), 0, 0);
    let mut t = task(1, "m", 10);
    t.ttl_seconds = Some(5);
    submit(&mut broker, t);
    let before = Reading::new(14, 999_999_999).unwrap();
    assert!(broker.poll_task_at("m", before).changed.is_empty());
    assert_eq!(broker.get_task(1).unwrap().status, TaskStatus::Pending);
    assert_eq!(broker.poll_task_at("m", at(15)).changed.len(), 1);
    assert_eq!(broker.get_task(1).unwrap().status, TaskStatus::Failed);
}

#[test]
fn a_time_to_live_beyond_the_signed_range_has_expired() {
    let mut broker = broker_with(vec![]);
    let mut long = task(1, "m", 10);
    long.ttl_seconds = Some(i64::MAX as u64);
    let mut wrapped = task(2, "m", 10);
    wrapped.ttl_seconds = Some(u64::MAX);
    submit(&mut broker, wrapped);
    submit(&mut broker, long);
    let answer = broker.poll_task_at("m", at(10));
    assert_eq!(answer.task.unwrap().task_id, 1);
    assert_eq!(
        broker.get_task(2).unwrap().error_message.as_deref(),
        Some("Task expired: TTL of 18446744073709551615s exceeded (elapsed: 0s)")
    );
}

#[test]
fn a_task_from_the_future_is_of_negative_age() {
    let mut broker = broker_with(vec![]);
    let mut t = task(1, "m", 100);
    t.ttl_seconds = Some(0);
    submit(&mut broker, t.clone());
    assert_eq!(poll(&mut broker, "m", 90), Some(1));
    t.task_id = 2;
    t.ttl_seconds = Some(u64::MAX);
    submit(&mut broker, t);
    let just_before = Reading::new(98, 500_000_000).unwrap();
    assert!(broker.poll_task_at("m", just_before).task.is_none());
    assert_eq!(
        broker.get_task(2).unwrap().error_message.as_deref(),
        Some("Task expired: TTL of 18446744073709551615s exceeded (elapsed: -1s)")
    );
}

#[test]
fn a_task_that_spent_too_much_is_not_handed_out() {
    let mut broker = broker_with(vec![]);
    let mut t = task(1, "m", 0);
    t.cost_usd = usd(0.5);
    t.ttl_seconds = Some(0);
    submit(&mut broker, t);
    assert_eq!(poll(&mut broker, "m", 1), None);
    let failed = broker.get_task(1).unwrap();
    assert_eq!(failed.status, TaskStatus::Failed);
    assert_eq!(
        failed.error_message.as_deref(),
        Some("Cost budget exceeded: limit is $0.01000, used $0.50000")
    );
}

#[test]
fn no_task_is_handed_out_twice() {
    let mut broker = broker_with(vec![]);
    submit(&mut broker, task(1, "m", 0));
    submit(&mut broker, task(1, "m", 0));
    assert_eq!(poll(&mut broker, "m", 1), Some(1));
    assert_eq!(poll(&mut broker, "m", 1), None);
    assert_eq!(poll(&mut broker, "other", 1), None);
}

#[test]
fn a_checkpoint_keeps_what_was_reported() {
    let mut broker = broker_with(vec![]);
    submit(&mut broker, task(1, "m", 0));
    assert_eq!(poll(&mut broker, "m", 1), Some(1));
    let full = Report {
        tokens_used: 50,
        cost_usd: usd(0.005),
        output: Some("draft".to_string()),
        error_message: Some("hiccup".to_string()),
        pause_request: false,
    };
    let t = broker.checkpoint_task_at(1, full, at(2), 9).unwrap();
    assert_eq!(t.status, TaskStatus::Processing);
    assert_eq!(t.tokens_used, 50);
    assert_eq!(t.cost_usd.text, "0.00500");
    assert_eq!(t.output.as_deref(), Some("draft"));
    assert_eq!(t.error_message.as_deref(), Some("hiccup"));
    assert!(t.resume_key.is_none());
    assert_eq!(t.updated_at, stamp(2));
    let t = broker.checkpoint_task_at(1, report(0.006, false), at(3), 9).unwrap();
    assert_eq!(t.output.as_deref(), Some("draft"));
    assert_eq!(t.error_message.as_deref(), Some("hiccup"));
    assert_eq!(t.updated_at, stamp(3));
}

#[test]
fn a_checkpoint_over_the_cost_limit_fails_the_task() {
    let mut broker = broker_with(vec![]);
    submit(&mut broker, task(1, "m", 0));
    assert_eq!(poll(&mut broker, "m", 1), Some(1));
    let mut over = report(0.02, true);
    over.output = Some("late".to_string());
    over.error_message = Some("ignored".to_string());
    let t = broker.checkpoint_task_at(1, over, at(2), 9).unwrap();
    assert_eq!(t.status, TaskStatus::Failed);
    assert_eq!(t.output.as_deref(), Some("late"));
    assert!(t.resume_key.is_none());
    assert_eq!(
        t.error_message.as_deref(),
        Some("Cost budget exceeded: limit is $0.01000, used $0.02000")
    );
}

#[test]
fn a_checkpoint_at_the_cost_limit_goes_on() {
    let mut broker = broker_with(vec![]);
    submit(&mut broker, task(1, "m", 0));
    assert_eq!(poll(&mut broker, "m", 1), Some(1));
    let t = broker.checkpoint_task_at(1, report(0.01, false), at(2), 9).unwrap();
    assert_eq!(t.status, TaskStatus::Processing);
    let t = broker.checkpoint_task_at(1, report(f64::NAN, false), at(3), 9).unwrap();
    assert_eq!(t.status, TaskStatus::Processing);
}

#[test]
fn a_pause_makes_a_resume_key() {
    let mut broker = broker_with(vec![]);
    submit(&mut broker, task(1, "m", 0));
    assert_eq!(poll(&mut broker, "m", 1), Some(1));
    let key_id: u128 = 0x0123456789abcdef_0011223344556677;
    let t = broker.checkpoint_task_at(1, report(0.001, true), at(2), key_id).unwrap();
    assert_eq!(t.status, TaskStatus::Paused);
    assert_eq!(t.resume_key.as_deref(), Some("x-resume-0123456789abcdef0011223344556677"));
}

#[test]
fn resume_keys_of_different_pauses_differ() {
    let mut keys = Vec::new();
    for _ in 0..2 {
        let mut broker = broker_with(vec![]);
        submit(&mut broker, task(1, "m", 0));
        assert_eq!(poll(&mut broker, "m", 1), Some(1));
        let t = broker.checkpoint_task(1, 1, usd(0.0), None, None, true).unwrap();
        let key = t.resume_key.unwrap();
        assert_eq!(key.len(), "x-resume-".len() + 32);
        keys.push(key);
    }
    assert_ne!(keys[0], keys[1]);
}

#[test]
fn only_the_right_key_resumes_and_only_once() {
    let mut broker = broker_with(vec![]);
    submit(&mut broker, task(1, "m", 0));
    assert_eq!(poll(&mut broker, "m", 1), Some(1));
    let t = broker.checkpoint_task_at(1, report(0.001, true), at(2), 5).unwrap();
    let key = t.resume_key.unwrap();
    match broker.resume_task_at(1, "x-resume-", at(3)) {
        Err(BrokerError::InvalidResumeKey(id)) => assert_eq!(id, 1),
        _ => panic!("the key is wrong"),
    }
    assert_eq!(broker.get_task(1).unwrap().status, TaskStatus::Paused);
    assert_eq!(poll(&mut broker, "m", 3), None);
    let resumed = broker.resume_task_at(1, &key, at(4)).unwrap();
    assert_eq!(resumed.status, TaskStatus::Pending);
    assert_eq!(resumed.current_model, "m");
    assert_eq!(resumed.updated_at, stamp(4));
    assert!(resumed.resume_key.is_none());
    match broker.resume_task_at(1, &key, at(5)) {
        Err(BrokerError::InvalidStatus { task_id, expected, actual }) => {
            assert_eq!(task_id, 1);
            assert_eq!(expected, "paused");
            assert_eq!(actual, TaskStatus::Pending);
        }
        _ => panic!("the task is not paused"),
    }
    assert!(matches!(broker.settle(resumed, Ok(())), Ok(Delivery::Done(_))));
    assert_eq!(poll(&mut broker, "m", 6), Some(1));
}

#[test]
fn a_completed_task_has_its_result() {
    let mut broker = broker_with(vec![]);
    submit(&mut broker, task(1, "m", 0));
    assert_eq!(poll(&mut broker, "m", 1), Some(1));
    let mut with_error = report(0.001, false);
    with_error.error_message = Some("hiccup".to_string());
    broker.checkpoint_task_at(1, with_error, at(2), 9).unwrap();
    let t = broker.complete_task_at(1, "result".to_string(), 70, usd(0.01), at(3)).unwrap();
    assert_eq!(t.status, TaskStatus::Completed);
    assert_eq!(t.output.as_deref(), Some("result"));
    assert!(t.error_message.is_none());
    assert_eq!(t.tokens_used, 70);
    assert_eq!(t.cost_usd.text, "0.01000");
    assert_eq!(t.updated_at, stamp(3));
}

#[test]
fn a_result_over_the_cost_limit_fails_the_task() {
    let mut broker = broker_with(vec![]);
    submit(&mut broker, task(1, "m", 0));
    let t = broker.complete_task(1, "result".to_string(), 70, usd(0.010001)).unwrap();
    assert_eq!(t.status, TaskStatus::Failed);
    assert_eq!(t.output.as_deref(), Some("result"));
    assert_eq!(
        t.error_message.as_deref(),
        Some("Cost budget exceeded: limit is $0.01000, used $0.01000")
    );
}

#[test]
fn a_failed_task_uses_its_fallbacks_in_turn() {
    let mut broker = broker_with(vec![]);
    let mut t = task(1, "a", 0);
    t.fallback_models = vec!["b".to_string(), "c".to_string()];
    submit(&mut broker, t);
    let mut depth = 0;
    for (from, to) in [("a", "b"), ("b", "c")] {
        assert_eq!(poll(&mut broker, from, 1), Some(1));
        let t = broker.fail_task_at(1, "boom".to_string(), 1, usd(0.001), at(2)).unwrap();
        depth += 1;
        assert_eq!(t.status, TaskStatus::Pending);
        assert_eq!(t.current_model, to);
        assert_eq!(t.trace_depth, depth);
        assert_eq!(t.fallback_models.len() as u32 + t.trace_depth, 2);
        assert_eq!(t.error_message.as_deref(), Some("boom"));
        assert_eq!(poll(&mut broker, to, 3), None);
        assert!(matches!(broker.settle(t, Ok(())), Ok(Delivery::Done(_))));
    }
    assert_eq!(poll(&mut broker, "c", 4), Some(1));
    let t = broker.fail_task_at(1, "boom".to_string(), 1, usd(0.001), at(5)).unwrap();
    assert_eq!(t.status, TaskStatus::Failed);
    assert_eq!(t.current_model, "c");
    assert_eq!(t.trace_depth, 2);
}

#[test]
fn what_a_task_used_frees_the_rest_of_its_budget() {
    let mut broker = broker_with(vec![]);
    broker.set_limit("m".to_string(), 100, 10);
    submit(&mut broker, task(1, "m", 0));
    submit(&mut broker, task(2, "m", 1));
    assert_eq!(poll(&mut broker, "m", 2), Some(1));
    assert_eq!(poll(&mut broker, "m", 2), None);
    broker.complete_task_at(1, String::new(), 0, usd(0.0), at(3)).unwrap();
    assert!(broker.limiter.events("m")[0].resolved);
    assert_eq!(poll(&mut broker, "m", 3), Some(2));
}

#[test]
fn a_running_task_keeps_its_share_until_it_ends_or_pauses() {
    let mut broker = broker_with(vec![]);
    broker.set_limit("m".to_string(), 1_000, 10);
    submit(&mut broker, task(1, "m", 0));
    assert_eq!(poll(&mut broker, "m", 2), Some(1));
    broker.checkpoint_task_at(1, report(0.001, false), at(3), 9).unwrap();
    assert_eq!(broker.limiter.events("m")[0].tokens, 50);
    assert!(!broker.limiter.events("m")[0].resolved);
    broker.checkpoint_task_at(1, report(0.001, true), at(4), 9).unwrap();
    assert!(broker.limiter.events("m")[0].resolved);
}

#[test]
fn unknown_tasks_are_refused() {
    let mut broker = broker_with(vec![]);
    let not_found = |e: BrokerError| matches!(e, BrokerError::TaskNotFound(404));
    assert!(not_found(broker.checkpoint_task_at(404, report(0.0, false), at(0), 1).unwrap_err()));
    assert!(not_found(broker.complete_task(404, String::new(), 0, usd(0.0)).unwrap_err()));
    assert!(not_found(broker.fail_task(404, String::new(), 0, usd(0.0)).unwrap_err()));
    assert!(not_found(broker.resume_task(404, "key").unwrap_err()));
    assert!(broker.get_task(404).is_none());
}

#[test]
fn a_checkpoint_needs_a_running_task() {
    let mut broker = broker_with(vec![]);
    submit(&mut broker, task(1, "m", 0));
    match broker.checkpoint_task_at(1, report(0.0, false), at(1), 1) {
        Err(BrokerError::InvalidStatus { task_id, expected, actual }) => {
            assert_eq!(task_id, 1);
            assert_eq!(expected, "processing");
            assert_eq!(actual, TaskStatus::Pending);
        }
        _ => panic!("the task is not running"),
    }
    assert_eq!(broker.get_task(1).unwrap().updated_at, stamp(0));
}

#[test]
fn a_change_that_was_not_written_stays_but_is_reported() {
    let mut broker = broker_with(vec![]);
    let mut t = task(1, "a", 0);
    t.fallback_models = vec!["b".to_string()];
    submit(&mut broker, t);
    assert_eq!(poll(&mut broker, "a", 1), Some(1));
    let t = broker.fail_task_at(1, "boom".to_string(), 1, usd(0.0), at(2)).unwrap();
    match broker.settle(t, Err("disk full".to_string())) {
        Err(BrokerError::Storage(reason)) => assert_eq!(reason, "disk full"),
        _ => panic!("the storage error comes back"),
    }
    assert_eq!(broker.get_task(1).unwrap().current_model, "b");
    assert_eq!(poll(&mut broker, "b", 3), None);
}

#[test]
fn a_full_queue_takes_a_task_once_a_worker_has_looked() {
    let mut broker = broker_with(vec![]);
    for id in 0..1000u128 {
        submit(&mut broker, task(id, "m", id as i64));
    }
    let waiting = match broker.submit_task(task(5_000, "m", 5_000), Ok(())) {
        Ok(Delivery::QueueFull(t)) => t,
        _ => panic!("the queue is full"),
    };
    assert!(broker.get_task(5_000).is_some());
    assert!(matches!(broker.settle(waiting.clone(), Ok(())), Ok(Delivery::QueueFull(_))));
    submit(&mut broker, task(6_000, "other", 0));
    assert_eq!(poll(&mut broker, "m", 6_000), Some(0));
    assert!(matches!(broker.settle(waiting, Ok(())), Ok(Delivery::Done(_))));
    for id in 1..1000u128 {
        assert_eq!(poll(&mut broker, "m", 6_000), Some(id));
    }
    assert_eq!(poll(&mut broker, "m", 6_000), Some(5_000));
    assert_eq!(poll(&mut broker, "m", 6_000), None);
}

#[test]
fn a_sweep_takes_finished_tasks_of_more_than_a_day() {
    let day = 24 * 3600;
    let mut stored = Vec::new();
    for (id, status) in [
        (1u128, TaskStatus::Completed),
        (2, TaskStatus::Failed),
        (3, TaskStatus::Pending),
        (4, TaskStatus::Paused),
    ] {
        let mut t = task(id, "m", 100);
        t.status = status;
        stored.push(t);
    }
    let mut broker = broker_with(stored);
    assert!(broker.sweep_old_tasks_at(at(100 + day)).is_empty());
    let mut swept = broker.sweep_old_tasks_at(Reading::new(100 + day, 1).unwrap());
    swept.sort();
    assert_eq!(swept, vec![1, 2]);
    assert!(broker.get_task(1).is_none());
    assert!(broker.get_task(2).is_none());
    assert_eq!(broker.get_task(3).unwrap().status, TaskStatus::Pending);
    assert_eq!(broker.get_task(4).unwrap().status, TaskStatus::Paused);
    assert!(broker.sweep_old_tasks_at(Reading::new(100 + day, 1).unwrap()).is_empty());
    assert_eq!(poll(&mut broker, "m", 100 + day), Some(3));
}

#[test]
fn a_swept_task_leaves_the_queue() {
    let mut broker = broker_with(vec![]);
    submit(&mut broker, task(1, "m", 0));
    submit(&mut broker, task(2, "m", 1));
    broker.fail_task_at(1, "gone".to_string(), 0, usd(0.0), at(2)).unwrap();
    assert_eq!(broker.sweep_old_tasks_at(at(3 + 24 * 3600)), vec![1]);
    assert_eq!(poll(&mut broker, "m", 3 + 24 * 3600), Some(2));
    assert_eq!(poll(&mut broker, "m", 3 + 24 * 3600), None);
}

#[test]
fn a_restart_takes_up_what_was_running() {
    let mut running = task(1, "m", 10);
    running.status = TaskStatus::Processing;
    let waiting = task(2, "m", 5);
    let mut paused = task(3, "m", 1);
    paused.status = TaskStatus::Paused;
    paused.resume_key = Some("x-resume-key".to_string());
    let recovery =
        Broker::new_at(limiter(), vec![running, waiting, paused], at(50)).unwrap();
    assert_eq!(recovery.changed.len(), 1);
    assert_eq!(recovery.changed[0].task_id, 1);
    assert_eq!(recovery.changed[0].status, TaskStatus::Pending);
    assert_eq!(recovery.changed[0].updated_at, stamp(50));
    let mut broker = recovery.broker;
    assert_eq!(broker.get_task(1).unwrap().created_at, stamp(10));
    assert_eq!(broker.get_task(2).unwrap().updated_at, stamp(5));
    assert_eq!(poll(&mut broker, "m", 60), Some(2));
    assert_eq!(poll(&mut broker, "m", 60), Some(1));
    assert_eq!(poll(&mut broker, "m", 60), None);
    assert!(broker.resume_task_at(3, "x-resume-key", at(61)).is_ok());
}

#[test]
fn a_restart_needs_room_for_what_waits() {
    let stored = |count: u128| -> Vec<MessageEnvelope> {
        (0..count).map(|id| task(id, "m", 0)).collect()
    };
    assert!(Broker::new_at(limiter(), stored(1000), at(0)).is_some());
    assert!(Broker::new_at(limiter(), stored(1001), at(0)).is_none());
    let mut finished = stored(1001);
    finished[7].status = TaskStatus::Completed;
    assert!(Broker::new_at(limiter(), finished, at(0)).is_some());
}

#[test]
fn operations_on_one_task_leave_the_others_alone() {
    let mut broker = broker_with(vec![]);
    submit(&mut broker, task(1, "m", 0));
    submit(&mut broker, task(2, "m", 1));
    assert_eq!(poll(&mut broker, "m", 2), Some(1));
    broker.checkpoint_task_at(1, report(0.001, true), at(3), 9).unwrap();
    broker.complete_task_at(1, String::new(), 0, usd(0.0), at(4)).unwrap();
    broker.fail_task_at(1, String::new(), 0, usd(0.0), at(5)).unwrap();
    let other = broker.get_task(2).unwrap();
    assert_eq!(other.status, TaskStatus::Pending);
    assert_eq!(other.updated_at, stamp(1));
    assert!(other.error_message.is_none());
}

#[test]
fn a_task_is_delivered_again_only_once_it_is_put_back() {
    let mut broker = broker_with(vec![]);
    let mut t = task(1, "a", 0);
    t.fallback_models = vec!["b".to_string()];
    submit(&mut broker, t);
    submit(&mut broker, task(2, "a", 1));
    assert_eq!(poll(&mut broker, "a", 2), Some(1));
    broker.checkpoint_task_at(1, report(0.001, false), at(3), 9).unwrap();
    assert_eq!(poll(&mut broker, "a", 3), Some(2));
    broker.set_limit("a".to_string(), 1, 1);
    broker.complete_task_at(2, String::new(), 0, usd(0.0), at(4)).unwrap();
    assert!(broker.sweep_old_tasks_at(at(5)).is_empty());
    assert_eq!(poll(&mut broker, "a", 6), None);
    assert_eq!(poll(&mut broker, "b", 6), None);
    let t = broker.fail_task_at(1, "boom".to_string(), 1, usd(0.0), at(7)).unwrap();
    assert!(matches!(broker.settle(t, Ok(())), Ok(Delivery::Done(_))));
    assert_eq!(poll(&mut broker, "b", 8), Some(1));
    assert_eq!(poll(&mut broker, "b", 8), None);
}

#[test]
fn a_route_is_kept_by_all_but_failures() {
    let mut broker = broker_with(vec![]);
    let mut t = task(1, "a", 0);
    t.fallback_models = vec!["b".to_string(), "c".to_string()];
    submit(&mut broker, t);
    let names = ["a", "b", "c"];
    for depth in 0..3usize {
        assert_eq!(poll(&mut broker, names[depth], 1), Some(1));
        let t = broker.checkpoint_task_at(1, report(0.001, true), at(2), 9).unwrap();
        let key = t.resume_key.unwrap();
        let t = broker.resume_task_at(1, &key, at(3)).unwrap();
        assert_eq!(t.trace_depth as usize, depth);
        assert_eq!(t.current_model, names[depth]);
        assert_eq!(t.fallback_models, names[depth + 1..].to_vec());
        let t = broker.fail_task_at(1, "boom".to_string(), 1, usd(0.0), at(4)).unwrap();
        if depth < 2 {
            assert_eq!(t.status, TaskStatus::Pending);
            assert!(matches!(broker.settle(t, Ok(())), Ok(Delivery::Done(_))));
        } else {
            assert_eq!(t.status, TaskStatus::Failed);
            assert_eq!(t.trace_depth, 2);
        }
    }
}

#[test]
fn a_used_key_stays_refused_after_another_pause() {
    let mut broker = broker_with(vec![]);
    submit(&mut broker, task(1, "m", 0));
    assert_eq!(poll(&mut broker, "m", 1), Some(1));
    let t = broker.checkpoint_task_at(1, report(0.001, true), at(2), 5).unwrap();
    let used = t.resume_key.unwrap();
    let t = broker.resume_task_at(1, &used, at(3)).unwrap();
    assert!(matches!(broker.settle(t, Ok(())), Ok(Delivery::Done(_))));
    assert_eq!(poll(&mut broker, "m", 4), Some(1));
    let t = broker.checkpoint_task_at(1, report(0.001, true), at(5), 6).unwrap();
    let fresh = t.resume_key.unwrap();
    assert!(matches!(
        broker.resume_task_at(1, &used, at(6)),
        Err(BrokerError::InvalidResumeKey(1))
    ));
    assert!(broker.resume_task_at(1, &fresh, at(7)).is_ok());
}

#[test]
fn a_swept_task_behind_the_one_handed_out_keeps_its_place() {
    let day = 24 * 3600;
    let mut broker = broker_with(vec![]);
    submit(&mut broker, task(2, "m", 1));
    submit(&mut broker, task(1, "m", 0));
    let mut gone = broker.get_task(1).unwrap();
    gone.status = TaskStatus::Failed;
    submit(&mut broker, gone);
    assert_eq!(broker.sweep_old_tasks_at(at(3 + day)), vec![1]);
    assert_eq!(poll(&mut broker, "m", 3 + day), Some(2));
    submit(&mut broker, task(1, "other", 3 + day));
    assert_eq!(poll(&mut broker, "m", 4 + day), Some(1));
}

#[test]
fn a_swept_task_ahead_of_the_one_handed_out_leaves_the_queue() {
    let day = 24 * 3600;
    let mut broker = broker_with(vec![]);
    submit(&mut broker, task(1, "m", 0));
    submit(&mut broker, task(2, "m", 1));
    let mut gone = broker.get_task(1).unwrap();
    gone.status = TaskStatus::Failed;
    submit(&mut broker, gone);
    assert_eq!(broker.sweep_old_tasks_at(at(3 + day)), vec![1]);
    assert_eq!(poll(&mut broker, "m", 3 + day), Some(2));
    submit(&mut broker, task(1, "other", 3 + day));
    assert_eq!(poll(&mut broker, "m", 4 + day), None);
}

#[test]
fn a_task_of_a_leap_second_is_taken_up() {
    let leap = Timestamp::new(59, 1_500_000_000).unwrap();
    let mut first = task(1, "m", 59);
    first.created_at = leap;
    let mut second = task(2, "m", 60);
    second.ttl_seconds = Some(10);
    let third = task(3, "m", 59);
    let mut expiring = task(4, "m", 0);
    expiring.created_at = leap;
    expiring.ttl_seconds = Some(10);
    let mut broker = broker_with(vec![second, first, third, expiring]);
    assert_eq!(broker.get_task(1).unwrap().created_at, leap);
    let answer = broker.poll_task_at("m", at(69));
    assert_eq!(answer.task.unwrap().task_id, 3);
    assert_eq!(poll(&mut broker, "m", 69), Some(1));
    assert_eq!(broker.get_task(4).unwrap().status, TaskStatus::Pending);
    let half_past = Reading::new(69, 500_000_000).unwrap();
    assert_eq!(broker.poll_task_at("m", half_past).task.unwrap().task_id, 2);
    assert_eq!(
        broker.get_task(4).unwrap().error_message.as_deref(),
        Some("Task expired: TTL of 10s exceeded (elapsed: 10s)")
    );
}
