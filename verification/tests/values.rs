use std::collections::HashMap;

use agenticmq::api::{
    DEFAULT_POLL_SECS, SubmitRequest, find_task, next_poll_delay, poll_timeout_seconds,
    resume_key_of,
};
use agenticmq::broker::{Broker, Delivery};
use agenticmq::clock::{MAX_SECS, MIN_SECS, Reading, Timestamp};
use agenticmq::envelope::{MessageEnvelope, TaskStatus};
use agenticmq::error::BrokerError;
use agenticmq::limiter::{LimitSettings, TokenRateLimiter};
use agenticmq::queue::ModelQueue;
use agenticmq::schedule::order_tasks;
use agenticmq::text::{decimal, parse_u32, signed_decimal};
use agenticmq::usd::Usd;

fn usd(amount: f64) -> Usd {
    Usd::new(amount.to_bits(), format!("{:.5}", amount))
}

#[test]
fn amounts_are_ordered_as_doubles_are() {
    let amounts = [
        0.0,
        -0.0,
        0.05,
        0.06,
        -0.05,
        -0.06,
        f64::MIN_POSITIVE,
        -f64::MIN_POSITIVE,
        5e-324,
        -5e-324,
        f64::MAX,
        f64::MIN,
        f64::INFINITY,
        f64::NEG_INFINITY,
        f64::NAN,
        -f64::NAN,
        1.0,
        -1.0,
    ];
    for a in amounts {
        for b in amounts {
            assert_eq!(usd(a).exceeds(&usd(b)), a > b);
        }
    }
    assert_eq!(Usd::zero().bits, 0f64.to_bits());
    assert!(!Usd::zero().exceeds(&usd(-0.0)));
}

#[test]
fn numbers_are_written_in_decimal() {
    assert_eq!(decimal(0), "0");
    assert_eq!(decimal(7), "7");
    assert_eq!(decimal(10), "10");
    assert_eq!(decimal(4294967296), "4294967296");
    assert_eq!(decimal(u128::MAX), "340282366920938463463374607431768211455");
    assert_eq!(signed_decimal(0), "0");
    assert_eq!(signed_decimal(-1), "-1");
    assert_eq!(signed_decimal(i64::MAX), "9223372036854775807");
    assert_eq!(signed_decimal(i64::MIN), "-9223372036854775808");
}

#[test]
fn settings_read_as_32_bit_numbers() {
    for text in [
        "", "+", "-", "-0", "0", "+0", "007", "42", "+42", "4294967295", "4294967296",
        "99999999999999999999999999", "1_000", " 1", "1 ", "1.0", "0x10", "++1", "\u{0661}",
        "00000000000000000000000000000000000000001",
    ] {
        assert_eq!(parse_u32(text), text.parse::<u32>().ok());
    }
}

#[test]
fn readings_keep_to_the_range_of_the_calendar() {
    let first = chrono::DateTime::<chrono::Utc>::MIN_UTC;
    let last = chrono::DateTime::<chrono::Utc>::MAX_UTC;
    assert_eq!(MIN_SECS, first.timestamp());
    assert_eq!(MAX_SECS, last.timestamp());
    assert!(Reading::new(MIN_SECS, 0).is_some());
    assert!(Reading::new(MIN_SECS - 1, 999_999_999).is_none());
    assert!(Reading::new(MAX_SECS, 999_999_999).is_some());
    assert!(Reading::new(MAX_SECS + 1, 0).is_none());
    assert!(Reading::new(59, 1_000_000_000).is_none());
}

#[test]
fn timestamps_are_those_of_the_calendar() {
    for secs in [
        i64::MIN, MIN_SECS - 1, MIN_SECS, MIN_SECS + 59, -61, -60, -59, -2, -1, 0, 1, 58, 59, 60,
        119, 86_399, MAX_SECS - 60, MAX_SECS, MAX_SECS + 1, i64::MAX,
    ] {
        for nanos in [0, 999_999_999, 1_000_000_000, 1_999_999_999, 2_000_000_000, u32::MAX] {
            let time = Timestamp::new(secs, nanos);
            assert_eq!(time.is_some(), chrono::DateTime::from_timestamp(secs, nanos).is_some());
            if let Some(time) = time {
                assert_eq!((time.secs(), time.nanos()), (secs, nanos));
            }
        }
    }
}

#[test]
fn readings_step_back_by_seconds() {
    let t = Reading::new(100, 7).unwrap();
    let earlier = t.minus_seconds(60);
    assert_eq!(earlier.secs(), 40);
    assert_eq!(earlier.nanos(), 7);
    let before_epoch = t.minus_seconds(600);
    assert_eq!(before_epoch.secs(), -500);
    assert_eq!(before_epoch.nanos(), 7);
    let first = Reading::new(MIN_SECS + 600, 0).unwrap().minus_seconds(600);
    assert_eq!(first.secs(), MIN_SECS);
    assert_eq!(t.minus_seconds(0), t);
    let far = t.minus_seconds(u32::MAX);
    assert_eq!(far.secs(), 100 - 4294967295);
    assert_eq!(far.nanos(), 7);
}

#[test]
fn times_are_apart_by_whole_seconds_rounded_toward_zero() {
    let now = |secs: i64, nanos: u32| Reading::new(secs, nanos).unwrap();
    let at = |secs: i64, nanos: u32| Timestamp::new(secs, nanos).unwrap();
    assert_eq!(now(10, 0).seconds_since(&at(8, 0)), 2);
    assert_eq!(now(10, 0).seconds_since(&at(8, 1)), 1);
    assert_eq!(now(8, 1).seconds_since(&at(10, 0)), -1);
    assert_eq!(now(8, 0).seconds_since(&at(8, 999_999_999)), 0);
    assert_eq!(now(0, 0).seconds_since(&at(-1, 999_999_999)), 0);
    let span = now(MAX_SECS, 999_999_999).seconds_since(&at(MIN_SECS, 0));
    assert_eq!(span, MAX_SECS - MIN_SECS);
    let back = now(MIN_SECS, 0).seconds_since(&at(MAX_SECS, 999_999_999));
    assert_eq!(back, MIN_SECS - MAX_SECS);
}

#[test]
fn a_leap_second_counts_within_its_day() {
    let now = |secs: i64, nanos: u32| Reading::new(secs, nanos).unwrap();
    let leap = Timestamp::new(59, 1_500_000_000).unwrap();
    assert_eq!(now(60, 499_999_999).seconds_since(&leap), 0);
    assert_eq!(now(60, 500_000_000).seconds_since(&leap), 1);
    assert_eq!(now(61, 499_999_999).seconds_since(&leap), 1);
    assert_eq!(now(61, 500_000_000).seconds_since(&leap), 2);
    assert_eq!(now(59, 0).seconds_since(&leap), -1);
    assert_eq!(now(58, 0).seconds_since(&leap), -2);
    let next_day = 86_400;
    assert_eq!(now(next_day + 58, 0).seconds_since(&leap), next_day - 3);
    assert_eq!(now(next_day + 61, 500_000_000).seconds_since(&leap), next_day + 2);
}

#[test]
fn times_are_ordered() {
    let now = |secs: i64, nanos: u32| Reading::new(secs, nanos).unwrap();
    assert!(now(1, 5).before(&now(2, 0)));
    assert!(now(1, 5).before(&now(1, 6)));
    assert!(!now(1, 5).before(&now(1, 5)));
    assert!(!now(2, 0).before(&now(1, 5)));
    let times = [(58, 7), (59, 0), (59, 999_999_999), (59, 1_500_000_000), (60, 0), (60, 500_000_001)];
    for a in times {
        for b in times {
            let before = Timestamp::new(a.0, a.1).unwrap().before(&Timestamp::new(b.0, b.1).unwrap());
            let a = chrono::DateTime::from_timestamp(a.0, a.1).unwrap();
            let b = chrono::DateTime::from_timestamp(b.0, b.1).unwrap();
            assert_eq!(before, a < b);
        }
    }
}

#[test]
fn the_clock_is_read() {
    let before = chrono::Utc::now().timestamp();
    let now = Reading::now();
    let after = chrono::Utc::now().timestamp();
    assert!(before <= now.secs() && now.secs() <= after);
    assert!(now.nanos() < 1_000_000_000);
    assert_eq!(Timestamp::at(now).secs(), now.secs());
    assert_eq!(Timestamp::at(now).nanos(), now.nanos());
}

#[test]
fn errors_are_told_in_words() {
    let id: u128 = 0x67e55044_10b1_426f_9247_bb680e5fe0c8;
    assert_eq!(
        BrokerError::TaskNotFound(id).message(),
        "Task 67e55044-10b1-426f-9247-bb680e5fe0c8 not found"
    );
    assert_eq!(
        BrokerError::InvalidStatus {
            task_id: id,
            expected: "paused".to_string(),
            actual: TaskStatus::Processing,
        }
        .message(),
        "Task 67e55044-10b1-426f-9247-bb680e5fe0c8 is not in paused state (current: Processing)"
    );
    assert_eq!(
        BrokerError::Storage("disk full".to_string()).message(),
        "Storage error: disk full"
    );
    assert_eq!(
        BrokerError::InvalidResumeKey(1).message(),
        "Invalid or missing resume key for task 00000000-0000-0000-0000-000000000001"
    );
    assert_eq!(BrokerError::Internal("oops".to_string()).message(), "Internal error: oops");
}

#[test]
fn errors_have_an_http_status() {
    assert_eq!(BrokerError::TaskNotFound(1).http_status(), 404);
    let invalid = BrokerError::InvalidStatus {
        task_id: 1,
        expected: "paused".to_string(),
        actual: TaskStatus::Failed,
    };
    assert_eq!(invalid.http_status(), 400);
    assert_eq!(BrokerError::InvalidResumeKey(1).http_status(), 403);
    assert_eq!(BrokerError::Storage(String::new()).http_status(), 500);
    assert_eq!(BrokerError::Internal(String::new()).http_status(), 500);
}

#[test]
fn statuses_have_names() {
    for status in [
        TaskStatus::Pending,
        TaskStatus::Processing,
        TaskStatus::Paused,
        TaskStatus::Completed,
        TaskStatus::Failed,
    ] {
        assert_eq!(status.name(), format!("{:?}", status));
    }
}

#[test]
fn a_queue_hands_back_what_was_put_off_and_then_what_was_sent() {
    let mut queue = ModelQueue::new();
    assert!(queue.drain().is_empty());
    assert!(queue.send(3));
    assert!(queue.send(1));
    queue.defer(vec![9, 8]);
    assert!(queue.send(2));
    assert_eq!(queue.drain(), vec![9, 8, 3, 1, 2]);
    assert!(queue.drain().is_empty());
}

#[test]
fn a_queue_takes_a_thousand_tasks() {
    let mut queue = ModelQueue::new();
    queue.defer(vec![7; 2000]);
    for id in 0..1000u128 {
        assert!(queue.send(id));
    }
    assert!(!queue.send(1000));
    let all = queue.drain();
    assert_eq!(all.len(), 3000);
    assert_eq!(all[2999], 999);
    assert!(queue.send(1000));
    assert_eq!(queue.drain(), vec![1000]);
}

#[test]
fn tasks_are_ordered_by_priority_and_age() {
    let mut tasks = HashMap::new();
    for (id, priority, created) in
        [(1u128, 0i8, 5i64), (2, 1, 9), (3, 0, 4), (4, 1, 9), (5, -1, 0), (6, 1, 8)]
    {
        let task = MessageEnvelope::new_at(
            String::new(),
            None,
            1,
            Usd::zero(),
            "m".to_string(),
            vec![],
            priority,
            None,
            id,
            Reading::new(created, 0).unwrap(),
        );
        tasks.insert(id, task);
    }
    assert_eq!(order_tasks(&tasks, &vec![1, 2, 3, 4, 5, 6]), vec![6, 2, 4, 3, 1, 5]);
    assert_eq!(order_tasks(&tasks, &vec![5, 4, 3, 2, 1]), vec![4, 2, 3, 1, 5]);
    assert_eq!(order_tasks(&tasks, &vec![1, 77, 2, 1]), vec![2, 77, 1, 1]);
    assert_eq!(order_tasks(&tasks, &vec![88, 3, 77, 1, 88]), vec![88, 3, 77, 1, 88]);
    assert!(order_tasks(&tasks, &vec![]).is_empty());
}

#[test]
fn a_request_has_defaults() {
    let task = SubmitRequest {
        prompt_data: "prompt".to_string(),
        system_context: None,
        token_budget: 5,
        max_cost_usd: usd(1.0),
        model: "m".to_string(),
        fallback_models: None,
        priority: None,
        ttl_seconds: Some(3),
    }
    .into_task();
    assert_eq!(task.prompt_data, "prompt");
    assert_eq!(task.current_model, "m");
    assert!(task.fallback_models.is_empty());
    assert_eq!(task.priority, 0);
    assert_eq!(task.ttl_seconds, Some(3));
    assert_eq!(task.token_budget, 5);

    let task = SubmitRequest {
        prompt_data: String::new(),
        system_context: Some("context".to_string()),
        token_budget: 5,
        max_cost_usd: usd(1.0),
        model: "m".to_string(),
        fallback_models: Some(vec!["n".to_string()]),
        priority: Some(-7),
        ttl_seconds: None,
    }
    .into_task();
    assert_eq!(task.system_context.as_deref(), Some("context"));
    assert_eq!(task.fallback_models, vec!["n".to_string()]);
    assert_eq!(task.priority, -7);
}

#[test]
fn a_worker_waits_for_as_long_as_it_asks() {
    assert_eq!(DEFAULT_POLL_SECS, 30);
    assert_eq!(poll_timeout_seconds(None), 30);
    assert_eq!(poll_timeout_seconds(Some(0)), 0);
    assert_eq!(poll_timeout_seconds(Some(u64::MAX)), u64::MAX);
    assert_eq!(next_poll_delay(0, 0), None);
    assert_eq!(next_poll_delay(0, 1), Some(100));
    assert_eq!(next_poll_delay(900, 1), Some(100));
    assert_eq!(next_poll_delay(901, 1), Some(99));
    assert_eq!(next_poll_delay(1000, 1), None);
    assert_eq!(next_poll_delay(u128::MAX, u64::MAX), None);
    assert_eq!(next_poll_delay(0, u64::MAX), Some(100));
}

#[test]
fn a_request_to_resume_needs_a_key() {
    assert_eq!(resume_key_of(Some("key".to_string())).unwrap(), "key");
    let refused = resume_key_of(None).unwrap_err();
    assert_eq!(refused.message(), "Internal error: Missing x-resume-key header");
    assert_eq!(refused.http_status(), 500);
}

#[test]
fn a_task_is_found_or_not() {
    let limiter = TokenRateLimiter::new(&LimitSettings::none("sonnet".to_string()));
    let mut broker = Broker::new(limiter, vec![]).unwrap().broker;
    let task = MessageEnvelope::new(
        String::new(),
        None,
        1,
        usd(1.0),
        "m".to_string(),
        vec![],
        0,
        None,
    );
    let id = task.task_id;
    assert!(matches!(broker.submit_task(task, Ok(())), Ok(Delivery::Done(_))));
    assert_eq!(find_task(&broker, id).unwrap().task_id, id);
    assert!(matches!(find_task(&broker, 1), Err(BrokerError::TaskNotFound(1))));
}
