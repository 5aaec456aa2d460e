use agenticmq::broker::{Broker, Delivery};
use agenticmq::clock::{Reading, Timestamp};
use agenticmq::envelope::{MessageEnvelope, TaskStatus};
use agenticmq::limiter::{LimitSettings, TokenRateLimiter};
use agenticmq::usd::Usd;

fn usd(amount: f64) -> Usd {
    Usd::new(amount.to_bits(), format!("{:.5}", amount))
}

fn new_broker() -> Broker {
    let limiter = TokenRateLimiter::new(&LimitSettings::none("sonnet".to_string()));
    match Broker::new(limiter, vec![]) {
        Some(recovery) => recovery.broker,
        None => panic!("an empty storage is always taken up"),
    }
}

fn done(delivery: Delivery) -> MessageEnvelope {
    match delivery {
        Delivery::Done(task) => task,
        Delivery::QueueFull(_) => panic!("the queue has room"),
    }
}

#[allow(clippy::too_many_arguments)]
fn submit(
    broker: &mut Broker,
    prompt_data: &str,
    token_budget: u32,
    max_cost_usd: f64,
    model: &str,
    fallback_models: Vec<String>,
    priority: i8,
    ttl_seconds: Option<u64>,
) -> MessageEnvelope {
    let task = MessageEnvelope::new(
        prompt_data.to_string(),
        None,
        token_budget,
        usd(max_cost_usd),
        model.to_string(),
        fallback_models,
        priority,
        ttl_seconds,
    );
    done(broker.submit_task(task, Ok(())).unwrap())
}

#[test]
fn test_submit_and_poll() {
    let mut broker = new_broker();

    let task = submit(&mut broker, "test prompt", 100, 0.01, "gpt-4o", vec![], 0, None);

    assert_eq!(task.current_model, "gpt-4o");
    assert_eq!(task.status, TaskStatus::Pending);

    // Poll it
    let polled = broker.poll_task("gpt-4o").task.unwrap();
    assert_eq!(polled.task_id, task.task_id);
    assert_eq!(polled.status, TaskStatus::Processing);

    // Try to poll again (should be empty)
    assert!(broker.poll_task("gpt-4o").task.is_none());
}

#[test]
fn test_fallback_routing() {
    let mut broker = new_broker();

    let task = submit(
        &mut broker,
        "test prompt",
        100,
        0.01,
        "gpt-4o",
        vec!["gpt-4o-mini".to_string()],
        0,
        None,
    );

    // Poll and fail
    let polled = broker.poll_task("gpt-4o").task.unwrap();
    let failed_task = broker
        .fail_task(polled.task_id, "Rate limit hit".to_string(), 50, usd(0.001))
        .unwrap();
    let failed_task = done(broker.settle(failed_task, Ok(())).unwrap());

    // Check it has been routed to fallback
    assert_eq!(failed_task.current_model, "gpt-4o-mini");
    assert_eq!(failed_task.status, TaskStatus::Pending);
    assert_eq!(failed_task.trace_depth, 1);

    // Should be pollable on gpt-4o-mini now
    let polled_fallback = broker.poll_task("gpt-4o-mini").task.unwrap();
    assert_eq!(polled_fallback.task_id, task.task_id);
    assert_eq!(polled_fallback.status, TaskStatus::Processing);
}

#[test]
fn test_pause_and_resume() {
    let mut broker = new_broker();

    let task = submit(&mut broker, "dangerous prompt", 100, 0.01, "gpt-4o", vec![], 0, None);

    let polled = broker.poll_task("gpt-4o").task.unwrap();

    // Checkpoint with pause request
    let paused_task = broker
        .checkpoint_task(
            polled.task_id,
            50,
            usd(0.001),
            Some("unsafe content".to_string()),
            None,
            true,
        )
        .unwrap();
    let paused_task = done(broker.settle(paused_task, Ok(())).unwrap());

    assert_eq!(paused_task.status, TaskStatus::Paused);
    let resume_key = paused_task.resume_key.unwrap();
    assert!(resume_key.starts_with("x-resume-"));

    // Try to resume with invalid key
    assert!(broker.resume_task(task.task_id, "wrong_key").is_err());

    // Resume with correct key
    let resumed = broker.resume_task(task.task_id, &resume_key).unwrap();
    let resumed = done(broker.settle(resumed, Ok(())).unwrap());
    assert_eq!(resumed.status, TaskStatus::Pending);
    assert!(resumed.resume_key.is_none());

    // Should be back in queue
    let repolled = broker.poll_task("gpt-4o").task.unwrap();
    assert_eq!(repolled.task_id, task.task_id);
}

#[test]
fn test_priority_scheduling() {
    let mut broker = new_broker();

    // 1. Submit Low Priority Task
    let task_low = submit(&mut broker, "low", 100, 0.1, "gpt-4o", vec![], -5, None);

    // 2. Submit Normal Priority Task
    let task_normal = submit(&mut broker, "normal", 100, 0.1, "gpt-4o", vec![], 0, None);

    // 3. Submit High Priority Task
    let task_high = submit(&mut broker, "high", 100, 0.1, "gpt-4o", vec![], 10, None);

    // Poll 1: should be task_high
    let p1 = broker.poll_task("gpt-4o").task.unwrap();
    assert_eq!(p1.task_id, task_high.task_id);

    // Poll 2: should be task_normal
    let p2 = broker.poll_task("gpt-4o").task.unwrap();
    assert_eq!(p2.task_id, task_normal.task_id);

    // Poll 3: should be task_low
    let p3 = broker.poll_task("gpt-4o").task.unwrap();
    assert_eq!(p3.task_id, task_low.task_id);
}

#[test]
fn test_ttl_expiration() {
    let mut broker = new_broker();

    // Submit task with 1 second TTL
    let task = submit(&mut broker, "will expire", 100, 0.1, "gpt-4o", vec![], 0, Some(1));

    // Sleep for 1.5 seconds to trigger expiration
    tokio::runtime::Builder::new_current_thread()
        .enable_time()
        .build()
        .unwrap()
        .block_on(async {
            tokio::time::sleep(tokio::time::Duration::from_millis(1500)).await;
        });

    // Poll task: should be skipped/not returned
    let polled = broker.poll_task("gpt-4o").task;
    assert!(polled.is_none());

    // Check task status has been updated to Failed
    let task_state = broker.get_task(task.task_id).unwrap();
    assert_eq!(task_state.status, TaskStatus::Failed);
    assert!(task_state.error_message.unwrap().contains("expired"));
}

#[test]
fn test_cost_budget_checkpoint_failure() {
    let mut broker = new_broker();

    // Submit task with max cost $0.05
    let _task = submit(&mut broker, "cost checking", 100, 0.05, "gpt-4o", vec![], 0, None);

    // Poll it to set status to Processing
    let polled = broker.poll_task("gpt-4o").task.unwrap();
    assert_eq!(polled.status, TaskStatus::Processing);

    // Checkpoint with cost $0.06 (exceeds $0.05 limit)
    let checkpointed = broker
        .checkpoint_task(
            polled.task_id,
            100,
            usd(0.06),
            Some("draft".to_string()),
            None,
            false,
        )
        .unwrap();
    let checkpointed = done(broker.settle(checkpointed, Ok(())).unwrap());

    // It should automatically transition to Failed status
    assert_eq!(checkpointed.status, TaskStatus::Failed);
    assert!(checkpointed.error_message.unwrap().contains("Cost budget exceeded"));
}

#[test]
fn test_sled_garbage_collector() {
    let mut broker = new_broker();

    // Submit task 1: completed, older than 24 hours
    let mut t1 = submit(&mut broker, "t1", 100, 0.1, "gpt-4o", vec![], 0, None);

    // Submit task 2: completed, fresh
    let mut t2 = submit(&mut broker, "t2", 100, 0.1, "gpt-4o", vec![], 0, None);

    // Set t1 to Completed and updated_at to 25 hours ago
    t1.status = TaskStatus::Completed;
    t1.updated_at = Timestamp::at(Reading::now().minus_seconds(25 * 3600));
    broker.submit_task(t1.clone(), Ok(())).unwrap();

    // Set t2 to Completed but updated_at to fresh (now)
    t2.status = TaskStatus::Completed;
    t2.updated_at = Timestamp::at(Reading::now());
    broker.submit_task(t2.clone(), Ok(())).unwrap();

    // Trigger manual sweep
    assert_eq!(broker.sweep_old_tasks(), vec![t1.task_id]);

    // t1 should be deleted from memory and storage
    assert!(broker.get_task(t1.task_id).is_none());

    // t2 should still exist
    assert!(broker.get_task(t2.task_id).is_some());
}
