use agenticmq::clock::Reading;
use agenticmq::limiter::{LimitSettings, TokenRateLimiter};

fn new_limiter() -> TokenRateLimiter {
    TokenRateLimiter::new(&LimitSettings::none("sonnet".to_string()))
}

fn at(secs: i64) -> Reading {
    Reading::new(secs, 0).unwrap()
}

fn new_id() -> u128 {
    uuid::Uuid::new_v4().as_u128()
}

#[test]
fn test_rate_limiting_rpm() {
    let mut limiter = new_limiter();
    // Set tight limits: 1000 tokens, 2 requests per minute
    limiter.set_limit("test-model".to_string(), 1000, 2);

    let t1 = new_id();
    let t2 = new_id();
    let t3 = new_id();

    // First request: Should pass
    assert!(limiter.check_and_record("test-model", t1, 100).is_ok());
    // Second request: Should pass
    assert!(limiter.check_and_record("test-model", t2, 100).is_ok());
    // Third request: Should fail (RPM exceeded)
    let res = limiter.check_and_record("test-model", t3, 100);
    assert!(res.is_err());
    assert!(res.unwrap_err().contains("RPM limit exceeded"));
}

#[test]
fn test_rate_limiting_tpm() {
    let mut limiter = new_limiter();
    // Set limits: 500 tokens, 10 requests per minute
    limiter.set_limit("test-model".to_string(), 500, 10);

    let t1 = new_id();
    let t2 = new_id();

    // First request: Should pass
    assert!(limiter.check_and_record("test-model", t1, 300).is_ok());
    // Second request: Should fail (TPM exceeded: 300 + 300 = 600 > 500)
    let res = limiter.check_and_record("test-model", t2, 300);
    assert!(res.is_err());
    assert!(res.unwrap_err().contains("TPM limit exceeded"));
}

#[test]
fn test_report_actual_usage() {
    let mut limiter = new_limiter();
    limiter.set_limit("test-model".to_string(), 500, 10);

    let t1 = new_id();
    let t2 = new_id();

    // Reserve 400 tokens (out of 500)
    assert!(limiter.check_and_record("test-model", t1, 400).is_ok());

    // Second request for 200 tokens fails because 400 + 200 > 500
    assert!(limiter.check_and_record("test-model", t2, 200).is_err());

    // Report that the first request only used 100 tokens, mark as resolved
    limiter.report_actual_usage("test-model", t1, 100, true);

    // Second request should now pass, since active tokens is 100 + 200 = 300 <= 500
    assert!(limiter.check_and_record("test-model", t2, 200).is_ok());
}

#[test]
fn test_retention_policy() {
    let mut limiter = new_limiter();
    limiter.set_limit("test-model".to_string(), 1000, 10);

    let now = Reading::now();
    let t1 = new_id();
    let t2 = new_id();
    let t3 = new_id();

    // Event 1: unresolved, 2 minutes old -> should be kept (age < 10m)
    let two_minutes_ago = now.minus_seconds(120);
    assert!(limiter.check_and_record_at("test-model", t1, 100, two_minutes_ago).is_ok());

    // Event 2: resolved, 2 minutes old -> should be pruned (age > 60s)
    assert!(limiter.check_and_record_at("test-model", t2, 100, two_minutes_ago).is_ok());
    limiter.report_actual_usage("test-model", t2, 100, true);

    // Event 3: unresolved, 11 minutes old -> should be pruned (age > 10m)
    assert!(limiter.check_and_record_at("test-model", t3, 100, now.minus_seconds(660)).is_ok());
    assert_eq!(limiter.events("test-model").len(), 3);

    // Trigger prune by checking a new record
    let t4 = new_id();
    assert!(limiter.check_and_record("test-model", t4, 50).is_ok());

    // Check history contents
    let events = limiter.events("test-model");

    // Should only contain:
    // 1. Event 1 (t1 - unresolved, 2 min old)
    // 2. Event 4 (t4 - newly created)
    assert_eq!(events.len(), 2);
    assert!(events.iter().any(|e| e.task_id == t1));
    assert!(events.iter().any(|e| e.task_id == t4));
}

#[test]
fn refusals_name_the_window() {
    let mut limiter = new_limiter();
    limiter.set_limit("m".to_string(), 500, 2);
    assert_eq!(limiter.check_and_record_at("m", 1, 300, at(1_000)), Ok(()));
    assert_eq!(
        limiter.check_and_record_at("m", 2, 201, at(1_000)),
        Err("TPM limit exceeded for model 'm'. Active window tokens: 300 + budget: 201 \
             exceeds limit: 500/min"
            .to_string())
    );
    assert_eq!(limiter.check_and_record_at("m", 2, 200, at(1_000)), Ok(()));
    assert_eq!(
        limiter.check_and_record_at("m", 3, 0, at(1_000)),
        Err("RPM limit exceeded for model 'm'. Current: 2/min, Limit: 2/min".to_string())
    );
}

#[test]
fn requests_are_refused_before_tokens() {
    let mut limiter = new_limiter();
    limiter.set_limit("m".to_string(), 0, 0);
    assert_eq!(
        limiter.check_and_record_at("m", 1, u32::MAX, at(0)),
        Err("RPM limit exceeded for model 'm'. Current: 0/min, Limit: 0/min".to_string())
    );
    limiter.set_limit("m".to_string(), 0, 1);
    assert_eq!(
        limiter.check_and_record_at("m", 1, u32::MAX, at(0)),
        Err("TPM limit exceeded for model 'm'. Active window tokens: 0 + budget: 4294967295 \
             exceeds limit: 0/min"
            .to_string())
    );
    assert_eq!(limiter.check_and_record_at("m", 1, 0, at(0)), Ok(()));
}

#[test]
fn token_sums_beyond_32_bits_are_refused() {
    let mut limiter = new_limiter();
    limiter.set_limit("m".to_string(), u32::MAX, 10);
    assert!(limiter.check_and_record_at("m", 1, u32::MAX, at(0)).is_ok());
    let refused = limiter.check_and_record_at("m", 2, u32::MAX, at(0)).unwrap_err();
    assert!(refused.contains("4294967295 + budget: 4294967295 exceeds limit: 4294967295/min"));
    assert!(limiter.check_and_record_at("m", 2, 0, at(0)).is_ok());
    limiter.report_actual_usage("m", 2, u32::MAX, false);
    let refused = limiter.check_and_record_at("m", 3, 0, at(0)).unwrap_err();
    assert!(refused.contains("Active window tokens: 8589934590 + budget: 0"));
}

#[test]
fn a_refusal_uses_no_capacity() {
    let mut limiter = new_limiter();
    limiter.set_limit("m".to_string(), 100, 10);
    assert!(limiter.check_and_record_at("m", 1, 101, at(0)).is_err());
    assert!(limiter.events("m").is_empty());
    assert!(limiter.check_and_record_at("m", 2, 100, at(0)).is_ok());
}

#[test]
fn models_do_not_share_capacity() {
    let mut limiter = new_limiter();
    limiter.set_limit("a".to_string(), 100, 1);
    limiter.set_limit("b".to_string(), 100, 1);
    assert!(limiter.check_and_record_at("a", 1, 100, at(0)).is_ok());
    assert!(limiter.check_and_record_at("b", 2, 100, at(0)).is_ok());
    assert!(limiter.check_and_record_at("a", 3, 0, at(0)).is_err());
    limiter.report_actual_usage("b", 1, 0, true);
    assert_eq!(limiter.events("a")[0].tokens, 100);
}

#[test]
fn a_model_without_a_limit_is_free() {
    let mut limiter = new_limiter();
    for id in 0..500u128 {
        assert!(limiter.check_and_record_at("free", id, u32::MAX, at(0)).is_ok());
    }
    assert!(limiter.events("free").is_empty());
    limiter.report_actual_usage("free", 7, 1, true);
    assert!(limiter.events("free").is_empty());
}

#[test]
fn an_event_counts_for_less_than_a_minute_once_resolved() {
    let mut limiter = new_limiter();
    limiter.set_limit("m".to_string(), 100, 1);
    assert!(limiter.check_and_record_at("m", 1, 1, at(1_000)).is_ok());
    limiter.report_actual_usage("m", 1, 1, true);
    let just_before = Reading::new(1_059, 999_999_999).unwrap();
    assert!(limiter.check_and_record_at("m", 2, 1, just_before).is_err());
    assert!(limiter.check_and_record_at("m", 2, 1, at(1_060)).is_ok());
}

#[test]
fn an_unresolved_event_counts_for_less_than_ten_minutes() {
    let mut limiter = new_limiter();
    limiter.set_limit("m".to_string(), 100, 1);
    assert!(limiter.check_and_record_at("m", 1, 1, at(1_000)).is_ok());
    assert!(limiter.check_and_record_at("m", 2, 1, at(1_060)).is_err());
    let just_before = Reading::new(1_599, 999_999_999).unwrap();
    assert!(limiter.check_and_record_at("m", 2, 1, just_before).is_err());
    assert!(limiter.check_and_record_at("m", 2, 1, at(1_600)).is_ok());
    let events = limiter.events("m");
    assert_eq!(events.len(), 1);
    assert_eq!(events[0].task_id, 2);
    assert_eq!(events[0].timestamp, at(1_600));
    assert!(!events[0].resolved);
}

#[test]
fn a_report_changes_the_first_event_of_a_task() {
    let mut limiter = new_limiter();
    limiter.set_limit("m".to_string(), 1_000, 10);
    assert!(limiter.check_and_record_at("m", 9, 10, at(0)).is_ok());
    assert!(limiter.check_and_record_at("m", 7, 20, at(0)).is_ok());
    assert!(limiter.check_and_record_at("m", 7, 30, at(0)).is_ok());
    limiter.report_actual_usage("m", 7, 500, true);
    let tokens: Vec<u32> = limiter.events("m").iter().map(|e| e.tokens).collect();
    let resolved: Vec<bool> = limiter.events("m").iter().map(|e| e.resolved).collect();
    assert_eq!(tokens, vec![10, 500, 30]);
    assert_eq!(resolved, vec![false, true, false]);
    limiter.report_actual_usage("m", 8, 1, true);
    assert_eq!(limiter.events("m").len(), 3);
}

#[test]
fn the_default_limits_hold() {
    let mut limiter = new_limiter();
    for (model, tpm, rpm) in [
        ("gpt-4o", 30000u32, 20u32),
        ("gpt-4o-mini", 150000, 100),
        ("sonnet", 40000, 25),
    ] {
        assert!(limiter.check_and_record_at(model, 0, tpm + 1, at(0)).is_err());
        assert!(limiter.check_and_record_at(model, 0, tpm, at(0)).is_ok());
        for id in 1..rpm {
            assert!(limiter.check_and_record_at(model, id as u128, 0, at(0)).is_ok());
        }
        assert_eq!(
            limiter.check_and_record_at(model, 1_000, 0, at(0)),
            Err(format!(
                "RPM limit exceeded for model '{}'. Current: {}/min, Limit: {}/min",
                model, rpm, rpm
            ))
        );
    }
}

#[test]
fn settings_replace_the_defaults_where_they_read_as_numbers() {
    let settings = LimitSettings {
        gpt4o_tpm: Some("7".to_string()),
        gpt4o_rpm: Some("+1".to_string()),
        gpt4o_mini_tpm: Some("many".to_string()),
        gpt4o_mini_rpm: Some("2".to_string()),
        claude_sonnet_model: "sonnet".to_string(),
        claude_sonnet_tpm: Some("4294967296".to_string()),
        claude_sonnet_rpm: Some(" 3".to_string()),
    };
    let mut limiter = TokenRateLimiter::new(&settings);
    assert!(limiter.check_and_record_at("gpt-4o", 1, 8, at(0)).is_err());
    assert!(limiter.check_and_record_at("gpt-4o", 1, 7, at(0)).is_ok());
    assert!(limiter.check_and_record_at("gpt-4o", 2, 0, at(0)).unwrap_err().contains("RPM"));
    assert!(limiter.check_and_record_at("gpt-4o-mini", 1, 150001, at(0)).is_err());
    assert!(limiter.check_and_record_at("gpt-4o-mini", 1, 150000, at(0)).is_ok());
    assert!(limiter.check_and_record_at("gpt-4o-mini", 2, 0, at(0)).is_ok());
    assert!(limiter.check_and_record_at("gpt-4o-mini", 3, 0, at(0)).is_err());
    assert!(limiter.check_and_record_at("sonnet", 1, 40001, at(0)).is_err());
    for id in 0..25u128 {
        assert!(limiter.check_and_record_at("sonnet", id, 0, at(0)).is_ok());
    }
    assert!(limiter.check_and_record_at("sonnet", 99, 0, at(0)).is_err());
}

#[test]
fn a_lowered_limit_counts_at_once() {
    let mut limiter = new_limiter();
    limiter.set_limit("m".to_string(), 100, 10);
    assert!(limiter.check_and_record_at("m", 1, 50, at(0)).is_ok());
    limiter.set_limit("m".to_string(), 40, 10);
    assert!(limiter.check_and_record_at("m", 2, 0, at(0)).unwrap_err().contains("TPM"));
    limiter.set_limit("m".to_string(), 50, 10);
    assert!(limiter.check_and_record_at("m", 2, 0, at(0)).is_ok());
}

#[test]
fn a_name_used_twice_leaves_the_other_limits_alone() {
    let mut limiter = TokenRateLimiter::new(&LimitSettings::none("gpt-4o".to_string()));
    assert!(limiter.check_and_record_at("gpt-4o", 1, 30001, at(0)).is_err());
    assert!(limiter.check_and_record_at("gpt-4o", 1, 30000, at(0)).is_ok());
}
