use statelink::rate_limit::{RateLimitConfig, RateLimiter, TokenBucketRateLimiter};

#[test]
fn test_rate_limiter_basic() {
    let config = RateLimitConfig::new().with_max_messages(10).with_max_bytes(1000);

    let mut limiter = RateLimiter::new(config);

    for _ in 0..10 {
        assert!(limiter.check_and_record(50).is_ok());
    }

    assert!(limiter.check_and_record(50).is_err());
}

#[test]
fn test_rate_limiter_byte_limit() {
    let config = RateLimitConfig::new().with_max_messages(100).with_max_bytes(500);

    let mut limiter = RateLimiter::new(config);

    assert!(limiter.check_and_record(300).is_ok());
    assert!(limiter.check_and_record(300).is_err());
}

#[test]
fn test_rate_limiter_burst() {
    let config = RateLimitConfig::new().with_max_messages(1000).with_burst_size(5);

    let mut limiter = RateLimiter::new(config);

    for _ in 0..5 {
        assert!(limiter.check_and_record(100).is_ok());
    }

    assert!(limiter.check_and_record(100).is_err());
}

#[test]
fn test_rate_limiter_stats() {
    let config = RateLimitConfig::new().with_max_messages(5);
    let mut limiter = RateLimiter::new(config);

    for _ in 0..3 {
        let _ = limiter.check_and_record(100);
    }

    for _ in 0..3 {
        let _ = limiter.check_and_record(100);
    }

    let stats = limiter.get_stats();
    assert_eq!(stats.total_messages, 5);
    assert_eq!(stats.total_rejected, 1);
}

// The sliding-window boundary, on an explicit clock: ten messages of size 50
// fill the window, the eleventh is rejected, and after more than a second of
// silence a message is admitted again.
#[test]
fn test_rate_limiter_window_boundary() {
    let config = RateLimitConfig::new()
        .with_max_messages(10)
        .with_burst_size(100)
        .with_window_duration(1_000_000);
    let mut limiter = RateLimiter::new(config);

    let start: u64 = 10_000_000;
    for i in 0..10u64 {
        assert!(limiter.check_and_record_at(50, start + i).is_ok());
    }
    assert!(limiter.check_and_record_at(50, start + 10).is_err());

    let later = start + 10 + 1_000_001;
    assert!(limiter.check_and_record_at(50, later).is_ok());
}

// The lifetime counters move by exactly one per call, whether admitted or
// rejected.
#[test]
fn test_rate_limiter_counter_conservation() {
    let config = RateLimitConfig::new().with_max_messages(4).with_burst_size(2);
    let mut limiter = RateLimiter::new(config);

    for _ in 0..9 {
        let _ = limiter.check_and_record(10);
    }
    let stats = limiter.get_stats();
    assert_eq!(stats.total_messages + stats.total_rejected, 9);
}

// Token bucket on an explicit clock: capacity five drains in five calls, the
// sixth fails, and a tenth of a second refills one token at ten per second.
#[test]
fn test_token_bucket_refill() {
    let mut limiter = TokenBucketRateLimiter::new(5, 10);
    let start: u64 = 50_000_000;
    limiter.reset_at(start);

    for _ in 0..5 {
        assert!(limiter.check_and_consume_at(start).is_ok());
    }
    assert!(limiter.check_and_consume_at(start).is_err());

    assert!(limiter.check_and_consume_at(start + 100_000).is_ok());
    assert_eq!(limiter.get_available_tokens(), 0);
}

#[test]
fn test_token_bucket_counters() {
    let mut limiter = TokenBucketRateLimiter::new(2, 1);
    let start: u64 = 1_000_000;
    limiter.reset_at(start);

    assert!(limiter.check_and_consume_at(start).is_ok());
    assert!(limiter.check_and_consume_at(start).is_ok());
    assert!(limiter.check_and_consume_at(start).is_err());
    let (sent, rejected) = limiter.get_stats();
    assert_eq!(sent, 2);
    assert_eq!(rejected, 1);
}

// Rejected calls leave no record behind: after a rejection the window still
// admits once the old records expire.
#[test]
fn test_rejected_calls_not_recorded() {
    let config = RateLimitConfig::new()
        .with_max_messages(1)
        .with_burst_size(10)
        .with_window_duration(1_000_000);
    let mut limiter = RateLimiter::new(config);

    let start: u64 = 2_000_000;
    assert!(limiter.check_and_record_at(1, start).is_ok());
    assert!(limiter.check_and_record_at(1, start + 1).is_err());
    assert!(limiter.check_and_record_at(1, start + 2).is_err());
    // only the single admitted record occupies the window
    assert_eq!(limiter.get_stats().messages_in_window, 1);
    assert!(limiter.check_and_record_at(1, start + 1_000_001).is_ok());
}
