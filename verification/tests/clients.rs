use rust_interview_lab::api_client::{grow_delay, is_retry_status, on_response, Reply};
use rust_interview_lab::time_span::TimeSpan;
use rust_interview_lab::token_bucket::RateLimiter;

#[test]
fn replies_are_accepted_retried_or_failed() {
    let delay = TimeSpan::from_millis(100);
    assert_eq!(on_response(201, 1, 3, delay), Reply::Accept);
    assert_eq!(on_response(503, 1, 3, delay), Reply::Retry(delay));
    assert_eq!(on_response(503, 3, 3, delay), Reply::Fail);
    assert_eq!(on_response(404, 1, 3, delay), Reply::Fail);
    assert!(is_retry_status(429) && !is_retry_status(400));
}

#[test]
fn delays_double_up_to_the_cap() {
    let cap = TimeSpan::from_secs(5);
    assert_eq!(grow_delay(TimeSpan::from_millis(100), cap).as_millis(), 200);
    assert_eq!(grow_delay(TimeSpan::from_millis(3_000), cap).as_millis(), 5_000);
}

#[test]
fn rate_limiter_refills_once_per_second() {
    let mut limiter = RateLimiter::new(5, 5);
    for _ in 0..5 {
        assert!(limiter.try_acquire(0));
    }
    assert!(!limiter.try_acquire(0));
    assert!(limiter.try_acquire(1));
    assert_eq!(limiter.last_refill(), 1);
    assert_eq!(limiter.tokens_per_sec(), 5);
    for _ in 0..4 {
        assert!(limiter.try_acquire(1));
    }
    assert!(!limiter.try_acquire(1));
}

#[test]
fn time_spans_convert_and_saturate() {
    assert_eq!(TimeSpan::from_secs_nanos(1, 5).as_nanos(), 1_000_000_005);
    assert_eq!(TimeSpan::from_secs(2).as_millis(), 2_000);
    assert_eq!(TimeSpan::from_millis(3).saturating_mul(4).as_millis(), 12);
    assert_eq!(TimeSpan::from_millis(3).at_most(TimeSpan::from_millis(2)).as_millis(), 2);
    assert_eq!(TimeSpan::from_millis(3).at_least(TimeSpan::from_millis(2)).as_millis(), 3);
    assert_eq!(TimeSpan::zero().as_nanos(), 0);
}
