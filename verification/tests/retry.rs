use rust_interview_lab::retry::{after_failure, should_give_up, Jitter, RetryPolicy, RetryStep, Retryable};
use rust_interview_lab::state_machine::ApiError;
use rust_interview_lab::time_span::TimeSpan;

fn policy(max_attempts: u32, jitter: Jitter) -> RetryPolicy {
    RetryPolicy::new(max_attempts, TimeSpan::from_millis(100), TimeSpan::from_millis(1_000), jitter)
}

#[test]
fn exponential_backoff_doubles_until_capped() {
    let policy = policy(6, Jitter::Disabled);
    assert_eq!(policy.exponential_delay(0), TimeSpan::from_millis(100));
    assert_eq!(policy.exponential_delay(1), TimeSpan::from_millis(200));
    assert_eq!(policy.exponential_delay(2), TimeSpan::from_millis(400));
    assert_eq!(policy.exponential_delay(3), TimeSpan::from_millis(800));
    assert_eq!(policy.exponential_delay(4), TimeSpan::from_millis(1_000));
    assert_eq!(policy.exponential_delay(50), TimeSpan::from_millis(1_000));
}

#[test]
fn retry_after_is_honored_as_a_floor() {
    let policy = policy(2, Jitter::Disabled);
    let error = ApiError::RateLimited { retry_after: TimeSpan::from_secs(5) };
    let backoff = policy.exponential_delay(0);
    let step = after_failure(&policy, 0, error.is_retryable(), Retryable::retry_after(&error), backoff);
    assert_eq!(step, RetryStep::Wait(TimeSpan::from_secs(5)));
}

#[test]
fn gives_up_when_exhausted_or_not_retryable() {
    let policy = policy(3, Jitter::Full);
    let backoff = TimeSpan::from_millis(100);
    assert_eq!(after_failure(&policy, 0, false, None, backoff), RetryStep::GiveUp);
    assert_eq!(after_failure(&policy, 2, true, None, backoff), RetryStep::GiveUp);
    assert_eq!(after_failure(&policy, 1, true, None, backoff), RetryStep::Wait(backoff));
    assert_eq!(
        after_failure(&policy, 1, true, Some(TimeSpan::from_millis(10)), backoff),
        RetryStep::Wait(backoff)
    );
}

#[test]
fn huge_base_delays_saturate_instead_of_overflowing() {
    let policy = RetryPolicy::new(1, TimeSpan::from_secs(u64::MAX), TimeSpan::from_secs(u64::MAX), Jitter::Disabled);
    assert_eq!(policy.exponential_delay(31).as_nanos(), u64::MAX as u128 * 1_000_000_000);
    assert_eq!(Retryable::retry_after(&ApiError::Unauthorized), None);
}

#[test]
fn backoff_keeps_doubling_past_thirty_one_attempts() {
    let policy = RetryPolicy::new(
        3,
        TimeSpan::from_millis(1),
        TimeSpan::from_secs(10_000_000_000),
        Jitter::Disabled,
    );
    assert_eq!(policy.exponential_delay(40), TimeSpan::from_millis(1u64 << 40));
    assert_eq!(policy.exponential_delay(31), TimeSpan::from_millis(1u64 << 31));
    let zero = RetryPolicy::new(3, TimeSpan::zero(), TimeSpan::from_secs(1), Jitter::Disabled);
    assert_eq!(zero.exponential_delay(u32::MAX), TimeSpan::zero());
}

#[test]
fn giving_up_depends_on_attempts_and_retryability() {
    let policy = policy(3, Jitter::Disabled);
    assert!(!should_give_up(&policy, 0, true));
    assert!(!should_give_up(&policy, 1, true));
    assert!(should_give_up(&policy, 2, true));
    assert!(should_give_up(&policy, 0, false));
}
