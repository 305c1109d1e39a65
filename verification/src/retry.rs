//! Retry with capped exponential backoff that honours a server's `Retry-After`.
use vstd::prelude::*;
use vstd::arithmetic::power2::pow2;
use crate::state_machine::ApiError;
use crate::time_span::{max_nanos, TimeSpan};

verus! {

/// An error that knows whether retrying could help.
pub trait Retryable {
    /// `true` if the operation is worth retrying.
    fn is_retryable(&self) -> bool;

    /// A server-provided minimum delay, such as HTTP `Retry-After`.
    fn retry_after(&self) -> (r: Option<TimeSpan>)
        default_ensures
            r is None,
    {
        None
    }
}

impl Retryable for ApiError {
    fn is_retryable(&self) -> (r: bool)
        ensures
            r <==> match self {
                ApiError::RateLimited { .. } => true,
                ApiError::Server { status, .. } => 500 <= *status <= 599,
                _ => false,
            },
    {
        ApiError::is_retryable(self)
    }

    fn retry_after(&self) -> (r: Option<TimeSpan>)
        ensures
            r == match self {
                ApiError::RateLimited { retry_after } => Some(*retry_after),
                _ => None,
            },
    {
        match self {
            ApiError::RateLimited { retry_after } => Some(*retry_after),
            _ => None,
        }
    }
}

/// How randomness is applied to the backoff.
#[derive(Debug, Clone, Copy, PartialEq, Eq, Structural)]
pub enum Jitter {
    /// The delay is exactly the capped exponential backoff.
    Disabled,
    /// The delay is a random fraction of the capped backoff.
    Full,
}

/// Backoff configuration.
#[derive(Debug, Clone, Copy)]
pub struct RetryPolicy {
    /// Total attempts, including the first one; at least 1.
    pub max_attempts: u32,
    /// Delay before the first retry.
    pub base_delay: TimeSpan,
    /// Upper bound on a single delay.
    pub max_delay: TimeSpan,
    pub jitter: Jitter,
}

/// `base * 2^attempt`, saturated at the longest span.
pub open spec fn saturated_backoff(base: int, attempt: nat) -> int {
    let raw = base * pow2(attempt);
    if raw <= max_nanos() { raw } else { max_nanos() }
}

/// `min(base * 2^attempt, cap)`, where the product saturates at the longest span.
pub open spec fn backoff_nanos(base: int, cap: int, attempt: nat) -> int {
    let sat = saturated_backoff(base, attempt);
    if sat <= cap { sat } else { cap }
}

/// One more doubling of a saturated backoff is the saturated backoff of the next attempt.
proof fn lemma_backoff_step(base: int, i: nat)
    requires
        0 <= base <= max_nanos(),
    ensures
        ({
            let cur = saturated_backoff(base, i);
            let doubled = if cur * 2 <= max_nanos() { cur * 2 } else { max_nanos() };
            doubled == saturated_backoff(base, i + 1)
        }),
{
    vstd::arithmetic::power2::lemma_pow2_unfold(i + 1);
    assert(base * pow2(i + 1) == (base * pow2(i)) * 2) by (nonlinear_arith)
        requires
            pow2(i + 1) == 2 * pow2(i),
    ;
    vstd::arithmetic::power2::lemma_pow2_pos(i);
    assert(base * pow2(i) >= 0) by (nonlinear_arith)
        requires
            base >= 0,
            pow2(i) > 0,
    ;
}

/// The saturated backoff never shrinks as the attempt grows.
proof fn lemma_backoff_monotone(base: int, i: nat, j: nat)
    requires
        0 <= base,
        i <= j,
    ensures
        saturated_backoff(base, i) <= saturated_backoff(base, j),
{
    if i < j {
        vstd::arithmetic::power2::lemma_pow2_strictly_increases(i, j);
    }
    assert(base * pow2(i) <= base * pow2(j)) by (nonlinear_arith)
        requires
            0 <= base,
            pow2(i) <= pow2(j),
    ;
}

/// A zero saturated backoff comes only from a zero base.
proof fn lemma_backoff_zero(base: int, i: nat, j: nat)
    requires
        0 <= base,
        saturated_backoff(base, i) == 0,
    ensures
        saturated_backoff(base, j) == 0,
{
    vstd::arithmetic::power2::lemma_pow2_pos(i);
    vstd::arithmetic::power2::lemma_pow2_pos(j);
    assert(base == 0) by (nonlinear_arith)
        requires
            0 <= base,
            pow2(i) > 0,
            base * pow2(i) == 0,
    ;
    assert(base * pow2(j) == 0) by (nonlinear_arith)
        requires
            base == 0,
    ;
}

impl RetryPolicy {
    pub fn new(max_attempts: u32, base_delay: TimeSpan, max_delay: TimeSpan, jitter: Jitter) -> (r: Self)
        requires
            max_attempts > 0,
        ensures
            r.max_attempts == max_attempts,
            r.base_delay == base_delay,
            r.max_delay == max_delay,
            r.jitter == jitter,
    {
        RetryPolicy { max_attempts, base_delay, max_delay, jitter }
    }

    /// Capped exponential backoff for a zero-based retry attempt:
    /// `min(base * 2^attempt, max_delay)`.
    pub fn exponential_delay(&self, attempt: u32) -> (r: TimeSpan)
        ensures
            r.spec_nanos() == backoff_nanos(
                self.base_delay.spec_nanos(),
                self.max_delay.spec_nanos(),
                attempt as nat,
            ),
    {
        let base = self.base_delay;
        let cap = self.max_delay;
        let mut cur = base;
        let mut i: u32 = 0;
        proof {
            base.lemma_bounds();
            vstd::arithmetic::power2::lemma2_to64();
            assert(base.spec_nanos() * pow2(0) == base.spec_nanos());
        }
        while i < attempt && cur.as_nanos() != 0 && cur.as_nanos() < cap.as_nanos()
            invariant
                0 <= base.spec_nanos() <= max_nanos(),
                i <= attempt,
                cur.spec_nanos() == saturated_backoff(base.spec_nanos(), i as nat),
            decreases attempt - i,
        {
            proof {
                lemma_backoff_step(base.spec_nanos(), i as nat);
            }
            cur = cur.saturating_mul(2);
            i = i + 1;
        }
        proof {
            let b = base.spec_nanos();
            if cur.spec_nanos() == 0 {
                lemma_backoff_zero(b, i as nat, attempt as nat);
            } else if i < attempt {
                lemma_backoff_monotone(b, i as nat, attempt as nat);
            }
        }
        cur.at_most(cap)
    }
}

/// What the retry loop does after attempt number `attempt` (from zero) failed.
#[derive(Debug, Clone, Copy, PartialEq, Eq)]
pub enum RetryStep {
    /// Return the error to the caller.
    GiveUp,
    /// Sleep this long, then try again.
    Wait(TimeSpan),
}

/// Whether the retry loop stops after attempt number `attempt` (from zero)
/// failed: the attempts are used up, or the error is not worth retrying.
pub fn should_give_up(policy: &RetryPolicy, attempt: u32, retryable: bool) -> (r: bool)
    ensures
        r <==> (attempt + 1 >= policy.max_attempts || !retryable),
{
    attempt as u64 + 1 >= policy.max_attempts as u64 || !retryable
}

/// The decision after a failed attempt: give up once the attempts are used up
/// or the error is not worth retrying; otherwise wait for `backoff`, or for
/// the server's hint when that is longer.
pub fn after_failure(
    policy: &RetryPolicy,
    attempt: u32,
    retryable: bool,
    retry_after: Option<TimeSpan>,
    backoff: TimeSpan,
) -> (r: RetryStep)
    ensures
        r == RetryStep::GiveUp <==> (attempt + 1 >= policy.max_attempts || !retryable),
        r matches RetryStep::Wait(d) ==> d.spec_nanos() == match retry_after {
            Some(hint) => if hint.spec_nanos() >= backoff.spec_nanos() {
                hint.spec_nanos()
            } else {
                backoff.spec_nanos()
            },
            None => backoff.spec_nanos(),
        },
{
    if should_give_up(policy, attempt, retryable) {
        return RetryStep::GiveUp;
    }
    let delay = match retry_after {
        Some(hint) => hint.at_least(backoff),
        None => backoff,
    };
    RetryStep::Wait(delay)
}

} // verus!
