//! The decisions of an HTTP client call that retries transient failures.
use vstd::prelude::*;
use crate::time_span::TimeSpan;

verus! {

/// Statuses worth retrying: 429 and 500, 502, 503, 504.
pub open spec fn retry_status(status: u16) -> bool {
    status == 429 || status == 500 || status == 502 || status == 503 || status == 504
}

/// The statuses that signal a transient fault are retried: 429 Too Many
/// Requests, 500 Internal Server Error, 502 Bad Gateway, 503 Service
/// Unavailable and 504 Gateway Timeout. A success, a redirect, any other
/// client error, and the server errors that a retry cannot mend (501 Not
/// Implemented, 505 HTTP Version Not Supported and above) are not.
pub proof fn lemma_retry_statuses(status: u16)
    ensures
        status == 429 || status == 500 || status == 502 || status == 503 || status == 504
            ==> retry_status(status),
        status < 429 ==> !retry_status(status),
        430 <= status < 500 ==> !retry_status(status),
        status == 501 || status >= 505 ==> !retry_status(status),
{
}

pub fn is_retry_status(status: u16) -> (r: bool)
    ensures
        r == retry_status(status),
        status == 429 || status == 500 || status == 502 || status == 503 || status == 504 ==> r,
        status < 429 || (430 <= status < 500) || status == 501 || status >= 505 ==> !r,
{
    proof {
        lemma_retry_statuses(status);
    }
    status == 429 || status == 500 || status == 502 || status == 503 || status == 504
}

/// What the client does with a response.
#[derive(Debug, Clone, Copy, PartialEq, Eq)]
pub enum Reply {
    /// A 2xx status: cache the body and return it.
    Accept,
    /// Wait this long, then send the request again.
    Retry(TimeSpan),
    /// Return an error carrying the status and the attempt count.
    Fail,
}

/// The decision after attempt number `attempt` (from one) answered with
/// `status`, when the backoff before the next attempt would be `delay`.
pub fn on_response(status: u16, attempt: u32, max_attempts: u32, delay: TimeSpan) -> (r: Reply)
    ensures
        200 <= status <= 299 ==> r == Reply::Accept,
        !(200 <= status <= 299) && retry_status(status) && attempt < max_attempts ==> r == Reply::Retry(delay),
        !(200 <= status <= 299) && !(retry_status(status) && attempt < max_attempts) ==> r == Reply::Fail,
        (status == 429 || status == 500 || status == 502 || status == 503 || status == 504) && attempt
            < max_attempts ==> r == Reply::Retry(delay),
        (status < 200 || (300 <= status < 429) || (430 <= status < 500) || status == 501 || status >= 505)
            ==> r == Reply::Fail,
        attempt >= max_attempts && !(200 <= status <= 299) ==> r == Reply::Fail,
{
    proof {
        lemma_retry_statuses(status);
    }
    if 200 <= status && status <= 299 {
        Reply::Accept
    } else if is_retry_status(status) && attempt < max_attempts {
        Reply::Retry(delay)
    } else {
        Reply::Fail
    }
}

/// The backoff after `delay`: doubled, at most `max_delay`.
pub fn grow_delay(delay: TimeSpan, max_delay: TimeSpan) -> (r: TimeSpan)
    ensures
        r.spec_nanos() == if delay.spec_nanos() * 2 <= max_delay.spec_nanos() {
            delay.spec_nanos() * 2
        } else {
            max_delay.spec_nanos()
        },
{
    let cap = max_delay.as_nanos();
    if delay.as_nanos() <= cap / 2 {
        delay.saturating_mul(2)
    } else {
        max_delay
    }
}

} // verus!
