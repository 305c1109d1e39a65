//! Thread-safety helpers that need no threads of their own.
use vstd::prelude::*;

verus! {

/// The release channel, the same for every caller.
pub fn build_channel() -> (r: &'static str)
    ensures
        r@ == "stable"@,
{
    "stable"
}

/// Compiles only when `T` may be sent to and shared between threads.
pub fn assert_send_sync<T: Send + Sync>() {
}

} // verus!
