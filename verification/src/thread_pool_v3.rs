//! The errors of a thread pool that refuses zero workers and work after shutdown.
use vstd::prelude::*;

verus! {

/// Why the pool refused a request.
#[derive(Debug, Clone, Copy, PartialEq, Eq, Structural)]
pub enum PoolError {
    NoWorkers,
    ShutDown,
}

impl PoolError {
    /// The message for users.
    pub fn to_string(&self) -> (s: String)
        ensures
            s@ == match self {
                PoolError::NoWorkers => "a thread pool needs at least one worker"@,
                PoolError::ShutDown => "the thread pool has shut down"@,
            },
    {
        match self {
            PoolError::NoWorkers => String::from_str("a thread pool needs at least one worker"),
            PoolError::ShutDown => String::from_str("the thread pool has shut down"),
        }
    }
}

/// The size check made before any worker starts.
pub fn check_size(size: usize) -> (r: Result<usize, PoolError>)
    ensures
        size == 0 ==> r == Err::<usize, PoolError>(PoolError::NoWorkers),
        size > 0 ==> r == Ok::<usize, PoolError>(size),
{
    if size == 0 {
        Err(PoolError::NoWorkers)
    } else {
        Ok(size)
    }
}

} // verus!
