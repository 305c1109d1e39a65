//! The errors and the final report of a thread pool that survives panicking jobs.
use vstd::prelude::*;

verus! {

#[verifier::external_type_specification]
#[verifier::external_body]
pub struct ExIoError(std::io::Error);

/// Why the pool refused a request.
#[derive(Debug)]
pub enum PoolError {
    NoWorkers,
    /// Starting a worker thread failed with this error.
    Spawn(std::io::Error),
    ShutDown,
}

/// Trusted: the `Display` rendering of an I/O error, `format!("{}", error)`.
/// Nothing is stated of the text.
#[verifier::external_body]
fn io_error_text(error: &std::io::Error) -> String {
    format!("{}", error)
}

impl PoolError {
    /// The message for users; a spawn failure adds the error's own text.
    pub fn to_string(&self) -> (s: String)
        ensures
            match self {
                PoolError::NoWorkers => s@ == "a thread pool needs at least one worker"@,
                PoolError::Spawn(_) => s@.len() >= 33 && s@.take(33) == "failed to spawn a worker thread: "@,
                PoolError::ShutDown => s@ == "the thread pool has shut down"@,
            },
    {
        match self {
            PoolError::NoWorkers => String::from_str("a thread pool needs at least one worker"),
            PoolError::Spawn(error) => {
                let mut s = String::from_str("failed to spawn a worker thread: ");
                let text = io_error_text(error);
                s.append(text.as_str());
                proof {
                    reveal_strlit("failed to spawn a worker thread: ");
                    assert(s@.take(33) =~= "failed to spawn a worker thread: "@);
                }
                s
            },
            PoolError::ShutDown => String::from_str("the thread pool has shut down"),
        }
    }

    /// The error this one wraps: the I/O error of a spawn failure.
    pub fn source(&self) -> (r: Option<&std::io::Error>)
        ensures
            r is Some <==> self is Spawn,
    {
        match self {
            PoolError::Spawn(error) => Some(error),
            _ => None,
        }
    }
}

/// How many jobs finished and how many panicked.
#[derive(Debug, Clone, Copy, PartialEq, Eq, Structural)]
pub struct Report {
    pub completed: usize,
    pub panicked: usize,
}

/// The size check made before any worker starts.
pub fn check_size(size: usize) -> (r: Result<usize, PoolError>)
    ensures
        size == 0 ==> r matches Err(PoolError::NoWorkers),
        size > 0 ==> (r matches Ok(n) && n == size),
{
    if size == 0 {
        Err(PoolError::NoWorkers)
    } else {
        Ok(size)
    }
}

} // verus!
