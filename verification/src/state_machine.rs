//! The lifecycle of a GPU workload as an enum state machine, and typed API errors.
use vstd::prelude::*;
use crate::adt_idioms::{debug_rendering, debug_str};
use crate::text::{chars_of, decimal, decimal_string, parse_u32, parse_u32_exec, trim, trim_bounds};
use crate::time_span::TimeSpan;

verus! {

/// Lifecycle of a GPU cloud workload exposed through an SDK.
#[derive(Debug, Clone, Copy, PartialEq, Eq, Structural)]
pub enum WorkloadState {
    Pending,
    Provisioning,
    Running,
    Terminating,
    Terminated,
    Failed,
}

/// The transitions the lifecycle allows: forward steps, failure from any live
/// state, and retries out of `Failed`.
pub open spec fn allowed(from: WorkloadState, to: WorkloadState) -> bool {
    match (from, to) {
        (WorkloadState::Pending, WorkloadState::Provisioning) => true,
        (WorkloadState::Pending, WorkloadState::Failed) => true,
        (WorkloadState::Provisioning, WorkloadState::Running) => true,
        (WorkloadState::Provisioning, WorkloadState::Failed) => true,
        (WorkloadState::Running, WorkloadState::Terminating) => true,
        (WorkloadState::Running, WorkloadState::Failed) => true,
        (WorkloadState::Terminating, WorkloadState::Terminated) => true,
        (WorkloadState::Terminating, WorkloadState::Failed) => true,
        (WorkloadState::Failed, WorkloadState::Pending) => true,
        (WorkloadState::Failed, WorkloadState::Provisioning) => true,
        _ => false,
    }
}

/// The position of a state on the forward lifecycle
/// `Pending -> Provisioning -> Running -> Terminating -> Terminated`.
pub open spec fn stage(s: WorkloadState) -> int {
    match s {
        WorkloadState::Pending => 0,
        WorkloadState::Provisioning => 1,
        WorkloadState::Running => 2,
        WorkloadState::Terminating => 3,
        WorkloadState::Terminated => 4,
        WorkloadState::Failed => -1,
    }
}

/// The lifecycle's rules: between states of the forward lifecycle exactly the
/// step to the next stage is allowed (no skipping, no going back, no staying);
/// every live state may fail; a terminated workload goes nowhere; a failed
/// one may only be retried, from `Pending` or `Provisioning`.
pub proof fn lemma_lifecycle(from: WorkloadState, to: WorkloadState)
    ensures
        from != WorkloadState::Failed && to != WorkloadState::Failed ==> (allowed(from, to) <==> stage(to)
            == stage(from) + 1),
        from != WorkloadState::Failed && from != WorkloadState::Terminated ==> allowed(
            from,
            WorkloadState::Failed,
        ),
        from == WorkloadState::Terminated ==> !allowed(from, to),
        from == WorkloadState::Failed ==> (allowed(from, to) <==> (to == WorkloadState::Pending || to
            == WorkloadState::Provisioning)),
{
}

/// The name of a state, as its `Debug` rendering spells it.
pub open spec fn state_name(s: WorkloadState) -> Seq<char> {
    match s {
        WorkloadState::Pending => "Pending"@,
        WorkloadState::Provisioning => "Provisioning"@,
        WorkloadState::Running => "Running"@,
        WorkloadState::Terminating => "Terminating"@,
        WorkloadState::Terminated => "Terminated"@,
        WorkloadState::Failed => "Failed"@,
    }
}

impl WorkloadState {
    /// The variant's name.
    pub fn name(self) -> (r: &'static str)
        ensures
            r@ == state_name(self),
    {
        match self {
            WorkloadState::Pending => "Pending",
            WorkloadState::Provisioning => "Provisioning",
            WorkloadState::Running => "Running",
            WorkloadState::Terminating => "Terminating",
            WorkloadState::Terminated => "Terminated",
            WorkloadState::Failed => "Failed",
        }
    }

    /// `Ok(())` for an allowed transition, otherwise the reason it is refused.
    pub fn can_transition_to(self, next: Self) -> (r: Result<(), String>)
        ensures
            r is Ok <==> allowed(self, next),
            self != WorkloadState::Failed && next != WorkloadState::Failed ==> (r is Ok <==> stage(next)
                == stage(self) + 1),
            self != WorkloadState::Failed && self != WorkloadState::Terminated && next == WorkloadState::Failed
                ==> r is Ok,
            self == WorkloadState::Terminated ==> r is Err,
            self == WorkloadState::Failed ==> (r is Ok <==> (next == WorkloadState::Pending || next
                == WorkloadState::Provisioning)),
            r matches Err(msg) ==> msg@ == "cannot transition from "@ + state_name(self) + " to "@ + state_name(
                next,
            ),
    {
        let ok = match (self, next) {
            (WorkloadState::Pending, WorkloadState::Provisioning)
            | (WorkloadState::Pending, WorkloadState::Failed)
            | (WorkloadState::Provisioning, WorkloadState::Running)
            | (WorkloadState::Provisioning, WorkloadState::Failed)
            | (WorkloadState::Running, WorkloadState::Terminating)
            | (WorkloadState::Running, WorkloadState::Failed)
            | (WorkloadState::Terminating, WorkloadState::Terminated)
            | (WorkloadState::Terminating, WorkloadState::Failed) => true,
            (WorkloadState::Failed, WorkloadState::Pending)
            | (WorkloadState::Failed, WorkloadState::Provisioning) => true,
            _ => false,
        };
        proof {
            lemma_lifecycle(self, next);
        }
        if ok {
            Ok(())
        } else {
            let mut msg = String::from_str("cannot transition from ");
            msg.append(self.name());
            msg.append(" to ");
            msg.append(next.name());
            Err(msg)
        }
    }

    /// `Terminated` and `Failed` end a run.
    pub fn is_terminal(self) -> (r: bool)
        ensures
            r <==> (self == WorkloadState::Terminated || self == WorkloadState::Failed),
    {
        match self {
            WorkloadState::Terminated | WorkloadState::Failed => true,
            _ => false,
        }
    }

    /// A one-line description for users.
    pub fn summary(self) -> (r: &'static str)
        ensures
            r@ == match self {
                WorkloadState::Pending => "workload accepted, waiting for scheduler"@,
                WorkloadState::Provisioning => "GPU resources being allocated"@,
                WorkloadState::Running => "workload is running"@,
                WorkloadState::Terminating => "cleanup in progress"@,
                WorkloadState::Terminated => "workload stopped and billing ended"@,
                WorkloadState::Failed => "workload failed; inspect logs"@,
            },
    {
        match self {
            WorkloadState::Pending => "workload accepted, waiting for scheduler",
            WorkloadState::Provisioning => "GPU resources being allocated",
            WorkloadState::Running => "workload is running",
            WorkloadState::Terminating => "cleanup in progress",
            WorkloadState::Terminated => "workload stopped and billing ended",
            WorkloadState::Failed => "workload failed; inspect logs",
        }
    }
}

/// An API error with the data each case needs.
#[derive(Debug, Clone, PartialEq, Eq)]
pub enum ApiError {
    InvalidRequest(String),
    Unauthorized,
    RateLimited { retry_after: TimeSpan },
    NotFound { resource_id: String },
    Server { status: u16, message: String },
}

impl ApiError {
    /// Rate limiting and 5xx server errors are worth retrying.
    pub fn is_retryable(&self) -> (r: bool)
        ensures
            r <==> match self {
                ApiError::RateLimited { .. } => true,
                ApiError::Server { status, .. } => 500 <= *status <= 599,
                _ => false,
            },
    {
        match self {
            ApiError::RateLimited { .. } => true,
            ApiError::Server { status, .. } => 500 <= *status && *status <= 599,
            _ => false,
        }
    }

    /// The message shown to users.
    pub fn user_message(&self) -> (s: String)
        ensures
            s@ == match self {
                ApiError::InvalidRequest(msg) => "invalid request: "@ + msg@,
                ApiError::Unauthorized => "authentication required or token expired"@,
                ApiError::RateLimited { retry_after } => "rate limited, retry in "@ + decimal(
                    (retry_after.spec_nanos() / 1_000_000) as nat,
                ) + "ms"@,
                ApiError::NotFound { resource_id } => "resource not found: "@ + resource_id@,
                ApiError::Server { status, message } => "server error "@ + decimal(*status as nat) + ": "@
                    + message@,
            },
    {
        match self {
            ApiError::InvalidRequest(msg) => {
                let mut s = String::from_str("invalid request: ");
                s.append(msg.as_str());
                s
            },
            ApiError::Unauthorized => String::from_str("authentication required or token expired"),
            ApiError::RateLimited { retry_after } => {
                let mut s = String::from_str("rate limited, retry in ");
                let n = decimal_string(retry_after.as_millis());
                s.append(n.as_str());
                s.append("ms");
                s
            },
            ApiError::NotFound { resource_id } => {
                let mut s = String::from_str("resource not found: ");
                s.append(resource_id.as_str());
                s
            },
            ApiError::Server { status, message } => {
                let mut s = String::from_str("server error ");
                let n = decimal_string(*status as u128);
                s.append(n.as_str());
                s.append(": ");
                s.append(message.as_str());
                s
            },
        }
    }
}

/// Parses a GPU count: surrounding whitespace is ignored, an empty field and a
/// field that is not a `u32` are refused with distinct messages.
pub fn parse_gpu_count(raw: &str) -> (r: Result<u32, ApiError>)
    ensures
        trim(raw@).len() == 0 ==> (r matches Err(ApiError::InvalidRequest(m)) && m@ == "gpuCount is empty"@),
        trim(raw@).len() > 0 ==> match parse_u32(trim(raw@)) {
            Some(n) => r == Ok::<u32, ApiError>(n),
            None => r matches Err(ApiError::InvalidRequest(m)) && m@ == "gpuCount must be a number, got "@
                + debug_rendering(raw@),
        },
{
    let v = chars_of(raw);
    let (from, to) = trim_bounds(&v, 0, v.len());
    proof {
        assert(v@.subrange(0, v@.len() as int) =~= raw@);
    }
    if from == to {
        Err(ApiError::InvalidRequest(String::from_str("gpuCount is empty")))
    } else {
        match parse_u32_exec(&v, from, to) {
            Some(n) => Ok(n),
            None => {
                let mut m = String::from_str("gpuCount must be a number, got ");
                let d = debug_str(raw);
                m.append(d.as_str());
                Err(ApiError::InvalidRequest(m))
            },
        }
    }
}

} // verus!
