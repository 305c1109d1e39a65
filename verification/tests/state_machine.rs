use rust_interview_lab::state_machine::{parse_gpu_count, ApiError, WorkloadState};
use rust_interview_lab::time_span::TimeSpan;

#[test]
fn state_machine_rejects_invalid_transitions() {
    assert!(WorkloadState::Pending.can_transition_to(WorkloadState::Provisioning).is_ok());
    assert!(WorkloadState::Running.can_transition_to(WorkloadState::Running).is_err());
    assert!(WorkloadState::Terminated.can_transition_to(WorkloadState::Running).is_err());
    assert!(WorkloadState::Terminating.is_terminal() == false);
    assert!(WorkloadState::Terminated.is_terminal());
}

#[test]
fn api_error_retry_policy() {
    let rate_limited = ApiError::RateLimited { retry_after: TimeSpan::from_millis(100) };
    let not_found = ApiError::NotFound { resource_id: "gpu-123".into() };
    let server = ApiError::Server { status: 503, message: "maintenance".into() };
    assert!(rate_limited.is_retryable());
    assert!(!not_found.is_retryable());
    assert!(server.is_retryable());
}

#[test]
fn parsing_returns_typed_errors() {
    assert_eq!(parse_gpu_count("4"), Ok(4));
    assert!(parse_gpu_count("").is_err());
    assert!(parse_gpu_count("abc").is_err());
}

#[test]
fn refused_transitions_name_both_states() {
    assert_eq!(
        WorkloadState::Running.can_transition_to(WorkloadState::Pending),
        Err("cannot transition from Running to Pending".to_string())
    );
    assert!(WorkloadState::Failed.can_transition_to(WorkloadState::Provisioning).is_ok());
    assert_eq!(WorkloadState::Provisioning.summary(), "GPU resources being allocated");
}

#[test]
fn user_messages_render_each_case() {
    assert_eq!(
        ApiError::RateLimited { retry_after: TimeSpan::from_secs(2) }.user_message(),
        "rate limited, retry in 2000ms"
    );
    assert_eq!(
        ApiError::Server { status: 502, message: "bad gateway".into() }.user_message(),
        "server error 502: bad gateway"
    );
    assert_eq!(ApiError::Unauthorized.user_message(), "authentication required or token expired");
    assert!(!ApiError::Server { status: 404, message: String::new() }.is_retryable());
}

#[test]
fn gpu_count_parsing_trims_and_explains() {
    assert_eq!(parse_gpu_count("  8 \n"), Ok(8));
    assert_eq!(parse_gpu_count("+3"), Ok(3));
    assert_eq!(parse_gpu_count("   "), Err(ApiError::InvalidRequest("gpuCount is empty".into())));
    assert_eq!(
        parse_gpu_count("x1"),
        Err(ApiError::InvalidRequest("gpuCount must be a number, got \"x1\"".into()))
    );
    assert!(parse_gpu_count("4294967296").is_err());
}
