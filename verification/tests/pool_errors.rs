use rust_interview_lab::thread_pool_v3;
use rust_interview_lab::thread_pool_v4;
use rust_interview_lab::threads::build_channel;
use std::io;

#[test]
fn errors_render_a_message() {
    assert_eq!(thread_pool_v3::PoolError::NoWorkers.to_string(), "a thread pool needs at least one worker");
    assert_eq!(thread_pool_v3::PoolError::ShutDown.to_string(), "the thread pool has shut down");
}

#[test]
fn spawn_errors_expose_their_source() {
    let error = thread_pool_v4::PoolError::Spawn(io::Error::other("no threads left"));
    assert!(error.to_string().contains("no threads left"));
    assert!(error.source().is_some());
    assert!(thread_pool_v4::PoolError::ShutDown.source().is_none());
}

#[test]
fn once_lock_initializes_a_single_value() {
    assert_eq!(build_channel(), "stable");
    assert_eq!(build_channel(), build_channel());
}

#[test]
fn pool_sizes_are_checked() {
    assert!(matches!(thread_pool_v3::check_size(0), Err(thread_pool_v3::PoolError::NoWorkers)));
    assert_eq!(thread_pool_v3::check_size(4), Ok(4));
    assert!(matches!(thread_pool_v4::check_size(0), Err(thread_pool_v4::PoolError::NoWorkers)));
    assert!(matches!(thread_pool_v4::check_size(2), Ok(2)));
    assert_eq!(
        thread_pool_v4::PoolError::Spawn(io::Error::other("x")).to_string(),
        "failed to spawn a worker thread: x"
    );
}
