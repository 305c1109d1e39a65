use rust_interview_lab::drills::{
    keep_retrying, next_delay, parse_request_head, BlockingQueue, HashRing, Port, Route, Semaphore,
};
use rust_interview_lab::time_span::TimeSpan;

#[test]
fn drill_semaphore_counts_permits() {
    let mut semaphore = Semaphore::new(1);
    assert!(semaphore.try_acquire());
    assert!(!semaphore.try_acquire());
    semaphore.release();
    assert!(semaphore.try_acquire());
    assert_eq!(semaphore.available(), 0);
}

#[test]
fn drill_queue_drains_after_close_and_refuses_pushes() {
    let mut queue = BlockingQueue::new(1);
    assert!(queue.can_push());
    assert_eq!(queue.push(1), Ok(()));
    assert!(!queue.can_push());
    queue.close();
    assert!(queue.can_pop());
    assert_eq!(queue.pop(), Some(1));
    assert_eq!(queue.pop(), None);
    assert_eq!(queue.push(2), Err(2));
}

#[test]
fn drill_retry_decisions_and_backoff() {
    assert!(keep_retrying(1, 3, true));
    assert!(!keep_retrying(3, 3, true));
    assert!(!keep_retrying(1, 3, false));
    assert_eq!(next_delay(TimeSpan::from_millis(25)).as_millis(), 50);
    assert_eq!(next_delay(TimeSpan::from_millis(600)).as_millis(), 1_000);
}

#[test]
fn drill_ring_moves_keys_only_to_the_new_node() {
    let mut ring = HashRing::new();
    assert_eq!(ring.get("job-1"), None);
    ring.add("a", 64);
    ring.add("b", 64);
    let before = ring.get("job-1").map(str::to_string);
    ring.add("c", 64);
    let after = ring.get("job-1").map(str::to_string);
    assert!(after == before || after.as_deref() == Some("c"));
}

#[test]
fn drill_request_head_port_and_route() {
    let head = parse_request_head("GET /v1/gpu-workloads HTTP/1.1\r\nHost: api\r\n\r\n").expect("valid");
    assert_eq!((head.method.as_str(), head.target.as_str()), ("GET", "/v1/gpu-workloads"));
    assert_eq!(head.headers[0], ("host".to_string(), "api".to_string()));
    assert!(parse_request_head("GET / HTTP/2\r\n\r\n").is_none());

    assert_eq!(Port::new(8080).map(|port| port.get()), Ok(8080));
    assert_eq!(Port::new(0).map(|port| port.get()), Err("port must be non-zero"));
    assert!(matches!(Route::parse("/healthz"), Some(Route::Health)));
    assert!(matches!(Route::parse("/v1/gpu-workloads"), Some(Route::List)));
    assert!(matches!(Route::parse("/v1/gpu-workloads/wl-1"), Some(Route::ById(id)) if id == "wl-1"));
    assert!(Route::parse("/v2").is_none());
}
