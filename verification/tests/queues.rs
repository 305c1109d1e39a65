use rust_interview_lab::bounded_queue::BoundedQueue;
use rust_interview_lab::ring_buffer::SpscRing;
use std::sync::atomic::{AtomicUsize, Ordering};
use std::sync::Arc;

#[test]
fn push_after_close_returns_the_item() {
    let mut queue = BoundedQueue::new(1);
    queue.close();
    assert_eq!(queue.push("workload".to_string()), Err("workload".to_string()));
}

#[test]
fn bounded_queue_keeps_order_and_drains_after_close() {
    let mut queue = BoundedQueue::new(2);
    assert!(queue.can_push());
    assert!(!queue.can_pop());
    assert_eq!(queue.push(1), Ok(()));
    assert_eq!(queue.push(2), Ok(()));
    assert!(!queue.can_push());
    assert_eq!(queue.len(), 2);
    assert_eq!(queue.capacity(), 2);
    assert_eq!(queue.pop(), Some(1));
    queue.close();
    assert!(queue.is_closed());
    assert_eq!(queue.pop(), Some(2));
    assert!(queue.is_empty());
    assert!(queue.can_pop());
    assert_eq!(queue.pop(), None);
    assert_eq!(queue.try_pop(), None);
}

#[test]
fn is_fifo_within_capacity() {
    let mut ring = SpscRing::<u32, 4>::new();
    assert!(ring.push(1).is_ok());
    assert!(ring.push(2).is_ok());
    assert!(ring.push(3).is_ok());
    assert_eq!(ring.pop(), Some(1));
    assert_eq!(ring.pop(), Some(2));
    assert_eq!(ring.pop(), Some(3));
    assert_eq!(ring.pop(), None);
}

#[test]
fn full_ring_returns_the_value() {
    let mut ring = SpscRing::<u32, 2>::new();
    assert!(ring.push(1).is_ok());
    assert!(ring.push(2).is_ok());
    assert!(ring.is_full());
    assert_eq!(ring.push(3), Err(3));
}

#[test]
fn ring_wraps_around_many_times() {
    let mut ring = SpscRing::<u64, 3>::new();
    assert_eq!(ring.capacity(), 3);
    for round in 0..10u64 {
        assert!(ring.push(round).is_ok());
        assert!(ring.push(round + 100).is_ok());
        assert_eq!(ring.len(), 2);
        assert_eq!(ring.pop(), Some(round));
        assert_eq!(ring.pop(), Some(round + 100));
        assert!(ring.is_empty());
    }
}

struct Tracker(Arc<AtomicUsize>);

impl Drop for Tracker {
    fn drop(&mut self) {
        self.0.fetch_add(1, Ordering::SeqCst);
    }
}

#[test]
fn dropped_ring_drops_queued_items() {
    let dropped = Arc::new(AtomicUsize::new(0));
    {
        let mut ring = SpscRing::<Tracker, 4>::new();
        assert!(ring.push(Tracker(Arc::clone(&dropped))).is_ok());
        assert!(ring.push(Tracker(Arc::clone(&dropped))).is_ok());
        assert!(ring.push(Tracker(Arc::clone(&dropped))).is_ok());
    }
    assert_eq!(dropped.load(Ordering::SeqCst), 3);
}
