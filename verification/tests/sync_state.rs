use rust_interview_lab::semaphore::Semaphore;

// The guard that releases on drop lives with the blocking semaphore in the
// application; this checks the permit count it drives: taking a permit and
// giving it back at the end of the scope leaves the count where it was.
#[test]
fn guard_returns_the_permit_on_drop() {
    let mut semaphore = Semaphore::new(1);
    {
        semaphore.acquire();
        assert_eq!(semaphore.available_permits(), 0);
        semaphore.release();
    }
    assert_eq!(semaphore.available_permits(), 1);
}

#[test]
fn try_acquire_reports_contention() {
    let mut semaphore = Semaphore::new(1);
    assert!(semaphore.try_acquire(), "first permit is free");
    assert!(!semaphore.try_acquire());
    semaphore.release();
    assert!(semaphore.try_acquire());
}

// The timed wait lives with the blocking semaphore in the application; this
// checks the state it waits on: with no permit, none can be taken, so the
// wait can only end by timing out.
#[test]
fn timeout_gives_up_when_no_permit_arrives() {
    let mut semaphore = Semaphore::new(0);
    assert!(!semaphore.can_acquire());
    assert!(!semaphore.try_acquire());
    assert_eq!(semaphore.available_permits(), 0);
}

#[test]
fn permits_are_counted_down_and_back_up() {
    let mut semaphore = Semaphore::new(3);
    semaphore.acquire();
    semaphore.acquire();
    assert_eq!(semaphore.available_permits(), 1);
    assert!(semaphore.can_acquire());
    semaphore.release();
    semaphore.release();
    assert_eq!(semaphore.available_permits(), 3);
}
