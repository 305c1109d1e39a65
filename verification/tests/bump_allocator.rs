use rust_interview_lab::bump_allocator::BumpArena;

#[test]
fn allocations_are_aligned() {
    let mut arena = BumpArena::with_capacity(64);
    let first = arena.allocate(1, 8).expect("fits");
    assert_eq!(first.as_ptr() as usize % 8, 0);
    assert_eq!(first.len(), 1);
    let second = arena.allocate(4, 16).expect("fits");
    assert_eq!(second.as_ptr() as usize % 16, 0);
    assert_eq!(arena.used(), 20);
    assert_eq!(arena.remaining(), 44);
}

#[test]
fn exhaustion_returns_none_and_keeps_state() {
    let mut arena = BumpArena::with_capacity(16);
    assert!(arena.allocate(16, 1).is_some());
    let used_before = arena.used();
    assert!(arena.allocate(1, 1).is_none());
    assert_eq!(arena.used(), used_before, "a failed alloc must not advance");
}

#[test]
fn reset_reclaims_everything() {
    let mut arena = BumpArena::with_capacity(32);
    assert!(arena.allocate(20, 4).is_some());
    assert_eq!(arena.remaining(), 12);
    arena.reset();
    assert_eq!(arena.used(), 0);
    assert_eq!(arena.remaining(), arena.capacity());
    assert!(arena.allocate(32, 1).is_some());
}

#[test]
fn zero_sized_allocation_is_allowed() {
    let mut arena = BumpArena::with_capacity(8);
    let empty = arena.allocate(0, 8).expect("fits");
    assert!(empty.is_empty());
    assert_eq!(arena.used(), 0);
}

#[test]
fn writes_are_isolated_between_allocations() {
    let mut arena = BumpArena::with_capacity(16);
    arena.allocate(4, 4).expect("fits").copy_from_slice(&[1, 2, 3, 4]);
    let second = arena.allocate(4, 4).expect("fits");
    assert!(second.iter().all(|&byte| byte == 0));
    second.copy_from_slice(&[9, 9, 9, 9]);
    let view = arena.as_slice();
    assert_eq!(&view[0..4], &[1, 2, 3, 4]);
    assert_eq!(&view[4..8], &[9, 9, 9, 9]);
}

#[test]
fn alignment_padding_counts_as_used() {
    let mut arena = BumpArena::with_capacity(10);
    assert!(arena.allocate(3, 1).is_some());
    assert!(arena.allocate(1, 4).is_some());
    assert_eq!(arena.used(), 5);
    assert!(arena.allocate(6, 2).is_none());
    assert_eq!(arena.used(), 5);
    assert!(arena.allocate(usize::MAX, 1).is_none());
}
