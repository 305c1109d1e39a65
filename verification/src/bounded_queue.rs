//! The state of a bounded FIFO queue with backpressure and close.
//!
//! A producer may push only while the queue is open and below capacity, and a
//! consumer may pop only while an item is queued or the queue is closed; a
//! caller that shares the queue between threads waits for those conditions
//! under its lock before calling `push` or `pop`.
use vstd::prelude::*;
use std::collections::VecDeque;

verus! {

/// One pop from a queue holding `q`: the oldest item and the rest, or nothing
/// and `q` itself when it is empty.
pub open spec fn take_front<T>(q: Seq<T>) -> (Option<T>, Seq<T>) {
    if q.len() > 0 {
        (Some(q[0]), q.drop_first())
    } else {
        (None, q)
    }
}

/// What `n` successive pops from a queue holding `q` return, and what is left.
pub open spec fn drain<T>(q: Seq<T>, n: nat) -> (Seq<Option<T>>, Seq<T>)
    decreases n,
{
    if n == 0 {
        (Seq::empty(), q)
    } else {
        let (first, rest) = take_front(q);
        let (later, left) = drain(rest, (n - 1) as nat);
        (seq![first] + later, left)
    }
}

/// The contents after each item of `xs`, in order, was pushed onto an open
/// queue holding `q`.
pub open spec fn push_all<T>(q: Seq<T>, xs: Seq<T>) -> Seq<T>
    decreases xs.len(),
{
    if xs.len() == 0 {
        q
    } else {
        push_all(q, xs.drop_last()).push(xs.last())
    }
}

/// Pops from an empty queue return nothing and leave it empty.
proof fn lemma_drain_empty<T>(n: nat)
    ensures
        drain(Seq::<T>::empty(), n) == (Seq::new(n, |i: int| None::<T>), Seq::<T>::empty()),
    decreases n,
{
    if n > 0 {
        lemma_drain_empty::<T>((n - 1) as nat);
        assert(seq![None::<T>] + Seq::new((n - 1) as nat, |i: int| None::<T>) =~= Seq::new(n, |i: int| None::<T>));
    }
}

/// First in, first out: items pushed one by one onto an empty open queue are
/// queued in that order, and once it is closed, as many pops as there are
/// items return them in the order they were pushed, after which every pop
/// returns nothing.
pub proof fn lemma_fifo<T>(xs: Seq<T>, extra: nat)
    ensures
        push_all(Seq::empty(), xs) == xs,
        drain(xs, xs.len() + extra) == (
            xs.map_values(|x: T| Some(x)) + Seq::new(extra, |i: int| None::<T>),
            Seq::<T>::empty(),
        ),
    decreases xs.len(),
{
    if xs.len() == 0 {
        lemma_drain_empty::<T>(extra);
        assert(xs.map_values(|x: T| Some(x)) + Seq::new(extra, |i: int| None::<T>) =~= Seq::new(
            extra,
            |i: int| None::<T>,
        ));
        assert(xs =~= Seq::<T>::empty());
    } else {
        let rest = xs.drop_first();
        lemma_fifo(rest, extra);
        lemma_fifo(xs.drop_last(), extra);
        assert(xs.drop_last().push(xs.last()) =~= xs);
        assert(take_front(xs) == (Some(xs[0]), rest));
        assert(seq![Some(xs[0])] + (rest.map_values(|x: T| Some(x)) + Seq::new(extra, |i: int| None::<T>))
            =~= xs.map_values(|x: T| Some(x)) + Seq::new(extra, |i: int| None::<T>));
    }
}

/// A bounded FIFO queue that can be closed.
pub struct BoundedQueue<T> {
    items: VecDeque<T>,
    capacity: usize,
    closed: bool,
}

impl<T> BoundedQueue<T> {
    /// The queued items, oldest first.
    pub closed spec fn contents(&self) -> Seq<T> {
        self.items@
    }

    pub closed spec fn limit(&self) -> nat {
        self.capacity as nat
    }

    pub closed spec fn is_shut(&self) -> bool {
        self.closed
    }

    /// Never more items than the capacity, and a capacity of at least one.
    pub closed spec fn wf(&self) -> bool {
        0 < self.capacity && self.items@.len() <= self.capacity
    }

    /// An open, empty queue that holds at most `capacity` items.
    pub fn new(capacity: usize) -> (r: Self)
        requires
            capacity > 0,
        ensures
            r.contents() == Seq::<T>::empty(),
            r.wf(),
            r.limit() == capacity,
            !r.is_shut(),
    {
        BoundedQueue { items: VecDeque::with_capacity(capacity), capacity, closed: false }
    }

    /// Whether `push` may be called now: the queue is closed or has room.
    pub fn can_push(&self) -> (r: bool)
        ensures
            r <==> self.is_shut() || self.contents().len() < self.limit(),
    {
        self.closed || self.items.len() < self.capacity
    }

    /// Whether `pop` may be called now: an item is queued or the queue is closed.
    pub fn can_pop(&self) -> (r: bool)
        ensures
            r <==> self.is_shut() || self.contents().len() > 0,
    {
        self.closed || self.items.len() > 0
    }

    /// Appends `item`, or hands it back when the queue is closed.
    pub fn push(&mut self, item: T) -> (r: Result<(), T>)
        requires
            old(self).wf(),
            old(self).is_shut() || old(self).contents().len() < old(self).limit(),
        ensures
            final(self).wf(),
            final(self).limit() == old(self).limit(),
            final(self).is_shut() == old(self).is_shut(),
            old(self).is_shut() ==> r == Err::<(), T>(item) && final(self).contents() == old(self).contents(),
            !old(self).is_shut() ==> r is Ok && final(self).contents() == old(self).contents().push(item),
    {
        if self.closed {
            return Err(item);
        }
        self.items.push_back(item);
        Ok(())
    }

    /// Takes the oldest item; `None` once the queue is closed and drained.
    pub fn pop(&mut self) -> (r: Option<T>)
        requires
            old(self).wf(),
            old(self).is_shut() || old(self).contents().len() > 0,
        ensures
            final(self).wf(),
            final(self).limit() == old(self).limit(),
            final(self).is_shut() == old(self).is_shut(),
            (r, final(self).contents()) == take_front(old(self).contents()),
    {
        self.try_pop()
    }

    /// Takes the oldest item if there is one.
    pub fn try_pop(&mut self) -> (r: Option<T>)
        requires
            old(self).wf(),
        ensures
            final(self).wf(),
            final(self).limit() == old(self).limit(),
            final(self).is_shut() == old(self).is_shut(),
            (r, final(self).contents()) == take_front(old(self).contents()),
    {
        self.items.pop_front()
    }

    /// Closes the queue: later pushes fail and pops drain what is left.
    pub fn close(&mut self)
        requires
            old(self).wf(),
        ensures
            final(self).wf(),
            final(self).is_shut(),
            final(self).contents() == old(self).contents(),
            final(self).limit() == old(self).limit(),
    {
        self.closed = true;
    }

    pub fn is_closed(&self) -> (r: bool)
        ensures
            r == self.is_shut(),
    {
        self.closed
    }

    pub fn capacity(&self) -> (r: usize)
        ensures
            r == self.limit(),
    {
        self.capacity
    }

    pub fn len(&self) -> (r: usize)
        requires
            self.wf(),
        ensures
            r == self.contents().len(),
            r <= self.limit(),
    {
        self.items.len()
    }

    pub fn is_empty(&self) -> (r: bool)
        ensures
            r <==> self.contents().len() == 0,
    {
        self.items.len() == 0
    }
}

} // verus!
