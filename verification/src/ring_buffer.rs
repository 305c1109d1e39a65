//! A fixed-capacity FIFO ring buffer over `N` slots.
use vstd::prelude::*;

verus! {

/// A ring of `N` slots holding at most `N` queued items.
pub struct SpscRing<T, const N: usize> {
    slots: Vec<Option<T>>,
    /// Slot of the oldest item.
    head: usize,
    /// Number of queued items.
    count: usize,
}

impl<T, const N: usize> SpscRing<T, N> {
    /// The queued items, oldest first.
    pub closed spec fn items(&self) -> Seq<T> {
        Seq::new(self.count as nat, |i: int| self.slots@[(self.head + i) % (N as int)]->0)
    }

    pub closed spec fn wf(&self) -> bool {
        &&& N > 0
        &&& self.slots@.len() == N
        &&& self.head < N
        &&& self.count <= N
        &&& forall|i: int| 0 <= i < N ==> ((#[trigger] self.slots@[i]) is Some <==> (i - self.head + N) % (N as int)
            < self.count)
    }

    /// An empty ring.
    pub fn new() -> (r: Self)
        requires
            N > 0,
        ensures
            r.wf(),
            r.items() == Seq::<T>::empty(),
    {
        let mut slots: Vec<Option<T>> = Vec::new();
        let mut i: usize = 0;
        while i < N
            invariant
                i <= N,
                slots@.len() == i,
                forall|j: int| 0 <= j < i ==> (#[trigger] slots@[j]) is None,
            decreases N - i,
        {
            slots.push(None);
            i = i + 1;
        }
        let r = SpscRing { slots, head: 0, count: 0 };
        proof {
            assert forall|i: int| 0 <= i < N implies ((#[trigger] r.slots@[i]) is Some <==> (i - r.head + N) % (
            N as int) < r.count) by {
                lemma_ring_offset(0, i, N as int);
            }
            assert(r.items() =~= Seq::<T>::empty());
        }
        r
    }

    /// The maximum number of queued items.
    pub fn capacity(&self) -> (r: usize)
        ensures
            r == N,
    {
        N
    }

    pub fn len(&self) -> (r: usize)
        requires
            self.wf(),
        ensures
            r == self.items().len(),
    {
        self.count
    }

    pub fn is_empty(&self) -> (r: bool)
        requires
            self.wf(),
        ensures
            r <==> self.items().len() == 0,
    {
        self.count == 0
    }

    pub fn is_full(&self) -> (r: bool)
        requires
            self.wf(),
        ensures
            r <==> self.items().len() >= N,
    {
        self.count >= N
    }

    /// Appends `value`, or hands it back when the ring is full.
    pub fn push(&mut self, value: T) -> (r: Result<(), T>)
        requires
            old(self).wf(),
        ensures
            final(self).wf(),
            old(self).items().len() >= N ==> r == Err::<(), T>(value) && final(self).items() == old(self).items(),
            old(self).items().len() < N ==> r is Ok && final(self).items() == old(self).items().push(value),
    {
        if self.count >= N {
            return Err(value);
        }
        let index = if self.head < N - self.count { self.head + self.count } else { self.count - (N - self.head) };
        let ghost before = self.items();
        let ghost old_slots = self.slots@;
        proof {
            lemma_mod_once((self.head + self.count) as int, N as int);
        }
        self.slots.set(index, Some(value));
        self.count = self.count + 1;
        proof {
            lemma_ring_slots(self.head as int, N as int);
            assert(self.items() =~= before.push(value)) by {
                assert forall|i: int| 0 <= i < self.count implies #[trigger] self.items()[i] == before.push(value)[i] by {
                    if i < self.count - 1 {
                        lemma_ring_distinct(self.head as int, i, self.count - 1, N as int);
                    }
                }
            }
            assert forall|i: int| 0 <= i < N implies ((#[trigger] self.slots@[i]) is Some <==> (i - self.head + N)
                % (N as int) < self.count) by {
                lemma_ring_offset(self.head as int, i, N as int);
                lemma_ring_offset(self.head as int, index as int, N as int);
                if i != index {
                    assert(self.slots@[i] == old_slots[i]);
                }
            }
        }
        Ok(())
    }

    /// Takes the oldest item, or `None` when the ring is empty.
    pub fn pop(&mut self) -> (r: Option<T>)
        requires
            old(self).wf(),
        ensures
            final(self).wf(),
            old(self).items().len() == 0 ==> r is None && final(self).items() == old(self).items(),
            old(self).items().len() > 0 ==> r == Some(old(self).items()[0]) && final(self).items() == old(
                self,
            ).items().drop_first(),
    {
        if self.count == 0 {
            return None;
        }
        let ghost before = self.items();
        let ghost old_slots = self.slots@;
        let ghost old_head = self.head;
        proof {
            lemma_ring_offset(old_head as int, old_head as int, N as int);
            assert(old_slots[old_head as int] is Some);
        }
        let mut taken: Option<T> = None;
        self.slots.set_and_swap(self.head, &mut taken);
        proof {
            vstd::arithmetic::div_mod::lemma_small_mod(self.head as nat, N as nat);
            assert(before[0] == old_slots[self.head as int]->0);
        }
        self.head = if self.head + 1 == N { 0 } else { self.head + 1 };
        self.count = self.count - 1;
        proof {
            lemma_ring_slots(old_head as int, N as int);
            assert(self.items() =~= before.drop_first()) by {
                assert forall|i: int| 0 <= i < self.count implies #[trigger] self.items()[i] == before.drop_first()[i] by {
                    lemma_ring_next(old_head as int, i, N as int);
                    lemma_ring_distinct(old_head as int, 0, i + 1, N as int);
                }
            }
            assert forall|i: int| 0 <= i < N implies ((#[trigger] self.slots@[i]) is Some <==> (i - self.head + N)
                % (N as int) < self.count) by {
                lemma_ring_offset(old_head as int, i, N as int);
                lemma_ring_offset(self.head as int, i, N as int);
                if i != old_head {
                    assert(self.slots@[i] == old_slots[i]);
                    lemma_ring_step(old_head as int, self.head as int, i, N as int);
                }
            }
        }
        taken
    }
}

/// Reducing a number below `2n` modulo `n` subtracts `n` at most once.
proof fn lemma_mod_once(x: int, n: int)
    requires
        n > 0,
        0 <= x < 2 * n,
    ensures
        x % n == if x < n { x } else { x - n },
{
    if x < n {
        vstd::arithmetic::div_mod::lemma_small_mod(x as nat, n as nat);
    } else {
        vstd::arithmetic::div_mod::lemma_fundamental_div_mod_converse(x, n, 1, x - n);
    }
}

/// Offsets from `head` name each slot once.
proof fn lemma_ring_offset(head: int, i: int, n: int)
    requires
        0 <= head < n,
        0 <= i < n,
    ensures
        (i - head + n) % n == if i >= head { i - head } else { i - head + n },
        (head + (i - head + n) % n) % n == i,
{
    lemma_mod_once(i - head + n, n);
    lemma_mod_once(head + (i - head + n) % n, n);
}

/// Distinct offsets below `n` land in distinct slots.
proof fn lemma_ring_distinct(head: int, a: int, b: int, n: int)
    requires
        0 <= head < n,
        0 <= a < b < n,
    ensures
        (head + a) % n != (head + b) % n,
{
    lemma_mod_once(head + a, n);
    lemma_mod_once(head + b, n);
}

/// Slot positions of offsets from `head`.
proof fn lemma_ring_slots(head: int, n: int)
    requires
        0 <= head < n,
    ensures
        forall|a: int| 0 <= a < n ==> (#[trigger] ((head + a) % n)) == if head + a < n { head + a } else { head + a - n },
{
    assert forall|a: int| 0 <= a < n implies (#[trigger] ((head + a) % n)) == if head + a < n { head + a } else { head + a - n } by {
        lemma_mod_once(head + a, n);
    }
}

/// Moving the head one slot forward shifts every offset by one.
proof fn lemma_ring_next(head: int, i: int, n: int)
    requires
        0 <= head < n,
        0 <= i < n - 1,
    ensures
        ((if head + 1 == n { 0 } else { head + 1 }) + i) % n == (head + (i + 1)) % n,
{
    let h2 = if head + 1 == n { 0 } else { head + 1 };
    lemma_mod_once(h2 + i, n);
    lemma_mod_once(head + i + 1, n);
}

/// A slot other than the old head is at offset one less from the new head.
proof fn lemma_ring_step(old_head: int, new_head: int, i: int, n: int)
    requires
        0 <= old_head < n,
        new_head == if old_head + 1 == n { 0 } else { old_head + 1 },
        0 <= i < n,
        i != old_head,
    ensures
        (i - new_head + n) % n == (i - old_head + n) % n - 1,
{
    lemma_mod_once(i - old_head + n, n);
    lemma_mod_once(i - new_head + n, n);
}

} // verus!
