//! The permit count of a counting semaphore.
//!
//! A caller that shares the semaphore between threads holds it under a lock,
//! waits until `can_acquire` before calling `acquire`, and gives each permit
//! back with `release`.
use vstd::prelude::*;

verus! {

/// The number of permits currently free.
pub struct Semaphore {
    available: usize,
}

impl Semaphore {
    pub closed spec fn free(&self) -> nat {
        self.available as nat
    }

    /// A semaphore with `permits` free permits.
    pub fn new(permits: usize) -> (r: Self)
        ensures
            r.free() == permits,
    {
        Semaphore { available: permits }
    }

    /// Whether `acquire` may be called now.
    pub fn can_acquire(&self) -> (r: bool)
        ensures
            r <==> self.free() > 0,
    {
        self.available > 0
    }

    /// Takes a permit; the caller has waited until one is free.
    pub fn acquire(&mut self)
        requires
            old(self).free() > 0,
        ensures
            final(self).free() == old(self).free() - 1,
    {
        self.available = self.available - 1;
    }

    /// Takes a permit only if one is free right now.
    pub fn try_acquire(&mut self) -> (r: bool)
        ensures
            r <==> old(self).free() > 0,
            r ==> final(self).free() == old(self).free() - 1,
            !r ==> final(self).free() == old(self).free(),
    {
        if self.available == 0 {
            false
        } else {
            self.available = self.available - 1;
            true
        }
    }

    /// Gives a permit back.
    pub fn release(&mut self)
        requires
            old(self).free() < usize::MAX,
        ensures
            final(self).free() == old(self).free() + 1,
    {
        self.available = self.available + 1;
    }

    /// Permits currently free.
    pub fn available_permits(&self) -> (r: usize)
        ensures
            r == self.free(),
    {
        self.available
    }
}

} // verus!
