//! The state of a future that yields a fixed number of times before it completes.
use vstd::prelude::*;

verus! {

/// Yields `times` times, then completes with the number of yields.
pub struct YieldTimes {
    remaining: usize,
    yielded: usize,
}

impl YieldTimes {
    /// Polls still to answer with "pending".
    pub closed spec fn pending(&self) -> nat {
        self.remaining as nat
    }

    /// Polls answered with "pending" so far.
    pub closed spec fn count(&self) -> nat {
        self.yielded as nat
    }

    /// The two counters always add up to the number of yields asked for.
    pub closed spec fn wf(&self) -> bool {
        self.remaining + self.yielded <= usize::MAX
    }

    pub fn new(times: usize) -> (r: Self)
        ensures
            r.wf(),
            r.pending() == times,
            r.count() == 0,
    {
        YieldTimes { remaining: times, yielded: 0 }
    }

    /// One poll: `Some(yields)` once no yield is left, otherwise `None`
    /// after counting one more yield (the caller wakes itself and polls again).
    pub fn step(&mut self) -> (r: Option<usize>)
        requires
            old(self).wf(),
        ensures
            final(self).wf(),
            old(self).pending() == 0 ==> r == Some(old(self).count() as usize) && *final(self) == *old(self),
            old(self).pending() > 0 ==> r is None && final(self).pending() == old(self).pending() - 1
                && final(self).count() == old(self).count() + 1,
    {
        if self.remaining == 0 {
            return Some(self.yielded);
        }
        self.remaining = self.remaining - 1;
        self.yielded = self.yielded + 1;
        None
    }
}

} // verus!
