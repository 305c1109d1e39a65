//! A token-bucket rate limiter whose clock is read by the caller.
use vstd::prelude::*;

verus! {

/// Up to `capacity` tokens, refilled at `tokens_per_sec` per whole second.
pub struct RateLimiter {
    tokens: i64,
    /// Whole seconds since creation at the last refill.
    last_refilled_at: u64,
    capacity: i64,
    tokens_per_sec: i64,
}

impl RateLimiter {
    /// The bucket never holds more tokens than its capacity.
    #[verifier::type_invariant]
    spec fn within_capacity(&self) -> bool {
        self.tokens <= self.capacity
    }

    pub closed spec fn tokens_left(&self) -> i64 {
        self.tokens
    }

    pub closed spec fn refilled_at(&self) -> u64 {
        self.last_refilled_at
    }

    pub closed spec fn cap(&self) -> i64 {
        self.capacity
    }

    pub closed spec fn rate(&self) -> i64 {
        self.tokens_per_sec
    }

    /// A full bucket.
    pub fn new(capacity: i64, tokens_per_sec: i64) -> (r: Self)
        ensures
            r.tokens_left() == capacity,
            r.refilled_at() == 0,
            r.cap() == capacity,
            r.rate() == tokens_per_sec,
            r.tokens_left() <= r.cap(),
    {
        RateLimiter { tokens: capacity, last_refilled_at: 0, capacity, tokens_per_sec }
    }

    /// The tokens after refilling for the seconds since the last refill,
    /// capped at the capacity.
    pub open spec fn refilled(&self, now: u64) -> i64 {
        if now > self.refilled_at() {
            let added = self.tokens_left().wrapping_add(((now - self.refilled_at()) * self.rate()) as i64);
            if added <= self.cap() { added } else { self.cap() }
        } else {
            self.tokens_left()
        }
    }

    /// A refill adds `rate` tokens per elapsed second but stops at the
    /// capacity: after a long enough idle spell the bucket is exactly full,
    /// and a shorter one adds exactly the tokens earned.
    pub proof fn lemma_refill(&self, now: u64)
        requires
            now > self.refilled_at(),
            self.rate() >= 0,
            (now - self.refilled_at()) * self.rate() <= i64::MAX,
            self.tokens_left() + (now - self.refilled_at()) * self.rate() <= i64::MAX,
        ensures
            self.refilled(now) == if self.tokens_left() + (now - self.refilled_at()) * self.rate()
                <= self.cap() {
                self.tokens_left() + (now - self.refilled_at()) * self.rate()
            } else {
                self.cap() as int
            },
    {
        let elapsed: int = now - self.refilled_at();
        let rate: int = self.rate() as int;
        assert(elapsed * rate >= 0) by (nonlinear_arith)
            requires
                elapsed > 0,
                rate >= 0,
        ;
        let earned = ((now - self.refilled_at()) * self.rate()) as i64;
        assert(earned == elapsed * rate);
        assert(self.tokens_left().wrapping_add(earned) == self.tokens_left() + elapsed * rate);
    }

    /// The second of the last refill.
    pub fn last_refill(&self) -> (r: u64)
        ensures
            r == self.refilled_at(),
    {
        self.last_refilled_at
    }

    /// Tokens added per elapsed second.
    pub fn tokens_per_sec(&self) -> (r: i64)
        ensures
            r == self.rate(),
    {
        self.tokens_per_sec
    }

    /// Refills for the seconds up to `now` (seconds since creation), then
    /// takes a token if one is left.
    pub fn try_acquire(&mut self, now: u64) -> (r: bool)
        requires
            now > old(self).refilled_at() ==> now - old(self).refilled_at() <= i64::MAX && i64::MIN <= (now
                - old(self).refilled_at()) * old(self).rate() <= i64::MAX,
        ensures
            final(self).cap() == old(self).cap(),
            final(self).rate() == old(self).rate(),
            final(self).refilled_at() == if now > old(self).refilled_at() { now } else { old(self).refilled_at() },
            r <==> old(self).refilled(now) > 0,
            final(self).tokens_left() == if r { old(self).refilled(now) - 1 } else { old(self).refilled(now) as int },
            final(self).tokens_left() <= final(self).cap(),
            old(self).refilled(now) <= old(self).cap(),
            r ==> final(self).tokens_left() < final(self).cap(),
    {
        proof {
            use_type_invariant(&*self);
        }
        let last = self.last_refilled_at;
        if now > last {
            self.last_refilled_at = now;
            let elapsed = (now - last) as i64;
            let added = self.tokens.wrapping_add(elapsed * self.tokens_per_sec);
            self.tokens = if added <= self.capacity { added } else { self.capacity };
        }
        if self.tokens <= 0 {
            return false;
        }
        self.tokens = self.tokens - 1;
        true
    }
}

} // verus!
