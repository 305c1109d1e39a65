//! A non-negative span of time with nanosecond resolution.
use vstd::prelude::*;

verus! {

/// The longest span: the largest whole number of seconds a `u64` holds plus
/// 999_999_999 nanoseconds, as for `std::time::Duration::MAX`.
pub open spec fn max_nanos() -> int {
    18_446_744_073_709_551_615int * 1_000_000_000 + 999_999_999
}

/// A span of time, counted in nanoseconds.
#[derive(Debug, Clone, Copy, PartialEq, Eq, Structural, PartialOrd, Ord, Hash)]
pub struct TimeSpan {
    nanos: u128,
}

impl TimeSpan {
    /// The length of the span in nanoseconds. (Every span is at most
    /// `max_nanos()` long; the cap here only makes that visible to proofs.)
    pub closed spec fn spec_nanos(self) -> int {
        if self.nanos <= max_nanos() {
            self.nanos as int
        } else {
            max_nanos()
        }
    }

    /// A span's length lies between zero and the longest span.
    pub proof fn lemma_bounds(self)
        ensures
            0 <= self.spec_nanos() <= max_nanos(),
    {
    }

    /// No span is longer than `max_nanos()`.
    #[verifier::type_invariant]
    spec fn wf(self) -> bool {
        self.nanos <= max_nanos()
    }

    pub fn zero() -> (r: Self)
        ensures
            r.spec_nanos() == 0,
    {
        TimeSpan { nanos: 0 }
    }

    pub fn from_millis(millis: u64) -> (r: Self)
        ensures
            r.spec_nanos() == millis * 1_000_000,
    {
        TimeSpan { nanos: millis as u128 * 1_000_000 }
    }

    pub fn from_secs(secs: u64) -> (r: Self)
        ensures
            r.spec_nanos() == secs * 1_000_000_000,
    {
        TimeSpan { nanos: secs as u128 * 1_000_000_000 }
    }

    /// `secs` seconds and `subsec_nanos` nanoseconds, as `Duration::new` takes them.
    pub fn from_secs_nanos(secs: u64, subsec_nanos: u32) -> (r: Self)
        requires
            subsec_nanos < 1_000_000_000,
        ensures
            r.spec_nanos() == secs * 1_000_000_000 + subsec_nanos,
    {
        TimeSpan { nanos: secs as u128 * 1_000_000_000 + subsec_nanos as u128 }
    }

    /// The span in whole nanoseconds.
    pub fn as_nanos(&self) -> (r: u128)
        ensures
            r == self.spec_nanos(),
            r <= max_nanos(),
    {
        proof {
            use_type_invariant(self);
        }
        self.nanos
    }

    /// The span in whole milliseconds, rounded down.
    pub fn as_millis(&self) -> (r: u128)
        ensures
            r == self.spec_nanos() / 1_000_000,
    {
        proof {
            use_type_invariant(self);
        }
        self.nanos / 1_000_000
    }

    /// `self * factor`, or the longest span where that would exceed it.
    pub fn saturating_mul(&self, factor: u32) -> (r: Self)
        ensures
            r.spec_nanos() == if self.spec_nanos() * factor <= max_nanos() {
                self.spec_nanos() * factor
            } else {
                max_nanos()
            },
    {
        proof {
            use_type_invariant(self);
        }
        let max: u128 = 18_446_744_073_709_551_615u128 * 1_000_000_000 + 999_999_999;
        if factor == 0 || self.nanos <= max / factor as u128 {
            proof {
                if factor > 0 {
                    assert(self.nanos * factor <= (max / factor as u128) * factor) by (nonlinear_arith)
                        requires
                            self.nanos <= max / factor as u128,
                            factor > 0,
                    ;
                    assert((max / factor as u128) * factor <= max) by (nonlinear_arith)
                        requires
                            factor > 0,
                    ;
                }
            }
            TimeSpan { nanos: self.nanos * factor as u128 }
        } else {
            proof {
                assert(self.nanos * factor > max) by (nonlinear_arith)
                    requires
                        self.nanos > max / factor as u128,
                        factor > 0,
                ;
            }
            TimeSpan { nanos: max }
        }
    }

    /// The shorter of the two spans.
    pub fn at_most(self, other: Self) -> (r: Self)
        ensures
            r.spec_nanos() == if self.spec_nanos() <= other.spec_nanos() {
                self.spec_nanos()
            } else {
                other.spec_nanos()
            },
    {
        proof {
            use_type_invariant(&self);
            use_type_invariant(&other);
        }
        if self.nanos <= other.nanos {
            self
        } else {
            other
        }
    }

    /// The longer of the two spans.
    pub fn at_least(self, other: Self) -> (r: Self)
        ensures
            r.spec_nanos() == if self.spec_nanos() >= other.spec_nanos() {
                self.spec_nanos()
            } else {
                other.spec_nanos()
            },
    {
        proof {
            use_type_invariant(&self);
            use_type_invariant(&other);
        }
        if self.nanos >= other.nanos {
            self
        } else {
            other
        }
    }
}

} // verus!
