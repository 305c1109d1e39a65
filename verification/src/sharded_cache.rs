//! How many shards a sharded cache is split into.
use vstd::prelude::*;
use vstd::arithmetic::power2::pow2;

verus! {

/// The shard count for a request: the least power of two that is at least
/// `requested` and at least one, so that a shard is picked by masking the
/// low bits of a hash with `count - 1`.
pub fn shard_count(requested: usize) -> (r: usize)
    requires
        requested <= usize::MAX / 2 + 1,
    ensures
        exists|k: nat| pow2(k) == r,
        r >= 1,
        r >= requested,
        r == 1 || r < 2 * requested,
{
    let mut count: usize = 1;
    let ghost mut k: nat = 0;
    proof {
        vstd::arithmetic::power2::lemma2_to64();
    }
    while count < requested
        invariant
            requested <= usize::MAX / 2 + 1,
            count >= 1,
            pow2(k) == count,
            count == 1 || count < 2 * requested,
        decreases usize::MAX - count,
    {
        proof {
            vstd::arithmetic::power2::lemma_pow2_unfold(k + 1);
            k = k + 1;
        }
        count = count * 2;
    }
    count
}

} // verus!
