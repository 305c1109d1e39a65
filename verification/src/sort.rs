//! Sorting through the standard library, with the order each caller needs.
use vstd::prelude::*;
use vstd::relations::{sorted_by, total_ordering};

verus! {

/// `<=` on `i32`.
pub open spec fn le_i32() -> spec_fn(i32, i32) -> bool {
    |a: i32, b: i32| a <= b
}

/// `s` in ascending order.
pub open spec fn ascending(s: Seq<i32>) -> Seq<i32> {
    s.sort_by(le_i32())
}

/// Trusted: `slice::sort_unstable` sorts the slice in ascending order; the
/// result is a permutation of its input.
#[verifier::external_body]
fn sort_unstable_i32(v: &mut Vec<i32>)
    ensures
        final(v)@.to_multiset() == old(v)@.to_multiset(),
        sorted_by(final(v)@, le_i32()),
{
    v.sort_unstable();
}

/// Every element is at most every later one.
pub open spec fn nondecreasing(s: Seq<i32>) -> bool {
    forall|i: int, j: int| 0 <= i <= j < s.len() ==> #[trigger] s[i] <= #[trigger] s[j]
}

/// Sort `v` in ascending order.
pub fn sort_i32(v: &mut Vec<i32>)
    ensures
        final(v)@ == ascending(old(v)@),
        nondecreasing(final(v)@),
{
    let ghost before = v@;
    sort_unstable_i32(v);
    proof {
        assert(total_ordering(le_i32()));
        before.lemma_sort_by_ensures(le_i32());
        vstd::seq_lib::lemma_sorted_unique(v@, before.sort_by(le_i32()), le_i32());
        assert forall|i: int, j: int| 0 <= i <= j < v@.len() implies #[trigger] v@[i] <= #[trigger] v@[j] by {
            if i < j {
                assert(le_i32()(v@[i], v@[j]));
            }
        }
    }
}

/// Order pairs by their first component.
pub open spec fn le_first() -> spec_fn((i32, i32), (i32, i32)) -> bool {
    |a: (i32, i32), b: (i32, i32)| a.0 <= b.0
}

/// Trusted: `slice::sort_unstable_by_key` with the first component as key sorts
/// the pairs by that key; the result is a permutation of its input.
#[verifier::external_body]
pub(crate) fn sort_by_first(v: &mut Vec<(i32, i32)>)
    ensures
        final(v)@.to_multiset() == old(v)@.to_multiset(),
        sorted_by(final(v)@, le_first()),
{
    v.sort_unstable_by_key(|pair| pair.0);
}

} // verus!
