//! Binary search on a rotated sorted array, in O(log n).
use vstd::prelude::*;

verus! {

/// `s` is a strictly increasing sequence rotated so that it starts at its
/// `k`-th smallest element: `s[..k]` and `s[k..]` are strictly increasing and
/// every element of `s[k..]` is below every element of `s[..k]`.
pub open spec fn rotated_at(s: Seq<i32>, k: int) -> bool {
    &&& 0 <= k <= s.len()
    &&& forall|i: int, j: int| 0 <= i < j < k ==> #[trigger] s[i] < #[trigger] s[j]
    &&& forall|i: int, j: int| k <= i < j < s.len() ==> #[trigger] s[i] < #[trigger] s[j]
    &&& forall|i: int, j: int| 0 <= i < k <= j < s.len() ==> #[trigger] s[j] < #[trigger] s[i]
}

/// `s` is a rotation of a strictly increasing sequence.
pub open spec fn rotated_sorted(s: Seq<i32>) -> bool {
    exists|k: int| rotated_at(s, k)
}

/// Find `target` in `nums`. A returned index always holds `target`; when
/// `nums` is a rotated sorted array, `None` means `target` does not occur.
pub fn search_rotated(nums: &[i32], target: i32) -> (r: Option<usize>)
    ensures
        r matches Some(i) ==> i < nums@.len() && nums@[i as int] == target,
        r is None && rotated_sorted(nums@) ==> !nums@.contains(target),
{
    let ghost s = nums@;
    let mut low: usize = 0;
    let mut high: usize = nums.len();
    while low < high
        invariant
            s == nums@,
            low <= high <= s.len(),
            rotated_sorted(s) && s.contains(target) ==> exists|t: int|
                low <= t < high && #[trigger] s[t] == target,
        decreases high - low,
    {
        let mid = low + (high - low) / 2;
        if nums[mid] == target {
            return Some(mid);
        }
        let left_is_sorted = nums[low] <= nums[mid];
        let ghost old_low = low;
        let ghost old_high = high;
        if left_is_sorted {
            if nums[low] <= target && target < nums[mid] {
                high = mid;
            } else {
                low = mid + 1;
            }
        } else if nums[mid] < target && target <= nums[high - 1] {
            low = mid + 1;
        } else {
            high = mid;
        }
        proof {
            if rotated_sorted(s) && s.contains(target) {
                let k = choose|k: int| rotated_at(s, k);
                let t = choose|t: int| old_low <= t < old_high && #[trigger] s[t] == target;
                assert(s[t] == target);
                assert(s[mid as int] != target);
                assert(low <= t < high) by {
                    // Compare every position with `old_low`, `mid` and `old_high - 1`.
                    assert(s[old_low as int] == s[old_low as int]);
                    assert(s[(old_high - 1) as int] == s[(old_high - 1) as int]);
                }
            }
        }
    }
    None
}

} // verus!
