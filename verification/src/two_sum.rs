//! Two sum: the first pair of positions whose values add up to a target, in one
//! pass with a hash map from value to its latest position.
use vstd::prelude::*;
use std::collections::HashMap;

verus! {

broadcast use vstd::std_specs::hash::group_hash_axioms;

/// Positions `i < j` of `nums` hold values that add up to `target`.
pub open spec fn pair_at(nums: Seq<i32>, target: i32, i: int, j: int) -> bool {
    0 <= i < j < nums.len() && nums[i] + nums[j] == target
}

/// The pair `(i, j)` of positions whose values add up to `target` with the
/// smallest `j`, and for that `j` the largest `i`; `None` if there is none.
pub fn two_sum(nums: &[i32], target: i32) -> (r: Option<(usize, usize)>)
    ensures
        match r {
            Some((i, j)) => {
                &&& pair_at(nums@, target, i as int, j as int)
                &&& forall|a: int, b: int| b < j && #[trigger] pair_at(nums@, target, a, b) ==> false
                &&& forall|a: int| i < a < j ==> !#[trigger] pair_at(nums@, target, a, j as int)
            },
            None => forall|a: int, b: int| !#[trigger] pair_at(nums@, target, a, b),
        },
{
    let mut seen: HashMap<i32, usize> = HashMap::with_capacity(nums.len());
    let mut idx: usize = 0;
    while idx < nums.len()
        invariant
            idx <= nums@.len(),
            forall|v: i32| #[trigger] seen@.contains_key(v) <==> exists|k: int| 0 <= k < idx && nums@[k] == v,
            forall|v: i32|
                #[trigger] seen@.contains_key(v) ==> seen@[v] < idx && nums@[seen@[v] as int] == v
                    && forall|k: int| seen@[v] < k < idx ==> nums@[k] != v,
            forall|a: int, b: int| b < idx ==> !#[trigger] pair_at(nums@, target, a, b),
        decreases nums@.len() - idx,
    {
        let num = nums[idx];
        let want = target as i64 - num as i64;
        if i32::MIN as i64 <= want && want <= i32::MAX as i64 {
            let key = want as i32;
            match seen.get(&key) {
                Some(prev) => {
                    let p = *prev;
                    proof {
                        assert(seen@.contains_key(key));
                        assert(pair_at(nums@, target, p as int, idx as int));
                    }
                    return Some((p, idx));
                },
                None => {
                    proof {
                        assert forall|a: int| 0 <= a < idx implies !pair_at(nums@, target, a, idx as int) by {
                            if nums@[a] == key {
                                assert(seen@.contains_key(key));
                            }
                        }
                    }
                },
            }
        }
        let ghost old_seen = seen@;
        seen.insert(num, idx);
        proof {
            assert forall|v: i32| #[trigger] seen@.contains_key(v) implies exists|k: int| 0 <= k < idx + 1 && nums@[k] == v by {
                if v != num {
                    assert(old_seen.contains_key(v));
                } else {
                    assert(nums@[idx as int] == v);
                }
            }
            assert forall|v: i32| (exists|k: int| 0 <= k < idx + 1 && nums@[k] == v) implies #[trigger] seen@.contains_key(v) by {
                if v != num {
                    let k = choose|k: int| 0 <= k < idx + 1 && nums@[k] == v;
                    assert(k < idx);
                    assert(old_seen.contains_key(v));
                }
            }
        }
        idx = idx + 1;
    }
    None
}

} // verus!
