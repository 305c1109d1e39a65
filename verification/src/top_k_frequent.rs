//! The `k` most frequent values, most frequent first.
use vstd::prelude::*;
use std::collections::HashMap;

verus! {

broadcast use vstd::std_specs::hash::group_hash_axioms;

/// How often `x` occurs in `s`.
pub open spec fn occurrences(s: Seq<i32>, x: i32) -> nat
    decreases s.len(),
{
    if s.len() == 0 {
        0
    } else {
        occurrences(s.drop_last(), x) + if s.last() == x { 1nat } else { 0nat }
    }
}

/// `a` comes before `b`: it occurs more often, or as often and is larger.
pub open spec fn outranks(s: Seq<i32>, a: i32, b: i32) -> bool {
    occurrences(s, a) > occurrences(s, b) || (occurrences(s, a) == occurrences(s, b) && a > b)
}

/// `r` lists the `k` top-ranked distinct values of `nums` (all of them when
/// there are fewer), best first.
pub open spec fn top_ranked(nums: Seq<i32>, k: nat, r: Seq<i32>) -> bool {
    let d = nums.to_set().len();
    &&& r.len() == if k <= d { k } else { d }
    &&& r.no_duplicates()
    &&& forall|i: int| 0 <= i < r.len() ==> nums.contains(#[trigger] r[i])
    &&& forall|i: int, j: int| 0 <= i < j < r.len() ==> outranks(nums, #[trigger] r[i], #[trigger] r[j])
    &&& forall|i: int, x: i32| 0 <= i < r.len() && nums.contains(x) && !r.contains(x) ==> #[trigger] outranks(nums, r[i], x)
}

/// The values of the pairs.
pub open spec fn values_of(pairs: Seq<(usize, i32)>) -> Seq<i32> {
    pairs.map_values(|p: (usize, i32)| p.1)
}

/// Counts each value and returns the distinct values, in first-seen order,
/// each with its count.
fn tally(nums: &[i32]) -> (pairs: Vec<(usize, i32)>)
    ensures
        values_of(pairs@).no_duplicates(),
        values_of(pairs@).to_set() == nums@.to_set(),
        forall|i: int| 0 <= i < pairs@.len() ==> (#[trigger] pairs@[i]).0 == occurrences(nums@, pairs@[i].1),
{
    let mut counts: HashMap<i32, usize> = HashMap::with_capacity(nums.len());
    let mut order: Vec<i32> = Vec::new();
    let mut idx: usize = 0;
    while idx < nums.len()
        invariant
            idx <= nums@.len(),
            forall|v: i32| #[trigger] counts@.contains_key(v) <==> nums@.take(idx as int).contains(v),
            forall|v: i32| #[trigger] counts@.contains_key(v) ==> counts@[v] == occurrences(nums@.take(idx as int), v),
            order@.no_duplicates(),
            order@.to_set() == nums@.take(idx as int).to_set(),
        decreases nums@.len() - idx,
    {
        let num = nums[idx];
        let ghost prefix = nums@.take(idx as int);
        let ghost next = nums@.take(idx + 1);
        proof {
            assert(next =~= prefix.push(num));
            assert(next.drop_last() =~= prefix);
            lemma_occurrences_le(prefix, num);
            prefix.lemma_push_to_set_commute(num);
        }
        let current: usize = match counts.get(&num) {
            Some(c) => *c,
            None => 0,
        };
        proof {
            if !counts@.contains_key(num) {
                lemma_occurrences_absent(prefix, num);
            }
        }
        let ghost old_counts = counts@;
        counts.insert(num, current + 1);
        if current == 0 {
            proof {
                if prefix.contains(num) {
                    lemma_occurrences_present(prefix, num);
                }
                assert(!order@.to_set().contains(num));
                order@.lemma_push_to_set_commute(num);
            }
            order.push(num);
            proof {
                assert(order@.no_duplicates()) by {
                    assert forall|a: int, b: int| 0 <= a < b < order@.len() implies order@[a] != order@[b] by {
                        if b == order@.len() - 1 {
                            assert(order@.drop_last()[a] == order@[a]);
                            assert(order@.drop_last().contains(order@[a]));
                            assert(order@.drop_last().to_set().contains(order@[a]));
                        }
                    }
                }
            }
        } else {
            proof {
                assert(counts@.contains_key(num) || old_counts.contains_key(num));
                assert(prefix.contains(num));
                assert(order@.to_set().contains(num));
                assert(prefix.to_set().insert(num) =~= prefix.to_set());
            }
        }
        proof {
            assert forall|v: i32| #[trigger] counts@.contains_key(v) <==> next.contains(v) by {
                assert(next.contains(v) <==> next.to_set().contains(v));
                assert(prefix.contains(v) <==> prefix.to_set().contains(v));
            }
        }
        idx = idx + 1;
    }
    proof {
        assert(nums@.take(idx as int) =~= nums@);
    }
    let mut pairs: Vec<(usize, i32)> = Vec::new();
    let mut i: usize = 0;
    while i < order.len()
        invariant
            idx == nums@.len(),
            i <= order@.len(),
            forall|v: i32| #[trigger] counts@.contains_key(v) <==> nums@.contains(v),
            forall|v: i32| #[trigger] counts@.contains_key(v) ==> counts@[v] == occurrences(nums@, v),
            order@.no_duplicates(),
            order@.to_set() == nums@.to_set(),
            values_of(pairs@) == order@.take(i as int),
            forall|j: int| 0 <= j < pairs@.len() ==> (#[trigger] pairs@[j]).0 == occurrences(nums@, pairs@[j].1),
        decreases order@.len() - i,
    {
        let v = order[i];
        proof {
            assert(order@.contains(v));
            assert(order@.to_set().contains(v));
            assert(nums@.to_set().contains(v));
            assert(counts@.contains_key(v));
        }
        let c: usize = match counts.get(&v) {
            Some(c) => *c,
            None => 0,
        };
        let ghost before = pairs@;
        pairs.push((c, v));
        proof {
            assert(values_of(pairs@) =~= values_of(before).push(v));
            assert(order@.take(i + 1) =~= order@.take(i as int).push(v));
        }
        i = i + 1;
    }
    proof {
        assert(order@.take(i as int) =~= order@);
    }
    pairs
}

proof fn lemma_occurrences_le(s: Seq<i32>, x: i32)
    ensures
        occurrences(s, x) <= s.len(),
    decreases s.len(),
{
    if s.len() > 0 {
        lemma_occurrences_le(s.drop_last(), x);
    }
}

proof fn lemma_occurrences_absent(s: Seq<i32>, x: i32)
    requires
        !s.contains(x),
    ensures
        occurrences(s, x) == 0,
    decreases s.len(),
{
    if s.len() > 0 {
        assert(!s.drop_last().contains(x)) by {
            if s.drop_last().contains(x) {
                let i = choose|i: int| 0 <= i < s.drop_last().len() && s.drop_last()[i] == x;
                assert(s[i] == x);
            }
        }
        lemma_occurrences_absent(s.drop_last(), x);
        assert(s[s.len() - 1] == s.last());
    }
}

proof fn lemma_occurrences_present(s: Seq<i32>, x: i32)
    requires
        s.contains(x),
    ensures
        occurrences(s, x) > 0,
    decreases s.len(),
{
    if s.last() != x {
        let i = choose|i: int| 0 <= i < s.len() && s[i] == x;
        assert(s.drop_last()[i] == x);
        lemma_occurrences_present(s.drop_last(), x);
    }
}

/// The `k` most frequent values of `nums`, most frequent first; values that
/// occur equally often come larger first.
pub fn top_k_frequent(nums: &[i32], k: usize) -> (r: Vec<i32>)
    ensures
        top_ranked(nums@, k as nat, r@),
{
    let mut pairs = tally(nums);
    let ghost d = nums@.to_set().len();
    proof {
        values_of(pairs@).unique_seq_to_set();
    }
    let mut result: Vec<i32> = Vec::new();
    proof {
        assert forall|x: i32| nums@.contains(x) <==> (values_of(pairs@).contains(x) || result@.contains(x)) by {
            assert(nums@.to_set().contains(x) <==> nums@.contains(x));
            assert(values_of(pairs@).to_set().contains(x) <==> values_of(pairs@).contains(x));
            assert(values_of(pairs@).to_set().contains(x) <==> nums@.to_set().contains(x));
            assert(!result@.contains(x));
        }
    }
    loop
        invariant
            d == nums@.to_set().len(),
            values_of(pairs@).no_duplicates(),
            result@.no_duplicates(),
            forall|i: int| 0 <= i < pairs@.len() ==> (#[trigger] pairs@[i]).0 == occurrences(nums@, pairs@[i].1),
            forall|x: i32| nums@.contains(x) <==> (values_of(pairs@).contains(x) || result@.contains(x)),
            forall|x: i32| !(values_of(pairs@).contains(x) && result@.contains(x)),
            result@.len() + pairs@.len() == d,
            result@.len() <= k,
            forall|i: int, j: int| 0 <= i < j < result@.len() ==> outranks(nums@, #[trigger] result@[i], #[trigger] result@[j]),
            forall|i: int, j: int| 0 <= i < result@.len() && 0 <= j < pairs@.len() ==> outranks(nums@, #[trigger] result@[i], #[trigger] pairs@[j].1),
        decreases pairs@.len(),
    {
        if result.len() >= k || pairs.len() == 0 {
            proof {
                assert forall|i: int| 0 <= i < result@.len() implies nums@.contains(#[trigger] result@[i]) by {
                    assert(result@.contains(result@[i]));
                }
                assert forall|i: int, x: i32| 0 <= i < result@.len() && nums@.contains(x) && !result@.contains(x)
                    implies #[trigger] outranks(nums@, result@[i], x) by {
                    assert(values_of(pairs@).contains(x));
                    let j = choose|j: int| 0 <= j < values_of(pairs@).len() && values_of(pairs@)[j] == x;
                    assert(pairs@[j].1 == x);
                }
            }
            return result;
        }
        let mut best: usize = 0;
        let mut i: usize = 1;
        while i < pairs.len()
            invariant
                1 <= i <= pairs@.len(),
                best < i,
                forall|j: int| 0 <= j < pairs@.len() ==> (#[trigger] pairs@[j]).0 == occurrences(nums@, pairs@[j].1),
                forall|j: int| 0 <= j < i && j != best ==> outranks(nums@, pairs@[best as int].1, #[trigger] pairs@[j].1),
                values_of(pairs@).no_duplicates(),
            decreases pairs@.len() - i,
        {
            let (c, v) = pairs[i];
            let (bc, bv) = pairs[best];
            proof {
                assert(values_of(pairs@)[i as int] == v && values_of(pairs@)[best as int] == bv);
            }
            if c > bc || (c == bc && v > bv) {
                proof {
                    assert forall|j: int| 0 <= j < i + 1 && j != i implies outranks(nums@, pairs@[i as int].1, #[trigger] pairs@[j].1) by {
                        if j != best {
                            assert(outranks(nums@, pairs@[best as int].1, pairs@[j].1));
                        }
                    }
                }
                best = i;
            }
            i = i + 1;
        }
        let ghost before = pairs@;
        let (_, num) = pairs.remove(best);
        proof {
            assert(values_of(pairs@) =~= values_of(before).remove(best as int));
        }
        let ghost rbefore = result@;
        result.push(num);
        proof {
            assert(values_of(before)[best as int] == num);
            assert(values_of(before).contains(num));
            assert(!rbefore.contains(num));
            assert forall|j: int| 0 <= j < pairs@.len() implies (#[trigger] pairs@[j]).0 == occurrences(nums@, pairs@[j].1) by {
                if j < best {
                    assert(pairs@[j] == before[j]);
                } else {
                    assert(pairs@[j] == before[j + 1]);
                }
            }
            assert forall|x: i32| nums@.contains(x) <==> (values_of(pairs@).contains(x) || result@.contains(x)) by {
                if values_of(before).contains(x) && x != num {
                    let j = choose|j: int| 0 <= j < values_of(before).len() && values_of(before)[j] == x;
                    if j < best {
                        assert(values_of(pairs@)[j] == x);
                    } else {
                        assert(values_of(pairs@)[j - 1] == x);
                    }
                }
                if values_of(pairs@).contains(x) {
                    let j = choose|j: int| 0 <= j < values_of(pairs@).len() && values_of(pairs@)[j] == x;
                    if j < best {
                        assert(values_of(before)[j] == x);
                    } else {
                        assert(values_of(before)[j + 1] == x);
                    }
                }
                if result@.contains(x) && x != num {
                    let j = choose|j: int| 0 <= j < result@.len() && result@[j] == x;
                    assert(rbefore[j] == x);
                }
                if rbefore.contains(x) {
                    let j = choose|j: int| 0 <= j < rbefore.len() && rbefore[j] == x;
                    assert(result@[j] == x);
                }
                assert(result@[rbefore.len() as int] == num);
            }
            assert forall|x: i32| !(values_of(pairs@).contains(x) && result@.contains(x)) by {
                if values_of(pairs@).contains(x) && result@.contains(x) {
                    let j = choose|j: int| 0 <= j < values_of(pairs@).len() && values_of(pairs@)[j] == x;
                    let jj = if j < best { j } else { j + 1 };
                    assert(values_of(before)[jj] == x);
                    assert(jj != best);
                    let r = choose|r: int| 0 <= r < result@.len() && result@[r] == x;
                    if r < rbefore.len() {
                        assert(rbefore[r] == x);
                    }
                }
            }
            assert(result@.no_duplicates()) by {
                assert forall|a: int, b: int| 0 <= a < b < result@.len() implies result@[a] != result@[b] by {
                    if b == rbefore.len() {
                        assert(rbefore[a] == result@[a]);
                        assert(rbefore.contains(result@[a]));
                    } else {
                        assert(rbefore[a] == result@[a] && rbefore[b] == result@[b]);
                    }
                }
            }
            assert forall|a: int, b: int| 0 <= a < b < result@.len() implies outranks(nums@, #[trigger] result@[a], #[trigger] result@[b]) by {
                assert(rbefore[a] == result@[a]);
                if b < rbefore.len() {
                    assert(rbefore[b] == result@[b]);
                } else {
                    assert(outranks(nums@, rbefore[a], before[best as int].1));
                }
            }
            assert forall|a: int, j: int| 0 <= a < result@.len() && 0 <= j < pairs@.len() implies outranks(nums@, #[trigger] result@[a], #[trigger] pairs@[j].1) by {
                let jj = if j < best { j } else { j + 1 };
                assert(pairs@[j] == before[jj]);
                if a < rbefore.len() {
                    assert(rbefore[a] == result@[a]);
                } else {
                    assert(jj != best);
                    assert(values_of(before)[jj] != values_of(before)[best as int]);
                }
            }
        }
    }
}

} // verus!
