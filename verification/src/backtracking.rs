//! Subsets: every subset of a list of distinct integers, by backtracking.
use vstd::prelude::*;
use vstd::arithmetic::power2::pow2;

verus! {

/// The subsets produced from position `start` on, given the chosen `path`:
/// first `path` itself, then, for each later position, the subsets that
/// extend `path` with that element.
pub open spec fn subsets_from(nums: Seq<i32>, start: int, path: Seq<i32>) -> Seq<Seq<i32>>
    decreases nums.len() - start, 1int,
{
    seq![path] + extensions(nums, start, path)
}

/// The subsets that extend `path` with an element at position `i` or later.
pub open spec fn extensions(nums: Seq<i32>, i: int, path: Seq<i32>) -> Seq<Seq<i32>>
    decreases nums.len() - i, 0int,
{
    if i >= nums.len() || i < 0 {
        Seq::empty()
    } else {
        subsets_from(nums, i + 1, path.push(nums[i])) + extensions(nums, i + 1, path)
    }
}

/// Every subset of `nums` (as the subsequences that keep the input order),
/// the empty one first, in depth-first order.
pub fn subsets(nums: Vec<i32>) -> (r: Vec<Vec<i32>>)
    ensures
        r@.map_values(|v: Vec<i32>| v@) == subsets_from(nums@, 0, Seq::empty()),
{
    let mut result: Vec<Vec<i32>> = Vec::new();
    let mut path: Vec<i32> = Vec::new();
    backtrack(&nums, 0, &mut path, &mut result);
    assert(result@.map_values(|v: Vec<i32>| v@) =~= subsets_from(nums@, 0, Seq::empty()));
    result
}

fn backtrack(nums: &Vec<i32>, start: usize, path: &mut Vec<i32>, result: &mut Vec<Vec<i32>>)
    requires
        start <= nums@.len(),
    ensures
        final(path)@ == old(path)@,
        final(result)@.map_values(|v: Vec<i32>| v@) == old(result)@.map_values(|v: Vec<i32>| v@)
            + subsets_from(nums@, start as int, old(path)@),
    decreases nums@.len() - start,
{
    let ghost p0 = path@;
    let ghost r0 = result@.map_values(|v: Vec<i32>| v@);
    result.push(path.clone());
    assert(result@.map_values(|v: Vec<i32>| v@) =~= r0.push(p0));
    let mut idx = start;
    while idx < nums.len()
        invariant
            start <= idx <= nums@.len(),
            path@ == p0,
            result@.map_values(|v: Vec<i32>| v@) + extensions(nums@, idx as int, p0) == r0
                + subsets_from(nums@, start as int, p0),
        decreases nums@.len() - idx,
    {
        let ghost before = result@.map_values(|v: Vec<i32>| v@);
        path.push(nums[idx]);
        backtrack(nums, idx + 1, path, result);
        path.pop();
        assert(path@ =~= p0);
        assert(result@.map_values(|v: Vec<i32>| v@) + extensions(nums@, idx + 1, p0) =~= before
            + extensions(nums@, idx as int, p0));
        idx = idx + 1;
    }
    assert(extensions(nums@, idx as int, p0) =~= Seq::<Seq<i32>>::empty());
    assert(result@.map_values(|v: Vec<i32>| v@) =~= r0 + subsets_from(nums@, start as int, p0));
}

/// There are `2^(n - start)` subsets from position `start` on.
pub proof fn lemma_subsets_count(nums: Seq<i32>, start: int, path: Seq<i32>)
    requires
        0 <= start <= nums.len(),
    ensures
        subsets_from(nums, start, path).len() == pow2((nums.len() - start) as nat),
    decreases nums.len() - start, 1int,
{
    lemma_extensions_count(nums, start, path);
    vstd::arithmetic::power2::lemma_pow2_unfold((nums.len() - start + 1) as nat);
}

proof fn lemma_extensions_count(nums: Seq<i32>, i: int, path: Seq<i32>)
    requires
        0 <= i <= nums.len(),
    ensures
        extensions(nums, i, path).len() + 1 == pow2((nums.len() - i) as nat),
    decreases nums.len() - i, 0int,
{
    if i >= nums.len() {
        vstd::arithmetic::power2::lemma2_to64();
    } else {
        lemma_subsets_count(nums, i + 1, path.push(nums[i]));
        lemma_extensions_count(nums, i + 1, path);
        vstd::arithmetic::power2::lemma_pow2_unfold((nums.len() - i) as nat);
    }
}

/// The elements of `nums` at the positions `idx`, in that order.
pub open spec fn picks(nums: Seq<i32>, idx: Seq<int>) -> Seq<i32> {
    idx.map_values(|i: int| nums[i])
}

/// `idx` lists positions in `lo..hi` in strictly increasing order.
pub open spec fn ascending_within(idx: Seq<int>, lo: int, hi: int) -> bool {
    &&& forall|a: int| 0 <= a < idx.len() ==> lo <= #[trigger] idx[a] < hi
    &&& forall|a: int, b: int| 0 <= a < b < idx.len() ==> #[trigger] idx[a] < #[trigger] idx[b]
}

/// `s` keeps some of the elements of `nums` from position `lo` on, in their order.
pub open spec fn is_subsequence_from(s: Seq<i32>, nums: Seq<i32>, lo: int) -> bool {
    exists|idx: Seq<int>| ascending_within(idx, lo, nums.len() as int) && #[trigger] picks(nums, idx) == s
}

/// What `extensions(nums, i, path)` holds includes every subset that first
/// extends `path` at a position `j` from `i` on.
proof fn lemma_ext_contains(nums: Seq<i32>, i: int, j: int, path: Seq<i32>, x: Seq<i32>)
    requires
        0 <= i <= j < nums.len(),
        subsets_from(nums, j + 1, path.push(nums[j])).contains(x),
    ensures
        extensions(nums, i, path).contains(x),
    decreases j - i,
{
    let head = subsets_from(nums, i + 1, path.push(nums[i]));
    let tail = extensions(nums, i + 1, path);
    assert(extensions(nums, i, path) == head + tail);
    if i == j {
        let k = choose|k: int| 0 <= k < head.len() && head[k] == x;
        assert((head + tail)[k] == x);
    } else {
        lemma_ext_contains(nums, i + 1, j, path, x);
        let k = choose|k: int| 0 <= k < tail.len() && tail[k] == x;
        assert((head + tail)[head.len() + k] == x);
    }
}

/// Every subsequence of `nums` from `start` on, after `path`, is produced.
proof fn lemma_from_complete(nums: Seq<i32>, start: int, path: Seq<i32>, idx: Seq<int>)
    requires
        0 <= start <= nums.len(),
        ascending_within(idx, start, nums.len() as int),
    ensures
        subsets_from(nums, start, path).contains(path + picks(nums, idx)),
    decreases nums.len() - start,
{
    let all = subsets_from(nums, start, path);
    if idx.len() == 0 {
        assert(path + picks(nums, idx) =~= path);
        assert(all[0] == path);
    } else {
        let i0 = idx[0];
        let rest = idx.drop_first();
        assert(ascending_within(rest, i0 + 1, nums.len() as int)) by {
            assert forall|a: int| 0 <= a < rest.len() implies i0 + 1 <= #[trigger] rest[a] < nums.len() by {
                assert(rest[a] == idx[a + 1]);
                assert(idx[0] < idx[a + 1]);
            }
            assert forall|a: int, b: int| 0 <= a < b < rest.len() implies #[trigger] rest[a] < #[trigger] rest[b] by {
                assert(rest[a] == idx[a + 1] && rest[b] == idx[b + 1]);
            }
        }
        lemma_from_complete(nums, i0 + 1, path.push(nums[i0]), rest);
        assert(path.push(nums[i0]) + picks(nums, rest) =~= path + picks(nums, idx));
        lemma_ext_contains(nums, start, i0, path, path + picks(nums, idx));
        let ext = extensions(nums, start, path);
        let k = choose|k: int| 0 <= k < ext.len() && ext[k] == path + picks(nums, idx);
        assert(all[k + 1] == ext[k]);
    }
}

/// Everything produced from `start` on is `path` followed by a subsequence of
/// `nums` from `start` on.
proof fn lemma_from_sound(nums: Seq<i32>, start: int, path: Seq<i32>, x: Seq<i32>)
    requires
        0 <= start <= nums.len(),
        subsets_from(nums, start, path).contains(x),
    ensures
        exists|idx: Seq<int>|
            ascending_within(idx, start, nums.len() as int) && x == path + #[trigger] picks(nums, idx),
    decreases nums.len() - start, 1int,
{
    let all = subsets_from(nums, start, path);
    let ext = extensions(nums, start, path);
    let k = choose|k: int| 0 <= k < all.len() && all[k] == x;
    if k == 0 {
        let idx = Seq::<int>::empty();
        assert(x == path + picks(nums, idx));
    } else {
        assert(ext[k - 1] == x);
        lemma_ext_sound(nums, start, path, x);
    }
}

/// Everything in `extensions(nums, i, path)` is `path` followed by a nonempty
/// subsequence of `nums` from `i` on.
proof fn lemma_ext_sound(nums: Seq<i32>, i: int, path: Seq<i32>, x: Seq<i32>)
    requires
        0 <= i <= nums.len(),
        extensions(nums, i, path).contains(x),
    ensures
        exists|idx: Seq<int>|
            ascending_within(idx, i, nums.len() as int) && x == path + #[trigger] picks(nums, idx),
    decreases nums.len() - i, 0int,
{
    if i < nums.len() {
        let head = subsets_from(nums, i + 1, path.push(nums[i]));
        let tail = extensions(nums, i + 1, path);
        let ext = extensions(nums, i, path);
        assert(ext == head + tail);
        let k = choose|k: int| 0 <= k < ext.len() && ext[k] == x;
        if k < head.len() {
            assert(head[k] == x);
            lemma_from_sound(nums, i + 1, path.push(nums[i]), x);
            let rest = choose|idx: Seq<int>|
                ascending_within(idx, i + 1, nums.len() as int) && x == path.push(nums[i]) + #[trigger] picks(
                    nums,
                    idx,
                );
            let idx = seq![i] + rest;
            assert(ascending_within(idx, i, nums.len() as int)) by {
                assert forall|a: int| 0 <= a < idx.len() implies i <= #[trigger] idx[a] < nums.len() by {
                    if a > 0 {
                        assert(idx[a] == rest[a - 1]);
                    }
                }
                assert forall|a: int, b: int| 0 <= a < b < idx.len() implies #[trigger] idx[a] < #[trigger] idx[b] by {
                    assert(idx[b] == rest[b - 1]);
                    if a > 0 {
                        assert(idx[a] == rest[a - 1]);
                    }
                }
            }
            assert(path.push(nums[i]) + picks(nums, rest) =~= path + picks(nums, idx));
        } else {
            assert(tail[k - head.len()] == x);
            lemma_ext_sound(nums, i + 1, path, x);
            let idx = choose|idx: Seq<int>|
                ascending_within(idx, i + 1, nums.len() as int) && x == path + #[trigger] picks(nums, idx);
            assert(ascending_within(idx, i, nums.len() as int));
        }
    }
}

/// The subsets of `nums` are exactly its subsequences (each keeps the input
/// order), and there are `2^n` of them.
pub proof fn lemma_subsets_are_subsequences(nums: Seq<i32>)
    ensures
        subsets_from(nums, 0, Seq::empty()).len() == pow2(nums.len()),
        forall|s: Seq<i32>|
            #[trigger] subsets_from(nums, 0, Seq::empty()).contains(s) <==> is_subsequence_from(s, nums, 0),
{
    lemma_subsets_count(nums, 0, Seq::empty());
    assert forall|s: Seq<i32>|
        #[trigger] subsets_from(nums, 0, Seq::empty()).contains(s) <==> is_subsequence_from(s, nums, 0) by {
        if subsets_from(nums, 0, Seq::empty()).contains(s) {
            lemma_from_sound(nums, 0, Seq::empty(), s);
            let idx = choose|idx: Seq<int>|
                ascending_within(idx, 0, nums.len() as int) && s == Seq::<i32>::empty() + #[trigger] picks(
                    nums,
                    idx,
                );
            assert(Seq::<i32>::empty() + picks(nums, idx) =~= picks(nums, idx));
        }
        if is_subsequence_from(s, nums, 0) {
            let idx = choose|idx: Seq<int>|
                ascending_within(idx, 0, nums.len() as int) && #[trigger] picks(nums, idx) == s;
            lemma_from_complete(nums, 0, Seq::empty(), idx);
            assert(Seq::<i32>::empty() + picks(nums, idx) =~= s);
        }
    }
}

} // verus!
