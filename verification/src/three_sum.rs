//! Three sum: every distinct triplet of values, at three different positions,
//! that adds up to a target.
use vstd::prelude::*;
use crate::sort::{ascending, nondecreasing, sort_i32};

verus! {

pub type Triple = (i32, i32, i32);

/// `t` is the values at three increasing positions of `s` and sums to `target`.
pub open spec fn triple_in(s: Seq<i32>, target: int, t: Triple) -> bool {
    &&& t.0 + t.1 + t.2 == target
    &&& exists|i: int, j: int, k: int|
        0 <= i < j < k < s.len() && #[trigger] s[i] == t.0 && #[trigger] s[j] == t.1
            && #[trigger] s[k] == t.2
}

/// `t` lists, in ascending order, the values at three different positions of
/// `numbers`, and they add up to `target`.
pub open spec fn is_triplet(numbers: Seq<i32>, target: int, t: Triple) -> bool {
    triple_in(ascending(numbers), target, t)
}

/// Lexicographic order on triples.
pub open spec fn lex_lt(x: Triple, y: Triple) -> bool {
    x.0 < y.0 || (x.0 == y.0 && (x.1 < y.1 || (x.1 == y.1 && x.2 < y.2)))
}

pub open spec fn strictly_increasing(r: Seq<Triple>) -> bool {
    forall|a: int, b: int| 0 <= a < b < r.len() ==> lex_lt(#[trigger] r[a], #[trigger] r[b])
}

/// Every triple that starts at a position below `hi` is in `r`.
#[verifier::opaque]
spec fn covered(s: Seq<i32>, r: Seq<Triple>, hi: int, target: int) -> bool {
    forall|a: int, j: int, k: int|
        0 <= a < hi && a < j < k < s.len() && s[a] + s[j] + s[k] == target ==> r.contains(
            (#[trigger] s[a], #[trigger] s[j], #[trigger] s[k]),
        )
}

/// Every triple that starts at position `i` is in `r` or has its other two
/// positions within `left..=right`.
#[verifier::opaque]
spec fn pending(s: Seq<i32>, r: Seq<Triple>, i: int, left: int, right: int, target: int) -> bool {
    forall|j: int, k: int|
        i < j < k < s.len() && s[i] + s[j] + s[k] == target ==> r.contains(
            (s[i], #[trigger] s[j], #[trigger] s[k]),
        ) || (left <= j && k <= right)
}

proof fn lemma_contains_push(r: Seq<Triple>, t: Triple, x: Triple)
    requires
        r.contains(x),
    ensures
        r.push(t).contains(x),
{
    let w = choose|w: int| 0 <= w < r.len() && r[w] == x;
    assert(r.push(t)[w] == x);
}

proof fn lemma_covered_push(s: Seq<i32>, r: Seq<Triple>, hi: int, target: int, t: Triple)
    requires
        covered(s, r, hi, target),
    ensures
        covered(s, r.push(t), hi, target),
{
    reveal(covered);
    assert forall|a: int, j: int, k: int|
        0 <= a < hi && a < j < k < s.len() && s[a] + s[j] + s[k] == target implies r.push(t).contains(
        (#[trigger] s[a], #[trigger] s[j], #[trigger] s[k]),
    ) by {
        lemma_contains_push(r, t, (s[a], s[j], s[k]));
    }
}

/// A position that repeats the value before it starts no new triple.
proof fn lemma_covered_duplicate(s: Seq<i32>, r: Seq<Triple>, i: int, target: int)
    requires
        0 < i < s.len(),
        s[i] == s[i - 1],
        covered(s, r, i, target),
    ensures
        covered(s, r, i + 1, target),
{
    reveal(covered);
    assert forall|a: int, j: int, k: int|
        0 <= a < i + 1 && a < j < k < s.len() && s[a] + s[j] + s[k] == target implies r.contains(
        (#[trigger] s[a], #[trigger] s[j], #[trigger] s[k]),
    ) by {
        if a == i {
            assert(s[i - 1] + s[j] + s[k] == target);
        }
    }
}

proof fn lemma_pending_done(s: Seq<i32>, r: Seq<Triple>, i: int, left: int, right: int, target: int)
    requires
        0 <= i < s.len(),
        right <= left,
        covered(s, r, i, target),
        pending(s, r, i, left, right, target),
    ensures
        covered(s, r, i + 1, target),
{
    reveal(covered);
    reveal(pending);
    assert forall|a: int, j: int, k: int|
        0 <= a < i + 1 && a < j < k < s.len() && s[a] + s[j] + s[k] == target implies r.contains(
        (#[trigger] s[a], #[trigger] s[j], #[trigger] s[k]),
    ) by {
        if a == i {
            assert(!(left <= j && k <= right));
        }
    }
}

proof fn lemma_pending_left(s: Seq<i32>, r: Seq<Triple>, i: int, left: int, right: int, target: int)
    requires
        nondecreasing(s),
        0 <= i < left < right < s.len(),
        s[i] + s[left] + s[right] < target,
        pending(s, r, i, left, right, target),
    ensures
        pending(s, r, i, left + 1, right, target),
{
    reveal(pending);
    assert forall|j: int, k: int|
        i < j < k < s.len() && s[i] + s[j] + s[k] == target implies r.contains(
        (s[i], #[trigger] s[j], #[trigger] s[k]),
    ) || (left + 1 <= j && k <= right) by {
        if j == left && k <= right {
            assert(s[k] <= s[right]);
        }
    }
}

proof fn lemma_pending_right(s: Seq<i32>, r: Seq<Triple>, i: int, left: int, right: int, target: int)
    requires
        nondecreasing(s),
        0 <= i < left < right < s.len(),
        s[i] + s[left] + s[right] > target,
        pending(s, r, i, left, right, target),
    ensures
        pending(s, r, i, left, right - 1, target),
{
    reveal(pending);
    assert forall|j: int, k: int|
        i < j < k < s.len() && s[i] + s[j] + s[k] == target implies r.contains(
        (s[i], #[trigger] s[j], #[trigger] s[k]),
    ) || (left <= j && k <= right - 1) by {
        if k == right && left <= j {
            assert(s[left] <= s[j]);
        }
    }
}

/// After reporting `(s[i], s[l0], s[r0])` and skipping the repeats of both
/// values, only pairs strictly inside the skipped ranges remain pending.
proof fn lemma_pending_found(
    s: Seq<i32>,
    r: Seq<Triple>,
    i: int,
    l0: int,
    r0: int,
    le: int,
    re: int,
    target: int,
)
    requires
        nondecreasing(s),
        0 <= i < l0 <= le <= re <= r0 < s.len(),
        s[i] + s[l0] + s[r0] == target,
        forall|p: int| l0 <= p <= le ==> s[p] == s[l0],
        forall|p: int| re <= p <= r0 ==> s[p] == s[r0],
        pending(s, r, i, l0, r0, target),
    ensures
        pending(s, r.push((s[i], s[l0], s[r0])), i, le + 1, re - 1, target),
{
    reveal(pending);
    let t = (s[i], s[l0], s[r0]);
    assert(r.push(t)[r.len() as int] == t);
    assert forall|j: int, k: int|
        i < j < k < s.len() && s[i] + s[j] + s[k] == target implies r.push(t).contains(
        (s[i], #[trigger] s[j], #[trigger] s[k]),
    ) || (le + 1 <= j && k <= re - 1) by {
        if r.contains((s[i], s[j], s[k])) {
            lemma_contains_push(r, t, (s[i], s[j], s[k]));
        } else {
            assert(l0 <= j && k <= r0);
            if s[j] == s[l0] {
                assert((s[i], s[j], s[k]) == t);
            } else {
                assert(s[l0] <= s[j]);
                if j <= le {
                    assert(s[j] == s[l0]);
                }
                if k >= re {
                    assert(s[k] == s[r0]);
                }
            }
        }
    }
}

/// Every triplet of `numbers` that sums to `target`, each once, in
/// lexicographic order.
pub fn three_sum(numbers: Vec<i32>, target: i32) -> (r: Vec<Triple>)
    ensures
        forall|k: int| 0 <= k < r@.len() ==> is_triplet(numbers@, target as int, #[trigger] r@[k]),
        strictly_increasing(r@),
        forall|t: Triple| is_triplet(numbers@, target as int, t) ==> r@.contains(t),
{
    let ghost input = numbers@;
    let mut numbers = numbers;
    sort_i32(&mut numbers);
    let ghost s = numbers@;
    let n = numbers.len();
    let mut results: Vec<Triple> = Vec::new();
    let tgt = target as i64;
    proof {
        reveal(covered);
    }
    let mut i: usize = 0;
    while i < n
        invariant
            s == numbers@,
            n == s.len(),
            s == ascending(input),
            nondecreasing(s),
            tgt == target,
            i <= n,
            forall|k: int| 0 <= k < results@.len() ==> triple_in(s, tgt as int, #[trigger] results@[k]),
            strictly_increasing(results@),
            i > 0 ==> forall|k: int| 0 <= k < results@.len() ==> (#[trigger] results@[k]).0 <= s[i - 1],
            i == 0 ==> results@.len() == 0,
            covered(s, results@, i as int, tgt as int),
        decreases n - i,
    {
        if i > 0 && numbers[i] == numbers[i - 1] {
            proof {
                lemma_covered_duplicate(s, results@, i as int, tgt as int);
            }
            i = i + 1;
            continue;
        }
        proof {
            assert forall|k: int| 0 <= k < results@.len() implies (#[trigger] results@[k]).0 < s[i as int] by {
                assert(results@[k].0 <= s[i - 1]);
                assert(s[i - 1] <= s[i as int]);
            }
            reveal(pending);
        }
        let mut left = i + 1;
        let mut right = n - 1;
        while left < right
            invariant
                s == numbers@,
                n == s.len(),
                nondecreasing(s),
                tgt == target,
                i < n,
                i + 1 <= left <= n,
                right < n,
                forall|k: int| 0 <= k < results@.len() ==> triple_in(s, tgt as int, #[trigger] results@[k]),
                strictly_increasing(results@),
                forall|k: int| 0 <= k < results@.len() ==> (#[trigger] results@[k]).0 <= s[i as int],
                forall|k: int|
                    0 <= k < results@.len() && (#[trigger] results@[k]).0 == s[i as int] && left
                        <= right ==> results@[k].1 < s[left as int],
                covered(s, results@, i as int, tgt as int),
                pending(s, results@, i as int, left as int, right as int, tgt as int),
            decreases right + n - left,
        {
            let sum = numbers[i] as i64 + numbers[left] as i64 + numbers[right] as i64;
            if sum < tgt {
                proof {
                    lemma_pending_left(s, results@, i as int, left as int, right as int, tgt as int);
                    assert forall|k: int|
                        0 <= k < results@.len() && (#[trigger] results@[k]).0 == s[i as int] && left
                            + 1 <= right implies results@[k].1 < s[left + 1] by {
                        assert(s[left as int] <= s[left + 1]);
                    }
                }
                left = left + 1;
            } else if sum > tgt {
                proof {
                    lemma_pending_right(s, results@, i as int, left as int, right as int, tgt as int);
                }
                right = right - 1;
            } else {
                let t = (numbers[i], numbers[left], numbers[right]);
                let ghost old_results = results@;
                let ghost l0 = left;
                let ghost r0 = right;
                proof {
                    assert(s[i as int] == t.0 && s[left as int] == t.1 && s[right as int] == t.2);
                    assert(triple_in(s, tgt as int, t));
                    lemma_covered_push(s, old_results, i as int, tgt as int, t);
                }
                results.push(t);
                proof {
                    assert forall|a: int, b: int| 0 <= a < b < results@.len() implies lex_lt(
                        #[trigger] results@[a],
                        #[trigger] results@[b],
                    ) by {
                        assert(results@[a] == old_results[a]);
                        if b < results@.len() - 1 {
                            assert(results@[b] == old_results[b]);
                        } else {
                            assert(old_results[a].0 <= s[i as int]);
                        }
                    }
                    assert forall|k: int| 0 <= k < results@.len() implies triple_in(
                        s,
                        tgt as int,
                        #[trigger] results@[k],
                    ) by {
                        if k < old_results.len() {
                            assert(results@[k] == old_results[k]);
                        }
                    }
                }
                while left < right && numbers[left] == numbers[left + 1]
                    invariant
                        s == numbers@,
                        n == s.len(),
                        l0 <= left <= right == r0 < n,
                        forall|p: int| l0 <= p <= left ==> s[p] == s[l0 as int],
                    decreases right - left,
                {
                    left = left + 1;
                }
                let ghost le = left;
                while left < right && numbers[right] == numbers[right - 1]
                    invariant
                        s == numbers@,
                        n == s.len(),
                        l0 <= le == left <= right <= r0 < n,
                        forall|p: int| right <= p <= r0 ==> s[p] == s[r0 as int],
                    decreases right - left,
                {
                    right = right - 1;
                }
                proof {
                    lemma_pending_found(
                        s,
                        old_results,
                        i as int,
                        l0 as int,
                        r0 as int,
                        le as int,
                        right as int,
                        tgt as int,
                    );
                    assert forall|k: int|
                        0 <= k < results@.len() && (#[trigger] results@[k]).0 == s[i as int] && left
                            + 1 <= right - 1 implies results@[k].1 < s[left + 1] by {
                        if k < old_results.len() {
                            assert(results@[k] == old_results[k]);
                            assert(old_results[k].1 < s[l0 as int]);
                        }
                        assert(s[l0 as int] <= s[left + 1]);
                        assert(s[left + 1] != s[left as int]);
                    }
                }
                left = left + 1;
                right = right - 1;
            }
        }
        proof {
            lemma_pending_done(s, results@, i as int, left as int, right as int, tgt as int);
        }
        i = i + 1;
    }
    proof {
        reveal(covered);
        assert forall|t: Triple| is_triplet(input, target as int, t) implies results@.contains(t) by {
            let (a, j, k) = choose|a: int, j: int, k: int|
                0 <= a < j < k < s.len() && #[trigger] s[a] == t.0 && #[trigger] s[j] == t.1
                    && #[trigger] s[k] == t.2;
            assert(s[a] + s[j] + s[k] == tgt);
        }
    }
    results
}

} // verus!
