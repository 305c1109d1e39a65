//! Merge intervals: sort by start, then merge overlapping or touching intervals
//! in one pass.
use vstd::prelude::*;
use vstd::relations::sorted_by;
use crate::sort::{le_first, sort_by_first};

verus! {

#[derive(Debug, PartialEq, Clone, Copy)]
pub struct Interval {
    pub start: i32,
    pub end: i32,
}

pub open spec fn pair_of(i: Interval) -> (i32, i32) {
    (i.start, i.end)
}

/// Every interval starts no later than it ends.
pub open spec fn well_formed(s: Seq<(i32, i32)>) -> bool {
    forall|k: int| 0 <= k < s.len() ==> (#[trigger] s[k]).0 <= s[k].1
}

/// The point `y / 2` lies in one of the intervals (doubling keeps the gap
/// between `[1, 2]` and `[3, 4]` visible in integers).
pub open spec fn covers(s: Seq<(i32, i32)>, y: int) -> bool {
    exists|k: int| 0 <= k < s.len() && 2 * (#[trigger] s[k]).0 <= y <= 2 * s[k].1
}

/// `m` lists disjoint, non-touching intervals from left to right.
pub open spec fn separated(m: Seq<(i32, i32)>) -> bool {
    &&& well_formed(m)
    &&& forall|a: int| 0 <= a < m.len() - 1 ==> (#[trigger] m[a]).1 < m[a + 1].0
}

/// `m` is the union of the intervals of `s`, as a left-to-right list of
/// disjoint intervals that neither overlap nor touch.
pub open spec fn merged_union(s: Seq<(i32, i32)>, m: Seq<(i32, i32)>) -> bool {
    &&& separated(m)
    &&& forall|y: int| covers(s, y) <==> covers(m, y)
}

/// The multiset of intervals is a permutation of the input's.
proof fn lemma_covers_perm(a: Seq<(i32, i32)>, b: Seq<(i32, i32)>, y: int)
    requires
        a.to_multiset() == b.to_multiset(),
    ensures
        covers(a, y) <==> covers(b, y),
        well_formed(a) <==> well_formed(b),
{
    broadcast use vstd::seq_lib::group_to_multiset_ensures;

    if covers(a, y) {
        let k = choose|k: int| 0 <= k < a.len() && 2 * (#[trigger] a[k]).0 <= y <= 2 * a[k].1;
        assert(a.to_multiset().contains(a[k]));
        assert(b.contains(a[k]));
        let j = choose|j: int| 0 <= j < b.len() && b[j] == a[k];
    }
    if covers(b, y) {
        let k = choose|k: int| 0 <= k < b.len() && 2 * (#[trigger] b[k]).0 <= y <= 2 * b[k].1;
        assert(b.to_multiset().contains(b[k]));
        assert(a.contains(b[k]));
        let j = choose|j: int| 0 <= j < a.len() && a[j] == b[k];
    }
    if well_formed(a) {
        assert forall|k: int| 0 <= k < b.len() implies (#[trigger] b[k]).0 <= b[k].1 by {
            assert(b.to_multiset().contains(b[k]));
            assert(a.contains(b[k]));
        }
    }
    if well_formed(b) {
        assert forall|k: int| 0 <= k < a.len() implies (#[trigger] a[k]).0 <= a[k].1 by {
            assert(a.to_multiset().contains(a[k]));
            assert(b.contains(a[k]));
        }
    }
}

/// One merge step: `s` sorted by start, `m` the merged union of `s[..k]`.
/// Folding in `s[k]` extends the last interval or appends it.
proof fn lemma_merge_step(s: Seq<(i32, i32)>, k: int, m: Seq<(i32, i32)>, m2: Seq<(i32, i32)>)
    requires
        0 <= k < s.len(),
        well_formed(s),
        sorted_by(s, le_first()),
        merged_union(s.take(k), m),
        k > 0 ==> m.len() > 0 && m.last().0 <= s[k].0 && exists|j: int| 0 <= j < k && s[j].0 == m.last().0,
        k == 0 ==> m.len() == 0,
        m2 == (if m.len() > 0 && s[k].0 <= m.last().1 {
            m.update(
                m.len() - 1,
                (m.last().0, if m.last().1 >= s[k].1 { m.last().1 } else { s[k].1 }),
            )
        } else {
            m.push(s[k])
        }),
    ensures
        merged_union(s.take(k + 1), m2),
        m2.len() > 0,
        k + 1 < s.len() ==> m2.last().0 <= s[k + 1].0,
        exists|j: int| 0 <= j < k + 1 && s[j].0 == m2.last().0,
{
    let p = s.take(k);
    let p2 = s.take(k + 1);
    let cur = s[k];
    assert(p2 =~= p.push(cur));
    if k + 1 < s.len() {
        assert(le_first()(s[k], s[k + 1]));
    }
    if m.len() > 0 && cur.0 <= m.last().1 {
        let j = choose|j: int| 0 <= j < k && s[j].0 == m.last().0;
        assert(m2.last().0 == s[j].0);
        assert forall|y: int| covers(p2, y) <==> covers(m2, y) by {
            if covers(p2, y) {
                let t = choose|t: int| 0 <= t < p2.len() && 2 * (#[trigger] p2[t]).0 <= y <= 2 * p2[t].1;
                if t < k {
                    assert(p[t] == p2[t]);
                    assert(covers(p, y));
                    let u = choose|u: int| 0 <= u < m.len() && 2 * (#[trigger] m[u]).0 <= y <= 2 * m[u].1;
                    if u == m.len() - 1 {
                        assert(2 * m2[u].0 <= y <= 2 * m2[u].1);
                    } else {
                        assert(m2[u] == m[u]);
                    }
                } else {
                    assert(2 * m2[m2.len() - 1].0 <= y <= 2 * m2[m2.len() - 1].1);
                }
            }
            if covers(m2, y) {
                let u = choose|u: int| 0 <= u < m2.len() && 2 * (#[trigger] m2[u]).0 <= y <= 2 * m2[u].1;
                if u < m.len() - 1 {
                    assert(m2[u] == m[u]);
                    assert(covers(m, y));
                    let t = choose|t: int| 0 <= t < p.len() && 2 * (#[trigger] p[t]).0 <= y <= 2 * p[t].1;
                    assert(p2[t] == p[t]);
                } else if y <= 2 * m.last().1 {
                    assert(2 * m[m.len() - 1].0 <= y <= 2 * m[m.len() - 1].1);
                    assert(covers(m, y));
                    let t = choose|t: int| 0 <= t < p.len() && 2 * (#[trigger] p[t]).0 <= y <= 2 * p[t].1;
                    assert(p2[t] == p[t]);
                } else {
                    assert(2 * p2[k].0 <= y <= 2 * p2[k].1);
                }
            }
        }
        assert forall|a: int| 0 <= a < m2.len() - 1 implies (#[trigger] m2[a]).1 < m2[a + 1].0 by {
            assert(m2[a] == m[a]);
            if a + 1 < m2.len() - 1 {
                assert(m2[a + 1] == m[a + 1]);
            }
        }
        assert forall|a: int| 0 <= a < m2.len() implies (#[trigger] m2[a]).0 <= m2[a].1 by {
            if a < m2.len() - 1 {
                assert(m2[a] == m[a]);
            }
        }
    } else {
        assert(m2.last() == cur);
        assert(p2[k] == cur);
        assert forall|y: int| covers(p2, y) <==> covers(m2, y) by {
            if covers(p2, y) {
                let t = choose|t: int| 0 <= t < p2.len() && 2 * (#[trigger] p2[t]).0 <= y <= 2 * p2[t].1;
                if t < k {
                    assert(p[t] == p2[t]);
                    assert(covers(p, y));
                    let u = choose|u: int| 0 <= u < m.len() && 2 * (#[trigger] m[u]).0 <= y <= 2 * m[u].1;
                    assert(m2[u] == m[u]);
                } else {
                    assert(m2[m2.len() - 1] == cur);
                }
            }
            if covers(m2, y) {
                let u = choose|u: int| 0 <= u < m2.len() && 2 * (#[trigger] m2[u]).0 <= y <= 2 * m2[u].1;
                if u < m.len() {
                    assert(m2[u] == m[u]);
                    assert(covers(m, y));
                    let t = choose|t: int| 0 <= t < p.len() && 2 * (#[trigger] p[t]).0 <= y <= 2 * p[t].1;
                    assert(p2[t] == p[t]);
                } else {
                    assert(2 * p2[k].0 <= y <= 2 * p2[k].1);
                }
            }
        }
        assert forall|a: int| 0 <= a < m2.len() - 1 implies (#[trigger] m2[a]).1 < m2[a + 1].0 by {
            assert(m2[a] == m[a]);
            if a + 1 < m2.len() - 1 {
                assert(m2[a + 1] == m[a + 1]);
            }
        }
        assert forall|a: int| 0 <= a < m2.len() implies (#[trigger] m2[a]).0 <= m2[a].1 by {
            if a < m2.len() - 1 {
                assert(m2[a] == m[a]);
            }
        }
    }
}

/// Merge overlapping or touching `(start, end)` pairs. For well-formed input
/// the result is the union of the intervals as disjoint, non-touching
/// intervals from left to right.
pub fn merge_intervals2(intervals: Vec<(i32, i32)>) -> (r: Vec<(i32, i32)>)
    ensures
        r@.len() <= intervals@.len(),
        well_formed(intervals@) ==> merged_union(intervals@, r@),
{
    let mut intervals = intervals;
    if intervals.len() == 0 {
        proof {
            assert forall|y: int| covers(intervals@, y) <==> covers(intervals@, y) by {}
        }
        return intervals;
    }
    let ghost input = intervals@;
    sort_by_first(&mut intervals);
    let ghost s = intervals@;
    proof {
        assert forall|y: int| covers(input, y) <==> covers(s, y) by {
            lemma_covers_perm(input, s, y);
        }
        lemma_covers_perm(input, s, 0);
        vstd::seq_lib::to_multiset_len(s);
        vstd::seq_lib::to_multiset_len(input);
    }
    let mut merged: Vec<(i32, i32)> = Vec::new();
    let mut k: usize = 0;
    while k < intervals.len()
        invariant
            s == intervals@,
            s.len() == input.len(),
            k <= s.len(),
            merged@.len() <= k,
            sorted_by(s, le_first()),
            forall|y: int| covers(input, y) <==> covers(s, y),
            well_formed(input) <==> well_formed(s),
            well_formed(s) ==> merged_union(s.take(k as int), merged@),
            k > 0 ==> merged@.len() > 0 && merged@.last().0 <= s[k as int].0 || k == s.len(),
            k > 0 ==> merged@.len() > 0 && exists|j: int| 0 <= j < k && s[j].0 == merged@.last().0,
            k == 0 ==> merged@.len() == 0,
        decreases s.len() - k,
    {
        let (start, end) = intervals[k];
        let ghost m = merged@;
        let n = merged.len();
        if n > 0 && start <= merged[n - 1].1 {
            let last = merged[n - 1];
            let new_end = if last.1 >= end { last.1 } else { end };
            merged.set(n - 1, (last.0, new_end));
        } else {
            merged.push((start, end));
        }
        proof {
            if well_formed(s) {
                lemma_merge_step(s, k as int, m, merged@);
            } else {
                if k + 1 < s.len() {
                    assert(le_first()(s[k as int], s[k + 1]));
                }
                if n > 0 && start <= m.last().1 {
                    let j = choose|j: int| 0 <= j < k && s[j].0 == m.last().0;
                    assert(merged@.last().0 == s[j].0);
                } else {
                    assert(merged@.last().0 == s[k as int].0);
                }
            }
        }
        k = k + 1;
    }
    proof {
        assert(s.take(k as int) =~= s);
        if well_formed(input) {
            assert forall|y: int| covers(input, y) <==> covers(merged@, y) by {}
        }
    }
    merged
}

/// Order intervals by their start.
pub open spec fn le_start() -> spec_fn(Interval, Interval) -> bool {
    |a: Interval, b: Interval| a.start <= b.start
}

/// Trusted: `slice::sort_unstable_by_key` with the start as key sorts the
/// intervals by start; the result is a permutation of its input.
#[verifier::external_body]
fn sort_by_start(v: &mut Vec<Interval>)
    ensures
        final(v)@.to_multiset() == old(v)@.to_multiset(),
        sorted_by(final(v)@, le_start()),
{
    v.sort_unstable_by_key(|interval| interval.start);
}

pub open spec fn pairs(s: Seq<Interval>) -> Seq<(i32, i32)> {
    s.map_values(|i: Interval| pair_of(i))
}

/// Sorting the intervals sorts their pairs and keeps them a permutation.
proof fn lemma_sorted_pairs(input: Seq<Interval>, s: Seq<Interval>)
    requires
        input.to_multiset() == s.to_multiset(),
        sorted_by(s, le_start()),
    ensures
        pairs(input).to_multiset() == pairs(s).to_multiset(),
        sorted_by(pairs(s), le_first()),
        s.len() == input.len(),
{
    broadcast use vstd::seq_lib::group_to_multiset_ensures;

    vstd::seq_lib::to_multiset_len(s);
    vstd::seq_lib::to_multiset_len(input);
    assert forall|i: int, j: int| 0 <= i < j < pairs(s).len() implies #[trigger] le_first()(
        pairs(s)[i],
        pairs(s)[j],
    ) by {
        assert(le_start()(s[i], s[j]));
    }
    lemma_map_multiset(input, s);
}

proof fn lemma_map_multiset(a: Seq<Interval>, b: Seq<Interval>)
    requires
        a.to_multiset() == b.to_multiset(),
    ensures
        pairs(a).to_multiset() == pairs(b).to_multiset(),
    decreases a.len(),
{
    broadcast use vstd::seq_lib::group_to_multiset_ensures;

    vstd::seq_lib::to_multiset_len(a);
    vstd::seq_lib::to_multiset_len(b);
    if a.len() > 0 {
        let x = a.last();
        assert(a.to_multiset().contains(x));
        assert(b.contains(x));
        let j = choose|j: int| 0 <= j < b.len() && b[j] == x;
        let b2 = b.remove(j);
        vstd::seq_lib::to_multiset_remove(b, j);
        assert(a.drop_last().to_multiset() =~= a.to_multiset().remove(x)) by {
            assert(a =~= a.drop_last().push(x));
        }
        lemma_map_multiset(a.drop_last(), b2);
        assert(pairs(a) =~= pairs(a.drop_last()).push(pair_of(x)));
        assert(pairs(b2) =~= pairs(b).remove(j));
        vstd::seq_lib::to_multiset_remove(pairs(b), j);
        assert(pairs(b).to_multiset() =~= pairs(b2).to_multiset().insert(pair_of(x)));
    } else {
        assert(b.len() == 0);
        assert(pairs(a) =~= pairs(b));
    }
}

/// Merge overlapping or touching intervals. For well-formed input the result
/// is the union of the intervals as disjoint, non-touching intervals from left
/// to right.
pub fn merge_intervals(intervals: Vec<Interval>) -> (r: Vec<Interval>)
    ensures
        r@.len() <= intervals@.len(),
        well_formed(pairs(intervals@)) ==> merged_union(pairs(intervals@), pairs(r@)),
{
    let mut intervals = intervals;
    if intervals.len() == 0 {
        return intervals;
    }
    let ghost input = intervals@;
    sort_by_start(&mut intervals);
    let ghost s = pairs(intervals@);
    proof {
        lemma_sorted_pairs(input, intervals@);
        assert forall|y: int| covers(pairs(input), y) <==> covers(s, y) by {
            lemma_covers_perm(pairs(input), s, y);
        }
        lemma_covers_perm(pairs(input), s, 0);
    }
    let mut merged: Vec<Interval> = Vec::new();
    let mut k: usize = 0;
    while k < intervals.len()
        invariant
            s == pairs(intervals@),
            s.len() == input.len(),
            k <= s.len(),
            merged@.len() <= k,
            sorted_by(s, le_first()),
            forall|y: int| covers(pairs(input), y) <==> covers(s, y),
            well_formed(pairs(input)) <==> well_formed(s),
            well_formed(s) ==> merged_union(s.take(k as int), pairs(merged@)),
            k > 0 ==> pairs(merged@).len() > 0 && pairs(merged@).last().0 <= s[k as int].0 || k == s.len(),
            k > 0 ==> pairs(merged@).len() > 0 && exists|j: int| 0 <= j < k && s[j].0 == pairs(merged@).last().0,
            k == 0 ==> merged@.len() == 0,
        decreases s.len() - k,
    {
        let current = intervals[k];
        let ghost m = pairs(merged@);
        let n = merged.len();
        if n > 0 && current.start <= merged[n - 1].end {
            let last = merged[n - 1];
            let new_end = if last.end >= current.end { last.end } else { current.end };
            merged.set(n - 1, Interval { start: last.start, end: new_end });
        } else {
            merged.push(current);
        }
        proof {
            let m2 = pairs(merged@);
            assert(s[k as int] == pair_of(current));
            if n > 0 && current.start <= m.last().1 {
                assert(m2 =~= m.update(m.len() - 1, (m.last().0, if m.last().1 >= s[k as int].1 { m.last().1 } else { s[k as int].1 })));
            } else {
                assert(m2 =~= m.push(s[k as int]));
            }
            if well_formed(s) {
                lemma_merge_step(s, k as int, m, m2);
            } else {
                if k + 1 < s.len() {
                    assert(le_first()(s[k as int], s[k + 1]));
                }
                if n > 0 && current.start <= m.last().1 {
                    let j = choose|j: int| 0 <= j < k && s[j].0 == m.last().0;
                    assert(m2.last().0 == s[j].0);
                } else {
                    assert(m2.last().0 == s[k as int].0);
                }
            }
        }
        k = k + 1;
    }
    proof {
        assert(s.take(k as int) =~= s);
    }
    merged
}

/// Merge in place: the merged intervals are compacted at the front of the
/// vector, which is then truncated. O(1) extra space.
pub fn merge_intervals_in_place(intervals: &mut Vec<Interval>)
    ensures
        final(intervals)@.len() <= old(intervals)@.len(),
        well_formed(pairs(old(intervals)@)) ==> merged_union(
            pairs(old(intervals)@),
            pairs(final(intervals)@),
        ),
{
    if intervals.len() == 0 {
        return;
    }
    let ghost input = intervals@;
    sort_by_start(intervals);
    let ghost sorted = intervals@;
    let ghost s = pairs(sorted);
    proof {
        lemma_sorted_pairs(input, sorted);
        assert forall|y: int| covers(pairs(input), y) <==> covers(s, y) by {
            lemma_covers_perm(pairs(input), s, y);
        }
        lemma_covers_perm(pairs(input), s, 0);
        if well_formed(s) {
            lemma_merge_step(s, 0, Seq::empty(), seq![s[0]]);
        } else {
            assert(seq![s[0]].last().0 == s[0].0);
        }
        assert(pairs(intervals@).take(1) =~= seq![s[0]]);
        if s.len() > 1 {
            assert(le_first()(s[0], s[1]));
        }
    }
    let mut last: usize = 0;
    let mut i: usize = 1;
    while i < intervals.len()
        invariant
            sorted.len() == intervals@.len(),
            s == pairs(sorted),
            s.len() == input.len(),
            1 <= i <= s.len(),
            last < i,
            forall|t: int| i <= t < s.len() ==> #[trigger] intervals@[t] == sorted[t],
            sorted_by(s, le_first()),
            forall|y: int| covers(pairs(input), y) <==> covers(s, y),
            well_formed(pairs(input)) <==> well_formed(s),
            well_formed(s) ==> merged_union(s.take(i as int), pairs(intervals@).take(last + 1)),
            pairs(intervals@)[last as int].0 <= s[i as int].0 || i == s.len(),
            exists|j: int| 0 <= j < i && s[j].0 == pairs(intervals@)[last as int].0,
        decreases s.len() - i,
    {
        let previous = intervals[last];
        let current = intervals[i];
        let ghost m = pairs(intervals@).take(last + 1);
        assert(m.last() == pair_of(previous));
        assert(s[i as int] == pair_of(current));
        if current.start <= previous.end {
            let new_end = if previous.end >= current.end { previous.end } else { current.end };
            intervals.set(last, Interval { start: previous.start, end: new_end });
            proof {
                let m2 = pairs(intervals@).take(last + 1);
                assert(m2 =~= m.update(m.len() - 1, (m.last().0, if m.last().1 >= s[i as int].1 { m.last().1 } else { s[i as int].1 })));
            }
        } else {
            last = last + 1;
            intervals.set(last, current);
            proof {
                let m2 = pairs(intervals@).take(last + 1);
                assert(m2 =~= m.push(s[i as int]));
            }
        }
        proof {
            let m2 = pairs(intervals@).take(last + 1);
            if well_formed(s) {
                lemma_merge_step(s, i as int, m, m2);
            } else {
                if i + 1 < s.len() {
                    assert(le_first()(s[i as int], s[i + 1]));
                }
                if current.start <= previous.end {
                    let j = choose|j: int| 0 <= j < i && s[j].0 == m.last().0;
                    assert(m2.last().0 == s[j].0);
                } else {
                    assert(m2.last().0 == s[i as int].0);
                }
            }
            assert(m2.last() == pairs(intervals@)[last as int]);
        }
        i = i + 1;
    }
    let ghost before = intervals@;
    intervals.truncate(last + 1);
    proof {
        assert(s.take(i as int) =~= s);
        assert(intervals@ =~= before.take(last + 1));
        assert(pairs(intervals@) =~= pairs(before).take(last + 1));
    }
}

} // verus!
