//! Putting results that arrive in any order back into input order.
use vstd::prelude::*;

verus! {

/// The value of the last result for slot `s` among the results at positions
/// `lo..`, if any.
pub open spec fn last_from<R>(results: Seq<(usize, R)>, lo: int, s: int) -> Option<R>
    decreases results.len(),
{
    if results.len() <= lo || results.len() == 0 {
        None
    } else if results.last().0 == s {
        Some(results.last().1)
    } else {
        last_from(results.drop_last(), lo, s)
    }
}

/// The value of the last result for slot `s`, if any.
pub open spec fn last_for<R>(results: Seq<(usize, R)>, s: int) -> Option<R> {
    last_from(results, 0, s)
}

/// Looking one position further back only matters when nothing later matched.
proof fn lemma_last_from_step<R>(results: Seq<(usize, R)>, j: int, s: int)
    requires
        0 <= j < results.len(),
    ensures
        last_from(results, j, s) == match last_from(results, j + 1, s) {
            Some(v) => Some(v),
            None => if results[j].0 == s { Some(results[j].1) } else { None },
        },
    decreases results.len(),
{
    if j < results.len() - 1 {
        lemma_last_from_step(results.drop_last(), j, s);
        assert(results.drop_last()[j] == results[j]);
    } else {
        assert(results.last() == results[j]);
        assert(last_from(results.drop_last(), j, s) is None);
        assert(last_from(results, j + 1, s) is None);
    }
}

/// Places each `(index, value)` at its index, a later value for the same index
/// replacing an earlier one. `Some` exactly when every index is below
/// `expected` and every slot below `expected` got a value.
pub fn reorder<R>(expected: usize, results: Vec<(usize, R)>) -> (r: Option<Vec<R>>)
    ensures
        r is Some <==> (forall|k: int| 0 <= k < results@.len() ==> (#[trigger] results@[k]).0 < expected) && (
        forall|s: int| 0 <= s < expected ==> (#[trigger] last_for(results@, s)) is Some),
        r matches Some(v) ==> v@.len() == expected && forall|s: int| 0 <= s < expected ==> Some(#[trigger] v@[s])
            == last_for(results@, s),
{
    let ghost rs = results@;
    let mut slots: Vec<Option<R>> = Vec::new();
    let mut i: usize = 0;
    while i < expected
        invariant
            i <= expected,
            slots@.len() == i,
            forall|j: int| 0 <= j < i ==> (#[trigger] slots@[j]) is None,
        decreases expected - i,
    {
        slots.push(None);
        i = i + 1;
    }
    let mut pending = results;
    let mut in_range = true;
    while pending.len() > 0
        invariant
            slots@.len() == expected,
            pending@ == rs.take(pending@.len() as int),
            pending@.len() <= rs.len(),
            in_range <==> forall|j: int| pending@.len() <= j < rs.len() ==> (#[trigger] rs[j]).0 < expected,
            forall|s: int| 0 <= s < expected ==> #[trigger] slots@[s] == last_from(rs, pending@.len() as int, s),
        decreases pending@.len(),
    {
        let ghost before = pending@;
        match pending.pop() {
            None => {},
            Some((index, value)) => {
                let j = pending.len();
                proof {
                    assert(pending@ =~= rs.take(j as int));
                    assert(before[j as int] == rs[j as int]);
                    assert forall|s: int| 0 <= s < expected implies last_from(rs, j as int, s) == match last_from(
                        rs,
                        j + 1,
                        s,
                    ) {
                        Some(v) => Some(v),
                        None => if rs[j as int].0 == s { Some(rs[j as int].1) } else { None },
                    } by {
                        lemma_last_from_step(rs, j as int, s);
                    }
                }
                if index < expected {
                    if slots[index].is_none() {
                        slots.set(index, Some(value));
                    }
                } else {
                    in_range = false;
                }
            },
        }
    }
    proof {
        assert(pending@.len() == 0);
    }
    if !in_range {
        return None;
    }
    let ghost full = slots@;
    let mut slots = slots;
    let mut reversed: Vec<R> = Vec::new();
    while slots.len() > 0
        invariant
            rs == results@,
            full.len() == expected,
            forall|t: int| 0 <= t < expected ==> #[trigger] full[t] == last_for(rs, t),
            forall|j: int| 0 <= j < rs.len() ==> (#[trigger] rs[j]).0 < expected,
            slots@ == full.take(slots@.len() as int),
            reversed@.len() + slots@.len() == expected,
            forall|k: int| 0 <= k < reversed@.len() ==> full[expected - 1 - k] == Some(#[trigger] reversed@[k]),
        decreases slots@.len(),
    {
        let ghost before = slots@;
        match slots.pop() {
            None => {},
            Some(None) => {
                proof {
                    assert(full[slots@.len() as int] is None);
                    assert(last_for(rs, slots@.len() as int) is None);
                }
                return None;
            },
            Some(Some(v)) => {
                proof {
                    assert(full[slots@.len() as int] == Some(v));
                    assert(slots@ =~= full.take(slots@.len() as int));
                }
                reversed.push(v);
            },
        }
    }
    let mut out: Vec<R> = Vec::new();
    while reversed.len() > 0
        invariant
            full.len() == expected,
            forall|t: int| 0 <= t < expected ==> #[trigger] full[t] == last_for(rs, t),
            forall|j: int| 0 <= j < rs.len() ==> (#[trigger] rs[j]).0 < expected,
            reversed@.len() + out@.len() == expected,
            forall|k: int| 0 <= k < reversed@.len() ==> full[expected - 1 - k] == Some(#[trigger] reversed@[k]),
            forall|k: int| 0 <= k < out@.len() ==> full[k] == Some(#[trigger] out@[k]),
        decreases reversed@.len(),
    {
        match reversed.pop() {
            None => {},
            Some(v) => {
                proof {
                    assert(full[out@.len() as int] == Some(v));
                }
                out.push(v);
            },
        }
    }
    proof {
        assert forall|t: int| 0 <= t < expected implies (#[trigger] last_for(rs, t)) is Some by {
            assert(full[t] == Some(out@[t]));
        }
    }
    Some(out)
}

} // verus!
