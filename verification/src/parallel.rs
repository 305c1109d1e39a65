//! Splitting a slice into chunks for parallel summing, and adding the parts.
use vstd::prelude::*;
use crate::adt_idioms::sum_i32;

verus! {

/// The chunk length for splitting `len` items among `workers`: rounded up,
/// and at least one.
pub open spec fn chunk_len(len: nat, workers: nat) -> nat {
    let c = (len + workers - 1) / workers as int;
    if c < 1 { 1 } else { c as nat }
}

pub fn chunk_size(len: usize, workers: usize) -> (r: usize)
    requires
        workers > 0,
    ensures
        r == chunk_len(len as nat, workers as nat),
{
    let q = len / workers;
    proof {
        vstd::arithmetic::div_mod::lemma_fundamental_div_mod(len as int, workers as int);
        if workers >= 2 && len % workers != 0 {
            assert(q < len) by (nonlinear_arith)
                requires
                    len == workers * q + len % workers,
                    workers >= 2,
                    len % workers > 0,
                    q >= 0,
            ;
        }
    }
    let c = if len % workers == 0 { q } else { q + 1 };
    proof {
        let w = workers as int;
        let q = len as int / w;
        let r = len as int % w;
        vstd::arithmetic::div_mod::lemma_fundamental_div_mod(len as int, w);
        vstd::arithmetic::mul::lemma_mul_is_commutative(q, w);
        if r == 0 {
            vstd::arithmetic::div_mod::lemma_fundamental_div_mod_converse(len + w - 1, w, q, w - 1);
        } else {
            assert((q + 1) * w == q * w + w) by (nonlinear_arith);
            vstd::arithmetic::div_mod::lemma_fundamental_div_mod_converse(len + w - 1, w, q + 1, r - 1);
        }
    }
    if c < 1 { 1 } else { c }
}

/// The bounds of part `i` of `parts` equal parts of `0..len`: each holds
/// `len / parts` items, and the last one also takes the remainder.
pub fn part_bounds(len: usize, parts: usize, i: usize) -> (r: (usize, usize))
    requires
        i < parts,
    ensures
        r.0 == i * (len / parts),
        r.1 == if i + 1 == parts { len as int } else { (i + 1) * (len / parts) },
        r.0 <= r.1 <= len,
{
    let chunk = len / parts;
    proof {
        vstd::arithmetic::div_mod::lemma_fundamental_div_mod(len as int, parts as int);
        assert(i * chunk <= (i + 1) * chunk && (i + 1) * chunk <= parts * chunk) by (nonlinear_arith)
            requires
                i < parts,
                chunk >= 0,
        ;
        assert(parts * chunk <= len) by (nonlinear_arith)
            requires
                len == parts * chunk + len % parts,
                len % parts >= 0,
        ;
    }
    proof {
        assert((i + 1) * chunk == i * chunk + chunk) by (nonlinear_arith);
    }
    let begin = i * chunk;
    let end = if i + 1 == parts { len } else { begin + chunk };
    (begin, end)
}

/// The consecutive ranges `[k * size, min((k + 1) * size, len))` covering `0..len`.
pub open spec fn ranges_ok(len: nat, size: nat, r: Seq<(usize, usize)>) -> bool {
    &&& forall|k: int| 0 <= k < r.len() ==> (#[trigger] r[k]).0 == k * size && r[k].1 == if (k + 1) * size
        <= len {
        (k + 1) * size
    } else {
        len as int
    }
    &&& r.len() * size >= len
    &&& (r.len() as int - 1) * size < len || r.len() == 0
}

/// The chunks of `0..len` of length `size` (the last may be shorter), in order.
pub fn chunk_ranges(len: usize, size: usize) -> (r: Vec<(usize, usize)>)
    requires
        size > 0,
    ensures
        ranges_ok(len as nat, size as nat, r@),
{
    let mut r: Vec<(usize, usize)> = Vec::new();
    let mut start: usize = 0;
    while start < len
        invariant
            size > 0,
            start <= len,
            start == r@.len() * size,
            forall|k: int| 0 <= k < r@.len() ==> (#[trigger] r@[k]).0 == k * size && r@[k].1 == if (k + 1)
                * size <= len {
                (k + 1) * size
            } else {
                len as int
            },
            r@.len() == 0 || (r@.len() as int - 1) * size < len,
        decreases len - start,
    {
        let end = if len - start > size { start + size } else { len };
        proof {
            assert((r@.len() + 1) * size == r@.len() * size + size) by (nonlinear_arith);
        }
        r.push((start, end));
        start = end;
        proof {
            if end == len && len - (r@.len() as int - 1) * size <= size {
            }
            assert(start == r@.len() * size || start == len);
        }
        if start == len {
            proof {
                assert(r@.len() * size >= len) by (nonlinear_arith)
                    requires
                        (r@.len() as int - 1) * size + size >= len,
                ;
            }
            return r;
        }
    }
    r
}

proof fn lemma_sum_append(a: Seq<i32>, b: Seq<i32>)
    ensures
        sum_i32(a + b) == sum_i32(a) + sum_i32(b),
    decreases b.len(),
{
    if b.len() == 0 {
        assert(a + b =~= a);
    } else {
        lemma_sum_append(a, b.drop_last());
        assert((a + b).drop_last() =~= a + b.drop_last());
    }
}

/// The sum of the values in the given ranges.
pub open spec fn sum_of_ranges(values: Seq<i32>, r: Seq<(usize, usize)>) -> int
    decreases r.len(),
{
    if r.len() == 0 {
        0
    } else {
        sum_of_ranges(values, r.drop_last()) + sum_i32(values.subrange(r.last().0 as int, r.last().1 as int))
    }
}

/// Summing the chunks and adding the parts gives the sum of the whole slice.
pub proof fn lemma_chunks_sum(values: Seq<i32>, size: nat, r: Seq<(usize, usize)>)
    requires
        size > 0,
        ranges_ok(values.len(), size, r),
    ensures
        sum_of_ranges(values, r) == sum_i32(values),
{
    lemma_prefix_sums(values, size, r, r.len() as int);
    assert(r.take(r.len() as int) =~= r);
    if r.len() > 0 {
        let k = r.len() - 1;
        assert(r[k].1 == values.len()) by (nonlinear_arith)
            requires
                r[k].1 == if (k + 1) * size <= values.len() { (k + 1) * size } else { values.len() as int },
                (k + 1) * size >= values.len(),
        ;
        assert(values.subrange(0, values.len() as int) =~= values);
    } else {
        assert(values.len() == 0);
        assert(values =~= Seq::<i32>::empty());
    }
}

proof fn lemma_prefix_sums(values: Seq<i32>, size: nat, r: Seq<(usize, usize)>, m: int)
    requires
        size > 0,
        ranges_ok(values.len(), size, r),
        0 <= m <= r.len(),
    ensures
        m > 0 ==> sum_of_ranges(values, r.take(m)) == sum_i32(values.subrange(0, r[m - 1].1 as int)),
        m > 0 ==> r[m - 1].1 <= values.len(),
    decreases m,
{
    if m > 0 {
        let k = m - 1;
        assert(r.take(m).drop_last() =~= r.take(k));
        assert(r.take(m).last() == r[k]);
        assert(k * size <= r[k].1 <= values.len()) by (nonlinear_arith)
            requires
                r[k].0 == k * size,
                r[k].1 == if (k + 1) * size <= values.len() { (k + 1) * size } else { values.len() as int },
                (r.len() as int - 1) * size < values.len(),
                k <= r.len() - 1,
                k >= 0,
        ;
        if k > 0 {
            lemma_prefix_sums(values, size, r, k);
            assert(r[k - 1].1 == k * size) by (nonlinear_arith)
                requires
                    r[k - 1].1 == if k * size <= values.len() { k * size } else { values.len() as int },
                    k * size <= values.len(),
            ;
            let a = values.subrange(0, r[k - 1].1 as int);
            let b = values.subrange(r[k].0 as int, r[k].1 as int);
            assert(r[k].0 == r[k - 1].1);
            assert(values.subrange(0, r[k].1 as int) =~= a + b);
            lemma_sum_append(a, b);
            assert(sum_of_ranges(values, r.take(m)) == sum_of_ranges(values, r.take(k)) + sum_i32(b));
            assert(sum_of_ranges(values, r.take(k)) == sum_i32(a));
        } else {
            assert(r.take(0) =~= Seq::<(usize, usize)>::empty());
            assert(r[0].0 == 0 * size);
            assert(0 * size == 0) by (nonlinear_arith);
            assert(sum_of_ranges(values, r.take(m)) == sum_of_ranges(values, r.take(0)) + sum_i32(
                values.subrange(r[0].0 as int, r[0].1 as int),
            ));
        }
    }
}

/// The sum of `values`, widened to `i64`.
pub fn sum_widened(values: &[i32]) -> (r: i64)
    requires
        forall|k: int| 0 <= k <= values@.len() ==> i64::MIN <= #[trigger] sum_i32(values@.take(k)) <= i64::MAX,
    ensures
        r == sum_i32(values@),
{
    let (_, sum) = crate::adt_idioms::summarize(values);
    sum
}

/// The sum of partial sums.
pub open spec fn sum_i64(values: Seq<i64>) -> int
    decreases values.len(),
{
    if values.len() == 0 {
        0
    } else {
        sum_i64(values.drop_last()) + values.last() as int
    }
}

/// Adds up partial results.
pub fn add_parts(parts: &[i64]) -> (r: i64)
    requires
        forall|k: int| 0 <= k <= parts@.len() ==> i64::MIN <= #[trigger] sum_i64(parts@.take(k)) <= i64::MAX,
    ensures
        r == sum_i64(parts@),
{
    let mut total: i64 = 0;
    let mut i: usize = 0;
    while i < parts.len()
        invariant
            i <= parts@.len(),
            total == sum_i64(parts@.take(i as int)),
            forall|k: int| 0 <= k <= parts@.len() ==> i64::MIN <= #[trigger] sum_i64(parts@.take(k)) <= i64::MAX,
        decreases parts@.len() - i,
    {
        assert(parts@.take(i + 1).drop_last() =~= parts@.take(i as int));
        assert(sum_i64(parts@.take(i + 1)) <= i64::MAX);
        total = total + parts[i];
        i = i + 1;
    }
    assert(parts@.take(i as int) =~= parts@);
    total
}

} // verus!
