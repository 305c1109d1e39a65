//! Topological sort by Kahn's algorithm.
use vstd::prelude::*;
use std::collections::VecDeque;
use crate::graph::{lemma_distinct_below, lemma_distinct_covers, lemma_some_missing};

verus! {

/// `order` lists each of the nodes `0..n` once, and every edge points forward in it.
pub open spec fn is_topological(n: int, edges: Seq<(usize, usize)>, order: Seq<usize>) -> bool {
    &&& order.len() == n
    &&& order.no_duplicates()
    &&& forall|k: int| 0 <= k < order.len() ==> (#[trigger] order[k]) < n
    &&& forall|e: int, i: int, j: int|
        #![trigger edges[e], order[i], order[j]]
        0 <= e < edges.len() && 0 <= i < order.len() && 0 <= j < order.len() && order[i] == edges[e].0
            && order[j] == edges[e].1 ==> i < j
}

/// Every edge joins two of the nodes `0..n`.
pub open spec fn edges_within(n: int, edges: Seq<(usize, usize)>) -> bool {
    forall|e: int| 0 <= e < edges.len() ==> (#[trigger] edges[e]).0 < n && edges[e].1 < n
}

/// The targets of the edges leaving `x`, in edge order.
pub open spec fn outs(edges: Seq<(usize, usize)>, x: int) -> Seq<usize>
    decreases edges.len(),
{
    if edges.len() == 0 {
        seq![]
    } else if edges.last().0 == x {
        outs(edges.drop_last(), x).push(edges.last().1)
    } else {
        outs(edges.drop_last(), x)
    }
}

/// The number of edges into `v` whose source is not yet in `done`.
pub open spec fn pending(edges: Seq<(usize, usize)>, v: int, done: Seq<usize>) -> nat
    decreases edges.len(),
{
    if edges.len() == 0 {
        0
    } else {
        pending(edges.drop_last(), v, done) + if edges.last().1 == v && !done.contains(edges.last().0) {
            1nat
        } else {
            0nat
        }
    }
}

/// How often `v` occurs in `s`.
pub open spec fn occ(s: Seq<usize>, v: int) -> nat
    decreases s.len(),
{
    if s.len() == 0 {
        0
    } else {
        occ(s.drop_last(), v) + if s.last() == v {
            1nat
        } else {
            0nat
        }
    }
}

proof fn lemma_occ_push(s: Seq<usize>, b: usize, v: int)
    ensures
        occ(s.push(b), v) == occ(s, v) + if b == v { 1nat } else { 0nat },
{
    assert(s.push(b).drop_last() =~= s);
}

proof fn lemma_occ_prefix(s: Seq<usize>, k: int, v: int)
    requires
        0 <= k <= s.len(),
    ensures
        occ(s.take(k), v) <= occ(s, v),
    decreases s.len() - k,
{
    if k < s.len() {
        lemma_occ_prefix(s, k + 1, v);
        assert(s.take(k + 1) =~= s.take(k).push(s[k]));
        lemma_occ_push(s.take(k), s[k], v);
    } else {
        assert(s.take(k) =~= s);
    }
}

proof fn lemma_pending_le(edges: Seq<(usize, usize)>, v: int, done: Seq<usize>)
    ensures
        pending(edges, v, done) <= edges.len(),
    decreases edges.len(),
{
    if edges.len() > 0 {
        lemma_pending_le(edges.drop_last(), v, done);
    }
}

/// Moving `x` into `done` removes exactly its edges from the pending counts.
proof fn lemma_pending_release(edges: Seq<(usize, usize)>, v: int, done: Seq<usize>, x: usize)
    requires
        !done.contains(x),
    ensures
        pending(edges, v, done) == pending(edges, v, done.push(x)) + occ(outs(edges, x as int), v),
    decreases edges.len(),
{
    if edges.len() > 0 {
        let e = edges.last();
        lemma_pending_release(edges.drop_last(), v, done, x);
        assert(done.push(x).contains(e.0) <==> done.contains(e.0) || e.0 == x) by {
            if done.push(x).contains(e.0) {
                let i = choose|i: int| 0 <= i < done.push(x).len() && done.push(x)[i] == e.0;
                if i < done.len() {
                    assert(done[i] == e.0);
                }
            }
            if done.contains(e.0) {
                let i = choose|i: int| 0 <= i < done.len() && done[i] == e.0;
                assert(done.push(x)[i] == e.0);
            }
            if e.0 == x {
                assert(done.push(x)[done.len() as int] == x);
            }
        }
        if e.0 == x {
            lemma_occ_push(outs(edges.drop_last(), x as int), e.1, v);
        }
    }
}

/// No edge into `v` is pending exactly when every edge into `v` starts in `done`.
proof fn lemma_pending_zero(edges: Seq<(usize, usize)>, v: int, done: Seq<usize>)
    ensures
        pending(edges, v, done) == 0 <==> forall|e: int|
            0 <= e < edges.len() && (#[trigger] edges[e]).1 == v ==> done.contains(edges[e].0),
    decreases edges.len(),
{
    if edges.len() > 0 {
        let rest = edges.drop_last();
        lemma_pending_zero(rest, v, done);
        if pending(edges, v, done) == 0 {
            assert forall|e: int| 0 <= e < edges.len() && (#[trigger] edges[e]).1 == v implies done.contains(edges[e].0) by {
                if e < rest.len() {
                    assert(rest[e] == edges[e]);
                }
            }
        } else {
            if pending(rest, v, done) > 0 {
                let e = choose|e: int| 0 <= e < rest.len() && (#[trigger] rest[e]).1 == v && !done.contains(rest[e].0);
                assert(edges[e] == rest[e]);
            } else {
                assert(edges[edges.len() - 1] == edges.last());
            }
        }
    }
}

/// Some edge runs from `u` to `v`.
pub open spec fn has_edge(edges: Seq<(usize, usize)>, u: int, v: int) -> bool {
    exists|e: int| 0 <= e < edges.len() && (#[trigger] edges[e]).0 == u && edges[e].1 == v
}

/// No edge leads into `v`.
pub open spec fn is_source(edges: Seq<(usize, usize)>, v: int) -> bool {
    forall|e: int| 0 <= e < edges.len() ==> (#[trigger] edges[e]).1 != v
}

/// The position in `order` of the last node with an edge to `v`, or -1.
pub open spec fn last_parent(edges: Seq<(usize, usize)>, order: Seq<usize>, v: int) -> int
    decreases order.len(),
{
    if order.len() == 0 {
        -1
    } else if has_edge(edges, order.last() as int, v) {
        order.len() - 1
    } else {
        last_parent(edges, order.drop_last(), v)
    }
}

/// The position of the last `v` in `s`, or -1.
pub open spec fn last_index(s: Seq<usize>, v: int) -> int
    decreases s.len(),
{
    if s.len() == 0 {
        -1
    } else if s.last() == v {
        s.len() - 1
    } else {
        last_index(s.drop_last(), v)
    }
}

/// `a` leaves the queue before `b`: sources first, in increasing order; then
/// every other node once its last in-neighbour has been emitted, at that
/// neighbour's last edge to it.
pub open spec fn kahn_before(edges: Seq<(usize, usize)>, order: Seq<usize>, a: int, b: int) -> bool {
    if is_source(edges, a) && is_source(edges, b) {
        a < b
    } else if is_source(edges, a) {
        true
    } else if is_source(edges, b) {
        false
    } else {
        let pa = last_parent(edges, order, a);
        let pb = last_parent(edges, order, b);
        pa < pb || (pa == pb && last_index(outs(edges, order[pa] as int), a) < last_index(
            outs(edges, order[pb] as int),
            b,
        ))
    }
}

/// The nodes of `order` come in the order Kahn's queue releases them.
pub open spec fn in_kahn_order(edges: Seq<(usize, usize)>, order: Seq<usize>) -> bool {
    forall|i: int, j: int|
        0 <= i < j < order.len() ==> kahn_before(edges, order, #[trigger] order[i] as int, #[trigger] order[j] as int)
}

/// Every node of `seen` that is not a source got its last in-neighbour at
/// position `bound` or earlier; when at `bound`, through one of its first `k`
/// out-edges.
pub open spec fn kahn_frontier(edges: Seq<(usize, usize)>, seen: Seq<usize>, bound: int, k: int) -> bool {
    forall|i: int|
        0 <= i < seen.len() && !is_source(edges, #[trigger] seen[i] as int) ==> last_parent(
            edges,
            seen,
            seen[i] as int,
        ) < bound || (last_parent(edges, seen, seen[i] as int) == bound && last_index(
            outs(edges, seen[bound] as int),
            seen[i] as int,
        ) < k)
}

proof fn lemma_last_parent_push(edges: Seq<(usize, usize)>, order: Seq<usize>, w: usize, v: int)
    requires
        !has_edge(edges, w as int, v),
    ensures
        last_parent(edges, order.push(w), v) == last_parent(edges, order, v),
{
    assert(order.push(w).drop_last() =~= order);
}

proof fn lemma_last_parent_is(edges: Seq<(usize, usize)>, order: Seq<usize>, v: int, c: int)
    requires
        0 <= c < order.len(),
        has_edge(edges, order[c] as int, v),
        forall|i: int| c < i < order.len() ==> !has_edge(edges, #[trigger] order[i] as int, v),
    ensures
        last_parent(edges, order, v) == c,
    decreases order.len(),
{
    if c < order.len() - 1 {
        assert(order[order.len() - 1] == order.last());
        let front = order.drop_last();
        assert(front[c] == order[c]);
        assert forall|i: int| c < i < front.len() implies !has_edge(edges, #[trigger] front[i] as int, v) by {
            assert(front[i] == order[i]);
        }
        lemma_last_parent_is(edges, front, v, c);
    } else {
        assert(order.last() == order[c]);
    }
}

proof fn lemma_last_index_is(s: Seq<usize>, v: int, k: int)
    requires
        0 <= k < s.len(),
        s[k] == v,
        forall|j: int| k < j < s.len() ==> #[trigger] s[j] != v,
    ensures
        last_index(s, v) == k,
    decreases s.len(),
{
    if k < s.len() - 1 {
        assert(s[s.len() - 1] == s.last());
        let front = s.drop_last();
        assert(front[k] == s[k]);
        assert forall|j: int| k < j < front.len() implies #[trigger] front[j] != v by {
            assert(front[j] == s[j]);
        }
        lemma_last_index_is(front, v, k);
    } else {
        assert(s.last() == s[k]);
    }
}

/// When a prefix holds every occurrence of `v`, nothing after it is `v`.
proof fn lemma_no_later(s: Seq<usize>, v: int, k: int)
    requires
        0 <= k <= s.len(),
        occ(s.take(k), v) == occ(s, v),
    ensures
        forall|j: int| k <= j < s.len() ==> #[trigger] s[j] != v,
    decreases s.len() - k,
{
    if k < s.len() {
        assert(s.take(k + 1) =~= s.take(k).push(s[k]));
        lemma_occ_push(s.take(k), s[k], v);
        lemma_occ_prefix(s, k + 1, v);
        lemma_no_later(s, v, k + 1);
    }
}

/// A target in `outs(edges, x)` is reached by an edge from `x`.
proof fn lemma_outs_edge(edges: Seq<(usize, usize)>, x: int, k: int)
    requires
        0 <= k < outs(edges, x).len(),
    ensures
        has_edge(edges, x, outs(edges, x)[k] as int),
    decreases edges.len(),
{
    let rest = edges.drop_last();
    let o = outs(rest, x);
    if edges.last().0 == x && k == o.len() {
        assert(edges[edges.len() - 1] == edges.last());
    } else {
        if edges.last().0 == x {
            assert(outs(edges, x)[k] == o[k]);
        }
        lemma_outs_edge(rest, x, k);
        let e = choose|e: int| 0 <= e < rest.len() && (#[trigger] rest[e]).0 == x && rest[e].1 == o[k];
        assert(edges[e] == rest[e]);
    }
}

proof fn lemma_last_parent_at_least(edges: Seq<(usize, usize)>, order: Seq<usize>, v: int, j: int)
    requires
        0 <= j < order.len(),
        has_edge(edges, order[j] as int, v),
    ensures
        j <= last_parent(edges, order, v) < order.len(),
    decreases order.len(),
{
    if !has_edge(edges, order.last() as int, v) {
        assert(j != order.len() - 1);
        let front = order.drop_last();
        assert(front[j] == order[j]);
        lemma_last_parent_at_least(edges, front, v, j);
    }
}

/// Queueing `w`, freed by the emitted node at position `c` through its out-edge
/// number `k`, keeps the queue order.
proof fn lemma_kahn_enqueue(
    n: int,
    edges: Seq<(usize, usize)>,
    seen: Seq<usize>,
    c: int,
    k: int,
    w: usize,
)
    requires
        0 <= c < seen.len(),
        0 <= k < outs(edges, seen[c] as int).len(),
        outs(edges, seen[c] as int)[k] == w,
        !seen.contains(w),
        kahn_seen(n, edges, c + 1, seen),
        pending(edges, w as int, seen.take(c + 1)) == 0,
        forall|j: int| k < j < outs(edges, seen[c] as int).len() ==> #[trigger] outs(edges, seen[c] as int)[j] != w,
        in_kahn_order(edges, seen),
        kahn_frontier(edges, seen, c, k),
    ensures
        in_kahn_order(edges, seen.push(w)),
        kahn_frontier(edges, seen.push(w), c, k + 1),
{
    let s2 = seen.push(w);
    let x = seen[c];
    let t = outs(edges, x as int);
    lemma_outs_edge(edges, x as int, k);
    assert(!is_source(edges, w as int)) by {
        let e = choose|e: int| 0 <= e < edges.len() && (#[trigger] edges[e]).0 == x && edges[e].1 == w;
    }
    lemma_pending_zero(edges, w as int, seen.take(c + 1));
    assert(s2[c] == x);
    assert forall|i: int| c < i < s2.len() implies !has_edge(edges, #[trigger] s2[i] as int, w as int) by {
        if has_edge(edges, s2[i] as int, w as int) {
            let e = choose|e: int| 0 <= e < edges.len() && (#[trigger] edges[e]).0 == s2[i] && edges[e].1 == w;
            let done = seen.take(c + 1);
            assert(done.contains(edges[e].0));
            let a = choose|a: int| 0 <= a < done.len() && #[trigger] done[a] == edges[e].0;
            assert(seen[a] == edges[e].0);
            if i < seen.len() {
                assert(s2[i] == seen[i]);
            } else {
                assert(s2[i] == w);
                assert(seen.contains(w));
            }
        }
    }
    lemma_last_parent_is(edges, s2, w as int, c);
    lemma_last_index_is(t, w as int, k);
    assert forall|i: int| 0 <= i < seen.len() implies !has_edge(edges, w as int, #[trigger] seen[i] as int) by {
        if has_edge(edges, w as int, seen[i] as int) {
            let e = choose|e: int| 0 <= e < edges.len() && (#[trigger] edges[e]).0 == w && edges[e].1 == seen[i];
            let a = choose|a: int| 0 <= a < i && a < c + 1 && #[trigger] seen[a] == edges[e].0;
            assert(seen.contains(w));
        }
    }
    assert forall|i: int| 0 <= i < seen.len() && !is_source(edges, #[trigger] seen[i] as int) implies 0
        <= last_parent(edges, seen, seen[i] as int) < seen.len() && last_parent(edges, s2, seen[i] as int)
        == last_parent(edges, seen, seen[i] as int) && s2[last_parent(edges, s2, seen[i] as int)]
        == seen[last_parent(edges, seen, seen[i] as int)] by {
        let v = seen[i];
        let e = choose|e: int| 0 <= e < edges.len() && (#[trigger] edges[e]).1 == v;
        let a = choose|a: int| 0 <= a < i && a < c + 1 && #[trigger] seen[a] == edges[e].0;
        lemma_last_parent_at_least(edges, seen, v as int, a);
        lemma_last_parent_push(edges, seen, w, v as int);
    }
    assert forall|i: int, j: int| 0 <= i < j < s2.len() implies kahn_before(
        edges,
        s2,
        #[trigger] s2[i] as int,
        #[trigger] s2[j] as int,
    ) by {
        assert(s2[i] == seen[i]);
        if j < seen.len() {
            assert(s2[j] == seen[j]);
        }
    }
    assert forall|i: int| 0 <= i < s2.len() && !is_source(edges, #[trigger] s2[i] as int) implies last_parent(
        edges,
        s2,
        s2[i] as int,
    ) < c || (last_parent(edges, s2, s2[i] as int) == c && last_index(outs(edges, s2[c] as int), s2[i] as int) < k
        + 1) by {
        if i < seen.len() {
            assert(s2[i] == seen[i]);
        }
    }
}

/// Builds the adjacency lists and in-degrees of the edge list.
fn build(num_nodes: usize, edges: &[(usize, usize)]) -> (r: (Vec<Vec<usize>>, Vec<usize>))
    requires
        edges_within(num_nodes as int, edges@),
    ensures
        r.0@.len() == num_nodes,
        r.1@.len() == num_nodes,
        forall|x: int| 0 <= x < num_nodes ==> (#[trigger] r.0@[x])@ == outs(edges@, x),
        forall|v: int| 0 <= v < num_nodes ==> (#[trigger] r.1@[v]) == pending(edges@, v, seq![]),
{
    let mut graph: Vec<Vec<usize>> = Vec::new();
    let mut indegree: Vec<usize> = Vec::new();
    let mut i: usize = 0;
    while i < num_nodes
        invariant
            i <= num_nodes,
            graph@.len() == i,
            indegree@.len() == i,
            forall|x: int| 0 <= x < i ==> (#[trigger] graph@[x])@ == Seq::<usize>::empty(),
            forall|v: int| 0 <= v < i ==> (#[trigger] indegree@[v]) == 0,
        decreases num_nodes - i,
    {
        graph.push(Vec::new());
        indegree.push(0);
        i = i + 1;
    }
    let mut k: usize = 0;
    while k < edges.len()
        invariant
            edges_within(num_nodes as int, edges@),
            k <= edges@.len(),
            graph@.len() == num_nodes,
            indegree@.len() == num_nodes,
            forall|x: int| 0 <= x < num_nodes ==> (#[trigger] graph@[x])@ == outs(edges@.take(k as int), x),
            forall|v: int| 0 <= v < num_nodes ==> (#[trigger] indegree@[v]) == pending(edges@.take(k as int), v, seq![]),
        decreases edges@.len() - k,
    {
        let (from, to) = edges[k];
        proof {
            assert(edges@[k as int] == (from, to));
            assert(edges@.take(k as int + 1).drop_last() =~= edges@.take(k as int));
            assert(edges@.take(k as int + 1).last() == (from, to));
            lemma_pending_le(edges@.take(k as int), to as int, seq![]);
        }
        let mut list: Vec<usize> = Vec::new();
        graph.set_and_swap(from, &mut list);
        list.push(to);
        graph.set_and_swap(from, &mut list);
        let d = indegree[to];
        indegree.set(to, d + 1);
        proof {
            assert forall|x: int| 0 <= x < num_nodes implies (#[trigger] graph@[x])@ == outs(edges@.take(k as int + 1), x) by {}
            assert forall|v: int| 0 <= v < num_nodes implies (#[trigger] indegree@[v]) == pending(edges@.take(k as int + 1), v, seq![]) by {
                assert(!Seq::<usize>::empty().contains(from));
            }
        }
        k = k + 1;
    }
    proof {
        assert(edges@.take(k as int) =~= edges@);
    }
    (graph, indegree)
}

/// The nodes of in-degree zero, in increasing order.
fn sources(indegree: &Vec<usize>) -> (queue: VecDeque<usize>)
    ensures
        forall|a: int, b: int| 0 <= a < b < queue@.len() ==> queue@[a] < queue@[b],
        forall|k: int| 0 <= k < queue@.len() ==> (#[trigger] queue@[k]) < indegree@.len(),
        forall|v: int| 0 <= v < indegree@.len() ==> (queue@.contains(v as usize) <==> #[trigger] indegree@[v] == 0),
{
    let mut queue: VecDeque<usize> = VecDeque::new();
    let mut v: usize = 0;
    while v < indegree.len()
        invariant
            v <= indegree@.len(),
            forall|a: int, b: int| 0 <= a < b < queue@.len() ==> queue@[a] < queue@[b],
            forall|k: int| 0 <= k < queue@.len() ==> (#[trigger] queue@[k]) < v,
            forall|w: int| 0 <= w < indegree@.len() ==> (queue@.contains(w as usize) <==> w < v && #[trigger] indegree@[w] == 0),
        decreases indegree@.len() - v,
    {
        if indegree[v] == 0 {
            let ghost before = queue@;
            queue.push_back(v);
            proof {
                assert forall|w: int| 0 <= w < indegree@.len() implies (queue@.contains(w as usize) <==> w < v + 1
                    && #[trigger] indegree@[w] == 0) by {
                    if w == v {
                        assert(queue@[queue@.len() - 1] == v);
                    } else if queue@.contains(w as usize) {
                        let i = choose|i: int| 0 <= i < queue@.len() && queue@[i] == w as usize;
                        assert(before[i] == queue@[i]);
                    } else if w < v && indegree@[w] == 0 {
                        let i = choose|i: int| 0 <= i < before.len() && before[i] == w as usize;
                        assert(queue@[i] == before[i]);
                    }
                }
            }
        }
        v = v + 1;
    }
    queue
}

/// Kahn's bookkeeping for the nodes met so far, `seen`, of which the first
/// `done` have been emitted: no repeats, all nodes of the graph, and each edge
/// into a met node starts at an emitted node placed before it.
pub open spec fn kahn_seen(n: int, edges: Seq<(usize, usize)>, done: int, seen: Seq<usize>) -> bool {
    &&& 0 <= done <= seen.len()
    &&& seen.no_duplicates()
    &&& forall|k: int| 0 <= k < seen.len() ==> (#[trigger] seen[k]) < n
    &&& forall|e: int, j: int|
        #![trigger edges[e], seen[j]]
        0 <= e < edges.len() && 0 <= j < seen.len() && seen[j] == edges[e].1 ==> exists|i: int|
            0 <= i < j && i < done && #[trigger] seen[i] == edges[e].0
}

/// A node has been met exactly when its in-degree count has dropped to zero.
pub open spec fn met_iff_free(indegree: Seq<usize>, seen: Seq<usize>) -> bool {
    forall|v: int| 0 <= v < indegree.len() ==> (seen.contains(v as usize) <==> #[trigger] indegree[v] == 0)
}

/// Lowers the in-degree of each target of the node just emitted, queueing the
/// ones that reach zero.
#[verifier::spinoff_prover]
fn release(
    targets: &Vec<usize>,
    indegree: &mut Vec<usize>,
    queue: &mut VecDeque<usize>,
    Ghost(edges): Ghost<Seq<(usize, usize)>>,
    Ghost(before): Ghost<Seq<usize>>,
    Ghost(x): Ghost<usize>,
)
    requires
        old(indegree)@.len() <= usize::MAX,
        edges_within(old(indegree)@.len() as int, edges),
        targets@ == outs(edges, x as int),
        !before.contains(x),
        forall|v: int| 0 <= v < old(indegree)@.len() ==> (#[trigger] old(indegree)@[v]) == pending(edges, v, before),
        kahn_seen(old(indegree)@.len() as int, edges, before.len() + 1int, before.push(x) + old(queue)@),
        met_iff_free(old(indegree)@, before.push(x) + old(queue)@),
        in_kahn_order(edges, before.push(x) + old(queue)@),
        kahn_frontier(edges, before.push(x) + old(queue)@, before.len() as int, 0),
    ensures
        final(indegree)@.len() == old(indegree)@.len(),
        forall|v: int| 0 <= v < final(indegree)@.len() ==> (#[trigger] final(indegree)@[v]) == pending(edges, v, before.push(x)),
        kahn_seen(final(indegree)@.len() as int, edges, before.len() + 1int, before.push(x) + final(queue)@),
        met_iff_free(final(indegree)@, before.push(x) + final(queue)@),
        in_kahn_order(edges, before.push(x) + final(queue)@),
        kahn_frontier(edges, before.push(x) + final(queue)@, before.len() as int, outs(edges, x as int).len() as int),
{
    let ghost n = indegree@.len();
    let ghost order = before.push(x);
    let ghost t = targets@;
    proof {
        assert forall|v: int| 0 <= v < n implies pending(edges, v, before) == pending(edges, v, order)
            + occ(t, v) by {
            lemma_pending_release(edges, v, before, x);
        }
        assert(t.take(0) =~= Seq::<usize>::empty());
    }
    let mut k: usize = 0;
    while k < targets.len()
        invariant
            n == indegree@.len(),
            n <= usize::MAX,
            edges_within(n as int, edges),
            t == targets@,
            t == outs(edges, x as int),
            k <= t.len(),
            forall|v: int| 0 <= v < n ==> pending(edges, v, before) == pending(edges, v, order) + occ(t, v),
            forall|v: int| 0 <= v < n ==> (#[trigger] indegree@[v]) + occ(t.take(k as int), v) == pending(edges, v, before),
            kahn_seen(n as int, edges, order.len() as int, order + queue@),
            met_iff_free(indegree@, order + queue@),
            order == before.push(x),
            in_kahn_order(edges, order + queue@),
            kahn_frontier(edges, order + queue@, before.len() as int, k as int),
        decreases t.len() - k,
    {
        let w = targets[k];
        proof {
            assert(t.take(k as int + 1) =~= t.take(k as int).push(w));
            lemma_occ_push(t.take(k as int), w, w as int);
            lemma_occ_prefix(t, k as int + 1, w as int);
            lemma_outs_within(edges, x as int, n as int);
            assert(w < n);
        }
        let d = indegree[w];
        indegree.set(w, d - 1);
        let ghost seen = order + queue@;
        if d - 1 == 0 {
            proof {
                let c = before.len() as int;
                assert(seen[c] == x);
                assert(seen.take(c + 1) =~= order);
                assert(!seen.contains(w));
                lemma_occ_push(t.take(k as int), w, w as int);
                lemma_occ_prefix(t, k as int + 1, w as int);
                assert(occ(t.take(k as int + 1), w as int) == occ(t, w as int));
                assert(pending(edges, w as int, order) == 0);
                lemma_no_later(t, w as int, k as int + 1);
                lemma_kahn_enqueue(n as int, edges, seen, c, k as int, w);
            }
            queue.push_back(w);
            proof {
                let seen2 = order + queue@;
                assert(seen2 =~= seen.push(w));
                assert(!seen.contains(w));
                lemma_pending_zero(edges, w as int, order);
                assert forall|e: int, j: int|
                    #![trigger edges[e], seen2[j]]
                    0 <= e < edges.len() && 0 <= j < seen2.len() && seen2[j] == edges[e].1 implies exists|i: int|
                        0 <= i < j && i < order.len() && #[trigger] seen2[i] == edges[e].0 by {
                    if j < seen.len() {
                        assert(seen2[j] == seen[j]);
                        let i = choose|i: int| 0 <= i < j && i < order.len() && #[trigger] seen[i] == edges[e].0;
                        assert(seen2[i] == seen[i]);
                    } else {
                        assert(order.contains(edges[e].0));
                        let i = choose|i: int| 0 <= i < order.len() && order[i] == edges[e].0;
                        assert(seen2[i] == order[i]);
                    }
                }
                assert forall|kk: int| 0 <= kk < seen2.len() implies (#[trigger] seen2[kk]) < n by {
                    if kk < seen.len() {
                        assert(seen2[kk] == seen[kk]);
                    }
                }
                assert forall|v: int| 0 <= v < n implies (seen2.contains(v as usize) <==> #[trigger] indegree@[v] == 0) by {
                    lemma_contains_push(seen, w, v);
                }
            }
        } else {
            proof {
                assert forall|v: int| 0 <= v < n implies (seen.contains(v as usize) <==> #[trigger] indegree@[v] == 0) by {
                    if v == w {
                        assert(!seen.contains(w));
                    }
                }
                assert(kahn_frontier(edges, order + queue@, before.len() as int, k + 1));
            }
        }
        proof {
            assert forall|v: int| 0 <= v < n implies (#[trigger] indegree@[v]) + occ(t.take(k as int + 1), v)
                == pending(edges, v, before) by {
                lemma_occ_push(t.take(k as int), w, v);
            }
        }
        k = k + 1;
    }
    proof {
        assert(t.take(k as int) =~= t);
    }
}

/// Membership after appending one element.
proof fn lemma_contains_push(s: Seq<usize>, w: usize, v: int)
    requires
        0 <= v <= usize::MAX,
    ensures
        s.push(w).contains(v as usize) <==> s.contains(v as usize) || v == w,
{
    if s.push(w).contains(v as usize) {
        let i = choose|i: int| 0 <= i < s.push(w).len() && s.push(w)[i] == v as usize;
        if i < s.len() {
            assert(s[i] == v as usize);
        }
    }
    if s.contains(v as usize) {
        let i = choose|i: int| 0 <= i < s.len() && s[i] == v as usize;
        assert(s.push(w)[i] == v as usize);
    }
    if v == w {
        assert(s.push(w)[s.len() as int] == w);
    }
}

/// The targets of edges inside the graph are nodes of the graph.
proof fn lemma_outs_within(edges: Seq<(usize, usize)>, x: int, n: int)
    requires
        edges_within(n, edges),
    ensures
        forall|k: int| 0 <= k < outs(edges, x).len() ==> (#[trigger] outs(edges, x)[k]) < n,
    decreases edges.len(),
{
    if edges.len() > 0 {
        let rest = edges.drop_last();
        assert(edges_within(n, rest)) by {
            assert forall|e: int| 0 <= e < rest.len() implies (#[trigger] rest[e]).0 < n && rest[e].1 < n by {
                assert(rest[e] == edges[e]);
            }
        }
        lemma_outs_within(rest, x, n);
        assert(edges[edges.len() - 1] == edges.last());
        let o = outs(rest, x);
        if edges.last().0 == x {
            assert forall|k: int| 0 <= k < o.push(edges.last().1).len() implies (#[trigger] o.push(edges.last().1)[k]) < n by {
                if k < o.len() {
                    assert(o.push(edges.last().1)[k] == o[k]);
                }
            }
        }
    }
}

/// Sorts the nodes `0..num_nodes` so that every edge points forward, or
/// returns `None` when the edges form a cycle and no such order exists.
pub fn topological_sort(num_nodes: usize, edges: &[(usize, usize)]) -> (r: Option<Vec<usize>>)
    requires
        edges_within(num_nodes as int, edges@),
    ensures
        match r {
            Some(order) => is_topological(num_nodes as int, edges@, order@) && in_kahn_order(edges@, order@),
            None => forall|p: Seq<usize>| !is_topological(num_nodes as int, edges@, p),
        },
{
    let ghost n = num_nodes as int;
    let ghost es = edges@;
    let (graph, mut indegree) = build(num_nodes, edges);
    let mut queue = sources(&indegree);
    let mut order: Vec<usize> = Vec::new();
    proof {
        assert(order@ + queue@ =~= queue@);
        assert forall|e: int, j: int|
            #![trigger es[e], queue@[j]]
            0 <= e < es.len() && 0 <= j < queue@.len() && queue@[j] == es[e].1 implies exists|i: int|
                0 <= i < j && i < 0 && #[trigger] queue@[i] == es[e].0 by {
            assert(queue@.contains(queue@[j]));
            assert(indegree@[es[e].1 as int] == 0);
            lemma_pending_zero(es, es[e].1 as int, seq![]);
            assert(!Seq::<usize>::empty().contains(es[e].0));
        }
        assert forall|v: int| 0 <= v < n implies (#[trigger] indegree@[v]) == pending(es, v, order@) by {
            assert(order@ =~= Seq::<usize>::empty());
        }
        assert forall|i: int| 0 <= i < queue@.len() implies is_source(es, #[trigger] queue@[i] as int) by {
            assert(queue@.contains(queue@[i]));
            lemma_pending_zero(es, queue@[i] as int, seq![]);
            assert forall|e: int| 0 <= e < es.len() implies (#[trigger] es[e]).1 != queue@[i] by {
                assert(!Seq::<usize>::empty().contains(es[e].0));
            }
        }
        assert(in_kahn_order(es, order@ + queue@));
        assert(kahn_frontier(es, order@ + queue@, 0, 0));
    }
    loop
        invariant
            n == num_nodes,
            es == edges@,
            edges_within(n, es),
            graph@.len() == n,
            forall|x: int| 0 <= x < n ==> (#[trigger] graph@[x])@ == outs(es, x),
            indegree@.len() == n,
            order@.len() <= n,
            forall|v: int| 0 <= v < n ==> (#[trigger] indegree@[v]) == pending(es, v, order@),
            kahn_seen(n, es, order@.len() as int, order@ + queue@),
            met_iff_free(indegree@, order@ + queue@),
            in_kahn_order(es, order@ + queue@),
            kahn_frontier(es, order@ + queue@, order@.len() as int, 0),
        decreases n - order@.len(),
    {
        let ghost seen = order@ + queue@;
        let ghost before = order@;
        let node = match queue.pop_front() {
            Some(x) => x,
            None => {
                proof {
                    assert(seen =~= order@);
                }
                if order.len() == num_nodes {
                    proof {
                        assert forall|e: int, i: int, j: int|
                            #![trigger es[e], order@[i], order@[j]]
                            0 <= e < es.len() && 0 <= i < order@.len() && 0 <= j < order@.len() && order@[i] == es[e].0
                                && order@[j] == es[e].1 implies i < j by {
                            assert(seen[j] == order@[j]);
                            let i2 = choose|i2: int| 0 <= i2 < j && i2 < order@.len() && #[trigger] seen[i2] == es[e].0;
                            assert(seen[i2] == order@[i2]);
                        }
                    }
                    return Some(order);
                } else {
                    proof {
                        assert forall|v: int| 0 <= v < n && !order@.contains(v as usize) implies pending(es, v, order@) > 0 by {
                            assert(indegree@[v] != 0);
                        }
                        lemma_no_order(n, es, order@);
                    }
                    return None;
                }
            },
        };
        order.push(node);
        proof {
            assert(order@ + queue@ =~= seen);
            assert(before.push(node) == order@);
            assert(seen[before.len() as int] == node);
            assert(!before.contains(node)) by {
                if before.contains(node) {
                    let i = choose|i: int| 0 <= i < before.len() && before[i] == node;
                    assert(seen[i] == before[i]);
                }
            }
            assert(node < n);
        }
        release(&graph[node], &mut indegree, &mut queue, Ghost(es), Ghost(before), Ghost(node));
        proof {
            let s2 = order@ + queue@;
            assert(kahn_frontier(es, s2, before.len() as int, outs(es, node as int).len() as int));
            assert(kahn_frontier(es, s2, order@.len() as int, 0));
            assert forall|k: int| 0 <= k < order@.len() implies (#[trigger] order@[k]) < n by {
                assert(s2[k] == order@[k]);
            }
            assert(order@.no_duplicates()) by {
                assert forall|a: int, b: int| 0 <= a < b < order@.len() implies order@[a] != order@[b] by {
                    assert(s2[a] == order@[a] && s2[b] == order@[b]);
                }
            }
            lemma_distinct_below(order@, n);
        }
    }
}

/// When Kahn's algorithm stops short, every node left out still has a pending
/// edge from another node left out, so no order of all nodes sends every edge
/// forward.
pub proof fn lemma_no_order(n: int, edges: Seq<(usize, usize)>, order: Seq<usize>)
    requires
        0 <= n <= usize::MAX,
        edges_within(n, edges),
        order.len() < n,
        forall|v: int| 0 <= v < n && !order.contains(v as usize) ==> pending(edges, v, order) > 0,
    ensures
        forall|p: Seq<usize>| !is_topological(n, edges, p),
{
    assert forall|p: Seq<usize>| !is_topological(n, edges, p) by {
        if is_topological(n, edges, p) {
            lemma_some_missing(order, n);
            let v = choose|v: int| 0 <= v < n && !#[trigger] order.contains(v as usize);
            lemma_distinct_covers(p, n);
            assert(p.contains(v as usize));
            let k = choose|k: int| 0 <= k < p.len() && p[k] == v as usize;
            lemma_descent(n, edges, order, p, k);
        }
    }
}

/// Under the hypotheses of `lemma_no_order`, every node of a forward order is
/// among the emitted ones (by descent along pending edges).
proof fn lemma_descent(n: int, edges: Seq<(usize, usize)>, order: Seq<usize>, p: Seq<usize>, k: int)
    requires
        0 <= n <= usize::MAX,
        edges_within(n, edges),
        forall|v: int| 0 <= v < n && !order.contains(v as usize) ==> pending(edges, v, order) > 0,
        is_topological(n, edges, p),
        forall|v: int| 0 <= v < n ==> #[trigger] p.contains(v as usize),
        0 <= k < p.len(),
    ensures
        order.contains(p[k]),
    decreases k,
{
    let v = p[k];
    if !order.contains(v) {
        assert(v < n);
        assert(pending(edges, v as int, order) > 0);
        lemma_pending_zero(edges, v as int, order);
        let e = choose|e: int| 0 <= e < edges.len() && (#[trigger] edges[e]).1 == v && !order.contains(edges[e].0);
        let u = edges[e].0;
        assert(u < n);
        assert(p.contains(u as int as usize));
        let i = choose|i: int| 0 <= i < p.len() && p[i] == u;
        assert(i < k);
        lemma_descent(n, edges, order, p, i);
    }
}

} // verus!
