//! Dijkstra's shortest paths, over an index-based adjacency list and over one
//! keyed by node.
use vstd::prelude::*;
use std::collections::HashMap;
use std::hash::Hash;
use vstd::std_specs::hash::obeys_key_model;
use crate::graph_bfs::GraphAdjList;
use crate::graph_map::{keys_cover_reach, lemma_reaches_self, lemma_reaches_step, linked, reaches, KeyedGraph};
use crate::graph::{adjacency, edge, lemma_reach_bound, lemma_reachable_self as lemma_index_reachable_self,
    lemma_reachable_step, reach_closed, reachable, Adjacency};

verus! {

/// `nodes` and `picks` describe a walk: step `i` leaves `nodes[i]` by its edge
/// number `picks[i]` and arrives at `nodes[i + 1]`.
pub open spec fn is_walk(g: Adjacency, nodes: Seq<int>, picks: Seq<int>) -> bool {
    &&& nodes.len() == picks.len() + 1
    &&& forall|i: int| 0 <= i < picks.len() ==> #[trigger] step_ok(g, nodes, picks, i)
}

/// Step `i` of a walk follows an edge of `g`.
pub open spec fn step_ok(g: Adjacency, nodes: Seq<int>, picks: Seq<int>, i: int) -> bool {
    &&& 0 <= nodes[i] < g.len()
    &&& 0 <= picks[i] < g[nodes[i]].len()
    &&& g[nodes[i]][picks[i]].0 == nodes[i + 1]
}

/// The total weight of the first `i` steps of a walk.
pub open spec fn walk_cost(g: Adjacency, nodes: Seq<int>, picks: Seq<int>, i: int) -> int
    decreases i,
{
    if i <= 0 {
        0
    } else {
        walk_cost(g, nodes, picks, i - 1) + g[nodes[i - 1]][picks[i - 1]].1
    }
}

/// A walk from `s` to `v`.
pub open spec fn walk_between(g: Adjacency, s: int, v: int, nodes: Seq<int>, picks: Seq<int>) -> bool {
    is_walk(g, nodes, picks) && nodes[0] == s && nodes.last() == v
}

/// Some walk from `s` to `v` weighs `d`.
pub open spec fn has_walk(g: Adjacency, s: int, v: int, d: int) -> bool {
    exists|nodes: Seq<int>, picks: Seq<int>|
        #[trigger] walk_between(g, s, v, nodes, picks) && walk_cost(g, nodes, picks, picks.len() as int) == d
}

/// Some walk leads from `s` to `v`.
pub open spec fn connected(g: Adjacency, s: int, v: int) -> bool {
    exists|nodes: Seq<int>, picks: Seq<int>| #[trigger] walk_between(g, s, v, nodes, picks)
}

/// `d` is the least weight of a walk from `s` to `v`.
pub open spec fn is_distance(g: Adjacency, s: int, v: int, d: int) -> bool {
    &&& has_walk(g, s, v, d)
    &&& forall|nodes: Seq<int>, picks: Seq<int>|
        #[trigger] walk_between(g, s, v, nodes, picks) ==> walk_cost(g, nodes, picks, picks.len() as int) >= d
}

/// A shortest distance plus the weight of any edge leaving that node fits in a `u32`.
pub open spec fn costs_fit(g: Adjacency, s: int) -> bool {
    forall|u: int, d: int, k: int|
        #![trigger is_distance(g, s, u, d), g[u][k]]
        is_distance(g, s, u, d) && 0 <= u < g.len() && 0 <= k < g[u].len() ==> d + g[u][k].1 <= u32::MAX
}

/// Every edge leaving `u` leads to a node with a distance no worse than through `u`.
pub open spec fn relaxed(g: Adjacency, dist: Seq<Option<u32>>, u: int) -> bool {
    forall|k: int|
        0 <= k < g[u].len() ==> (#[trigger] dist[g[u][k].0 as int]) is Some && dist[g[u][k].0 as int]->0
            <= dist[u]->0 + g[u][k].1
}

/// The invariant of the search: known distances are weights of walks, heap
/// entries are never better than the distance they were pushed for, and a node
/// whose current distance has no heap entry (other than `skip`) is relaxed.
pub open spec fn search_inv(g: Adjacency, s: int, dist: Seq<Option<u32>>, heap: Seq<(u32, usize)>, skip: int) -> bool {
    &&& dist.len() == g.len()
    &&& 0 <= s < g.len()
    &&& dist[s] == Some(0u32)
    &&& forall|v: int|
        0 <= v < dist.len() && (#[trigger] dist[v]) is Some ==> has_walk(g, s, v, dist[v]->0 as int) && reachable(
            g,
            s,
            v,
        )
    &&& forall|j: int|
        0 <= j < heap.len() ==> (#[trigger] heap[j]).1 < dist.len() && dist[heap[j].1 as int] is Some
            && dist[heap[j].1 as int]->0 <= heap[j].0
    &&& forall|u: int|
        0 <= u < dist.len() && u != skip && (#[trigger] dist[u]) is Some && !heap.contains((dist[u]->0, u as usize))
            ==> relaxed(g, dist, u)
}

/// A node's contribution to the termination measure.
pub open spec fn potential(d: Option<u32>) -> int {
    match d {
        Some(x) => x as int,
        None => 0x1_0000_0000int,
    }
}

pub open spec fn total_potential(dist: Seq<Option<u32>>) -> int
    decreases dist.len(),
{
    if dist.len() == 0 {
        0
    } else {
        total_potential(dist.drop_last()) + potential(dist.last())
    }
}

proof fn lemma_potential_update(dist: Seq<Option<u32>>, i: int, x: Option<u32>)
    requires
        0 <= i < dist.len(),
    ensures
        total_potential(dist.update(i, x)) == total_potential(dist) - potential(dist[i]) + potential(x),
    decreases dist.len(),
{
    let d2 = dist.update(i, x);
    if i == dist.len() - 1 {
        assert(d2.drop_last() =~= dist.drop_last());
    } else {
        lemma_potential_update(dist.drop_last(), i, x);
        assert(d2.drop_last() =~= dist.drop_last().update(i, x));
    }
}

proof fn lemma_potential_nonneg(dist: Seq<Option<u32>>)
    ensures
        total_potential(dist) >= 0,
    decreases dist.len(),
{
    if dist.len() > 0 {
        lemma_potential_nonneg(dist.drop_last());
    }
}

proof fn lemma_cost_extend(g: Adjacency, nodes: Seq<int>, picks: Seq<int>, v: int, k: int, i: int)
    requires
        nodes.len() == picks.len() + 1,
        0 <= i <= picks.len(),
    ensures
        walk_cost(g, nodes.push(v), picks.push(k), i) == walk_cost(g, nodes, picks, i),
    decreases i,
{
    if i > 0 {
        lemma_cost_extend(g, nodes, picks, v, k, i - 1);
        assert(nodes.push(v)[i - 1] == nodes[i - 1]);
        assert(picks.push(k)[i - 1] == picks[i - 1]);
    }
}

/// A walk to `u` followed by `u`'s edge number `k` is a walk to that edge's target.
proof fn lemma_walk_extend(g: Adjacency, s: int, u: int, d: int, k: int)
    requires
        has_walk(g, s, u, d),
        0 <= u < g.len(),
        0 <= k < g[u].len(),
    ensures
        has_walk(g, s, g[u][k].0 as int, d + g[u][k].1),
{
    let (nodes, picks) = choose|nodes: Seq<int>, picks: Seq<int>|
        #[trigger] walk_between(g, s, u, nodes, picks) && walk_cost(g, nodes, picks, picks.len() as int) == d;
    let v = g[u][k].0 as int;
    let n2 = nodes.push(v);
    let p2 = picks.push(k);
    assert(is_walk(g, n2, p2)) by {
        assert forall|i: int| 0 <= i < p2.len() implies #[trigger] step_ok(g, n2, p2, i) by {
            if i < picks.len() {
                assert(step_ok(g, nodes, picks, i));
                assert(picks[i] == p2[i]);
                assert(n2[i] == nodes[i] && n2[i + 1] == nodes[i + 1]);
            } else {
                assert(n2[i] == nodes.last());
                assert(n2[i + 1] == v);
            }
        }
    }
    lemma_cost_extend(g, nodes, picks, v, k, picks.len() as int);
    assert(n2[0] == nodes[0]);
    assert(n2.len() == p2.len() + 1);
    assert(is_walk(g, n2, p2));
    assert(n2.last() == v);
    assert(walk_between(g, s, v, n2, p2));
    assert(walk_cost(g, n2, p2, p2.len() as int) == d + g[u][k].1);
}

/// Along a walk from `s` whose prefix weighs less than every heap entry, the
/// known distances are at most the prefix weights.
proof fn lemma_walk_bound(
    g: Adjacency,
    s: int,
    dist: Seq<Option<u32>>,
    heap: Seq<(u32, usize)>,
    nodes: Seq<int>,
    picks: Seq<int>,
    i: int,
    c: int,
)
    requires
        search_inv(g, s, dist, heap, -1),
        is_walk(g, nodes, picks),
        nodes[0] == s,
        0 <= i <= picks.len(),
        walk_cost(g, nodes, picks, i) < c,
        forall|j: int| 0 <= j < heap.len() ==> (#[trigger] heap[j]).0 >= c,
    ensures
        dist[nodes[i]] is Some,
        dist[nodes[i]]->0 <= walk_cost(g, nodes, picks, i),
    decreases i,
{
    if i > 0 {
        let u = nodes[i - 1];
        let k = picks[i - 1];
        assert(step_ok(g, nodes, picks, i - 1));
        assert(0 <= u < g.len() && 0 <= k < g[u].len() && g[u][k].0 == nodes[i]);
        lemma_walk_bound(g, s, dist, heap, nodes, picks, i - 1, c);
        let b = dist[u]->0;
        if heap.contains((b, u as usize)) {
            let j = choose|j: int| 0 <= j < heap.len() && heap[j] == (b, u as usize);
            assert(heap[j].0 >= c);
        }
        assert(relaxed(g, dist, u));
        assert(dist[g[u][k].0 as int] is Some);
    }
}

/// Removes and returns the least entry, ordered by cost and then by node.
fn pop_min(heap: &mut Vec<(u32, usize)>) -> (r: (u32, usize))
    requires
        old(heap)@.len() > 0,
    ensures
        old(heap)@.contains(r),
        forall|j: int|
            0 <= j < old(heap)@.len() ==> r.0 < (#[trigger] old(heap)@[j]).0 || (r.0 == old(heap)@[j].0 && r.1
                <= old(heap)@[j].1),
        final(heap)@.len() == old(heap)@.len() - 1,
        forall|y: (u32, usize)| #[trigger] final(heap)@.contains(y) ==> old(heap)@.contains(y),
        forall|y: (u32, usize)| #[trigger] old(heap)@.contains(y) && y != r ==> final(heap)@.contains(y),
{
    let mut best: usize = 0;
    let mut i: usize = 1;
    while i < heap.len()
        invariant
            1 <= i <= heap@.len(),
            best < i,
            forall|j: int|
                0 <= j < i ==> heap@[best as int].0 < (#[trigger] heap@[j]).0 || (heap@[best as int].0 == heap@[j].0
                    && heap@[best as int].1 <= heap@[j].1),
        decreases heap@.len() - i,
    {
        let (c, v) = heap[i];
        let (bc, bv) = heap[best];
        if c < bc || (c == bc && v < bv) {
            best = i;
        }
        i = i + 1;
    }
    let ghost before = heap@;
    let r = heap.remove(best);
    proof {
        assert(before[best as int] == r);
        assert forall|y: (u32, usize)| #[trigger] heap@.contains(y) implies before.contains(y) by {
            let j = choose|j: int| 0 <= j < heap@.len() && heap@[j] == y;
            if j < best {
                assert(before[j] == y);
            } else {
                assert(before[j + 1] == y);
            }
        }
        assert forall|y: (u32, usize)| #[trigger] before.contains(y) && y != r implies heap@.contains(y) by {
            let j = choose|j: int| 0 <= j < before.len() && before[j] == y;
            if j < best {
                assert(heap@[j] == y);
            } else {
                assert(j != best);
                assert(heap@[j - 1] == y);
            }
        }
    }
    r
}

proof fn lemma_walk_self(g: Adjacency, s: int)
    ensures
        has_walk(g, s, s, 0),
{
    let nodes = seq![s];
    let picks = Seq::<int>::empty();
    assert(walk_between(g, s, s, nodes, picks));
    assert(walk_cost(g, nodes, picks, 0) == 0);
}

/// The least entry of the heap, when it matches its node's distance, gives
/// that node's shortest distance.
proof fn lemma_popped_exact(g: Adjacency, s: int, dist: Seq<Option<u32>>, heap: Seq<(u32, usize)>, u: int, c: int)
    requires
        search_inv(g, s, dist, heap, -1),
        0 <= u < dist.len(),
        dist[u] is Some,
        dist[u]->0 == c,
        forall|j: int| 0 <= j < heap.len() ==> (#[trigger] heap[j]).0 >= c,
    ensures
        is_distance(g, s, u, c),
{
    assert forall|nodes: Seq<int>, picks: Seq<int>|
        #[trigger] walk_between(g, s, u, nodes, picks) implies walk_cost(g, nodes, picks, picks.len() as int) >= c by {
        if walk_cost(g, nodes, picks, picks.len() as int) < c {
            lemma_walk_bound(g, s, dist, heap, nodes, picks, picks.len() as int, c);
            assert(nodes[picks.len() as int] == u);
        }
    }
}

/// With an empty heap every known distance is the shortest one and every node
/// without one is cut off from `s`.
proof fn lemma_settled(g: Adjacency, s: int, dist: Seq<Option<u32>>, heap: Seq<(u32, usize)>)
    requires
        search_inv(g, s, dist, heap, -1),
        heap.len() == 0,
    ensures
        forall|v: int|
            0 <= v < dist.len() ==> match #[trigger] dist[v] {
                Some(d) => is_distance(g, s, v, d as int),
                None => !connected(g, s, v),
            },
{
    assert forall|v: int| 0 <= v < dist.len() implies match #[trigger] dist[v] {
        Some(d) => is_distance(g, s, v, d as int),
        None => !connected(g, s, v),
    } by {
        assert forall|nodes: Seq<int>, picks: Seq<int>| #[trigger] walk_between(g, s, v, nodes, picks) implies dist[v] is Some
            && dist[v]->0 <= walk_cost(g, nodes, picks, picks.len() as int) by {
            let k = walk_cost(g, nodes, picks, picks.len() as int);
            lemma_walk_bound(g, s, dist, heap, nodes, picks, picks.len() as int, k + 1);
            assert(nodes[picks.len() as int] == v);
        }
    }
}

/// Lowering the distance of `v` to `new` through `u`'s edge number `k`, and
/// pushing the matching heap entry, keeps the search invariant.
proof fn lemma_relax_update(
    g: Adjacency,
    s: int,
    dist: Seq<Option<u32>>,
    heap: Seq<(u32, usize)>,
    u: int,
    c: int,
    k: int,
    new: u32,
)
    requires
        reach_closed(g, s),
        search_inv(g, s, dist, heap, u),
        0 <= u < g.len(),
        0 <= c <= u32::MAX,
        dist[u] == Some(c as u32),
        is_distance(g, s, u, c),
        0 <= k < g[u].len(),
        new == c + g[u][k].1,
        dist[g[u][k].0 as int] is None || new < dist[g[u][k].0 as int]->0,
        forall|j: int|
            0 <= j < k ==> (#[trigger] dist[g[u][j].0 as int]) is Some && dist[g[u][j].0 as int]->0 <= c + g[u][j].1,
    ensures
        ({
            let v = g[u][k].0 as int;
            let dist2 = dist.update(v, Some(new));
            let heap2 = heap.push((new, v as usize));
            &&& search_inv(g, s, dist2, heap2, u)
            &&& dist2[u] == Some(c as u32)
            &&& forall|j: int|
                0 <= j <= k ==> (#[trigger] dist2[g[u][j].0 as int]) is Some && dist2[g[u][j].0 as int]->0 <= c
                    + g[u][j].1
            &&& total_potential(dist2) + heap2.len() <= total_potential(dist) + heap.len()
        }),
{
    let v = g[u][k].0 as int;
    let dist2 = dist.update(v, Some(new));
    let heap2 = heap.push((new, v as usize));
    assert(reachable(g, s, u));
    assert(edge(g, u, v));
    lemma_reachable_step(g, s, u, v);
    lemma_reach_bound(g, s, v);
    assert(v < g.len());
    assert(v != u);
    assert(v != s);
    lemma_walk_extend(g, s, u, c, k);
    assert forall|x: int| 0 <= x < dist2.len() && (#[trigger] dist2[x]) is Some implies has_walk(g, s, x, dist2[x]->0 as int)
        && reachable(g, s, x) by {
        if x != v {
            assert(dist2[x] == dist[x]);
        }
    }
    assert forall|j: int| 0 <= j < heap2.len() implies (#[trigger] heap2[j]).1 < dist2.len()
        && dist2[heap2[j].1 as int] is Some && dist2[heap2[j].1 as int]->0 <= heap2[j].0 by {
        if j < heap.len() {
            assert(heap2[j] == heap[j]);
        }
    }
    assert forall|x: int|
        0 <= x < dist2.len() && x != u && (#[trigger] dist2[x]) is Some && !heap2.contains((dist2[x]->0, x as usize))
            implies relaxed(g, dist2, x) by {
        if x == v {
            assert(heap2[heap.len() as int] == (new, v as usize));
        } else {
            assert(dist2[x] == dist[x]);
            if heap.contains((dist[x]->0, x as usize)) {
                let j = choose|j: int| 0 <= j < heap.len() && heap[j] == (dist[x]->0, x as usize);
                assert(heap2[j] == heap[j]);
            }
            assert(relaxed(g, dist, x));
            assert forall|kk: int| 0 <= kk < g[x].len() implies (#[trigger] dist2[g[x][kk].0 as int]) is Some
                && dist2[g[x][kk].0 as int]->0 <= dist2[x]->0 + g[x][kk].1 by {
                let t = g[x][kk].0 as int;
                assert(edge(g, x, t));
                lemma_reachable_step(g, s, x, t);
                lemma_reach_bound(g, s, t);
                assert(dist[t] is Some);
            }
        }
    }
    assert forall|j: int| 0 <= j <= k implies (#[trigger] dist2[g[u][j].0 as int]) is Some
        && dist2[g[u][j].0 as int]->0 <= c + g[u][j].1 by {
        if j < k {
            let t = g[u][j].0 as int;
            assert(edge(g, u, t));
            lemma_reachable_step(g, s, u, t);
            lemma_reach_bound(g, s, t);
            assert(dist[t] is Some);
        }
    }
    lemma_potential_update(dist, v, Some(new));
}

/// Relaxes every edge leaving `u`, whose distance `c` is final.
#[verifier::spinoff_prover]
fn relax_edges(
    graph: &[Vec<(usize, u32)>],
    u: usize,
    c: u32,
    dist: &mut Vec<Option<u32>>,
    heap: &mut Vec<(u32, usize)>,
    Ghost(s): Ghost<int>,
)
    requires
        reach_closed(adjacency(graph@), s),
        costs_fit(adjacency(graph@), s),
        u < graph@.len(),
        old(dist)@[u as int] == Some(c),
        is_distance(adjacency(graph@), s, u as int, c as int),
        search_inv(adjacency(graph@), s, old(dist)@, old(heap)@, u as int),
    ensures
        search_inv(adjacency(graph@), s, final(dist)@, final(heap)@, -1),
        total_potential(final(dist)@) + final(heap)@.len() <= total_potential(old(dist)@) + old(heap)@.len(),
{
    let ghost g = adjacency(graph@);
    let edges = &graph[u];
    proof {
        assert(edges@ == g[u as int]);
    }
    let mut k: usize = 0;
    while k < edges.len()
        invariant
            g == adjacency(graph@),
            reach_closed(g, s),
            costs_fit(g, s),
            u < g.len(),
            edges@ == g[u as int],
            k <= edges@.len(),
            dist@[u as int] == Some(c),
            is_distance(g, s, u as int, c as int),
            search_inv(g, s, dist@, heap@, u as int),
            forall|j: int|
                0 <= j < k ==> (#[trigger] dist@[g[u as int][j].0 as int]) is Some && dist@[g[u as int][j].0 as int]->0
                    <= c + g[u as int][j].1,
            total_potential(dist@) + heap@.len() <= total_potential(old(dist)@) + old(heap)@.len(),
        decreases edges@.len() - k,
    {
        let (v, w) = edges[k];
        proof {
            assert(g[u as int][k as int] == (v, w));
            assert(c + w <= u32::MAX);
            assert(reachable(g, s, u as int));
            assert(edge(g, u as int, v as int));
            lemma_reachable_step(g, s, u as int, v as int);
            lemma_reach_bound(g, s, v as int);
            assert(v < g.len());
        }
        let new = c + w;
        let better = match dist[v] {
            Some(best) => new < best,
            None => true,
        };
        if better {
            proof {
                lemma_relax_update(g, s, dist@, heap@, u as int, c as int, k as int, new);
            }
            dist.set(v, Some(new));
            heap.push((new, v));
        } else {
            proof {
                assert forall|j: int| 0 <= j <= k implies (#[trigger] dist@[g[u as int][j].0 as int]) is Some
                    && dist@[g[u as int][j].0 as int]->0 <= c + g[u as int][j].1 by {}
            }
        }
        k = k + 1;
    }
    proof {
        assert(relaxed(g, dist@, u as int));
    }
}

/// Shortest distances from `start_node`: `Some(d)` where `d` is the least
/// weight of a walk to that node, `None` where no walk reaches it.
pub fn dijkstra_vec(graph: &[Vec<(usize, u32)>], start_node: usize) -> (r: Vec<Option<u32>>)
    requires
        reach_closed(adjacency(graph@), start_node as int),
        costs_fit(adjacency(graph@), start_node as int),
    ensures
        r@.len() == graph@.len(),
        forall|v: int|
            0 <= v < graph@.len() ==> match #[trigger] r@[v] {
                Some(d) => is_distance(adjacency(graph@), start_node as int, v, d as int),
                None => !connected(adjacency(graph@), start_node as int, v),
            },
{
    let ghost g = adjacency(graph@);
    let ghost s = start_node as int;
    proof {
        lemma_index_reachable_self(g, s);
        lemma_reach_bound(g, s, s);
    }
    let n = graph.len();
    let mut dist: Vec<Option<u32>> = Vec::new();
    let mut i: usize = 0;
    while i < n
        invariant
            i <= n,
            dist@.len() == i,
            forall|j: int| 0 <= j < i ==> (#[trigger] dist@[j]) is None,
        decreases n - i,
    {
        dist.push(None);
        i = i + 1;
    }
    dist.set(start_node, Some(0));
    let mut heap: Vec<(u32, usize)> = Vec::new();
    heap.push((0, start_node));
    proof {
        lemma_walk_self(g, s);
        assert forall|x: int|
            0 <= x < dist@.len() && (#[trigger] dist@[x]) is Some && !heap@.contains((dist@[x]->0, x as usize))
                implies relaxed(g, dist@, x) by {
            assert(x == s);
            assert(heap@[0] == (0u32, start_node));
        }
    }
    loop
        invariant
            g == adjacency(graph@),
            s == start_node,
            n == graph@.len(),
            reach_closed(g, s),
            costs_fit(g, s),
            search_inv(g, s, dist@, heap@, -1),
        decreases total_potential(dist@) + heap@.len(),
    {
        if heap.len() == 0 {
            proof {
                lemma_settled(g, s, dist@, heap@);
            }
            return dist;
        }
        let ghost heap0 = heap@;
        let (cost, node) = pop_min(&mut heap);
        proof {
            let j = choose|j: int| 0 <= j < heap0.len() && heap0[j] == (cost, node);
            assert(heap0[j].1 < dist@.len());
            lemma_potential_nonneg(dist@);
        }
        let stale = match dist[node] {
            Some(best) => cost > best,
            None => true,
        };
        if stale {
            proof {
                assert forall|x: int|
                    0 <= x < dist@.len() && (#[trigger] dist@[x]) is Some && !heap@.contains((dist@[x]->0, x as usize))
                        implies relaxed(g, dist@, x) by {
                    if heap0.contains((dist@[x]->0, x as usize)) {
                        assert((dist@[x]->0, x as usize) != (cost, node));
                    }
                }
                assert forall|j: int| 0 <= j < heap@.len() implies (#[trigger] heap@[j]).1 < dist@.len()
                    && dist@[heap@[j].1 as int] is Some && dist@[heap@[j].1 as int]->0 <= heap@[j].0 by {
                    assert(heap@.contains(heap@[j]));
                    assert(heap0.contains(heap@[j]));
                }
            }
        } else {
            proof {
                assert forall|j: int| 0 <= j < heap0.len() implies (#[trigger] heap0[j]).0 >= cost by {}
                lemma_popped_exact(g, s, dist@, heap0, node as int, cost as int);
                assert forall|x: int|
                    0 <= x < dist@.len() && x != node && (#[trigger] dist@[x]) is Some && !heap@.contains(
                        (dist@[x]->0, x as usize),
                    ) implies relaxed(g, dist@, x) by {
                    if heap0.contains((dist@[x]->0, x as usize)) {
                        assert((dist@[x]->0, x as usize) != (cost, node));
                    }
                }
                assert forall|j: int| 0 <= j < heap@.len() implies (#[trigger] heap@[j]).1 < dist@.len()
                    && dist@[heap@[j].1 as int] is Some && dist@[heap@[j].1 as int]->0 <= heap@[j].0 by {
                    assert(heap@.contains(heap@[j]));
                    assert(heap0.contains(heap@[j]));
                }
            }
            relax_edges(graph, node, cost, &mut dist, &mut heap, Ghost(s));
        }
        proof {
            lemma_potential_nonneg(dist@);
        }
    }
}


/// Step `i` of a walk in a keyed graph leaves `nodes[i]` by its edge number
/// `picks[i]` and arrives at `nodes[i + 1]`.
pub open spec fn keyed_step_ok<N>(g: KeyedGraph<N>, nodes: Seq<N>, picks: Seq<int>, i: int) -> bool {
    &&& g.contains_key(nodes[i])
    &&& 0 <= picks[i] < g[nodes[i]]@.len()
    &&& g[nodes[i]]@[picks[i]].0 == nodes[i + 1]
}

/// `nodes` and `picks` describe a walk along edges of `g`.
pub open spec fn keyed_is_walk<N>(g: KeyedGraph<N>, nodes: Seq<N>, picks: Seq<int>) -> bool {
    &&& nodes.len() == picks.len() + 1
    &&& forall|i: int| 0 <= i < picks.len() ==> #[trigger] keyed_step_ok(g, nodes, picks, i)
}

/// The total weight of the first `i` steps of a walk.
pub open spec fn keyed_walk_cost<N>(g: KeyedGraph<N>, nodes: Seq<N>, picks: Seq<int>, i: int) -> int
    decreases i,
{
    if i <= 0 {
        0
    } else {
        keyed_walk_cost(g, nodes, picks, i - 1) + g[nodes[i - 1]]@[picks[i - 1]].1
    }
}

/// A walk from `s` to `v`.
pub open spec fn keyed_walk_between<N>(g: KeyedGraph<N>, s: N, v: N, nodes: Seq<N>, picks: Seq<int>) -> bool {
    keyed_is_walk(g, nodes, picks) && nodes[0] == s && nodes.last() == v
}

/// Some walk from `s` to `v` weighs `d`.
pub open spec fn keyed_has_walk<N>(g: KeyedGraph<N>, s: N, v: N, d: int) -> bool {
    exists|nodes: Seq<N>, picks: Seq<int>|
        #[trigger] keyed_walk_between(g, s, v, nodes, picks) && keyed_walk_cost(g, nodes, picks, picks.len() as int)
            == d
}

/// `d` is the least weight of a walk from `s` to `v`.
pub open spec fn keyed_is_distance<N>(g: KeyedGraph<N>, s: N, v: N, d: int) -> bool {
    &&& keyed_has_walk(g, s, v, d)
    &&& forall|nodes: Seq<N>, picks: Seq<int>|
        #[trigger] keyed_walk_between(g, s, v, nodes, picks) ==> keyed_walk_cost(g, nodes, picks, picks.len() as int)
            >= d
}

/// A shortest distance plus the weight of any edge leaving that node fits in a `u32`.
pub open spec fn keyed_costs_fit<N>(g: KeyedGraph<N>, s: N) -> bool {
    forall|u: N, d: int, k: int|
        #![trigger keyed_is_distance(g, s, u, d), g[u]@[k]]
        keyed_is_distance(g, s, u, d) && g.contains_key(u) && 0 <= k < g[u]@.len() ==> d + g[u]@[k].1
            <= u32::MAX
}

/// The distance recorded for `v`, or `u32::MAX` when none is.
pub open spec fn known_bound<N>(dist: Map<N, u32>, v: N) -> int {
    if dist.contains_key(v) {
        dist[v] as int
    } else {
        u32::MAX as int
    }
}

/// Every edge leaving `u` leads to a node whose bound is no worse than through `u`.
pub open spec fn keyed_relaxed<N>(g: KeyedGraph<N>, dist: Map<N, u32>, u: N) -> bool {
    forall|k: int|
        0 <= k < g[u]@.len() ==> known_bound(dist, (#[trigger] g[u]@[k]).0) <= dist[u] + g[u]@[k].1
}

/// The invariant of the keyed search: recorded distances are weights of walks
/// from `s` to reachable keys and stay below `u32::MAX`, heap entries are never
/// better than the distance they were pushed for, and a node whose distance has
/// no heap entry (`skip` aside when `skipping`) is relaxed.
pub open spec fn keyed_search_inv<N>(
    g: KeyedGraph<N>,
    s: N,
    dist: Map<N, u32>,
    heap: Seq<(u32, N)>,
    skipping: bool,
    skip: N,
) -> bool {
    &&& dist.contains_key(s)
    &&& dist[s] == 0
    &&& forall|v: N|
        #[trigger] dist.contains_key(v) ==> keyed_has_walk(g, s, v, dist[v] as int) && reaches(g, s, v)
            && g.contains_key(v) && dist[v] < u32::MAX
    &&& forall|j: int|
        0 <= j < heap.len() ==> dist.contains_key((#[trigger] heap[j]).1) && dist[heap[j].1] <= heap[j].0
    &&& forall|u: N|
        #[trigger] dist.contains_key(u) && !(skipping && u == skip) && !heap.contains((dist[u], u))
            ==> keyed_relaxed(g, dist, u)
}

/// A node's contribution to the termination measure.
pub open spec fn keyed_potential<N>(dist: Map<N, u32>, v: N) -> int {
    if dist.contains_key(v) {
        dist[v] as int
    } else {
        0x1_0000_0000int
    }
}

pub open spec fn potential_sum<N>(order: Seq<N>, dist: Map<N, u32>) -> int
    decreases order.len(),
{
    if order.len() == 0 {
        0
    } else {
        potential_sum(order.drop_last(), dist) + keyed_potential(dist, order.last())
    }
}

proof fn lemma_potential_sum_nonneg<N>(order: Seq<N>, dist: Map<N, u32>)
    ensures
        potential_sum(order, dist) >= 0,
    decreases order.len(),
{
    if order.len() > 0 {
        lemma_potential_sum_nonneg(order.drop_last(), dist);
    }
}

/// Lowering one node's potential, and no other, lowers the sum over any
/// sequence that holds the node.
proof fn lemma_potential_sum_drops<N>(order: Seq<N>, d1: Map<N, u32>, d2: Map<N, u32>, v: N)
    requires
        forall|x: N| x != v ==> keyed_potential(d2, x) == keyed_potential(d1, x),
        keyed_potential(d2, v) < keyed_potential(d1, v),
    ensures
        potential_sum(order, d2) <= potential_sum(order, d1),
        order.contains(v) ==> potential_sum(order, d2) < potential_sum(order, d1),
    decreases order.len(),
{
    if order.len() > 0 {
        lemma_potential_sum_drops(order.drop_last(), d1, d2, v);
        if order.contains(v) && order.last() != v {
            let i = choose|i: int| 0 <= i < order.len() && order[i] == v;
            assert(order.drop_last()[i] == v);
        }
    }
}

proof fn lemma_keyed_cost_extend<N>(g: KeyedGraph<N>, nodes: Seq<N>, picks: Seq<int>, v: N, k: int, i: int)
    requires
        nodes.len() == picks.len() + 1,
        0 <= i <= picks.len(),
    ensures
        keyed_walk_cost(g, nodes.push(v), picks.push(k), i) == keyed_walk_cost(g, nodes, picks, i),
    decreases i,
{
    if i > 0 {
        lemma_keyed_cost_extend(g, nodes, picks, v, k, i - 1);
        assert(nodes.push(v)[i - 1] == nodes[i - 1]);
        assert(picks.push(k)[i - 1] == picks[i - 1]);
    }
}

/// A walk to `u` followed by `u`'s edge number `k` is a walk to that edge's target.
proof fn lemma_keyed_walk_extend<N>(g: KeyedGraph<N>, s: N, u: N, d: int, k: int)
    requires
        keyed_has_walk(g, s, u, d),
        g.contains_key(u),
        0 <= k < g[u]@.len(),
    ensures
        keyed_has_walk(g, s, g[u]@[k].0, d + g[u]@[k].1),
{
    let (nodes, picks) = choose|nodes: Seq<N>, picks: Seq<int>|
        #[trigger] keyed_walk_between(g, s, u, nodes, picks) && keyed_walk_cost(g, nodes, picks, picks.len() as int)
            == d;
    let v = g[u]@[k].0;
    let n2 = nodes.push(v);
    let p2 = picks.push(k);
    assert(keyed_is_walk(g, n2, p2)) by {
        assert forall|i: int| 0 <= i < p2.len() implies #[trigger] keyed_step_ok(g, n2, p2, i) by {
            if i < picks.len() {
                assert(keyed_step_ok(g, nodes, picks, i));
                assert(picks[i] == p2[i]);
                assert(n2[i] == nodes[i] && n2[i + 1] == nodes[i + 1]);
            } else {
                assert(n2[i] == nodes.last());
                assert(n2[i + 1] == v);
            }
        }
    }
    lemma_keyed_cost_extend(g, nodes, picks, v, k, picks.len() as int);
    assert(n2[0] == nodes[0]);
    assert(n2.last() == v);
    assert(keyed_walk_between(g, s, v, n2, p2));
    assert(keyed_walk_cost(g, n2, p2, p2.len() as int) == d + g[u]@[k].1);
}

proof fn lemma_keyed_walk_self<N>(g: KeyedGraph<N>, s: N)
    ensures
        keyed_has_walk(g, s, s, 0),
{
    let nodes = seq![s];
    let picks = Seq::<int>::empty();
    assert(keyed_walk_between(g, s, s, nodes, picks));
    assert(keyed_walk_cost(g, nodes, picks, 0) == 0);
}

proof fn lemma_keyed_cost_grows<N>(g: KeyedGraph<N>, nodes: Seq<N>, picks: Seq<int>, i: int)
    requires
        keyed_is_walk(g, nodes, picks),
        0 < i <= picks.len(),
    ensures
        keyed_walk_cost(g, nodes, picks, i) >= keyed_walk_cost(g, nodes, picks, i - 1),
{
    assert(keyed_step_ok(g, nodes, picks, i - 1));
}

/// Along a walk from `s` whose prefix weighs less than every heap entry, the
/// bounds are at most the prefix weights.
proof fn lemma_keyed_walk_bound<N>(
    g: KeyedGraph<N>,
    s: N,
    dist: Map<N, u32>,
    heap: Seq<(u32, N)>,
    nodes: Seq<N>,
    picks: Seq<int>,
    i: int,
    c: int,
)
    requires
        keyed_search_inv(g, s, dist, heap, false, s),
        keyed_is_walk(g, nodes, picks),
        nodes[0] == s,
        0 <= i <= picks.len(),
        keyed_walk_cost(g, nodes, picks, i) < c,
        forall|j: int| 0 <= j < heap.len() ==> (#[trigger] heap[j]).0 >= c,
    ensures
        known_bound(dist, nodes[i]) <= keyed_walk_cost(g, nodes, picks, i),
    decreases i,
{
    if i > 0 {
        let u = nodes[i - 1];
        let k = picks[i - 1];
        assert(keyed_step_ok(g, nodes, picks, i - 1));
        lemma_keyed_cost_grows(g, nodes, picks, i);
        lemma_keyed_walk_bound(g, s, dist, heap, nodes, picks, i - 1, c);
        if dist.contains_key(u) {
            let b = dist[u];
            if heap.contains((b, u)) {
                let j = choose|j: int| 0 <= j < heap.len() && heap[j] == (b, u);
                assert(heap[j].0 >= c);
            }
            assert(keyed_relaxed(g, dist, u));
            assert(g[u]@[k].0 == nodes[i]);
        }
    }
}

/// The least entry of the heap, when it matches its node's distance, gives
/// that node's shortest distance.
proof fn lemma_keyed_popped_exact<N>(g: KeyedGraph<N>, s: N, dist: Map<N, u32>, heap: Seq<(u32, N)>, u: N, c: int)
    requires
        keyed_search_inv(g, s, dist, heap, false, s),
        dist.contains_key(u),
        dist[u] == c,
        forall|j: int| 0 <= j < heap.len() ==> (#[trigger] heap[j]).0 >= c,
    ensures
        keyed_is_distance(g, s, u, c),
{
    assert forall|nodes: Seq<N>, picks: Seq<int>| #[trigger] keyed_walk_between(g, s, u, nodes, picks) implies
        keyed_walk_cost(g, nodes, picks, picks.len() as int) >= c by {
        if keyed_walk_cost(g, nodes, picks, picks.len() as int) < c {
            lemma_keyed_walk_bound(g, s, dist, heap, nodes, picks, picks.len() as int, c);
            assert(nodes[picks.len() as int] == u);
        }
    }
}

/// With an empty heap every recorded distance is the shortest one and every
/// node without one has no walk lighter than `u32::MAX`.
proof fn lemma_keyed_settled<N>(g: KeyedGraph<N>, s: N, dist: Map<N, u32>, heap: Seq<(u32, N)>)
    requires
        keyed_search_inv(g, s, dist, heap, false, s),
        heap.len() == 0,
    ensures
        forall|v: N| #[trigger] dist.contains_key(v) ==> keyed_is_distance(g, s, v, dist[v] as int),
        forall|v: N, nodes: Seq<N>, picks: Seq<int>|
            !dist.contains_key(v) && #[trigger] keyed_walk_between(g, s, v, nodes, picks) ==> keyed_walk_cost(
                g,
                nodes,
                picks,
                picks.len() as int,
            ) >= u32::MAX,
{
    assert forall|v: N, nodes: Seq<N>, picks: Seq<int>| #[trigger] keyed_walk_between(g, s, v, nodes, picks) implies
        known_bound(dist, v) <= keyed_walk_cost(g, nodes, picks, picks.len() as int) by {
        let k = keyed_walk_cost(g, nodes, picks, picks.len() as int);
        lemma_keyed_walk_bound(g, s, dist, heap, nodes, picks, picks.len() as int, k + 1);
        assert(nodes[picks.len() as int] == v);
    }
}

/// Removes and returns an entry of least cost.
fn pop_cheapest<Node: Copy>(heap: &mut Vec<(u32, Node)>) -> (r: (u32, Node))
    requires
        old(heap)@.len() > 0,
    ensures
        old(heap)@.contains(r),
        forall|j: int| 0 <= j < old(heap)@.len() ==> r.0 <= (#[trigger] old(heap)@[j]).0,
        final(heap)@.len() == old(heap)@.len() - 1,
        forall|y: (u32, Node)| #[trigger] final(heap)@.contains(y) ==> old(heap)@.contains(y),
        forall|y: (u32, Node)| #[trigger] old(heap)@.contains(y) && y != r ==> final(heap)@.contains(y),
{
    let mut best: usize = 0;
    let mut i: usize = 1;
    while i < heap.len()
        invariant
            1 <= i <= heap@.len(),
            best < i,
            forall|j: int| 0 <= j < i ==> heap@[best as int].0 <= (#[trigger] heap@[j]).0,
        decreases heap@.len() - i,
    {
        if heap[i].0 < heap[best].0 {
            best = i;
        }
        i = i + 1;
    }
    let ghost before = heap@;
    let r = heap.remove(best);
    proof {
        assert(before[best as int] == r);
        assert forall|y: (u32, Node)| #[trigger] heap@.contains(y) implies before.contains(y) by {
            let j = choose|j: int| 0 <= j < heap@.len() && heap@[j] == y;
            if j < best {
                assert(before[j] == y);
            } else {
                assert(before[j + 1] == y);
            }
        }
        assert forall|y: (u32, Node)| #[trigger] before.contains(y) && y != r implies heap@.contains(y) by {
            let j = choose|j: int| 0 <= j < before.len() && before[j] == y;
            if j < best {
                assert(heap@[j] == y);
            } else {
                assert(j != best);
                assert(heap@[j - 1] == y);
            }
        }
    }
    r
}

/// Lowering the distance of `v` to `new` through `u`'s edge number `k`, and
/// pushing the matching heap entry, keeps the search invariant.
proof fn lemma_keyed_relax_update<N>(
    g: KeyedGraph<N>,
    s: N,
    dist: Map<N, u32>,
    heap: Seq<(u32, N)>,
    u: N,
    c: int,
    k: int,
    new: u32,
)
    requires
        keys_cover_reach(g, s),
        keyed_search_inv(g, s, dist, heap, true, u),
        dist.contains_key(u),
        dist[u] == c,
        keyed_is_distance(g, s, u, c),
        0 <= k < g[u]@.len(),
        new == c + g[u]@[k].1,
        new < known_bound(dist, g[u]@[k].0),
        forall|j: int| 0 <= j < k ==> known_bound(dist, (#[trigger] g[u]@[j]).0) <= c + g[u]@[j].1,
    ensures
        ({
            let v = g[u]@[k].0;
            let dist2 = dist.insert(v, new);
            let heap2 = heap.push((new, v));
            &&& v != u
            &&& keyed_search_inv(g, s, dist2, heap2, true, u)
            &&& dist2.contains_key(u) && dist2[u] == c
            &&& forall|j: int| 0 <= j <= k ==> known_bound(dist2, (#[trigger] g[u]@[j]).0) <= c + g[u]@[j].1
            &&& forall|x: N| x != v ==> keyed_potential(dist2, x) == keyed_potential(dist, x)
            &&& keyed_potential(dist2, v) < keyed_potential(dist, v)
        }),
{
    let v = g[u]@[k].0;
    let dist2 = dist.insert(v, new);
    let heap2 = heap.push((new, v));
    assert(v != u);
    lemma_keyed_walk_extend(g, s, u, c, k);
    assert(linked(g, u, v));
    lemma_reaches_step(g, s, u, v);
    assert forall|x: N| #[trigger] dist2.contains_key(x) implies keyed_has_walk(g, s, x, dist2[x] as int) && reaches(
        g,
        s,
        x,
    ) && g.contains_key(x) && dist2[x] < u32::MAX by {
        if x != v {
            assert(dist.contains_key(x));
        }
    }
    assert forall|j: int| 0 <= j < heap2.len() implies dist2.contains_key((#[trigger] heap2[j]).1)
        && dist2[heap2[j].1] <= heap2[j].0 by {
        if j < heap.len() {
            assert(heap2[j] == heap[j]);
            assert(dist.contains_key(heap[j].1));
        }
    }
    assert forall|x: N|
        #[trigger] dist2.contains_key(x) && !(true && x == u) && !heap2.contains((dist2[x], x)) implies keyed_relaxed(
        g,
        dist2,
        x,
    ) by {
        if x == v {
            assert(heap2[heap.len() as int] == (new, v));
        } else {
            assert(dist.contains_key(x));
            assert(dist2[x] == dist[x]);
            if heap.contains((dist[x], x)) {
                let j = choose|j: int| 0 <= j < heap.len() && heap[j] == (dist[x], x);
                assert(heap2[j] == heap[j]);
            }
            assert(keyed_relaxed(g, dist, x));
            assert forall|kk: int| 0 <= kk < g[x]@.len() implies known_bound(dist2, (#[trigger] g[x]@[kk]).0)
                <= dist2[x] + g[x]@[kk].1 by {
                assert(known_bound(dist, g[x]@[kk].0) <= dist[x] + g[x]@[kk].1);
            }
        }
    }
    assert forall|j: int| 0 <= j <= k implies known_bound(dist2, (#[trigger] g[u]@[j]).0) <= c + g[u]@[j].1 by {
        if j < k {
            assert(known_bound(dist, g[u]@[j].0) <= c + g[u]@[j].1);
        }
    }
}

/// Relaxes every edge leaving `u`, whose distance `c` is final.
#[verifier::spinoff_prover]
fn relax_keyed_edges<Node: Copy + Eq + Hash>(
    edges: &[(Node, u32)],
    u: Node,
    c: u32,
    dist: &mut HashMap<Node, u32>,
    heap: &mut Vec<(u32, Node)>,
    Ghost(g): Ghost<KeyedGraph<Node>>,
    Ghost(s): Ghost<Node>,
    Ghost(order): Ghost<Seq<Node>>,
)
    requires
        obeys_key_model::<Node>(),
        keys_cover_reach(g, s),
        keyed_costs_fit(g, s),
        g.contains_key(u),
        edges@ == g[u]@,
        order.to_set() == g.dom(),
        old(dist)@.contains_key(u),
        old(dist)@[u] == c,
        keyed_is_distance(g, s, u, c as int),
        keyed_search_inv(g, s, old(dist)@, old(heap)@, true, u),
    ensures
        keyed_search_inv(g, s, final(dist)@, final(heap)@, false, s),
        potential_sum(order, final(dist)@) + final(heap)@.len() <= potential_sum(order, old(dist)@) + old(heap)@.len(),
{
    broadcast use vstd::std_specs::hash::group_hash_axioms;

    let mut k: usize = 0;
    while k < edges.len()
        invariant
            obeys_key_model::<Node>(),
            keys_cover_reach(g, s),
            keyed_costs_fit(g, s),
            g.contains_key(u),
            edges@ == g[u]@,
            order.to_set() == g.dom(),
            k <= edges@.len(),
            dist@.contains_key(u),
            dist@[u] == c,
            keyed_is_distance(g, s, u, c as int),
            keyed_search_inv(g, s, dist@, heap@, true, u),
            forall|j: int| 0 <= j < k ==> known_bound(dist@, (#[trigger] g[u]@[j]).0) <= c + g[u]@[j].1,
            potential_sum(order, dist@) + heap@.len() <= potential_sum(order, old(dist)@) + old(heap)@.len(),
        decreases edges@.len() - k,
    {
        let (neighbor, weight) = edges[k];
        proof {
            assert(g[u]@[k as int] == (neighbor, weight));
            assert(c + weight <= u32::MAX);
        }
        let new_distance = c + weight;
        let best: u32 = match dist.get(&neighbor) {
            Some(b) => *b,
            None => u32::MAX,
        };
        if new_distance < best {
            proof {
                lemma_keyed_relax_update(g, s, dist@, heap@, u, c as int, k as int, new_distance);
                let v = neighbor;
                let d2 = dist@.insert(v, new_distance);
                assert(reaches(g, s, v));
                assert(g.dom().contains(v));
                assert(order.to_set().contains(v));
                assert(order.contains(v));
                lemma_potential_sum_drops(order, dist@, d2, v);
            }
            dist.insert(neighbor, new_distance);
            heap.push((new_distance, neighbor));
        } else {
            proof {
                assert forall|j: int| 0 <= j <= k implies known_bound(dist@, (#[trigger] g[u]@[j]).0) <= c
                    + g[u]@[j].1 by {}
            }
        }
        k = k + 1;
    }
    proof {
        assert(keyed_relaxed(g, dist@, u));
    }
}

/// Shortest distances from `start_node` over a graph keyed by node: the map
/// holds exactly the nodes reached by a walk lighter than `u32::MAX`, each with
/// the least weight of a walk to it.
pub fn dijkstra<Node>(graph: &GraphAdjList<Node>, start_node: Node) -> (r: HashMap<Node, u32>)
    where
        Node: Copy + Eq + Hash + Ord,
    requires
        obeys_key_model::<Node>(),
        keys_cover_reach(graph@, start_node),
        keyed_costs_fit(graph@, start_node),
    ensures
        forall|v: Node|
            #[trigger] r@.contains_key(v) ==> r@[v] < u32::MAX && keyed_is_distance(graph@, start_node, v, r@[v] as int),
        forall|v: Node, nodes: Seq<Node>, picks: Seq<int>|
            !r@.contains_key(v) && #[trigger] keyed_walk_between(graph@, start_node, v, nodes, picks)
                ==> keyed_walk_cost(graph@, nodes, picks, picks.len() as int) >= u32::MAX,
{
    broadcast use vstd::std_specs::hash::group_hash_axioms;

    let ghost g = graph@;
    let ghost s = start_node;
    let ghost order = g.dom().to_seq();
    proof {
        g.dom().lemma_to_seq_to_set_id();
        lemma_reaches_self(g, s);
        lemma_keyed_walk_self(g, s);
    }
    let mut distances: HashMap<Node, u32> = HashMap::new();
    distances.insert(start_node, 0);
    let mut min_heap: Vec<(u32, Node)> = Vec::new();
    min_heap.push((0, start_node));
    proof {
        assert forall|x: Node|
            #[trigger] distances@.contains_key(x) && !(false && x == s) && !min_heap@.contains((distances@[x], x))
                implies keyed_relaxed(g, distances@, x) by {
            assert(x == s);
            assert(min_heap@[0] == (0u32, start_node));
        }
    }
    loop
        invariant
            obeys_key_model::<Node>(),
            g == graph@,
            s == start_node,
            order.to_set() == g.dom(),
            keys_cover_reach(g, s),
            keyed_costs_fit(g, s),
            keyed_search_inv(g, s, distances@, min_heap@, false, s),
        decreases potential_sum(order, distances@) + min_heap@.len(),
    {
        if min_heap.len() == 0 {
            proof {
                lemma_keyed_settled(g, s, distances@, min_heap@);
            }
            return distances;
        }
        let ghost heap0 = min_heap@;
        let (current_cost, current_node) = pop_cheapest(&mut min_heap);
        proof {
            let j = choose|j: int| 0 <= j < heap0.len() && heap0[j] == (current_cost, current_node);
            assert(distances@.contains_key(heap0[j].1));
            lemma_potential_sum_nonneg(order, distances@);
        }
        let best: u32 = *distances.get(&current_node).unwrap();
        if current_cost > best {
            proof {
                assert forall|x: Node|
                    #[trigger] distances@.contains_key(x) && !(false && x == s) && !min_heap@.contains(
                        (distances@[x], x),
                    ) implies keyed_relaxed(g, distances@, x) by {
                    if heap0.contains((distances@[x], x)) {
                        assert((distances@[x], x) != (current_cost, current_node));
                    }
                }
                assert forall|j: int| 0 <= j < min_heap@.len() implies distances@.contains_key(
                    (#[trigger] min_heap@[j]).1,
                ) && distances@[min_heap@[j].1] <= min_heap@[j].0 by {
                    assert(min_heap@.contains(min_heap@[j]));
                    assert(heap0.contains(min_heap@[j]));
                }
            }
        } else {
            proof {
                assert forall|j: int| 0 <= j < heap0.len() implies (#[trigger] heap0[j]).0 >= current_cost by {}
                lemma_keyed_popped_exact(g, s, distances@, heap0, current_node, current_cost as int);
                assert forall|x: Node|
                    #[trigger] distances@.contains_key(x) && !(true && x == current_node) && !min_heap@.contains(
                        (distances@[x], x),
                    ) implies keyed_relaxed(g, distances@, x) by {
                    if heap0.contains((distances@[x], x)) {
                        assert((distances@[x], x) != (current_cost, current_node));
                    }
                }
                assert forall|j: int| 0 <= j < min_heap@.len() implies distances@.contains_key(
                    (#[trigger] min_heap@[j]).1,
                ) && distances@[min_heap@[j].1] <= min_heap@[j].0 by {
                    assert(min_heap@.contains(min_heap@[j]));
                    assert(heap0.contains(min_heap@[j]));
                }
            }
            let edges: &[(Node, u32)] = graph.get(&current_node).unwrap();
            relax_keyed_edges(
                edges,
                current_node,
                current_cost,
                &mut distances,
                &mut min_heap,
                Ghost(g),
                Ghost(s),
                Ghost(order),
            );
        }
        proof {
            lemma_potential_sum_nonneg(order, distances@);
        }
    }
}

} // verus!
