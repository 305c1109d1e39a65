//! Breadth-first search, over an index-based adjacency list and over one keyed by node.
use vstd::prelude::*;
use std::collections::{HashMap, HashSet, VecDeque};
use std::hash::Hash;
use vstd::std_specs::hash::obeys_key_model;
use crate::graph_map::{keyed_search_order, keys_cover_reach, lemma_closed_set_reaches,
    lemma_distinct_in_set, lemma_reaches_self, lemma_reaches_step, linked, reaches, KeyedGraph};
use crate::graph::{adjacency, edge, lemma_reach_bound, reach_closed, lemma_closed_set_reachable, lemma_reachable_self,
    lemma_reachable_step, reachable, Adjacency};

verus! {

/// Adjacency list keyed by node: each node maps to its `(neighbor, weight)` edges.
pub type GraphAdjList<'a, Node> = HashMap<Node, &'a [(Node, u32)]>;

/// `order` lists, without repeats, exactly the nodes reachable from `start`,
/// starting with `start`, each later node reached by an edge from an earlier one.
pub open spec fn search_order(g: Adjacency, start: int, order: Seq<usize>) -> bool {
    &&& order.len() > 0
    &&& order[0] == start
    &&& order.no_duplicates()
    &&& forall|k: int| 0 <= k < order.len() ==> reachable(g, start, #[trigger] order[k] as int)
    &&& forall|v: int| reachable(g, start, v) ==> order.contains(v as usize)
    &&& forall|k: int|
        0 < k < order.len() ==> exists|j: int| 0 <= j < k && edge(g, order[j] as int, #[trigger] order[k] as int)
}

/// The nodes met so far (`seen`) are exactly the marked ones, start with
/// `start`, have no repeats, are reachable, and each later one hangs off an
/// earlier one by an edge.
pub open spec fn discovered(g: Adjacency, start: int, visited: Seq<bool>, seen: Seq<usize>) -> bool {
    &&& seen.len() > 0
    &&& seen[0] == start
    &&& seen.no_duplicates()
    &&& forall|v: int| 0 <= v < visited.len() ==> (#[trigger] visited[v] <==> seen.contains(v as usize))
    &&& forall|k: int|
        0 <= k < seen.len() ==> (#[trigger] seen[k]) < visited.len() && reachable(g, start, seen[k] as int)
    &&& forall|k: int|
        0 < k < seen.len() ==> exists|j: int| 0 <= j < k && edge(g, seen[j] as int, #[trigger] seen[k] as int)
}

/// Every edge out of a node of `done` leads to a marked node.
pub open spec fn closed_over(g: Adjacency, visited: Seq<bool>, done: Seq<usize>, skip: int) -> bool {
    forall|u: int, w: int|
        done.contains(u as usize) && u != skip && 0 <= u < g.len() && #[trigger] edge(g, u, w)
            ==> 0 <= w < visited.len() && visited[w]
}

/// The position in `order` of the first node with an edge to `v`, or the
/// length of `order` when none has one.
pub open spec fn first_parent(g: Adjacency, order: Seq<usize>, v: int) -> int
    decreases order.len(),
{
    if order.len() == 0 {
        0
    } else {
        let p = first_parent(g, order.drop_last(), v);
        if p < order.len() - 1 {
            p
        } else if edge(g, order.last() as int, v) {
            order.len() - 1
        } else {
            order.len() as int
        }
    }
}

/// The position of the first edge to `v` among `edges`, or their number when
/// none leads there.
pub open spec fn first_edge(edges: Seq<(usize, u32)>, v: int) -> int
    decreases edges.len(),
{
    if edges.len() == 0 {
        0
    } else {
        let k = first_edge(edges.drop_last(), v);
        if k < edges.len() - 1 {
            k
        } else if edges.last().0 == v {
            edges.len() - 1
        } else {
            edges.len() as int
        }
    }
}

/// `a` is discovered before `b` in a search that visits `order`: its first
/// parent comes earlier, or the two share it and `a`'s edge comes first.
pub open spec fn discovered_before(g: Adjacency, order: Seq<usize>, a: int, b: int) -> bool {
    let pa = first_parent(g, order, a);
    let pb = first_parent(g, order, b);
    pa < pb || (pa == pb && first_edge(g[order[pa] as int], a) < first_edge(g[order[pb] as int], b))
}

/// The nodes after the first come in the order they are discovered.
pub open spec fn in_discovery_order(g: Adjacency, order: Seq<usize>) -> bool {
    forall|i: int, j: int|
        1 <= i < j < order.len() ==> discovered_before(g, order, #[trigger] order[i] as int, #[trigger] order[j] as int)
}

/// `order` is the breadth-first visiting order from `start`: a search order
/// whose nodes after `start` come as they are discovered, by the earliest
/// visited node with an edge to them and by that node's first such edge.
pub open spec fn bfs_order(g: Adjacency, start: int, order: Seq<usize>) -> bool {
    search_order(g, start, order) && in_discovery_order(g, order)
}

proof fn lemma_first_parent_none(g: Adjacency, order: Seq<usize>, v: int)
    requires
        forall|j: int| 0 <= j < order.len() ==> !edge(g, #[trigger] order[j] as int, v),
    ensures
        first_parent(g, order, v) == order.len(),
    decreases order.len(),
{
    if order.len() > 0 {
        assert forall|j: int| 0 <= j < order.drop_last().len() implies !edge(
            g,
            #[trigger] order.drop_last()[j] as int,
            v,
        ) by {
            assert(order.drop_last()[j] == order[j]);
        }
        lemma_first_parent_none(g, order.drop_last(), v);
        assert(order.last() == order[order.len() - 1]);
    }
}

proof fn lemma_first_parent_is(g: Adjacency, order: Seq<usize>, v: int, p: int)
    requires
        0 <= p < order.len(),
        edge(g, order[p] as int, v),
        forall|j: int| 0 <= j < p ==> !edge(g, #[trigger] order[j] as int, v),
    ensures
        first_parent(g, order, v) == p,
    decreases order.len(),
{
    let front = order.drop_last();
    if p == order.len() - 1 {
        assert forall|j: int| 0 <= j < front.len() implies !edge(g, #[trigger] front[j] as int, v) by {
            assert(front[j] == order[j]);
        }
        lemma_first_parent_none(g, front, v);
        assert(order.last() == order[p]);
    } else {
        assert(front[p] == order[p]);
        assert forall|j: int| 0 <= j < p implies !edge(g, #[trigger] front[j] as int, v) by {
            assert(front[j] == order[j]);
        }
        lemma_first_parent_is(g, front, v, p);
    }
}

proof fn lemma_first_parent_bounds(g: Adjacency, order: Seq<usize>, v: int)
    ensures
        0 <= first_parent(g, order, v) <= order.len(),
    decreases order.len(),
{
    if order.len() > 0 {
        lemma_first_parent_bounds(g, order.drop_last(), v);
    }
}

proof fn lemma_first_parent_push(g: Adjacency, order: Seq<usize>, w: usize, v: int)
    requires
        first_parent(g, order, v) < order.len(),
    ensures
        first_parent(g, order.push(w), v) == first_parent(g, order, v),
{
    assert(order.push(w).drop_last() =~= order);
}

proof fn lemma_first_edge_none(edges: Seq<(usize, u32)>, v: int)
    requires
        forall|j: int| 0 <= j < edges.len() ==> (#[trigger] edges[j]).0 != v,
    ensures
        first_edge(edges, v) == edges.len(),
    decreases edges.len(),
{
    if edges.len() > 0 {
        assert forall|j: int| 0 <= j < edges.drop_last().len() implies (#[trigger] edges.drop_last()[j]).0 != v by {
            assert(edges.drop_last()[j] == edges[j]);
        }
        lemma_first_edge_none(edges.drop_last(), v);
        assert(edges.last() == edges[edges.len() - 1]);
    }
}

proof fn lemma_first_edge_is(edges: Seq<(usize, u32)>, v: int, k: int)
    requires
        0 <= k < edges.len(),
        edges[k].0 == v,
        forall|j: int| 0 <= j < k ==> (#[trigger] edges[j]).0 != v,
    ensures
        first_edge(edges, v) == k,
    decreases edges.len(),
{
    let front = edges.drop_last();
    if k == edges.len() - 1 {
        assert forall|j: int| 0 <= j < front.len() implies (#[trigger] front[j]).0 != v by {
            assert(front[j] == edges[j]);
        }
        lemma_first_edge_none(front, v);
        assert(edges.last() == edges[k]);
    } else {
        assert(front[k] == edges[k]);
        assert forall|j: int| 0 <= j < k implies (#[trigger] front[j]).0 != v by {
            assert(front[j] == edges[j]);
        }
        lemma_first_edge_is(front, v, k);
    }
}

/// Every node after the first was discovered by the node at position
/// `bound` or earlier; those discovered by `bound` itself come through one of
/// its first `k` edges.
pub open spec fn frontier(g: Adjacency, seen: Seq<usize>, bound: int, k: int) -> bool {
    forall|i: int|
        1 <= i < seen.len() ==> first_parent(g, seen, #[trigger] seen[i] as int) < bound || (first_parent(
            g,
            seen,
            seen[i] as int,
        ) == bound && first_edge(g[seen[bound] as int], seen[i] as int) < k)
}

/// Appending `w`, discovered by the node at position `c` through its edge
/// number `k`, keeps the discovery order.
proof fn lemma_append_discovered(g: Adjacency, seen: Seq<usize>, c: int, k: int, w: usize)
    requires
        0 <= c < seen.len(),
        0 <= seen[c] < g.len(),
        0 <= k < g[seen[c] as int].len(),
        g[seen[c] as int][k].0 == w,
        forall|j: int| 0 <= j < c ==> !edge(g, #[trigger] seen[j] as int, w as int),
        forall|j: int| 0 <= j < k ==> (#[trigger] g[seen[c] as int][j]).0 != w,
        in_discovery_order(g, seen),
        frontier(g, seen, c, k),
    ensures
        in_discovery_order(g, seen.push(w)),
        frontier(g, seen.push(w), c, k + 1),
{
    let s2 = seen.push(w);
    let u = seen[c] as int;
    assert(edge(g, u, w as int));
    assert(s2[c] == seen[c]);
    assert forall|j: int| 0 <= j < c implies !edge(g, #[trigger] s2[j] as int, w as int) by {
        assert(s2[j] == seen[j]);
    }
    lemma_first_parent_is(g, s2, w as int, c);
    lemma_first_edge_is(g[u], w as int, k);
    assert forall|i: int| 1 <= i < seen.len() implies first_parent(g, s2, #[trigger] seen[i] as int) == first_parent(
        g,
        seen,
        seen[i] as int,
    ) && s2[first_parent(g, s2, seen[i] as int)] == seen[first_parent(g, seen, seen[i] as int)] by {
        lemma_first_parent_bounds(g, seen, seen[i] as int);
        lemma_first_parent_push(g, seen, w, seen[i] as int);
    }
    assert forall|i: int, j: int| 1 <= i < j < s2.len() implies discovered_before(
        g,
        s2,
        #[trigger] s2[i] as int,
        #[trigger] s2[j] as int,
    ) by {
        assert(s2[i] == seen[i]);
        if j < seen.len() {
            assert(s2[j] == seen[j]);
        }
    }
    assert forall|i: int| 1 <= i < s2.len() implies first_parent(g, s2, #[trigger] s2[i] as int) < c || (
    first_parent(g, s2, s2[i] as int) == c && first_edge(g[s2[c] as int], s2[i] as int) < k + 1) by {
        if i < seen.len() {
            assert(s2[i] == seen[i]);
        }
    }
}

/// A sequence of `n` unmarked flags.
pub fn unmarked(n: usize) -> (visited: Vec<bool>)
    ensures
        visited@.len() == n,
        forall|j: int| 0 <= j < n ==> !visited@[j],
{
    let mut visited: Vec<bool> = Vec::new();
    let mut i: usize = 0;
    while i < n
        invariant
            i <= n,
            visited@.len() == i,
            forall|j: int| 0 <= j < i ==> !visited@[j],
        decreases n - i,
    {
        visited.push(false);
        i = i + 1;
    }
    visited
}

/// Marks and enqueues the unmarked neighbours of `current`, the last node of `done`.
#[verifier::spinoff_prover]
fn enqueue_neighbors(
    graph: &[Vec<(usize, u32)>],
    current: usize,
    visited: &mut Vec<bool>,
    queue: &mut VecDeque<usize>,
    Ghost(start): Ghost<int>,
    Ghost(done): Ghost<Seq<usize>>,
)
    requires
        reach_closed(adjacency(graph@), start),
        current < graph@.len(),
        old(visited)@.len() == graph@.len(),
        done.len() > 0,
        done.last() == current,
        discovered(adjacency(graph@), start, old(visited)@, done + old(queue)@),
        closed_over(adjacency(graph@), old(visited)@, done, current as int),
        in_discovery_order(adjacency(graph@), done + old(queue)@),
        frontier(adjacency(graph@), done + old(queue)@, done.len() - 1, 0),
    ensures
        final(visited)@.len() == graph@.len(),
        discovered(adjacency(graph@), start, final(visited)@, done + final(queue)@),
        closed_over(adjacency(graph@), final(visited)@, done, -1),
        in_discovery_order(adjacency(graph@), done + final(queue)@),
        frontier(adjacency(graph@), done + final(queue)@, done.len() - 1, graph@[current as int]@.len() as int),
{
    let ghost g = adjacency(graph@);
    let len = graph.len();
    let ghost n = graph@.len();
    let edges = &graph[current];
    proof {
        assert(edges@ == g[current as int]);
    }
    let mut k: usize = 0;
    while k < edges.len()
        invariant
            g == adjacency(graph@),
            n == graph@.len(),
            n == len,
            g.len() == n,
            reach_closed(g, start),
            current < n,
            edges@ == g[current as int],
            done.len() > 0,
            done.last() == current,
            k <= edges@.len(),
            visited@.len() == n,
            discovered(g, start, visited@, done + queue@),
            closed_over(g, visited@, done, current as int),
            forall|j: int| 0 <= j < k ==> (#[trigger] edges@[j]).0 < n && visited@[edges@[j].0 as int],
            in_discovery_order(g, done + queue@),
            frontier(g, done + queue@, done.len() - 1, k as int),
        decreases edges@.len() - k,
    {
        let neighbor = edges[k].0;
        proof {
            assert(g[current as int][k as int] == edges@[k as int]);
            assert(edge(g, current as int, neighbor as int));
            assert((done + queue@)[done.len() - 1] == current);
            lemma_reachable_step(g, start, current as int, neighbor as int);
            lemma_reach_bound(g, start, neighbor as int);
        }
        if !visited[neighbor] {
            let ghost before = done + queue@;
            let ghost vbefore = visited@;
            proof {
                let c = done.len() - 1;
                assert(before[c] == current);
                assert forall|j: int| 0 <= j < c implies !edge(g, #[trigger] before[j] as int, neighbor as int) by {
                    assert(before[j] == done[j]);
                    assert(done.contains(done[j]));
                    assert(before[j] != before[c]);
                }
                assert forall|j: int| 0 <= j < k implies (#[trigger] g[before[c] as int][j]).0 != neighbor by {
                    assert(edges@[j] == g[current as int][j]);
                }
                lemma_append_discovered(g, before, c, k as int, neighbor);
            }
            visited.set(neighbor, true);
            queue.push_back(neighbor);
            proof {
                let after = done + queue@;
                assert(after =~= before.push(neighbor));
                assert(!before.contains(neighbor));
                assert(before[done.len() - 1] == current);
                assert(reachable(g, start, before[done.len() - 1] as int));
                lemma_reachable_step(g, start, current as int, neighbor as int);
                assert forall|t: int| 0 < t < after.len() implies exists|j: int|
                    0 <= j < t && edge(g, after[j] as int, #[trigger] after[t] as int) by {
                    if t == after.len() - 1 {
                        assert(edge(g, after[done.len() - 1] as int, after[t] as int));
                    } else {
                        assert(after[t] == before[t]);
                        let j = choose|j: int| 0 <= j < t && edge(g, before[j] as int, #[trigger] before[t] as int);
                        assert(after[j] == before[j]);
                    }
                }
                assert forall|t: int| 0 <= t < after.len() implies (#[trigger] after[t]) < n
                    && reachable(g, start, after[t] as int) by {
                    if t < before.len() {
                        assert(after[t] == before[t]);
                    }
                }
                assert forall|v: int| 0 <= v < n implies (#[trigger] visited@[v] <==> after.contains(v as usize)) by {
                    if v == neighbor {
                        assert(after[after.len() - 1] == neighbor);
                    } else {
                        assert(visited@[v] == vbefore[v]);
                        if before.contains(v as usize) {
                            let j = choose|j: int| 0 <= j < before.len() && before[j] == v as usize;
                            assert(after[j] == before[j]);
                        } else if after.contains(v as usize) {
                            let j = choose|j: int| 0 <= j < after.len() && after[j] == v as usize;
                            if j < before.len() {
                                assert(before[j] == after[j]);
                            }
                        }
                    }
                }
                assert(after.no_duplicates());
                assert forall|j: int| 0 <= j <= k implies (#[trigger] edges@[j]).0 < n && visited@[edges@[j].0 as int] by {
                    if j < k {
                        assert(vbefore[edges@[j].0 as int]);
                    }
                }
            }
        } else {
            proof {
                assert(frontier(g, done + queue@, done.len() - 1, k + 1));
            }
        }
        k = k + 1;
    }
    proof {
        assert forall|u: int, w: int|
            done.contains(u as usize) && u != -1 && 0 <= u < g.len() && #[trigger] edge(g, u, w)
                implies 0 <= w < visited@.len() && visited@[w] by {
            if u == current {
                let j = choose|j: int| 0 <= j < g[u].len() && (#[trigger] g[u][j]).0 == w;
                assert(edges@[j] == g[u][j]);
            }
        }
    }
}

/// BFS from `start_node`: the reachable nodes in visiting order, level by level.
#[verifier::spinoff_prover]
#[verifier::rlimit(40)]
pub fn bfs_vec(graph: &[Vec<(usize, u32)>], start_node: usize) -> (r: Vec<usize>)
    requires
        reach_closed(adjacency(graph@), start_node as int),
    ensures
        bfs_order(adjacency(graph@), start_node as int, r@),
{
    let ghost g = adjacency(graph@);
    proof {
        lemma_reachable_self(g, start_node as int);
        lemma_reach_bound(g, start_node as int, start_node as int);
    }
    let n = graph.len();
    let mut visited = unmarked(n);
    let mut queue: VecDeque<usize> = VecDeque::new();
    queue.push_back(start_node);
    let mut result: Vec<usize> = Vec::new();
    visited.set(start_node, true);
    proof {
        lemma_reachable_self(g, start_node as int);
        let seen = result@ + queue@;
        assert(seen =~= seq![start_node]);
        assert forall|v: int| 0 <= v < n implies (#[trigger] visited@[v] <==> seen.contains(v as usize)) by {
            if v == start_node {
                assert(seen[0] == start_node);
            }
        }
        assert(in_discovery_order(g, seen));
        assert(frontier(g, seen, 0, 0));
    }
    loop
        invariant
            g == adjacency(graph@),
            n == graph@.len(),
            g.len() == n,
            reach_closed(g, start_node as int),
            start_node < n,
            visited@.len() == n,
            discovered(g, start_node as int, visited@, result@ + queue@),
            closed_over(g, visited@, result@, -1),
            in_discovery_order(g, result@ + queue@),
            frontier(g, result@ + queue@, result@.len() as int, 0),
        decreases n - result@.len(),
    {
        let ghost seen = result@ + queue@;
        let current = match queue.pop_front() {
            Some(c) => c,
            None => {
                proof {
                    assert(seen =~= result@);
                    lemma_complete(g, start_node as int, visited@, result@);
                    assert(in_discovery_order(g, result@));
                }
                return result;
            },
        };
        result.push(current);
        proof {
            assert(result@ + queue@ =~= seen);
            assert(seen[result@.len() - 1] == current);
            assert forall|u: int, w: int|
                result@.contains(u as usize) && u != current && 0 <= u < g.len() && #[trigger] edge(g, u, w)
                    implies 0 <= w < visited@.len() && visited@[w] by {
                let j = choose|j: int| 0 <= j < result@.len() && result@[j] == u as usize;
                if j == result@.len() - 1 {
                    assert(result@[j] == current);
                } else {
                    assert(result@.drop_last()[j] == result@[j]);
                    assert(result@.drop_last().contains(u as usize));
                }
            }
        }
        enqueue_neighbors(graph, current, &mut visited, &mut queue, Ghost(start_node as int), Ghost(result@));
        proof {
            lemma_prefix_bounded(result@, queue@, n as int);
            let now = result@ + queue@;
            let c = result@.len() - 1;
            assert forall|i: int| 1 <= i < now.len() implies first_parent(g, now, #[trigger] now[i] as int) < result@.len()
                || (first_parent(g, now, now[i] as int) == result@.len() && first_edge(
                g[now[result@.len() as int] as int],
                now[i] as int,
            ) < 0) by {
                assert(frontier(g, now, c, graph@[current as int]@.len() as int));
            }
        }
    }
}

/// When nothing is left to visit, the visiting order is a full search order.
pub proof fn lemma_complete(g: Adjacency, start: int, visited: Seq<bool>, result: Seq<usize>)
    requires
        0 <= start < g.len(),
        visited.len() == g.len(),
        discovered(g, start, visited, result),
        closed_over(g, visited, result, -1),
    ensures
        search_order(g, start, result),
{
    let n = g.len();
    let set = Set::new(|x: int| 0 <= x < n && visited[x]);
    assert forall|u: int, w: int| set.contains(u) && #[trigger] edge(g, u, w) implies set.contains(w) by {
        assert(result.contains(u as usize));
    }
    assert forall|v: int| reachable(g, start, v) implies result.contains(v as usize) by {
        assert(result[0] == start);
        assert(visited[start]);
        lemma_closed_set_reachable(g, start, set, v);
    }
    assert forall|k: int| 0 <= k < result.len() implies reachable(g, start, #[trigger] result[k] as int) by {
        assert(result[k] < visited.len());
    }
}

/// A repeat-free sequence of nodes below `n` followed by more of them has a
/// prefix of at most `n` nodes.
proof fn lemma_prefix_bounded(done: Seq<usize>, rest: Seq<usize>, n: int)
    requires
        n >= 0,
        (done + rest).no_duplicates(),
        forall|k: int| 0 <= k < (done + rest).len() ==> (#[trigger] (done + rest)[k]) < n,
    ensures
        done.len() <= n,
{
    let c = done + rest;
    assert forall|a: int, b: int| 0 <= a < b < done.len() implies done[a] != done[b] by {
        assert(c[a] == done[a] && c[b] == done[b]);
    }
    assert forall|k: int| 0 <= k < done.len() implies (#[trigger] done[k]) < n by {
        assert(c[k] == done[k]);
    }
    crate::graph::lemma_distinct_below(done, n);
}


/// The marked nodes are exactly those met so far (`seen`), which start with
/// `start`, have no repeats, are keys of `g` reachable from `start`, and each
/// later one hangs off an earlier one by an edge.
pub open spec fn keyed_discovered<N>(g: KeyedGraph<N>, start: N, visited: Set<N>, seen: Seq<N>) -> bool {
    &&& seen.len() > 0
    &&& seen[0] == start
    &&& seen.no_duplicates()
    &&& forall|v: N| #![trigger visited.contains(v)] #![trigger seen.contains(v)]
        visited.contains(v) <==> seen.contains(v)
    &&& forall|k: int|
        0 <= k < seen.len() ==> g.contains_key(#[trigger] seen[k]) && reaches(g, start, seen[k])
    &&& forall|k: int|
        0 < k < seen.len() ==> exists|j: int| 0 <= j < k && linked(g, seen[j], #[trigger] seen[k])
}

/// Every edge out of a node of `done`, `skip` aside when `skipping`, leads to a marked node.
pub open spec fn keyed_closed_over<N>(
    g: KeyedGraph<N>,
    visited: Set<N>,
    done: Seq<N>,
    skipping: bool,
    skip: N,
) -> bool {
    forall|u: N, w: N|
        done.contains(u) && !(skipping && u == skip) && #[trigger] linked(g, u, w) ==> visited.contains(w)
}


/// The position in `order` of the first node with an edge to `v` in a keyed
/// graph, or the length of `order` when none has one.
pub open spec fn keyed_first_parent<N>(g: KeyedGraph<N>, order: Seq<N>, v: N) -> int
    decreases order.len(),
{
    if order.len() == 0 {
        0
    } else {
        let p = keyed_first_parent(g, order.drop_last(), v);
        if p < order.len() - 1 {
            p
        } else if linked(g, order.last(), v) {
            order.len() - 1
        } else {
            order.len() as int
        }
    }
}

/// The position of the first edge to `v` among `edges`, or their number when
/// none leads there.
pub open spec fn keyed_first_edge<N>(edges: Seq<(N, u32)>, v: N) -> int
    decreases edges.len(),
{
    if edges.len() == 0 {
        0
    } else {
        let k = keyed_first_edge(edges.drop_last(), v);
        if k < edges.len() - 1 {
            k
        } else if edges.last().0 == v {
            edges.len() - 1
        } else {
            edges.len() as int
        }
    }
}

/// `a` is discovered before `b` in a search that visits `order`.
pub open spec fn keyed_discovered_before<N>(g: KeyedGraph<N>, order: Seq<N>, a: N, b: N) -> bool {
    let pa = keyed_first_parent(g, order, a);
    let pb = keyed_first_parent(g, order, b);
    pa < pb || (pa == pb && keyed_first_edge(g[order[pa]]@, a) < keyed_first_edge(g[order[pb]]@, b))
}

/// The nodes after the first come in the order they are discovered.
pub open spec fn keyed_in_discovery_order<N>(g: KeyedGraph<N>, order: Seq<N>) -> bool {
    forall|i: int, j: int|
        1 <= i < j < order.len() ==> keyed_discovered_before(g, order, #[trigger] order[i], #[trigger] order[j])
}

/// `order` is the breadth-first visiting order from `start` in a keyed graph.
pub open spec fn keyed_bfs_order<N>(g: KeyedGraph<N>, start: N, order: Seq<N>) -> bool {
    keyed_search_order(g, start, order) && keyed_in_discovery_order(g, order)
}

proof fn lemma_keyed_first_parent_none<N>(g: KeyedGraph<N>, order: Seq<N>, v: N)
    requires
        forall|j: int| 0 <= j < order.len() ==> !linked(g, #[trigger] order[j], v),
    ensures
        keyed_first_parent(g, order, v) == order.len(),
    decreases order.len(),
{
    if order.len() > 0 {
        assert forall|j: int| 0 <= j < order.drop_last().len() implies !linked(g, #[trigger] order.drop_last()[j], v) by {
            assert(order.drop_last()[j] == order[j]);
        }
        lemma_keyed_first_parent_none(g, order.drop_last(), v);
        assert(order.last() == order[order.len() - 1]);
    }
}

proof fn lemma_keyed_first_parent_is<N>(g: KeyedGraph<N>, order: Seq<N>, v: N, p: int)
    requires
        0 <= p < order.len(),
        linked(g, order[p], v),
        forall|j: int| 0 <= j < p ==> !linked(g, #[trigger] order[j], v),
    ensures
        keyed_first_parent(g, order, v) == p,
    decreases order.len(),
{
    let front = order.drop_last();
    if p == order.len() - 1 {
        assert forall|j: int| 0 <= j < front.len() implies !linked(g, #[trigger] front[j], v) by {
            assert(front[j] == order[j]);
        }
        lemma_keyed_first_parent_none(g, front, v);
        assert(order.last() == order[p]);
    } else {
        assert(front[p] == order[p]);
        assert forall|j: int| 0 <= j < p implies !linked(g, #[trigger] front[j], v) by {
            assert(front[j] == order[j]);
        }
        lemma_keyed_first_parent_is(g, front, v, p);
    }
}

proof fn lemma_keyed_first_parent_bounds<N>(g: KeyedGraph<N>, order: Seq<N>, v: N)
    ensures
        0 <= keyed_first_parent(g, order, v) <= order.len(),
    decreases order.len(),
{
    if order.len() > 0 {
        lemma_keyed_first_parent_bounds(g, order.drop_last(), v);
    }
}

proof fn lemma_keyed_first_parent_push<N>(g: KeyedGraph<N>, order: Seq<N>, w: N, v: N)
    requires
        keyed_first_parent(g, order, v) < order.len(),
    ensures
        keyed_first_parent(g, order.push(w), v) == keyed_first_parent(g, order, v),
{
    assert(order.push(w).drop_last() =~= order);
}

proof fn lemma_keyed_first_edge_none<N>(edges: Seq<(N, u32)>, v: N)
    requires
        forall|j: int| 0 <= j < edges.len() ==> (#[trigger] edges[j]).0 != v,
    ensures
        keyed_first_edge(edges, v) == edges.len(),
    decreases edges.len(),
{
    if edges.len() > 0 {
        assert forall|j: int| 0 <= j < edges.drop_last().len() implies (#[trigger] edges.drop_last()[j]).0 != v by {
            assert(edges.drop_last()[j] == edges[j]);
        }
        lemma_keyed_first_edge_none(edges.drop_last(), v);
        assert(edges.last() == edges[edges.len() - 1]);
    }
}

proof fn lemma_keyed_first_edge_is<N>(edges: Seq<(N, u32)>, v: N, k: int)
    requires
        0 <= k < edges.len(),
        edges[k].0 == v,
        forall|j: int| 0 <= j < k ==> (#[trigger] edges[j]).0 != v,
    ensures
        keyed_first_edge(edges, v) == k,
    decreases edges.len(),
{
    let front = edges.drop_last();
    if k == edges.len() - 1 {
        assert forall|j: int| 0 <= j < front.len() implies (#[trigger] front[j]).0 != v by {
            assert(front[j] == edges[j]);
        }
        lemma_keyed_first_edge_none(front, v);
        assert(edges.last() == edges[k]);
    } else {
        assert(front[k] == edges[k]);
        assert forall|j: int| 0 <= j < k implies (#[trigger] front[j]).0 != v by {
            assert(front[j] == edges[j]);
        }
        lemma_keyed_first_edge_is(front, v, k);
    }
}

/// Every node after the first was discovered by the node at position
/// `bound` or earlier; those discovered by `bound` itself come through one of
/// its first `k` edges.
pub open spec fn keyed_frontier<N>(g: KeyedGraph<N>, seen: Seq<N>, bound: int, k: int) -> bool {
    forall|i: int|
        1 <= i < seen.len() ==> keyed_first_parent(g, seen, #[trigger] seen[i]) < bound || (keyed_first_parent(
            g,
            seen,
            seen[i],
        ) == bound && keyed_first_edge(g[seen[bound]]@, seen[i]) < k)
}

/// Appending `w`, discovered by the node at position `c` through its edge
/// number `k`, keeps the discovery order.
proof fn lemma_keyed_append_discovered<N>(g: KeyedGraph<N>, seen: Seq<N>, c: int, k: int, w: N)
    requires
        0 <= c < seen.len(),
        g.contains_key(seen[c]),
        0 <= k < g[seen[c]]@.len(),
        g[seen[c]]@[k].0 == w,
        forall|j: int| 0 <= j < c ==> !linked(g, #[trigger] seen[j], w),
        forall|j: int| 0 <= j < k ==> (#[trigger] g[seen[c]]@[j]).0 != w,
        keyed_in_discovery_order(g, seen),
        keyed_frontier(g, seen, c, k),
    ensures
        keyed_in_discovery_order(g, seen.push(w)),
        keyed_frontier(g, seen.push(w), c, k + 1),
{
    let s2 = seen.push(w);
    let u = seen[c];
    assert(linked(g, u, w));
    assert(s2[c] == seen[c]);
    assert forall|j: int| 0 <= j < c implies !linked(g, #[trigger] s2[j], w) by {
        assert(s2[j] == seen[j]);
    }
    lemma_keyed_first_parent_is(g, s2, w, c);
    lemma_keyed_first_edge_is(g[u]@, w, k);
    assert forall|i: int| 1 <= i < seen.len() implies keyed_first_parent(g, s2, #[trigger] seen[i])
        == keyed_first_parent(g, seen, seen[i]) && s2[keyed_first_parent(g, s2, seen[i])]
        == seen[keyed_first_parent(g, seen, seen[i])] by {
        lemma_keyed_first_parent_bounds(g, seen, seen[i]);
        lemma_keyed_first_parent_push(g, seen, w, seen[i]);
    }
    assert forall|i: int, j: int| 1 <= i < j < s2.len() implies keyed_discovered_before(
        g,
        s2,
        #[trigger] s2[i],
        #[trigger] s2[j],
    ) by {
        assert(s2[i] == seen[i]);
        if j < seen.len() {
            assert(s2[j] == seen[j]);
        }
    }
    assert forall|i: int| 1 <= i < s2.len() implies keyed_first_parent(g, s2, #[trigger] s2[i]) < c || (
    keyed_first_parent(g, s2, s2[i]) == c && keyed_first_edge(g[s2[c]]@, s2[i]) < k + 1) by {
        if i < seen.len() {
            assert(s2[i] == seen[i]);
        }
    }
}

/// Marks and enqueues the unmarked neighbours of `current`, the last node of `done`.
#[verifier::spinoff_prover]
fn enqueue_keyed_neighbors<Node: Copy + Eq + Hash>(
    graph: &GraphAdjList<Node>,
    edges: &[(Node, u32)],
    current: Node,
    visited: &mut HashSet<Node>,
    queue: &mut VecDeque<Node>,
    Ghost(start): Ghost<Node>,
    Ghost(done): Ghost<Seq<Node>>,
)
    requires
        obeys_key_model::<Node>(),
        keys_cover_reach(graph@, start),
        graph@.contains_key(current),
        edges@ == graph@[current]@,
        done.len() > 0,
        done.last() == current,
        keyed_discovered(graph@, start, old(visited)@, done + old(queue)@),
        keyed_closed_over(graph@, old(visited)@, done, true, current),
        keyed_in_discovery_order(graph@, done + old(queue)@),
        keyed_frontier(graph@, done + old(queue)@, done.len() - 1, 0),
    ensures
        keyed_discovered(graph@, start, final(visited)@, done + final(queue)@),
        keyed_closed_over(graph@, final(visited)@, done, false, current),
        keyed_in_discovery_order(graph@, done + final(queue)@),
        keyed_frontier(graph@, done + final(queue)@, done.len() - 1, edges@.len() as int),
{
    broadcast use vstd::std_specs::hash::group_hash_axioms;

    let ghost g = graph@;
    let mut k: usize = 0;
    while k < edges.len()
        invariant
            obeys_key_model::<Node>(),
            g == graph@,
            keys_cover_reach(g, start),
            g.contains_key(current),
            edges@ == g[current]@,
            done.len() > 0,
            done.last() == current,
            k <= edges@.len(),
            keyed_discovered(g, start, visited@, done + queue@),
            keyed_closed_over(g, visited@, done, true, current),
            forall|j: int| 0 <= j < k ==> visited@.contains((#[trigger] edges@[j]).0),
            keyed_in_discovery_order(g, done + queue@),
            keyed_frontier(g, done + queue@, done.len() - 1, k as int),
        decreases edges@.len() - k,
    {
        let neighbor = edges[k].0;
        proof {
            assert(g[current]@[k as int] == edges@[k as int]);
            assert(linked(g, current, neighbor));
        }
        let ghost before = done + queue@;
        let ghost vbefore = visited@;
        let ghost was_marked = visited@.contains(neighbor);
        proof {
            if !was_marked {
                let c = done.len() - 1;
                assert(before[c] == current);
                assert forall|j: int| 0 <= j < c implies !linked(g, #[trigger] before[j], neighbor) by {
                    assert(before[j] == done[j]);
                    assert(done.contains(done[j]));
                    assert(before[j] != before[c]);
                }
                assert forall|j: int| 0 <= j < k implies (#[trigger] g[before[c]]@[j]).0 != neighbor by {
                    assert(edges@[j] == g[current]@[j]);
                }
                lemma_keyed_append_discovered(g, before, c, k as int, neighbor);
            }
        }
        if visited.insert(neighbor) {
            queue.push_back(neighbor);
            proof {
                let after = done + queue@;
                assert(after =~= before.push(neighbor));
                assert(!before.contains(neighbor));
                assert(before[done.len() - 1] == current);
                assert(reaches(g, start, before[done.len() - 1]));
                lemma_reaches_step(g, start, current, neighbor);
                assert forall|t: int| 0 < t < after.len() implies exists|j: int|
                    0 <= j < t && linked(g, after[j], #[trigger] after[t]) by {
                    if t == after.len() - 1 {
                        assert(linked(g, after[done.len() - 1], after[t]));
                    } else {
                        assert(after[t] == before[t]);
                        let j = choose|j: int| 0 <= j < t && linked(g, before[j], #[trigger] before[t]);
                        assert(after[j] == before[j]);
                    }
                }
                assert forall|t: int| 0 <= t < after.len() implies g.contains_key(#[trigger] after[t])
                    && reaches(g, start, after[t]) by {
                    if t < before.len() {
                        assert(after[t] == before[t]);
                    }
                }
                assert forall|v: Node| visited@.contains(v) <==> after.contains(v) by {
                    if v == neighbor {
                        assert(after[after.len() - 1] == neighbor);
                    } else {
                        assert(visited@.contains(v) == vbefore.contains(v));
                        if before.contains(v) {
                            let j = choose|j: int| 0 <= j < before.len() && before[j] == v;
                            assert(after[j] == before[j]);
                        } else if after.contains(v) {
                            let j = choose|j: int| 0 <= j < after.len() && after[j] == v;
                            if j < before.len() {
                                assert(before[j] == after[j]);
                            }
                        }
                    }
                }
                assert(after.no_duplicates());
                assert(after.len() > 0);
                assert(after[0] == start);
                assert(keyed_discovered(g, start, visited@, after));
            }
        } else {
            proof {
                assert(visited@ =~= vbefore);
                assert(keyed_frontier(g, done + queue@, done.len() - 1, k + 1));
            }
        }
        proof {
            assert forall|j: int| 0 <= j <= k implies visited@.contains((#[trigger] edges@[j]).0) by {
                if j < k {
                    assert(vbefore.contains(edges@[j].0));
                }
            }
        }
        k = k + 1;
    }
    proof {
        assert forall|u: Node, w: Node|
            done.contains(u) && !(false && u == current) && #[trigger] linked(g, u, w)
                implies visited@.contains(w) by {
            if u == current {
                let j = choose|j: int| 0 <= j < g[u]@.len() && (#[trigger] g[u]@[j]).0 == w;
                assert(edges@[j] == g[u]@[j]);
            }
        }
    }
}

/// BFS from `start_node` over a graph keyed by node: the reachable nodes in
/// visiting order, level by level.
#[verifier::spinoff_prover]
#[verifier::rlimit(40)]
pub fn bfs<Node>(graph: &GraphAdjList<Node>, start_node: Node) -> (r: Vec<Node>)
    where
        Node: Copy + Eq + Hash,
    requires
        obeys_key_model::<Node>(),
        keys_cover_reach(graph@, start_node),
    ensures
        keyed_bfs_order(graph@, start_node, r@),
{
    broadcast use vstd::std_specs::hash::group_hash_axioms;

    let ghost g = graph@;
    let mut visited: HashSet<Node> = HashSet::new();
    let mut queue: VecDeque<Node> = VecDeque::new();
    queue.push_back(start_node);
    let mut result: Vec<Node> = Vec::new();
    visited.insert(start_node);
    proof {
        lemma_reaches_self(g, start_node);
        let seen = result@ + queue@;
        assert(seen =~= seq![start_node]);
        assert forall|v: Node| visited@.contains(v) <==> seen.contains(v) by {
            if v == start_node {
                assert(seen[0] == start_node);
            }
        }
        assert(keyed_in_discovery_order(g, seen));
        assert(keyed_frontier(g, seen, 0, 0));
    }
    loop
        invariant
            obeys_key_model::<Node>(),
            g == graph@,
            g.dom().finite(),
            keys_cover_reach(g, start_node),
            keyed_discovered(g, start_node, visited@, result@ + queue@),
            keyed_closed_over(g, visited@, result@, false, start_node),
            keyed_in_discovery_order(g, result@ + queue@),
            keyed_frontier(g, result@ + queue@, result@.len() as int, 0),
        decreases g.dom().len() - result@.len(),
    {
        let ghost seen = result@ + queue@;
        proof {
            assert forall|k: int| 0 <= k < seen.len() implies g.dom().contains(#[trigger] seen[k]) by {}
            lemma_distinct_in_set(seen, g.dom());
        }
        let current = match queue.pop_front() {
            Some(c) => c,
            None => {
                proof {
                    assert(seen =~= result@);
                    lemma_keyed_complete(g, start_node, visited@, result@);
                    assert(keyed_in_discovery_order(g, result@));
                }
                return result;
            },
        };
        result.push(current);
        proof {
            assert(result@ + queue@ =~= seen);
            assert(seen[result@.len() - 1] == current);
            assert(g.contains_key(seen[result@.len() - 1]));
            assert forall|u: Node, w: Node|
                result@.contains(u) && !(true && u == current) && #[trigger] linked(g, u, w)
                    implies visited@.contains(w) by {
                let j = choose|j: int| 0 <= j < result@.len() && result@[j] == u;
                assert(result@.drop_last()[j] == result@[j]);
                assert(result@.drop_last().contains(u));
            }
        }
        let edges: &[(Node, u32)] = graph.get(&current).unwrap();
        enqueue_keyed_neighbors(
            graph,
            edges,
            current,
            &mut visited,
            &mut queue,
            Ghost(start_node),
            Ghost(result@),
        );
        proof {
            let now = result@ + queue@;
            assert forall|k: int| 0 <= k < now.len() implies g.dom().contains(#[trigger] now[k]) by {}
            lemma_distinct_in_set(now, g.dom());
            let c = result@.len() - 1;
            assert forall|i: int| 1 <= i < now.len() implies keyed_first_parent(g, now, #[trigger] now[i])
                < result@.len() || (keyed_first_parent(g, now, now[i]) == result@.len() && keyed_first_edge(
                g[now[result@.len() as int]]@,
                now[i],
            ) < 0) by {
                assert(keyed_frontier(g, now, c, edges@.len() as int));
            }
        }
    }
}

/// When nothing is left to visit, the visiting order is a full search order.
pub proof fn lemma_keyed_complete<N>(g: KeyedGraph<N>, start: N, visited: Set<N>, result: Seq<N>)
    requires
        keyed_discovered(g, start, visited, result),
        keyed_closed_over(g, visited, result, false, start),
    ensures
        keyed_search_order(g, start, result),
{
    assert forall|u: N, w: N| visited.contains(u) && #[trigger] linked(g, u, w) implies visited.contains(w) by {
        assert(result.contains(u));
    }
    assert forall|v: N| reaches(g, start, v) implies result.contains(v) by {
        assert(result[0] == start);
        assert(result.contains(start));
        lemma_closed_set_reaches(g, start, visited, v);
    }
}

} // verus!
