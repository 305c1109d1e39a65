//! Iterative depth-first search with an explicit stack, over an index-based
//! adjacency list and over one keyed by node.
use vstd::prelude::*;
use std::collections::HashSet;
use std::hash::Hash;
use vstd::std_specs::hash::obeys_key_model;
use crate::graph_bfs::{keyed_discovered, lemma_keyed_complete, GraphAdjList};
use crate::graph_map::{keyed_search_order, keys_cover_reach, lemma_distinct_in_set, lemma_reaches_self,
    lemma_reaches_step, linked, reaches, KeyedGraph};
use crate::graph::{adjacency, edge, lemma_reach_bound, lemma_reachable_self, lemma_reachable_step, reach_closed,
    reachable, Adjacency};
use crate::graph_bfs::{closed_over, discovered, lemma_complete, search_order, unmarked};

verus! {

/// The targets of a node's edges, in edge order.
pub open spec fn targets(edges: Seq<(usize, u32)>) -> Seq<usize> {
    edges.map_values(|e: (usize, u32)| e.0)
}

/// How many nodes are still unmarked.
pub open spec fn unmarked_count(visited: Seq<bool>) -> nat
    decreases visited.len(),
{
    if visited.len() == 0 {
        0
    } else {
        unmarked_count(visited.drop_last()) + if visited.last() {
            0nat
        } else {
            1nat
        }
    }
}

/// Marking an unmarked node leaves one fewer unmarked.
pub proof fn lemma_mark_one(visited: Seq<bool>, v: int)
    requires
        0 <= v < visited.len(),
        !visited[v],
    ensures
        unmarked_count(visited.update(v, true)) + 1 == unmarked_count(visited),
    decreases visited.len(),
{
    let marked = visited.update(v, true);
    if v == visited.len() - 1 {
        assert(marked.drop_last() =~= visited.drop_last());
    } else {
        lemma_mark_one(visited.drop_last(), v);
        assert(marked.drop_last() =~= visited.drop_last().update(v, true));
    }
}

/// The visiting order of the stack search from `stack` with `visited` marked:
/// pop the top node; skip it when it is marked; otherwise mark it, visit it,
/// and push the targets of its edges in edge order, so its last neighbour is
/// explored first.
pub open spec fn stack_search(g: Adjacency, stack: Seq<usize>, visited: Seq<bool>) -> Seq<usize>
    decreases unmarked_count(visited), stack.len(),
{
    if stack.len() == 0 {
        Seq::empty()
    } else {
        let v = stack.last() as int;
        let rest = stack.drop_last();
        if v >= visited.len() || v >= g.len() {
            Seq::empty()
        } else if visited[v] {
            stack_search(g, rest, visited)
        } else {
            proof {
                lemma_mark_one(visited, v);
            }
            seq![v as usize] + stack_search(g, rest + targets(g[v]), visited.update(v, true))
        }
    }
}

/// The depth-first visiting order from `start`: the stack search from `start`
/// with nothing marked.
pub open spec fn dfs_order(g: Adjacency, start: int) -> Seq<usize> {
    stack_search(g, seq![start as usize], Seq::new(g.len(), |i: int| false))
}

/// What the explicit stack holds: nodes of the graph, each either `start`
/// or the target of an edge out of a visited node.
pub open spec fn stack_ok(g: Adjacency, start: int, done: Seq<usize>, stack: Seq<usize>) -> bool {
    forall|i: int|
        0 <= i < stack.len() ==> (#[trigger] stack[i]) < g.len() && (stack[i] == start || exists|j: int|
            0 <= j < done.len() && edge(g, done[j] as int, stack[i] as int))
}

/// Every edge out of a visited node leads to a visited node or to one still on the stack.
pub open spec fn covered(g: Adjacency, visited: Seq<bool>, done: Seq<usize>, stack: Seq<usize>) -> bool {
    forall|u: int, w: int|
        done.contains(u as usize) && 0 <= u < g.len() && #[trigger] edge(g, u, w)
            ==> 0 <= w < visited.len() && (visited[w] || stack.contains(w as usize))
}

/// Pushes the targets of `current`'s edges, in order.
fn push_targets(graph: &[Vec<(usize, u32)>], current: usize, stack: &mut Vec<usize>)
    requires
        current < graph@.len(),
    ensures
        final(stack)@ == old(stack)@ + targets(graph@[current as int]@),
{
    let edges = &graph[current];
    let mut k: usize = 0;
    while k < edges.len()
        invariant
            edges@ == graph@[current as int]@,
            k <= edges@.len(),
            stack@ == old(stack)@ + targets(edges@).take(k as int),
        decreases edges@.len() - k,
    {
        proof {
            assert(targets(edges@).take(k as int + 1) =~= targets(edges@).take(k as int).push(edges@[k as int].0));
        }
        stack.push(edges[k].0);
        k = k + 1;
    }
    proof {
        assert(targets(edges@).take(k as int) =~= targets(edges@));
    }
}

/// DFS from `start_node`: a node is marked when it is popped, and a node's
/// edges are pushed in order, so its last neighbour is explored first.
pub fn dfs_vec(graph: &[Vec<(usize, u32)>], start_node: usize) -> (r: Vec<usize>)
    requires
        reach_closed(adjacency(graph@), start_node as int),
    ensures
        r@ == dfs_order(adjacency(graph@), start_node as int),
        search_order(adjacency(graph@), start_node as int, r@),
{
    let ghost g = adjacency(graph@);
    proof {
        lemma_reachable_self(g, start_node as int);
        lemma_reach_bound(g, start_node as int, start_node as int);
    }
    let n = graph.len();
    let mut visited = unmarked(n);
    let mut stack: Vec<usize> = Vec::new();
    stack.push(start_node);
    let mut result: Vec<usize> = Vec::new();
    proof {
        assert(visited@ =~= Seq::new(g.len(), |i: int| false));
        assert(result@ + stack_search(g, stack@, visited@) =~= dfs_order(g, start_node as int));
    }
    loop
        invariant
            result@ + stack_search(g, stack@, visited@) == dfs_order(g, start_node as int),
            g == adjacency(graph@),
            n == graph@.len(),
            g.len() == n,
            reach_closed(g, start_node as int),
            start_node < n,
            visited@.len() == n,
            result@.len() == 0 ==> stack@ == seq![start_node] && forall|v: int| 0 <= v < n ==> !visited@[v],
            result@.len() > 0 ==> discovered(g, start_node as int, visited@, result@),
            stack_ok(g, start_node as int, result@, stack@),
            covered(g, visited@, result@, stack@),
        decreases n - result@.len(), stack@.len(),
    {
        let ghost old_stack = stack@;
        let current = match stack.pop() {
            Some(c) => c,
            None => {
                proof {
                    assert forall|u: int, w: int|
                        result@.contains(u as usize) && u != -1 && 0 <= u < g.len() && #[trigger] edge(g, u, w)
                            implies 0 <= w < visited@.len() && visited@[w] by {
                        assert(!stack@.contains(w as usize));
                    }
                    lemma_complete(g, start_node as int, visited@, result@);
                    assert(stack_search(g, stack@, visited@) == Seq::<usize>::empty());
                    assert(result@ + Seq::<usize>::empty() =~= result@);
                }
                return result;
            },
        };
        proof {
            assert(old_stack =~= stack@.push(current));
            assert(old_stack[old_stack.len() - 1] == current);
            assert(old_stack.drop_last() =~= stack@);
            assert(stack_ok(g, start_node as int, result@, stack@)) by {
                assert forall|i: int| 0 <= i < stack@.len() implies #[trigger] stack@[i] == old_stack[i] by {}
            }
        }
        if visited[current] {
            proof {
                assert forall|u: int, w: int|
                    result@.contains(u as usize) && 0 <= u < g.len() && #[trigger] edge(g, u, w)
                        implies 0 <= w < visited@.len() && (visited@[w] || stack@.contains(w as usize)) by {
                    if !visited@[w] {
                        let i = choose|i: int| 0 <= i < old_stack.len() && old_stack[i] == w as usize;
                        assert(i != old_stack.len() - 1);
                        assert(stack@[i] == old_stack[i]);
                    }
                }
                lemma_distinct_len(g, start_node as int, visited@, result@);
            }
        } else {
            let ghost before = result@;
            let ghost vbefore = visited@;
            visited.set(current, true);
            result.push(current);
            proof {
                lemma_visit(g, start_node as int, vbefore, visited@, before, result@, old_stack, stack@, current);
            }
            let ghost mid = stack@;
            push_targets(graph, current, &mut stack);
            proof {
                assert(g[current as int] == graph@[current as int]@);
                assert(stack_search(g, old_stack, vbefore) == seq![current] + stack_search(g, stack@, visited@));
                assert(result@ + stack_search(g, stack@, visited@) =~= before + (seq![current] + stack_search(
                    g,
                    stack@,
                    visited@,
                )));
                assert(result@.drop_last() =~= before);
                lemma_pushed(g, start_node as int, visited@, result@, mid, stack@, current);
                lemma_distinct_len(g, start_node as int, visited@, result@);
            }
        }
    }
}

/// A repeat-free search prefix has at most as many nodes as the graph.
proof fn lemma_distinct_len(g: Adjacency, start: int, visited: Seq<bool>, done: Seq<usize>)
    requires
        visited.len() == g.len(),
        done.len() > 0 ==> discovered(g, start, visited, done),
    ensures
        done.len() <= g.len(),
{
    if done.len() > 0 {
        crate::graph::lemma_distinct_below(done, g.len() as int);
    }
}

/// Marking a freshly popped node and appending it to the visiting order keeps
/// the order a search prefix.
proof fn lemma_visit(
    g: Adjacency,
    start: int,
    vbefore: Seq<bool>,
    vafter: Seq<bool>,
    before: Seq<usize>,
    after: Seq<usize>,
    old_stack: Seq<usize>,
    stack: Seq<usize>,
    current: usize,
)
    requires
        0 <= start < g.len(),
        g.len() <= usize::MAX,
        vbefore.len() == g.len(),
        current < g.len(),
        !vbefore[current as int],
        vafter == vbefore.update(current as int, true),
        after == before.push(current),
        before.len() == 0 ==> old_stack == seq![start as usize] && forall|v: int| 0 <= v < g.len() ==> !vbefore[v],
        before.len() > 0 ==> discovered(g, start, vbefore, before),
        old_stack == stack.push(current),
        stack_ok(g, start, before, old_stack),
        covered(g, vbefore, before, old_stack),
    ensures
        discovered(g, start, vafter, after),
        stack_ok(g, start, after, stack),
        forall|u: int, w: int|
            before.contains(u as usize) && 0 <= u < g.len() && #[trigger] edge(g, u, w)
                ==> 0 <= w < vafter.len() && (vafter[w] || stack.contains(w as usize)),
{
    assert(old_stack[old_stack.len() - 1] == current);
    if before.len() == 0 {
        assert(current == start);
        lemma_reachable_self(g, start);
        assert(after =~= seq![current]);
        assert forall|v: int| 0 <= v < vafter.len() implies (#[trigger] vafter[v] <==> after.contains(v as usize)) by {
            if v == current {
                assert(after[0] == current);
            }
        }
    } else {
        assert(before[0] == start);
        assert(vbefore[start]);
        assert(current != start);
        let j = choose|j: int| 0 <= j < before.len() && edge(g, before[j] as int, current as int);
        assert(reachable(g, start, before[j] as int));
        lemma_reachable_step(g, start, before[j] as int, current as int);
        assert(!before.contains(current));
        assert forall|k: int| 0 < k < after.len() implies exists|i: int|
            0 <= i < k && edge(g, after[i] as int, #[trigger] after[k] as int) by {
            if k == after.len() - 1 {
                assert(after[j] == before[j]);
            } else {
                assert(after[k] == before[k]);
                let i = choose|i: int| 0 <= i < k && edge(g, before[i] as int, #[trigger] before[k] as int);
                assert(after[i] == before[i]);
            }
        }
        assert forall|k: int| 0 <= k < after.len() implies (#[trigger] after[k]) < vafter.len()
            && reachable(g, start, after[k] as int) by {
            if k < before.len() {
                assert(after[k] == before[k]);
            }
        }
        assert forall|v: int| 0 <= v < vafter.len() implies (#[trigger] vafter[v] <==> after.contains(v as usize)) by {
            if v == current {
                assert(after[after.len() - 1] == current);
            } else {
                assert(vafter[v] == vbefore[v]);
                if before.contains(v as usize) {
                    let i = choose|i: int| 0 <= i < before.len() && before[i] == v as usize;
                    assert(after[i] == before[i]);
                } else if after.contains(v as usize) {
                    let i = choose|i: int| 0 <= i < after.len() && after[i] == v as usize;
                    if i < before.len() {
                        assert(before[i] == after[i]);
                    }
                }
            }
        }
        assert(after.no_duplicates());
    }
    assert forall|i: int| 0 <= i < stack.len() implies (#[trigger] stack[i]) < g.len() && (stack[i] == start
        || exists|j: int| 0 <= j < after.len() && edge(g, after[j] as int, stack[i] as int)) by {
        assert(stack[i] == old_stack[i]);
        if stack[i] != start {
            let j = choose|j: int| 0 <= j < before.len() && edge(g, before[j] as int, old_stack[i] as int);
            assert(after[j] == before[j]);
        }
    }
    assert forall|u: int, w: int|
        before.contains(u as usize) && 0 <= u < g.len() && #[trigger] edge(g, u, w)
            implies 0 <= w < vafter.len() && (vafter[w] || stack.contains(w as usize)) by {
        if !vafter[w] {
            assert(w != current);
            assert(old_stack.contains(w as usize));
            let i = choose|i: int| 0 <= i < old_stack.len() && old_stack[i] == w as usize;
            assert(i != old_stack.len() - 1);
            assert(stack[i] == old_stack[i]);
        }
    }
}

/// Pushing the targets of the node just visited restores the stack's
/// invariants for the longer visiting order.
proof fn lemma_pushed(
    g: Adjacency,
    start: int,
    visited: Seq<bool>,
    done: Seq<usize>,
    mid: Seq<usize>,
    stack: Seq<usize>,
    current: usize,
)
    requires
        reach_closed(g, start),
        reachable(g, start, current as int),
        g.len() <= usize::MAX,
        visited.len() == g.len(),
        current < g.len(),
        done.len() > 0,
        done.last() == current,
        stack == mid + targets(g[current as int]),
        stack_ok(g, start, done, mid),
        forall|u: int, w: int|
            done.drop_last().contains(u as usize) && 0 <= u < g.len() && #[trigger] edge(g, u, w)
                ==> 0 <= w < visited.len() && (visited[w] || mid.contains(w as usize)),
    ensures
        stack_ok(g, start, done, stack),
        covered(g, visited, done, stack),
{
    let t = targets(g[current as int]);
    assert forall|i: int| 0 <= i < stack.len() implies (#[trigger] stack[i]) < g.len() && (stack[i] == start
        || exists|j: int| 0 <= j < done.len() && edge(g, done[j] as int, stack[i] as int)) by {
        if i < mid.len() {
            assert(stack[i] == mid[i]);
        } else {
            let k = i - mid.len();
            assert(stack[i] == t[k]);
            assert(g[current as int][k].0 == t[k]);
            assert(edge(g, current as int, stack[i] as int));
            lemma_reachable_step(g, start, current as int, stack[i] as int);
            lemma_reach_bound(g, start, stack[i] as int);
            assert(done[done.len() - 1] == current);
        }
    }
    assert forall|u: int, w: int|
        done.contains(u as usize) && 0 <= u < g.len() && #[trigger] edge(g, u, w)
            implies 0 <= w < visited.len() && (visited[w] || stack.contains(w as usize)) by {
        if u == current {
            let k = choose|k: int| 0 <= k < g[u].len() && (#[trigger] g[u][k]).0 == w;
            assert(stack[mid.len() + k] == t[k]);
        } else {
            let j = choose|j: int| 0 <= j < done.len() && done[j] == u as usize;
            assert(j != done.len() - 1);
            assert(done.drop_last()[j] == done[j]);
            assert(done.drop_last().contains(u as usize));
            if !visited[w] {
                let i = choose|i: int| 0 <= i < mid.len() && mid[i] == w as usize;
                assert(stack[i] == mid[i]);
            }
        }
    }
}


/// The targets of a node's edges in a keyed graph, in edge order.
pub open spec fn keyed_targets<N>(edges: Seq<(N, u32)>) -> Seq<N> {
    edges.map_values(|e: (N, u32)| e.0)
}

/// What the explicit stack holds: `start`, or targets of edges out of visited nodes.
pub open spec fn keyed_stack_ok<N>(g: KeyedGraph<N>, start: N, done: Seq<N>, stack: Seq<N>) -> bool {
    forall|i: int|
        0 <= i < stack.len() ==> (#[trigger] stack[i]) == start || exists|j: int|
            0 <= j < done.len() && linked(g, done[j], stack[i])
}

/// Every edge out of a visited node leads to a visited node or to one still on the stack.
pub open spec fn keyed_covered<N>(g: KeyedGraph<N>, visited: Set<N>, done: Seq<N>, stack: Seq<N>) -> bool {
    forall|u: N, w: N|
        done.contains(u) && #[trigger] linked(g, u, w) ==> visited.contains(w) || stack.contains(w)
}

/// Marking an unmarked key of a finite graph leaves one fewer unmarked key.
pub proof fn lemma_mark_key<N>(keys: Set<N>, visited: Set<N>, v: N)
    requires
        keys.finite(),
        keys.contains(v),
        !visited.contains(v),
    ensures
        keys.difference(visited.insert(v)).len() < keys.difference(visited).len(),
{
    let left = keys.difference(visited);
    assert(keys.difference(visited.insert(v)) =~= left.remove(v));
    vstd::set::axiom_set_difference_finite(keys, visited);
    vstd::set::axiom_set_remove_len(left, v);
    assert(left.contains(v));
}

/// The visiting order of the stack search in a keyed graph from `stack` with
/// `visited` marked: pop the top node; skip it when it is marked; otherwise
/// mark it, visit it, and push the targets of its edges in edge order.
pub open spec fn keyed_stack_search<N>(g: KeyedGraph<N>, stack: Seq<N>, visited: Set<N>) -> Seq<N>
    decreases g.dom().difference(visited).len(), stack.len(),
{
    if stack.len() == 0 {
        Seq::empty()
    } else {
        let v = stack.last();
        let rest = stack.drop_last();
        if !g.dom().finite() || !g.contains_key(v) {
            Seq::empty()
        } else if visited.contains(v) {
            keyed_stack_search(g, rest, visited)
        } else {
            proof {
                lemma_mark_key(g.dom(), visited, v);
            }
            seq![v] + keyed_stack_search(g, rest + keyed_targets(g[v]@), visited.insert(v))
        }
    }
}

/// The depth-first visiting order from `start` in a keyed graph.
pub open spec fn keyed_dfs_order<N>(g: KeyedGraph<N>, start: N) -> Seq<N> {
    keyed_stack_search(g, seq![start], Set::empty())
}

/// Pushes the targets of `edges`, in order.
fn push_keyed_targets<Node: Copy>(edges: &[(Node, u32)], stack: &mut Vec<Node>)
    ensures
        final(stack)@ == old(stack)@ + keyed_targets(edges@),
{
    let mut k: usize = 0;
    while k < edges.len()
        invariant
            k <= edges@.len(),
            stack@ == old(stack)@ + keyed_targets(edges@).take(k as int),
        decreases edges@.len() - k,
    {
        proof {
            assert(keyed_targets(edges@).take(k as int + 1) =~= keyed_targets(edges@).take(k as int).push(
                edges@[k as int].0,
            ));
        }
        stack.push(edges[k].0);
        k = k + 1;
    }
    proof {
        assert(keyed_targets(edges@).take(k as int) =~= keyed_targets(edges@));
    }
}

/// DFS from `start_node` over a graph keyed by node: a node is marked when it
/// is popped, and a node's edges are pushed in order, so its last neighbour is
/// explored first.
pub fn dfs<Node>(graph: &GraphAdjList<Node>, start_node: Node) -> (r: Vec<Node>)
    where
        Node: Copy + Eq + Hash,
    requires
        obeys_key_model::<Node>(),
        keys_cover_reach(graph@, start_node),
    ensures
        r@ == keyed_dfs_order(graph@, start_node),
        keyed_search_order(graph@, start_node, r@),
{
    broadcast use vstd::std_specs::hash::group_hash_axioms;

    let ghost g = graph@;
    let mut visited: HashSet<Node> = HashSet::new();
    let mut stack: Vec<Node> = Vec::new();
    stack.push(start_node);
    let mut result: Vec<Node> = Vec::new();
    proof {
        lemma_reaches_self(g, start_node);
        assert(visited@ =~= Set::<Node>::empty());
        assert(result@ + keyed_stack_search(g, stack@, visited@) =~= keyed_dfs_order(g, start_node));
    }
    loop
        invariant
            result@ + keyed_stack_search(g, stack@, visited@) == keyed_dfs_order(g, start_node),
            obeys_key_model::<Node>(),
            g == graph@,
            g.dom().finite(),
            keys_cover_reach(g, start_node),
            reaches(g, start_node, start_node),
            result@.len() == 0 ==> stack@ == seq![start_node] && visited@ =~= Set::<Node>::empty(),
            result@.len() > 0 ==> keyed_discovered(g, start_node, visited@, result@),
            keyed_stack_ok(g, start_node, result@, stack@),
            keyed_covered(g, visited@, result@, stack@),
            result@.len() <= g.dom().len(),
        decreases g.dom().len() - result@.len(), stack@.len(),
    {
        let ghost old_stack = stack@;
        let current = match stack.pop() {
            Some(c) => c,
            None => {
                proof {
                    assert forall|u: Node, w: Node|
                        result@.contains(u) && !(false && u == start_node) && #[trigger] linked(g, u, w)
                            implies visited@.contains(w) by {
                        assert(!stack@.contains(w));
                    }
                    if result@.len() == 0 {
                        assert(false);
                    }
                    lemma_keyed_complete(g, start_node, visited@, result@);
                    assert(keyed_stack_search(g, stack@, visited@) == Seq::<Node>::empty());
                    assert(result@ + Seq::<Node>::empty() =~= result@);
                }
                return result;
            },
        };
        proof {
            assert(old_stack =~= stack@.push(current));
            assert(old_stack[old_stack.len() - 1] == current);
            assert(old_stack.drop_last() =~= stack@);
            assert(keyed_stack_ok(g, start_node, result@, stack@)) by {
                assert forall|i: int| 0 <= i < stack@.len() implies #[trigger] stack@[i] == old_stack[i] by {}
            }
            lemma_popped_reaches(g, start_node, visited@, result@, old_stack, current);
        }
        let ghost vbefore = visited@;
        if visited.insert(current) {
            let ghost before = result@;
            result.push(current);
            proof {
                lemma_keyed_visit(g, start_node, vbefore, visited@, before, result@, old_stack, stack@, current);
            }
            let edges: &[(Node, u32)] = graph.get(&current).unwrap();
            let ghost mid = stack@;
            push_keyed_targets(edges, &mut stack);
            proof {
                assert(keyed_stack_search(g, old_stack, vbefore) == seq![current] + keyed_stack_search(
                    g,
                    stack@,
                    visited@,
                ));
                assert(result@ + keyed_stack_search(g, stack@, visited@) =~= before + (seq![current]
                    + keyed_stack_search(g, stack@, visited@)));
                assert(result@.drop_last() =~= before);
                lemma_keyed_pushed(g, start_node, visited@, result@, mid, stack@, current);
                assert forall|k: int| 0 <= k < result@.len() implies g.dom().contains(#[trigger] result@[k]) by {}
                lemma_distinct_in_set(result@, g.dom());
            }
        } else {
            proof {
                assert(visited@ =~= vbefore);
                assert forall|u: Node, w: Node| result@.contains(u) && #[trigger] linked(g, u, w)
                    implies visited@.contains(w) || stack@.contains(w) by {
                    if !visited@.contains(w) {
                        let i = choose|i: int| 0 <= i < old_stack.len() && old_stack[i] == w;
                        assert(i != old_stack.len() - 1);
                        assert(stack@[i] == old_stack[i]);
                    }
                }
            }
        }
    }
}

/// A node popped off the stack is reachable from `start`.
proof fn lemma_popped_reaches<N>(
    g: KeyedGraph<N>,
    start: N,
    visited: Set<N>,
    done: Seq<N>,
    old_stack: Seq<N>,
    current: N,
)
    requires
        reaches(g, start, start),
        old_stack.len() > 0,
        old_stack.last() == current,
        done.len() > 0 ==> keyed_discovered(g, start, visited, done),
        keyed_stack_ok(g, start, done, old_stack),
    ensures
        reaches(g, start, current),
{
    assert(old_stack[old_stack.len() - 1] == current);
    if current != start {
        let j = choose|j: int| 0 <= j < done.len() && linked(g, done[j], current);
        assert(reaches(g, start, done[j]));
        lemma_reaches_step(g, start, done[j], current);
    }
}

/// Marking a freshly popped node and appending it to the visiting order keeps
/// the order a search prefix.
proof fn lemma_keyed_visit<N>(
    g: KeyedGraph<N>,
    start: N,
    vbefore: Set<N>,
    vafter: Set<N>,
    before: Seq<N>,
    after: Seq<N>,
    old_stack: Seq<N>,
    stack: Seq<N>,
    current: N,
)
    requires
        keys_cover_reach(g, start),
        reaches(g, start, current),
        !vbefore.contains(current),
        vafter == vbefore.insert(current),
        after == before.push(current),
        before.len() == 0 ==> old_stack == seq![start] && vbefore =~= Set::<N>::empty(),
        before.len() > 0 ==> keyed_discovered(g, start, vbefore, before),
        old_stack == stack.push(current),
        keyed_stack_ok(g, start, before, old_stack),
        keyed_covered(g, vbefore, before, old_stack),
    ensures
        keyed_discovered(g, start, vafter, after),
        keyed_stack_ok(g, start, after, stack),
        forall|u: N, w: N|
            before.contains(u) && #[trigger] linked(g, u, w) ==> vafter.contains(w) || stack.contains(w),
{
    assert(old_stack[old_stack.len() - 1] == current);
    if before.len() == 0 {
        assert(current == start);
        assert(after =~= seq![current]);
        assert forall|v: N| vafter.contains(v) <==> after.contains(v) by {
            if v == current {
                assert(after[0] == current);
            }
        }
        assert(after[0] == start);
    } else {
        assert(before[0] == start);
        assert(before.contains(start));
        assert(vbefore.contains(start));
        assert(current != start);
        let j = choose|j: int| 0 <= j < before.len() && linked(g, before[j], current);
        assert(!before.contains(current));
        assert forall|k: int| 0 < k < after.len() implies exists|i: int|
            0 <= i < k && linked(g, after[i], #[trigger] after[k]) by {
            if k == after.len() - 1 {
                assert(after[j] == before[j]);
            } else {
                assert(after[k] == before[k]);
                let i = choose|i: int| 0 <= i < k && linked(g, before[i], #[trigger] before[k]);
                assert(after[i] == before[i]);
            }
        }
        assert forall|k: int| 0 <= k < after.len() implies g.contains_key(#[trigger] after[k])
            && reaches(g, start, after[k]) by {
            if k < before.len() {
                assert(after[k] == before[k]);
            }
        }
        assert forall|v: N| vafter.contains(v) <==> after.contains(v) by {
            if v == current {
                assert(after[after.len() - 1] == current);
            } else {
                if before.contains(v) {
                    let i = choose|i: int| 0 <= i < before.len() && before[i] == v;
                    assert(after[i] == before[i]);
                } else if after.contains(v) {
                    let i = choose|i: int| 0 <= i < after.len() && after[i] == v;
                    if i < before.len() {
                        assert(before[i] == after[i]);
                    }
                }
            }
        }
        assert(after.no_duplicates());
        assert(after[0] == start);
    }
    assert forall|i: int| 0 <= i < stack.len() implies (#[trigger] stack[i]) == start || exists|j: int|
        0 <= j < after.len() && linked(g, after[j], stack[i]) by {
        assert(stack[i] == old_stack[i]);
        if stack[i] != start {
            let j = choose|j: int| 0 <= j < before.len() && linked(g, before[j], old_stack[i]);
            assert(after[j] == before[j]);
        }
    }
    assert forall|u: N, w: N| before.contains(u) && #[trigger] linked(g, u, w)
        implies vafter.contains(w) || stack.contains(w) by {
        if !vafter.contains(w) {
            assert(w != current);
            assert(old_stack.contains(w));
            let i = choose|i: int| 0 <= i < old_stack.len() && old_stack[i] == w;
            assert(i != old_stack.len() - 1);
            assert(stack[i] == old_stack[i]);
        }
    }
}

/// Pushing the targets of the node just visited restores the stack's
/// invariants for the longer visiting order.
proof fn lemma_keyed_pushed<N>(
    g: KeyedGraph<N>,
    start: N,
    visited: Set<N>,
    done: Seq<N>,
    mid: Seq<N>,
    stack: Seq<N>,
    current: N,
)
    requires
        g.contains_key(current),
        done.len() > 0,
        done.last() == current,
        stack == mid + keyed_targets(g[current]@),
        keyed_stack_ok(g, start, done, mid),
        forall|u: N, w: N|
            done.drop_last().contains(u) && #[trigger] linked(g, u, w) ==> visited.contains(w) || mid.contains(w),
    ensures
        keyed_stack_ok(g, start, done, stack),
        keyed_covered(g, visited, done, stack),
{
    let t = keyed_targets(g[current]@);
    assert forall|i: int| 0 <= i < stack.len() implies (#[trigger] stack[i]) == start || exists|j: int|
        0 <= j < done.len() && linked(g, done[j], stack[i]) by {
        if i < mid.len() {
            assert(stack[i] == mid[i]);
        } else {
            let k = i - mid.len();
            assert(stack[i] == t[k]);
            assert(g[current]@[k].0 == t[k]);
            assert(linked(g, current, stack[i]));
            assert(done[done.len() - 1] == current);
        }
    }
    assert forall|u: N, w: N| done.contains(u) && #[trigger] linked(g, u, w)
        implies visited.contains(w) || stack.contains(w) by {
        if u == current {
            let k = choose|k: int| 0 <= k < g[u]@.len() && (#[trigger] g[u]@[k]).0 == w;
            assert(stack[mid.len() + k] == t[k]);
        } else {
            let j = choose|j: int| 0 <= j < done.len() && done[j] == u;
            assert(j != done.len() - 1);
            assert(done.drop_last()[j] == done[j]);
            assert(done.drop_last().contains(u));
            if !visited.contains(w) {
                let i = choose|i: int| 0 <= i < mid.len() && mid[i] == w;
                assert(stack[i] == mid[i]);
            }
        }
    }
}

} // verus!
