//! Paths and reachability in an adjacency list of weighted edges.
use vstd::prelude::*;

verus! {

/// An adjacency list as values: node `u`'s edges are `g[u]`, each a
/// `(neighbor, weight)` pair.
pub type Adjacency = Seq<Seq<(usize, u32)>>;

pub open spec fn adjacency(graph: Seq<Vec<(usize, u32)>>) -> Adjacency {
    graph.map_values(|edges: Vec<(usize, u32)>| edges@)
}

/// Every edge of `g` leads to a node of `g`.
pub open spec fn closed_graph(g: Adjacency) -> bool {
    forall|u: int, k: int| 0 <= u < g.len() && 0 <= k < g[u].len() ==> (#[trigger] g[u][k]).0 < g.len()
}

/// Every node reachable from `s` (`s` itself too) is a node of `g`, so
/// indexing by it never fails.
#[verifier::opaque]
pub open spec fn reach_closed(g: Adjacency, s: int) -> bool {
    forall|v: int| #[trigger] reachable(g, s, v) ==> 0 <= v < g.len()
}

/// A node reachable in a graph closed under reachability is one of its nodes.
pub proof fn lemma_reach_bound(g: Adjacency, s: int, v: int)
    requires
        reach_closed(g, s),
        reachable(g, s, v),
    ensures
        0 <= v < g.len(),
{
    reveal(reach_closed);
}

/// `g` has an edge from `u` to `v`.
pub open spec fn edge(g: Adjacency, u: int, v: int) -> bool {
    0 <= u < g.len() && exists|k: int| 0 <= k < g[u].len() && (#[trigger] g[u][k]).0 == v
}

/// `p` is a walk along the edges of `g`.
pub open spec fn is_path(g: Adjacency, p: Seq<int>) -> bool {
    p.len() >= 1 && forall|i: int| 0 <= i < p.len() - 1 ==> edge(g, #[trigger] p[i], p[i + 1])
}

/// `v` can be reached from `s` along edges of `g`.
pub open spec fn reachable(g: Adjacency, s: int, v: int) -> bool {
    exists|p: Seq<int>| #[trigger] is_path(g, p) && p[0] == s && p.last() == v
}

pub proof fn lemma_reachable_self(g: Adjacency, s: int)
    ensures
        reachable(g, s, s),
{
    let p = seq![s];
    assert(is_path(g, p));
}

pub proof fn lemma_reachable_step(g: Adjacency, s: int, u: int, v: int)
    requires
        reachable(g, s, u),
        edge(g, u, v),
    ensures
        reachable(g, s, v),
{
    let p = choose|p: Seq<int>| #[trigger] is_path(g, p) && p[0] == s && p.last() == u;
    let q = p.push(v);
    assert forall|i: int| 0 <= i < q.len() - 1 implies edge(g, #[trigger] q[i], q[i + 1]) by {
        if i < p.len() - 1 {
            assert(q[i] == p[i] && q[i + 1] == p[i + 1]);
        } else {
            assert(q[i] == u);
        }
    }
    assert(is_path(g, q));
}

/// A set of nodes that holds `s` and is closed under edges holds every node
/// reachable from `s`.
pub proof fn lemma_closed_set_reachable(g: Adjacency, s: int, set: Set<int>, v: int)
    requires
        set.contains(s),
        forall|u: int, w: int| set.contains(u) && #[trigger] edge(g, u, w) ==> set.contains(w),
        reachable(g, s, v),
    ensures
        set.contains(v),
{
    let p = choose|p: Seq<int>| #[trigger] is_path(g, p) && p[0] == s && p.last() == v;
    assert forall|i: int| 0 <= i < p.len() implies set.contains(#[trigger] p[i]) by {
        lemma_path_prefix_in(g, s, set, p, i);
    }
    assert(p[p.len() - 1] == v);
}

proof fn lemma_path_prefix_in(g: Adjacency, s: int, set: Set<int>, p: Seq<int>, i: int)
    requires
        set.contains(s),
        forall|u: int, w: int| set.contains(u) && #[trigger] edge(g, u, w) ==> set.contains(w),
        is_path(g, p),
        p[0] == s,
        0 <= i < p.len(),
    ensures
        set.contains(p[i]),
    decreases i,
{
    if i > 0 {
        lemma_path_prefix_in(g, s, set, p, i - 1);
        assert(edge(g, p[i - 1], p[i]));
    }
}

/// Distinct nodes drawn from a finite set of integers are at most as many as the set.
pub proof fn lemma_distinct_within(s: Seq<usize>, bound: Set<int>)
    requires
        bound.finite(),
        s.no_duplicates(),
        forall|k: int| 0 <= k < s.len() ==> bound.contains(#[trigger] s[k] as int),
    ensures
        s.len() <= bound.len(),
{
    let set = s.to_set();
    s.unique_seq_to_set();
    let f = |x: usize| x as int;
    assert(set.map(f).subset_of(bound)) by {
        assert forall|y: int| set.map(f).contains(y) implies bound.contains(y) by {
            let x = choose|x: usize| set.contains(x) && f(x) == y;
            let k = choose|k: int| 0 <= k < s.len() && s[k] == x;
            assert(bound.contains(s[k] as int));
        }
    }
    vstd::set_lib::lemma_len_subset(set.map(f), bound);
    assert(vstd::relations::injective_on(f, set)) by {
        assert forall|x: usize, y: usize| #![trigger f(x), f(y)] set.contains(x) && set.contains(y) && f(x) == f(y) implies x == y by {}
    }
    s.lemma_cardinality_of_set();
    vstd::set_lib::lemma_map_size(set, set.map(f), f);
}

/// Distinct values below `n` are at most `n` many.
pub proof fn lemma_distinct_below(s: Seq<usize>, n: int)
    requires
        n >= 0,
        s.no_duplicates(),
        forall|k: int| 0 <= k < s.len() ==> (#[trigger] s[k]) < n,
    ensures
        s.len() <= n,
{
    vstd::set_lib::lemma_int_range(0, n);
    lemma_distinct_within(s, vstd::set_lib::set_int_range(0, n));
}

/// `n` distinct values below `n` are all of them.
pub proof fn lemma_distinct_covers(s: Seq<usize>, n: int)
    requires
        n <= usize::MAX,
        s.no_duplicates(),
        s.len() == n,
        forall|k: int| 0 <= k < s.len() ==> (#[trigger] s[k]) < n,
    ensures
        forall|v: int| 0 <= v < n ==> #[trigger] s.contains(v as usize),
{
    assert forall|v: int| 0 <= v < n implies #[trigger] s.contains(v as usize) by {
        if !s.contains(v as usize) {
            let bound = vstd::set_lib::set_int_range(0, n).remove(v);
            vstd::set_lib::lemma_int_range(0, n);
            assert forall|k: int| 0 <= k < s.len() implies bound.contains(#[trigger] s[k] as int) by {
                assert(s[k] as int != v);
            }
            lemma_distinct_within(s, bound);
        }
    }
}

/// Fewer than `n` values below `n` miss one of them.
pub proof fn lemma_some_missing(s: Seq<usize>, n: int)
    requires
        s.len() < n,
        n <= usize::MAX,
    ensures
        exists|v: int| 0 <= v < n && !#[trigger] s.contains(v as usize),
{
    if forall|v: int| 0 <= v < n ==> #[trigger] s.contains(v as usize) {
        let set = s.to_set();
        let f = |x: usize| x as int;
        vstd::set_lib::lemma_int_range(0, n);
        assert(vstd::set_lib::set_int_range(0, n).subset_of(set.map(f))) by {
            assert forall|v: int| vstd::set_lib::set_int_range(0, n).contains(v) implies set.map(f).contains(v) by {
                assert(s.contains(v as usize));
                assert(set.contains(v as usize));
                assert(f(v as usize) == v);
            }
        }
        s.lemma_cardinality_of_set();
        vstd::set_lib::lemma_map_size_bound(set, set.map(f), f);
        vstd::set_lib::lemma_len_subset(vstd::set_lib::set_int_range(0, n), set.map(f));
    }
}

} // verus!
