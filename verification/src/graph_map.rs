//! Paths and reachability in a graph keyed by node: each node maps to its
//! `(neighbor, weight)` edges.
use vstd::prelude::*;

verus! {

/// The graph as values: each key node maps to the slice of its edges.
pub type KeyedGraph<'a, N> = Map<N, &'a [(N, u32)]>;

/// `g` has an edge from `u` to `v`.
pub open spec fn linked<N>(g: KeyedGraph<N>, u: N, v: N) -> bool {
    g.contains_key(u) && exists|k: int| 0 <= k < g[u]@.len() && (#[trigger] g[u]@[k]).0 == v
}


/// `p` is a walk along the edges of `g`.
pub open spec fn walk<N>(g: KeyedGraph<N>, p: Seq<N>) -> bool {
    p.len() >= 1 && forall|i: int| 0 <= i < p.len() - 1 ==> linked(g, #[trigger] p[i], p[i + 1])
}

/// `v` can be reached from `s` along edges of `g`.
pub open spec fn reaches<N>(g: KeyedGraph<N>, s: N, v: N) -> bool {
    exists|p: Seq<N>| #[trigger] walk(g, p) && p[0] == s && p.last() == v
}

/// Every node reachable from `s` is a key of `g`, so looking it up never fails.
pub open spec fn keys_cover_reach<N>(g: KeyedGraph<N>, s: N) -> bool {
    forall|v: N| #[trigger] reaches(g, s, v) ==> g.contains_key(v)
}

/// `order` lists, without repeats, exactly the nodes reachable from `start`,
/// starting with `start`, each later node reached by an edge from an earlier one.
pub open spec fn keyed_search_order<N>(g: KeyedGraph<N>, start: N, order: Seq<N>) -> bool {
    &&& order.len() > 0
    &&& order[0] == start
    &&& order.no_duplicates()
    &&& forall|k: int| 0 <= k < order.len() ==> reaches(g, start, #[trigger] order[k])
    &&& forall|v: N| reaches(g, start, v) ==> order.contains(v)
    &&& forall|k: int|
        0 < k < order.len() ==> exists|j: int| 0 <= j < k && linked(g, order[j], #[trigger] order[k])
}

pub proof fn lemma_reaches_self<N>(g: KeyedGraph<N>, s: N)
    ensures
        reaches(g, s, s),
{
    let p = seq![s];
    assert(walk(g, p));
}

pub proof fn lemma_reaches_step<N>(g: KeyedGraph<N>, s: N, u: N, v: N)
    requires
        reaches(g, s, u),
        linked(g, u, v),
    ensures
        reaches(g, s, v),
{
    let p = choose|p: Seq<N>| #[trigger] walk(g, p) && p[0] == s && p.last() == u;
    let q = p.push(v);
    assert forall|i: int| 0 <= i < q.len() - 1 implies linked(g, #[trigger] q[i], q[i + 1]) by {
        if i < p.len() - 1 {
            assert(q[i] == p[i] && q[i + 1] == p[i + 1]);
        } else {
            assert(q[i] == u);
        }
    }
    assert(walk(g, q));
}

/// A set of nodes that holds `s` and is closed under edges holds every node
/// reachable from `s`.
pub proof fn lemma_closed_set_reaches<N>(g: KeyedGraph<N>, s: N, set: Set<N>, v: N)
    requires
        set.contains(s),
        forall|u: N, w: N| set.contains(u) && #[trigger] linked(g, u, w) ==> set.contains(w),
        reaches(g, s, v),
    ensures
        set.contains(v),
{
    let p = choose|p: Seq<N>| #[trigger] walk(g, p) && p[0] == s && p.last() == v;
    assert forall|i: int| 0 <= i < p.len() implies set.contains(#[trigger] p[i]) by {
        lemma_walk_prefix_in(g, s, set, p, i);
    }
    assert(p[p.len() - 1] == v);
}

proof fn lemma_walk_prefix_in<N>(g: KeyedGraph<N>, s: N, set: Set<N>, p: Seq<N>, i: int)
    requires
        set.contains(s),
        forall|u: N, w: N| set.contains(u) && #[trigger] linked(g, u, w) ==> set.contains(w),
        walk(g, p),
        p[0] == s,
        0 <= i < p.len(),
    ensures
        set.contains(p[i]),
    decreases i,
{
    if i > 0 {
        lemma_walk_prefix_in(g, s, set, p, i - 1);
        assert(linked(g, p[i - 1], p[i]));
    }
}

/// Distinct nodes drawn from a finite set are at most as many as the set.
pub proof fn lemma_distinct_in_set<N>(s: Seq<N>, bound: Set<N>)
    requires
        bound.finite(),
        s.no_duplicates(),
        forall|k: int| 0 <= k < s.len() ==> bound.contains(#[trigger] s[k]),
    ensures
        s.len() <= bound.len(),
{
    s.unique_seq_to_set();
    assert(s.to_set().subset_of(bound));
    vstd::set_lib::lemma_len_subset(s.to_set(), bound);
}

} // verus!
