//! A consistent-hashing ring: each node sits at several points, and a key
//! belongs to the first point clockwise from the key's hash.
use vstd::prelude::*;
use std::collections::hash_map::DefaultHasher;
use std::hash::Hasher;
use vstd::std_specs::hash::DefaultHasherAdditionalSpecFns;
use vstd::utf8::encode_utf8;
use vstd::multiset::Multiset;

verus! {

/// A point on the ring: its hash and the name of the node placed there.
pub type Point = (u64, Seq<char>);

/// The hash of a key: its UTF-8 bytes followed by `0xFF`, as `str`'s `Hash`
/// feeds them to a `DefaultHasher`.
pub open spec fn key_hash(key: Seq<char>) -> u64 {
    DefaultHasher::spec_finish(seq![encode_utf8(key), seq![0xffu8]])
}

/// A node name is on the ring exactly when some point carries it.
proof fn lemma_names_contains(r: Seq<Point>, m: Seq<char>)
    ensures
        node_names(r).contains(m) <==> exists|i: int| 0 <= i < r.len() && (#[trigger] r[i]).1 == m,
{
    let names = r.map_values(|p: Point| p.1);
    if node_names(r).contains(m) {
        assert(names.contains(m));
        let i = choose|i: int| 0 <= i < names.len() && names[i] == m;
        assert(r[i].1 == m);
    }
    if exists|i: int| 0 <= i < r.len() && (#[trigger] r[i]).1 == m {
        let i = choose|i: int| 0 <= i < r.len() && (#[trigger] r[i]).1 == m;
        assert(names[i] == m);
        assert(names.contains(m));
    }
}

/// A ring splits into one node's points and the rest: the sizes add up, and
/// the names are those of the rest, plus the node when it has points.
proof fn lemma_split_node(r: Seq<Point>, node: Seq<char>)
    ensures
        r.len() == without(r, node).len() + hashes_of(r, node).len(),
        !node_names(without(r, node)).contains(node),
        forall|m: Seq<char>|
            #[trigger] node_names(r).contains(m) <==> (node_names(without(r, node)).contains(m) || (m
                == node && hashes_of(r, node).len() > 0)),
    decreases r.len(),
{
    lemma_without_from(r, node);
    lemma_names_contains(without(r, node), node);
    if r.len() > 0 {
        let s = r.drop_last();
        let x = r.last();
        lemma_split_node(s, node);
        assert forall|m: Seq<char>| #[trigger] node_names(r).contains(m) <==> (node_names(without(r, node)).contains(m) || (m
            == node && hashes_of(r, node).len() > 0)) by {
            lemma_names_contains(r, m);
            lemma_names_contains(s, m);
            lemma_names_contains(without(r, node), m);
            lemma_names_contains(without(s, node), m);
            if x.1 != node {
                let ws = without(s, node);
                assert(without(r, node) == ws.push(x));
                if node_names(r).contains(m) && m != x.1 {
                    let i = choose|i: int| 0 <= i < r.len() && (#[trigger] r[i]).1 == m;
                    assert(s[i] == r[i]);
                }
                if node_names(without(r, node)).contains(m) && m != x.1 {
                    let i = choose|i: int| 0 <= i < without(r, node).len() && (#[trigger] without(r, node)[i]).1 == m;
                    assert(ws[i] == without(r, node)[i]);
                }
                if node_names(s).contains(m) {
                    let i = choose|i: int| 0 <= i < s.len() && (#[trigger] s[i]).1 == m;
                    assert(r[i] == s[i]);
                }
                if node_names(ws).contains(m) {
                    let i = choose|i: int| 0 <= i < ws.len() && (#[trigger] ws[i]).1 == m;
                    assert(without(r, node)[i] == ws[i]);
                }
                assert(r[r.len() - 1] == x);
                assert(without(r, node)[ws.len() as int] == x);
            } else {
                assert(without(r, node) == without(s, node));
                if node_names(r).contains(m) && m != x.1 {
                    let i = choose|i: int| 0 <= i < r.len() && (#[trigger] r[i]).1 == m;
                    assert(s[i] == r[i]);
                }
                if node_names(s).contains(m) {
                    let i = choose|i: int| 0 <= i < s.len() && (#[trigger] s[i]).1 == m;
                    assert(r[i] == s[i]);
                }
                assert(r[r.len() - 1] == x);
            }
        }
    }
}

/// Adding a node that was not on the ring adds its name once and its points:
/// the node count grows by one and the ring by the node's points.
pub proof fn lemma_add_node_counts(before: Seq<Point>, after: Seq<Point>, node: Seq<char>, replicas: nat)
    requires
        !node_names(before).contains(node),
        without(after, node) == before,
        hashes_of(after, node).len() == replicas,
        replicas > 0,
    ensures
        node_names(after) == node_names(before).insert(node),
        node_names(after).len() == node_names(before).len() + 1,
        after.len() == before.len() + replicas,
{
    lemma_split_node(after, node);
    assert(node_names(after) =~= node_names(before).insert(node));
    assert(node_names(before).finite()) by {
        vstd::seq_lib::seq_to_set_is_finite(before.map_values(|p: Point| p.1));
    }
}

/// Removing a node takes its name off the ring and exactly its points.
pub proof fn lemma_remove_node_counts(r: Seq<Point>, node: Seq<char>)
    ensures
        node_names(without(r, node)) == node_names(r).remove(node),
        without(r, node).len() == r.len() - hashes_of(r, node).len(),
        node_names(r).contains(node) ==> node_names(without(r, node)).len() + 1 == node_names(r).len(),
{
    lemma_split_node(r, node);
    assert(node_names(without(r, node)) =~= node_names(r).remove(node));
    if node_names(r).contains(node) {
        assert(node_names(r).finite()) by {
            vstd::seq_lib::seq_to_set_is_finite(r.map_values(|p: Point| p.1));
        }
    }
}

/// Removing a node leaves every hash that it did not own with its owner.
pub proof fn lemma_remove_keeps_other_owners(r: Seq<Point>, node: Seq<char>, h: u64)
    requires
        sorted_ring(r),
        without(r, node).len() > 0,
        owner(r, h) != node,
    ensures
        owner(without(r, node), h) == owner(r, h),
{
    lemma_add_moves_only_to_new(without(r, node), r, node, h);
}

/// The eight little-endian bytes of `x`.
pub open spec fn le_bytes(x: u64) -> Seq<u8> {
    Seq::new(8, |i: int| ((x >> (8 * i) as u64) & 0xff) as u8)
}

/// The hash of virtual node number `replica` of `node`: the name as `str`
/// hashes, then the replica number as eight little-endian bytes.
pub open spec fn replica_hash(node: Seq<char>, replica: nat) -> u64 {
    DefaultHasher::spec_finish(seq![encode_utf8(node), seq![0xffu8], le_bytes(replica as u64)])
}

/// The ring is ordered by hash.
pub open spec fn sorted_ring(r: Seq<Point>) -> bool {
    forall|i: int, j: int| 0 <= i <= j < r.len() ==> (#[trigger] r[i]).0 <= (#[trigger] r[j]).0
}

/// The points of `r` that do not belong to `node`, in order.
pub open spec fn without(r: Seq<Point>, node: Seq<char>) -> Seq<Point>
    decreases r.len(),
{
    if r.len() == 0 {
        r
    } else if r.last().1 == node {
        without(r.drop_last(), node)
    } else {
        without(r.drop_last(), node).push(r.last())
    }
}

/// The hashes of the points of `r` that belong to `node`, in order.
pub open spec fn hashes_of(r: Seq<Point>, node: Seq<char>) -> Seq<u64>
    decreases r.len(),
{
    if r.len() == 0 {
        seq![]
    } else if r.last().1 == node {
        hashes_of(r.drop_last(), node).push(r.last().0)
    } else {
        hashes_of(r.drop_last(), node)
    }
}

/// How many points of `r` lie at or before `h`.
pub open spec fn cut(r: Seq<Point>, h: u64) -> nat
    decreases r.len(),
{
    if r.len() == 0 {
        0
    } else {
        cut(r.drop_last(), h) + if r.last().0 <= h {
            1nat
        } else {
            0nat
        }
    }
}

/// The node owning hash `h`: the first point strictly after `h`, wrapping
/// round to the first point of the ring.
pub open spec fn owner(r: Seq<Point>, h: u64) -> Seq<char> {
    if cut(r, h) < r.len() {
        r[cut(r, h) as int].1
    } else {
        r[0].1
    }
}

/// The names of the nodes on the ring.
pub open spec fn node_names(r: Seq<Point>) -> Set<Seq<char>> {
    r.map_values(|p: Point| p.1).to_set()
}

proof fn lemma_without_append(a: Seq<Point>, b: Seq<Point>, node: Seq<char>)
    ensures
        without(a + b, node) == without(a, node) + without(b, node),
    decreases b.len(),
{
    if b.len() == 0 {
        assert(a + b =~= a);
        assert(without(b, node) =~= Seq::<Point>::empty());
    } else {
        lemma_without_append(a, b.drop_last(), node);
        assert((a + b).drop_last() =~= a + b.drop_last());
        assert((a + b).last() == b.last());
        if b.last().1 != node {
            assert(without(a, node) + without(b.drop_last(), node).push(b.last()) =~= (without(a, node)
                + without(b.drop_last(), node)).push(b.last()));
        }
    }
}

proof fn lemma_hashes_append(a: Seq<Point>, b: Seq<Point>, node: Seq<char>)
    ensures
        hashes_of(a + b, node) == hashes_of(a, node) + hashes_of(b, node),
    decreases b.len(),
{
    if b.len() == 0 {
        assert(a + b =~= a);
        assert(hashes_of(b, node) =~= Seq::<u64>::empty());
    } else {
        lemma_hashes_append(a, b.drop_last(), node);
        assert((a + b).drop_last() =~= a + b.drop_last());
        assert((a + b).last() == b.last());
        if b.last().1 == node {
            assert(hashes_of(a, node) + hashes_of(b.drop_last(), node).push(b.last().0) =~= (hashes_of(a, node)
                + hashes_of(b.drop_last(), node)).push(b.last().0));
        }
    }
}

/// Every point kept by `without` is a point of `r` and does not belong to `node`.
proof fn lemma_without_from(r: Seq<Point>, node: Seq<char>)
    ensures
        forall|k: int| 0 <= k < without(r, node).len() ==> (#[trigger] without(r, node)[k]).1 != node && r.contains(
            without(r, node)[k],
        ),
    decreases r.len(),
{
    if r.len() > 0 {
        lemma_without_from(r.drop_last(), node);
        let w = without(r.drop_last(), node);
        assert forall|k: int| 0 <= k < without(r, node).len() implies (#[trigger] without(r, node)[k]).1 != node
            && r.contains(without(r, node)[k]) by {
            if k < w.len() {
                assert(without(r, node)[k] == w[k]);
                let j = choose|j: int| 0 <= j < r.drop_last().len() && r.drop_last()[j] == w[k];
                assert(r[j] == w[k]);
            } else {
                assert(r[r.len() - 1] == r.last());
            }
        }
    }
}

/// For an ordered ring, `cut` is the index that splits the points at or
/// before `h` from those after it.
pub(crate) proof fn lemma_cut_split(r: Seq<Point>, h: u64)
    requires
        sorted_ring(r),
    ensures
        cut(r, h) <= r.len(),
        forall|j: int| 0 <= j < cut(r, h) ==> (#[trigger] r[j]).0 <= h,
        forall|j: int| cut(r, h) <= j < r.len() ==> (#[trigger] r[j]).0 > h,
    decreases r.len(),
{
    if r.len() > 0 {
        let d = r.drop_last();
        assert(sorted_ring(d)) by {
            assert forall|i: int, j: int| 0 <= i <= j < d.len() implies (#[trigger] d[i]).0 <= (#[trigger] d[j]).0 by {
                assert(d[i] == r[i] && d[j] == r[j]);
            }
        }
        lemma_cut_split(d, h);
        assert forall|j: int| 0 <= j < d.len() implies #[trigger] r[j] == d[j] by {}
        if r.last().0 <= h {
            assert forall|j: int| 0 <= j < r.len() implies (#[trigger] r[j]).0 <= h by {
                assert(r[j].0 <= r[r.len() - 1].0);
            }
            if cut(d, h) < d.len() {
                assert(d[cut(d, h) as int].0 > h);
                assert(r[cut(d, h) as int].0 <= h);
            }
        }
    }
}

/// Any split index of an ordered ring is its `cut`.
pub(crate) proof fn lemma_cut_unique(r: Seq<Point>, h: u64, i: int)
    requires
        0 <= i <= r.len(),
        forall|j: int| 0 <= j < i ==> (#[trigger] r[j]).0 <= h,
        forall|j: int| i <= j < r.len() ==> (#[trigger] r[j]).0 > h,
    ensures
        cut(r, h) == i,
    decreases r.len(),
{
    if r.len() > 0 {
        let d = r.drop_last();
        assert forall|j: int| 0 <= j < d.len() implies #[trigger] r[j] == d[j] by {}
        if i == r.len() {
            assert(r[r.len() - 1].0 <= h);
            lemma_cut_unique(d, h, i - 1);
        } else {
            assert(r[r.len() - 1].0 > h);
            lemma_cut_unique(d, h, i);
        }
    }
}

/// Adding a node's points to an ordered ring moves no key except onto the new node.
pub proof fn lemma_add_moves_only_to_new(before: Seq<Point>, after: Seq<Point>, node: Seq<char>, h: u64)
    requires
        sorted_ring(after),
        without(after, node) == before,
        before.len() > 0,
    ensures
        owner(after, h) == owner(before, h) || owner(after, h) == node,
{
    lemma_cut_split(after, h);
    let i = cut(after, h) as int;
    let a = after.take(i);
    let b = after.skip(i);
    assert(after =~= a + b);
    lemma_without_append(a, b, node);
    lemma_without_from(a, node);
    lemma_without_from(b, node);
    let wa = without(a, node);
    let wb = without(b, node);
    assert(before =~= wa + wb);
    assert forall|j: int| 0 <= j < wa.len() implies (#[trigger] before[j]).0 <= h by {
        assert(before[j] == wa[j]);
        let k = choose|k: int| 0 <= k < a.len() && a[k] == wa[j];
        assert(a[k] == after[k]);
    }
    assert forall|j: int| wa.len() <= j < before.len() implies (#[trigger] before[j]).0 > h by {
        assert(before[j] == wb[j - wa.len()]);
        let k = choose|k: int| 0 <= k < b.len() && b[k] == wb[j - wa.len()];
        assert(b[k] == after[i + k]);
    }
    lemma_cut_unique(before, h, wa.len() as int);
    if owner(after, h) != node {
        if i < after.len() {
            assert(b =~= seq![after[i]] + b.drop_first());
            lemma_without_append(seq![after[i]], b.drop_first(), node);
            assert(after[i].1 != node);
            assert(without(seq![after[i]], node) =~= seq![after[i]]) by {
                assert(seq![after[i]].drop_last() =~= Seq::<Point>::empty());
                assert(without(Seq::<Point>::empty(), node) =~= Seq::<Point>::empty());
            }
            assert(wb[0] == after[i]);
            assert(before[wa.len() as int] == wb[0]);
        } else {
            assert(b.len() == 0);
            assert(wb =~= Seq::<Point>::empty());
            assert(after =~= seq![after[0]] + after.drop_first());
            lemma_without_append(seq![after[0]], after.drop_first(), node);
            assert(without(seq![after[0]], node) =~= seq![after[0]]) by {
                assert(seq![after[0]].drop_last() =~= Seq::<Point>::empty());
            }
            assert(before[0] == after[0]);
        }
    }
}

/// After a node is removed, no hash belongs to it.
pub proof fn lemma_removed_owns_nothing(r: Seq<Point>, node: Seq<char>, h: u64)
    requires
        without(r, node).len() > 0,
    ensures
        owner(without(r, node), h) != node,
{
    lemma_without_from(r, node);
    let w = without(r, node);
    if cut(w, h) < w.len() {
        assert(w[cut(w, h) as int].1 != node);
    } else {
        assert(w[0].1 != node);
    }
}

/// The eight little-endian bytes of `x`.
pub(crate) fn le_bytes_exec(x: u64) -> (v: Vec<u8>)
    ensures
        v@ == le_bytes(x),
{
    let mut v: Vec<u8> = Vec::new();
    let mut i: u64 = 0;
    while i < 8
        invariant
            i <= 8,
            v@ =~= le_bytes(x).take(i as int),
        decreases 8 - i,
    {
        v.push(((x >> (8 * i)) & 0xff) as u8);
        i = i + 1;
    }
    v
}

/// The hash of a key on the ring.
fn hash_of(input: &str) -> (r: u64)
    ensures
        r == key_hash(input@),
{
    let mut hasher = DefaultHasher::new();
    let head = input.as_bytes();
    hasher.write(head);
    let tail: Vec<u8> = vec![0xffu8];
    let t = tail.as_slice();
    hasher.write(t);
    proof {
        assert(head@ == encode_utf8(input@));
        assert(t@ =~= seq![0xffu8]);
        assert(hasher@ =~= seq![encode_utf8(input@), seq![0xffu8]]);
    }
    hasher.finish()
}

/// The hash of virtual node number `replica` of `node`.
fn virtual_node_hash(node: &str, replica: usize) -> (r: u64)
    ensures
        r == replica_hash(node@, replica as nat),
{
    let mut hasher = DefaultHasher::new();
    let head = node.as_bytes();
    hasher.write(head);
    let tail: Vec<u8> = vec![0xffu8];
    let t = tail.as_slice();
    hasher.write(t);
    let bytes = le_bytes_exec(replica as u64);
    let b = bytes.as_slice();
    hasher.write(b);
    proof {
        assert(head@ == encode_utf8(node@));
        assert(t@ =~= seq![0xffu8]);
        assert(b@ == le_bytes(replica as u64));
        assert(hasher@ =~= seq![encode_utf8(node@), seq![0xffu8], le_bytes(replica as u64)]);
    }
    hasher.finish()
}

/// The ring's points as values.
pub open spec fn points_of(ring: Seq<(u64, String)>) -> Seq<Point> {
    ring.map_values(|p: (u64, String)| (p.0, p.1@))
}

/// The first index whose point lies strictly after `h`.
pub(crate) fn upper_bound(ring: &Vec<(u64, String)>, h: u64) -> (i: usize)
    requires
        sorted_ring(points_of(ring@)),
    ensures
        i == cut(points_of(ring@), h),
        i <= ring@.len(),
{
    let ghost r = points_of(ring@);
    let mut lo: usize = 0;
    let mut hi: usize = ring.len();
    while lo < hi
        invariant
            r == points_of(ring@),
            sorted_ring(r),
            0 <= lo <= hi <= ring@.len(),
            forall|j: int| 0 <= j < lo ==> (#[trigger] r[j]).0 <= h,
            forall|j: int| hi <= j < r.len() ==> (#[trigger] r[j]).0 > h,
        decreases hi - lo,
    {
        let mid = lo + (hi - lo) / 2;
        proof {
            assert(r[mid as int].0 == ring@[mid as int].0);
        }
        if ring[mid].0 <= h {
            proof {
                assert forall|j: int| 0 <= j < mid + 1 implies (#[trigger] r[j]).0 <= h by {
                    assert(r[j].0 <= r[mid as int].0);
                }
            }
            lo = mid + 1;
        } else {
            proof {
                assert forall|j: int| mid <= j < r.len() implies (#[trigger] r[j]).0 > h by {
                    assert(r[mid as int].0 <= r[j].0);
                }
            }
            hi = mid;
        }
    }
    proof {
        lemma_cut_unique(r, h, lo as int);
    }
    lo
}

/// A hash ring mapping keys to node names.
pub struct ConsistentHash {
    replicas: usize,
    ring: Vec<(u64, String)>,
}

impl ConsistentHash {
    /// The points of the ring, in order.
    pub closed spec fn points(&self) -> Seq<Point> {
        points_of(self.ring@)
    }

    /// How many points each node gets.
    pub closed spec fn replica_count(&self) -> nat {
        self.replicas as nat
    }

    pub closed spec fn wf(&self) -> bool {
        self.replicas > 0 && sorted_ring(self.points())
    }

    /// A well-formed ring places each node at least once and keeps its points
    /// ordered by hash, so the ring laws above apply to it.
    pub proof fn lemma_wf_sorted(&self)
        requires
            self.wf(),
        ensures
            sorted_ring(self.points()),
            self.replica_count() > 0,
    {
    }

    /// An empty ring placing each node at `replicas` points.
    pub fn new(replicas: usize) -> (r: Self)
        requires
            replicas > 0,
        ensures
            r.wf(),
            sorted_ring(r.points()),
            r.points() == Seq::<Point>::empty(),
            r.replica_count() == replicas,
    {
        let r = ConsistentHash { replicas, ring: Vec::new() };
        proof {
            assert(r.points() =~= Seq::<Point>::empty());
        }
        r
    }

    /// Places `node` at its points; a node already on the ring is left alone.
    pub fn add_node(&mut self, node: &str)
        requires
            old(self).wf(),
        ensures
            final(self).wf(),
            sorted_ring(final(self).points()),
            final(self).replica_count() == old(self).replica_count(),
            node_names(old(self).points()).contains(node@) ==> final(self).points() == old(self).points(),
            !node_names(old(self).points()).contains(node@) ==> {
                &&& without(final(self).points(), node@) == old(self).points()
                &&& hashes_of(final(self).points(), node@).to_multiset() == Seq::new(
                    old(self).replica_count(),
                    |k: int| replica_hash(node@, k as nat),
                ).to_multiset()
            },
    {
        let name = String::from_str(node);
        let ghost r0 = self.points();
        let mut i: usize = 0;
        while i < self.ring.len()
            invariant
                *self == *old(self),
                self.wf(),
                r0 == old(self).points(),
                r0 == points_of(self.ring@),
                name@ == node@,
                i <= self.ring@.len(),
                forall|j: int| 0 <= j < i ==> (#[trigger] r0[j]).1 != node@,
            decreases self.ring@.len() - i,
        {
            if self.ring[i].1 == name {
                proof {
                    assert(r0[i as int].1 == node@);
                    assert(r0.map_values(|p: Point| p.1)[i as int] == node@);
                }
                return;
            }
            i = i + 1;
        }
        proof {
            lemma_hashes_absent(r0, node@);
            lemma_without_absent(r0, node@);
            let names = r0.map_values(|p: Point| p.1);
            assert forall|k: int| 0 <= k < names.len() implies #[trigger] names[k] != node@ by {
                assert(r0[k].1 != node@);
            }
            assert(!names.contains(node@));
            assert(!names.to_set().contains(node@));
            assert(Seq::new(0, |k: int| replica_hash(node@, k as nat)) =~= Seq::<u64>::empty());
        }
        let mut replica: usize = 0;
        while replica < self.replicas
            invariant
                name@ == node@,
                self.replicas == old(self).replicas,
                r0 == old(self).points(),
                self.replicas > 0,
                sorted_ring(self.points()),
                replica <= self.replicas,
                without(self.points(), node@) == r0,
                hashes_of(self.points(), node@).to_multiset() == Seq::new(
                    replica as nat,
                    |k: int| replica_hash(node@, k as nat),
                ).to_multiset(),
            decreases self.replicas - replica,
        {
            let h = virtual_node_hash(node, replica);
            let pos = upper_bound(&self.ring, h);
            let ghost before = self.points();
            proof {
                lemma_cut_split(before, h);
            }
            self.ring.insert(pos, (h, name.clone()));
            proof {
                let after = self.points();
                let x: Point = (h, node@);
                assert(after =~= before.take(pos as int) + seq![x] + before.skip(pos as int));
                assert(before =~= before.take(pos as int) + before.skip(pos as int));
                lemma_insert_point(before, pos as int, x, node@);
                assert(sorted_ring(after)) by {
                    assert forall|a: int, b: int| 0 <= a <= b < after.len() implies (#[trigger] after[a]).0
                        <= (#[trigger] after[b]).0 by {
                        if a < pos {
                            assert(after[a] == before[a]);
                        } else if a > pos {
                            assert(after[a] == before[a - 1]);
                        }
                        if b < pos {
                            assert(after[b] == before[b]);
                        } else if b > pos {
                            assert(after[b] == before[b - 1]);
                        }
                    }
                }
                let hs = Seq::new(replica as nat, |k: int| replica_hash(node@, k as nat));
                assert(Seq::new((replica + 1) as nat, |k: int| replica_hash(node@, k as nat)) =~= hs.push(h));
                vstd::seq_lib::to_multiset_build(hs, h);
            }
            replica = replica + 1;
        }
    }

    /// Takes `node` and all of its points off the ring.
    pub fn remove_node(&mut self, node: &str)
        requires
            old(self).wf(),
        ensures
            final(self).wf(),
            sorted_ring(final(self).points()),
            final(self).replica_count() == old(self).replica_count(),
            final(self).points() == without(old(self).points(), node@),
    {
        let name = String::from_str(node);
        let ghost r0 = self.points();
        let mut kept: Vec<(u64, String)> = Vec::new();
        let mut i: usize = 0;
        while i < self.ring.len()
            invariant
                r0 == points_of(self.ring@),
                sorted_ring(r0),
                name@ == node@,
                i <= self.ring@.len(),
                points_of(kept@) == without(r0.take(i as int), node@),
                sorted_ring(points_of(kept@)),
                forall|k: int| 0 <= k < kept@.len() ==> (#[trigger] points_of(kept@)[k]).0 <= if i < r0.len() {
                    r0[i as int].0 as int
                } else {
                    u64::MAX as int
                },
            decreases self.ring@.len() - i,
        {
            proof {
                assert(r0.take(i as int + 1).drop_last() =~= r0.take(i as int));
                assert(r0.take(i as int + 1).last() == r0[i as int]);
            }
            if !(self.ring[i].1 == name) {
                let ghost k0 = points_of(kept@);
                kept.push((self.ring[i].0, self.ring[i].1.clone()));
                proof {
                    assert(points_of(kept@) =~= k0.push(r0[i as int]));
                }
            }
            proof {
                let k1 = points_of(kept@);
                assert forall|k: int| 0 <= k < kept@.len() implies (#[trigger] k1[k]).0 <= if i + 1 < r0.len() {
                    r0[i + 1].0 as int
                } else {
                    u64::MAX as int
                } by {
                    if i + 1 < r0.len() {
                        assert(r0[i as int].0 <= r0[i + 1].0);
                    }
                }
            }
            i = i + 1;
        }
        proof {
            assert(r0.take(i as int) =~= r0);
        }
        self.ring = kept;
    }

    /// The node responsible for `key`, or `None` when the ring is empty.
    pub fn get(&self, key: &str) -> (r: Option<&str>)
        requires
            self.wf(),
        ensures
            self.points().len() == 0 ==> r is None,
            self.points().len() > 0 ==> (r matches Some(n) && n@ == owner(self.points(), key_hash(key@))),
    {
        if self.ring.len() == 0 {
            return None;
        }
        let hash = hash_of(key);
        let index = upper_bound(&self.ring, hash);
        let index = if index == self.ring.len() { 0 } else { index };
        proof {
            assert(self.points()[index as int].1 == self.ring@[index as int].1@);
        }
        Some(self.ring[index].1.as_str())
    }

    /// The number of distinct nodes on the ring.
    pub fn node_count(&self) -> (r: usize)
        ensures
            r == node_names(self.points()).len(),
    {
        let ghost pts = self.points();
        let mut names: Vec<String> = Vec::new();
        let mut i: usize = 0;
        while i < self.ring.len()
            invariant
                pts == points_of(self.ring@),
                i <= self.ring@.len(),
                names@.map_values(|s: String| s@).no_duplicates(),
                names@.map_values(|s: String| s@).to_set() == node_names(pts.take(i as int)),
                names@.len() <= i,
            decreases self.ring@.len() - i,
        {
            let ghost nv = names@.map_values(|s: String| s@);
            let mut found = false;
            let mut j: usize = 0;
            while j < names.len()
                invariant
                    nv == names@.map_values(|s: String| s@),
                    j <= names@.len(),
                    i < self.ring@.len(),
                    found <==> nv.take(j as int).contains(self.ring@[i as int].1@),
                decreases names@.len() - j,
            {
                proof {
                    assert(nv.take(j as int + 1) =~= nv.take(j as int).push(nv[j as int]));
                    nv.take(j as int).lemma_push_to_set_commute(nv[j as int]);
                    assert(nv.take(j as int).push(nv[j as int]).contains(self.ring@[i as int].1@) <==> nv.take(
                        j as int,
                    ).push(nv[j as int]).to_set().contains(self.ring@[i as int].1@));
                    assert(nv.take(j as int).contains(self.ring@[i as int].1@) <==> nv.take(j as int).to_set().contains(
                        self.ring@[i as int].1@,
                    ));
                }
                if names[j] == self.ring[i].1 {
                    found = true;
                }
                j = j + 1;
            }
            proof {
                assert(nv.take(j as int) =~= nv);
            }
            let ghost x = pts[i as int].1;
            proof {
                assert(x == self.ring@[i as int].1@);
                assert(pts.take(i as int + 1) =~= pts.take(i as int).push(pts[i as int]));
                assert(pts.take(i as int + 1).map_values(|p: Point| p.1) =~= pts.take(i as int).map_values(
                    |p: Point| p.1,
                ).push(x));
                pts.take(i as int).map_values(|p: Point| p.1).lemma_push_to_set_commute(x);
                assert(node_names(pts.take(i as int + 1)) =~= node_names(pts.take(i as int)).insert(x));
            }
            if !found {
                names.push(self.ring[i].1.clone());
                proof {
                    assert(names@.map_values(|s: String| s@) =~= nv.push(x));
                    assert(!nv.contains(x));
                    nv.lemma_push_to_set_commute(x);
                }
            } else {
                proof {
                    assert(nv.contains(x));
                    assert(nv.to_set().contains(x));
                    assert(nv.to_set().insert(x) =~= nv.to_set());
                }
            }
            i = i + 1;
        }
        proof {
            assert(pts.take(i as int) =~= pts);
            names@.map_values(|s: String| s@).unique_seq_to_set();
        }
        names.len()
    }

    /// The number of points on the ring.
    pub fn ring_len(&self) -> (r: usize)
        ensures
            r == self.points().len(),
    {
        self.ring.len()
    }
}

pub(crate) proof fn lemma_hashes_absent(r: Seq<Point>, node: Seq<char>)
    requires
        forall|j: int| 0 <= j < r.len() ==> (#[trigger] r[j]).1 != node,
    ensures
        hashes_of(r, node) == Seq::<u64>::empty(),
    decreases r.len(),
{
    if r.len() > 0 {
        assert forall|j: int| 0 <= j < r.drop_last().len() implies (#[trigger] r.drop_last()[j]).1 != node by {
            assert(r.drop_last()[j] == r[j]);
        }
        lemma_hashes_absent(r.drop_last(), node);
        assert(r[r.len() - 1] == r.last());
    }
}

pub(crate) proof fn lemma_without_absent(r: Seq<Point>, node: Seq<char>)
    requires
        forall|j: int| 0 <= j < r.len() ==> (#[trigger] r[j]).1 != node,
    ensures
        without(r, node) == r,
    decreases r.len(),
{
    if r.len() > 0 {
        assert forall|j: int| 0 <= j < r.drop_last().len() implies (#[trigger] r.drop_last()[j]).1 != node by {
            assert(r.drop_last()[j] == r[j]);
        }
        lemma_without_absent(r.drop_last(), node);
        assert(r[r.len() - 1] == r.last());
        assert(r.drop_last().push(r.last()) =~= r);
    }
}

/// Inserting a point of `node` leaves the other points alone and adds its hash.
pub(crate) proof fn lemma_insert_point(r: Seq<Point>, pos: int, x: Point, node: Seq<char>)
    requires
        0 <= pos <= r.len(),
        x.1 == node,
    ensures
        without(r.take(pos) + seq![x] + r.skip(pos), node) == without(r, node),
        hashes_of(r.take(pos) + seq![x] + r.skip(pos), node).to_multiset() == hashes_of(r, node).to_multiset().insert(
            x.0,
        ),
{
    let a = r.take(pos);
    let b = r.skip(pos);
    assert(r =~= a + b);
    lemma_without_append(a + seq![x], b, node);
    lemma_without_append(a, seq![x], node);
    lemma_without_append(a, b, node);
    assert(seq![x].drop_last() =~= Seq::<Point>::empty());
    assert(seq![x].last() == x);
    assert(without(Seq::<Point>::empty(), node) =~= Seq::<Point>::empty());
    assert(hashes_of(Seq::<Point>::empty(), node) =~= Seq::<u64>::empty());
    assert(without(seq![x], node) =~= Seq::<Point>::empty());
    assert(without(a, node) + Seq::<Point>::empty() =~= without(a, node));
    lemma_hashes_append(a + seq![x], b, node);
    lemma_hashes_append(a, seq![x], node);
    lemma_hashes_append(a, b, node);
    assert(hashes_of(seq![x], node) =~= seq![x.0]);
    let ha = hashes_of(a, node);
    let hb = hashes_of(b, node);
    vstd::seq_lib::lemma_multiset_commutative(ha + seq![x.0], hb);
    vstd::seq_lib::lemma_multiset_commutative(ha, seq![x.0]);
    vstd::seq_lib::lemma_multiset_commutative(ha, hb);
    assert(seq![x.0].to_multiset() =~= Multiset::<u64>::empty().insert(x.0)) by {
        broadcast use vstd::seq_lib::group_to_multiset_ensures;
        assert(seq![x.0] =~= Seq::<u64>::empty().push(x.0));
    }
    assert(ha.to_multiset().add(Multiset::<u64>::empty().insert(x.0)).add(hb.to_multiset()) =~= ha.to_multiset().add(
        hb.to_multiset(),
    ).insert(x.0));
}

} // verus!
