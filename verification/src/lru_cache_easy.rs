//! A fixed-capacity LRU cache: a hash map from key to arena slot, and the arena
//! slots stitched into a doubly linked list from the most recently used entry
//! (`head`) to the least recently used one (`tail`). A full cache reuses the
//! tail slot for the new entry.
use vstd::prelude::*;
use std::collections::HashMap;
use std::hash::Hash;
use vstd::std_specs::hash::obeys_key_model;
use crate::lru_cache::{copy_key, exact_clone};

verus! {

broadcast use vstd::std_specs::hash::group_hash_axioms;

pub struct LruCache<K, V> {
    /// Maximum number of entries; at least 1.
    cap: usize,
    /// Key to arena slot.
    lookup_table: HashMap<K, usize>,
    /// The arena: slot `i` holds `keys[i]`, `values[i]`, and its list links.
    keys: Vec<K>,
    values: Vec<V>,
    /// Neighbour closer to the most recently used end.
    prev: Vec<Option<usize>>,
    /// Neighbour closer to the least recently used end.
    next: Vec<Option<usize>>,
    head: Option<usize>,
    tail: Option<usize>,
    /// The slots from `head` to `tail`.
    order: Ghost<Seq<usize>>,
}

/// The link a slot at position `p` of `order` must have towards the front.
pub open spec fn prev_of(order: Seq<usize>, p: int) -> Option<usize> {
    if p == 0 {
        None
    } else {
        Some(order[p - 1])
    }
}

/// The link a slot at position `p` of `order` must have towards the back.
pub open spec fn next_of(order: Seq<usize>, p: int) -> Option<usize> {
    if p == order.len() - 1 {
        None
    } else {
        Some(order[p + 1])
    }
}

pub open spec fn first_of(order: Seq<usize>) -> Option<usize> {
    if order.len() == 0 {
        None
    } else {
        Some(order[0])
    }
}

pub open spec fn last_of(order: Seq<usize>) -> Option<usize> {
    if order.len() == 0 {
        None
    } else {
        Some(order.last())
    }
}

impl<K, V> LruCache<K, V> where K: Hash + Eq + Clone {
    pub closed spec fn wf(&self) -> bool {
        let n = self.keys@.len();
        &&& self.cap > 0
        &&& obeys_key_model::<K>()
        &&& exact_clone::<K>()
        &&& n <= self.cap
        &&& self.values@.len() == n
        &&& self.order@.len() == n
        &&& links(self.prev@, self.next@, self.head, self.tail, self.order@, n)
        &&& forall|i: usize| i < n ==> self.order@.contains(i)
        &&& forall|i: int, j: int| 0 <= i < j < n ==> self.keys@[i] != self.keys@[j]
        &&& self.lookup_table@.dom() == Set::new(|k: K| exists|i: int| 0 <= i < n && self.keys@[i] == k)
        &&& forall|i: int| 0 <= i < n ==> self.lookup_table@[#[trigger] self.keys@[i]] == i
    }

    /// The entries from most to least recently used.
    pub closed spec fn entries(&self) -> Seq<(K, V)> {
        self.order@.map_values(|i: usize| (self.keys@[i as int], self.values@[i as int]))
    }

    pub closed spec fn capacity(&self) -> nat {
        self.cap as nat
    }

    /// A cache never holds more entries than its capacity, whatever calls came before.
    pub proof fn lemma_within_capacity(&self)
        requires
            self.wf(),
        ensures
            self.entries().len() <= self.capacity(),
            self.capacity() > 0,
    {
    }

    /// Create a cache holding at most `cap` entries. Panics if `cap == 0`.
    ///
    /// The contracts model keys by value: they ask that `K`'s `Hash` and `Eq`
    /// agree with equality (`obeys_key_model`) and that a clone of a key equals
    /// it (`exact_clone`). Verus knows both for integer and `bool` keys, so a
    /// verified caller uses such keys; unverified callers may use any key
    /// whose `Hash`, `Eq` and `Clone` are lawful, as `HashMap` itself assumes.
    pub fn new(cap: usize) -> (r: Self)
        requires
            cap > 0,
            obeys_key_model::<K>(),
            exact_clone::<K>(),
        ensures
            r.wf(),
            r.entries() == Seq::<(K, V)>::empty(),
            r.capacity() == cap,
    {
        if cap == 0 {
            let refused: Option<()> = None;
            refused.expect("capacity must be > 0");
        }
        let r = LruCache {
            cap,
            lookup_table: HashMap::new(),
            keys: Vec::new(),
            values: Vec::new(),
            prev: Vec::new(),
            next: Vec::new(),
            head: None,
            tail: None,
            order: Ghost(Seq::empty()),
        };
        assert(r.lookup_table@.dom() =~= Set::new(|k: K| exists|i: int| 0 <= i < 0 && r.keys@[i] == k));
        assert(r.order@.no_duplicates());
        assert(r.entries() =~= Seq::<(K, V)>::empty());
        r
    }
}

/// The list links of `prev`/`next`/`head`/`tail` spell out `order`, a list
/// of distinct slots below `n`.
pub open spec fn links(
    prev: Seq<Option<usize>>,
    next: Seq<Option<usize>>,
    head: Option<usize>,
    tail: Option<usize>,
    order: Seq<usize>,
    n: nat,
) -> bool {
    &&& prev.len() == n && next.len() == n
    &&& order.no_duplicates()
    &&& forall|p: int| 0 <= p < order.len() ==> (#[trigger] order[p]) < n
    &&& head == first_of(order)
    &&& tail == last_of(order)
    &&& forall|p: int| 0 <= p < order.len() ==> prev[#[trigger] order[p] as int] == prev_of(order, p)
    &&& forall|p: int| 0 <= p < order.len() ==> next[#[trigger] order[p] as int] == next_of(order, p)
}

#[verifier::spinoff_prover]
#[verifier::rlimit(60)]
/// Taking slot `order[p]` out of the list, by linking its neighbours to each
/// other, leaves the list `order.remove(p)`.
proof fn lemma_unlink(
    prev: Seq<Option<usize>>,
    next: Seq<Option<usize>>,
    head: Option<usize>,
    tail: Option<usize>,
    order: Seq<usize>,
    n: nat,
    p: int,
    prev1: Seq<Option<usize>>,
    next1: Seq<Option<usize>>,
    head1: Option<usize>,
    tail1: Option<usize>,
)
    requires
        links(prev, next, head, tail, order, n),
        0 <= p < order.len(),
        next1 == (match prev_of(order, p) {
            Some(q) => next.update(q as int, next_of(order, p)),
            None => next,
        }),
        head1 == (match prev_of(order, p) {
            Some(q) => head,
            None => next_of(order, p),
        }),
        prev1 == (match next_of(order, p) {
            Some(q) => prev.update(q as int, prev_of(order, p)),
            None => prev,
        }),
        tail1 == (match next_of(order, p) {
            Some(q) => tail,
            None => prev_of(order, p),
        }),
    ensures
        links(prev1, next1, head1, tail1, order.remove(p), n),
        !order.remove(p).contains(order[p]),
{
    let order1 = order.remove(p);
    let i = order[p];
    assert forall|a: int, b: int| 0 <= a < b < order1.len() implies order1[a] != order1[b] by {
        let a0 = if a < p { a } else { a + 1 };
        let b0 = if b < p { b } else { b + 1 };
        assert(order1[a] == order[a0]);
        assert(order1[b] == order[b0]);
    }
    assert forall|t: int| 0 <= t < order1.len() implies order1[t] != i by {
        let t0 = if t < p { t } else { t + 1 };
        assert(order1[t] == order[t0]);
    }
    assert forall|t: int| 0 <= t < order1.len() implies (#[trigger] order1[t]) < n by {
        let t0 = if t < p { t } else { t + 1 };
        assert(order1[t] == order[t0]);
    }
    assert forall|t: int| 0 <= t < order1.len() implies prev1[#[trigger] order1[t] as int] == prev_of(order1, t) by {
        let t0 = if t < p { t } else { t + 1 };
        assert(order1[t] == order[t0]);
        if t > 0 {
            let s0 = if t - 1 < p { t - 1 } else { t };
            assert(order1[t - 1] == order[s0]);
        }
        if t0 != p + 1 && p + 1 < order.len() {
            assert(order[t0] != order[p + 1]);
        }
    }
    assert forall|t: int| 0 <= t < order1.len() implies next1[#[trigger] order1[t] as int] == next_of(order1, t) by {
        let t0 = if t < p { t } else { t + 1 };
        assert(order1[t] == order[t0]);
        if t + 1 < order1.len() {
            let s0 = if t + 1 < p { t + 1 } else { t + 2 };
            assert(order1[t + 1] == order[s0]);
        }
        if t0 != p - 1 && p > 0 {
            assert(order[t0] != order[p - 1]);
        }
    }
    if order1.len() > 0 {
        if p == 0 {
            assert(order1[0] == order[1]);
        }
        if p == order.len() - 1 {
            assert(order1.last() == order[p - 1]);
        } else {
            assert(order1.last() == order.last());
        }
    }
}

/// Linking a slot that is not in the list in front of the head makes it the
/// new head.
proof fn lemma_link_front(
    prev: Seq<Option<usize>>,
    next: Seq<Option<usize>>,
    head: Option<usize>,
    tail: Option<usize>,
    order: Seq<usize>,
    n: nat,
    i: usize,
    prev1: Seq<Option<usize>>,
    next1: Seq<Option<usize>>,
)
    requires
        links(prev, next, head, tail, order, n),
        i < n,
        !order.contains(i),
        next1 == next.update(i as int, head),
        prev1 == (match head {
            Some(h) => prev.update(i as int, None).update(h as int, Some(i)),
            None => prev.update(i as int, None),
        }),
    ensures
        links(
            prev1,
            next1,
            Some(i),
            if tail is None { Some(i) } else { tail },
            seq![i] + order,
            n,
        ),
{
    let order2 = seq![i] + order;
    assert forall|t: int| 0 <= t < order.len() implies order[t] != i by {
        if order[t] == i {
            assert(order.contains(i));
        }
    }
    assert forall|a: int, b: int| 0 <= a < b < order2.len() implies order2[a] != order2[b] by {
        assert(order2[b] == order[b - 1]);
        if a > 0 {
            assert(order2[a] == order[a - 1]);
        }
    }
    assert forall|t: int| 0 <= t < order2.len() implies (#[trigger] order2[t]) < n by {
        if t > 0 {
            assert(order2[t] == order[t - 1]);
        }
    }
    assert forall|t: int| 0 <= t < order2.len() implies prev1[#[trigger] order2[t] as int] == prev_of(order2, t) by {
        if t > 0 {
            assert(order2[t] == order[t - 1]);
            if t > 1 {
                assert(order2[t - 1] == order[t - 2]);
                assert(order[t - 1] != order[0]);
            }
        }
    }
    assert forall|t: int| 0 <= t < order2.len() implies next1[#[trigger] order2[t] as int] == next_of(order2, t) by {
        if t > 0 {
            assert(order2[t] == order[t - 1]);
            if t + 1 < order2.len() {
                assert(order2[t + 1] == order[t]);
            }
        }
    }
    if order.len() > 0 {
        assert(order2.last() == order.last());
    }
}

impl<K, V> LruCache<K, V> where K: Hash + Eq + Clone {
    /// Promote slot `i` to the head of the list, whether it is already in the
    /// list (it is moved) or a fresh slot with no links (it is inserted).
    fn touch(&mut self, i: usize)
        requires
            i < old(self).prev@.len(),
            links(old(self).prev@, old(self).next@, old(self).head, old(self).tail, old(self).order@, old(self).prev@.len()),
            !old(self).order@.contains(i) ==> old(self).prev@[i as int] is None && old(self).next@[i as int] is None,
        ensures
            final(self).keys == old(self).keys,
            final(self).values == old(self).values,
            final(self).lookup_table == old(self).lookup_table,
            final(self).cap == old(self).cap,
            links(final(self).prev@, final(self).next@, final(self).head, final(self).tail, final(self).order@, old(self).prev@.len()),
            old(self).order@.contains(i) ==> final(self).order@ == seq![i] + old(self).order@.remove(old(self).order@.index_of(i)),
            !old(self).order@.contains(i) ==> final(self).order@ == seq![i] + old(self).order@,
    {
        let ghost n = self.prev@.len();
        let ghost order0 = self.order@;
        let ghost in_list = order0.contains(i);
        let ghost p: int = if in_list { order0.index_of(i) } else { -1 };
        let ghost prev0 = self.prev@;
        let ghost next0 = self.next@;
        let ghost head0 = self.head;
        let ghost tail0 = self.tail;
        proof {
            if in_list {
                assert(order0[p] == i);
            }
        }
        let pv = self.prev[i];
        let nx = self.next[i];
        let linked = pv.is_some() || nx.is_some() || self.head == Some(i) || self.tail == Some(i);
        proof {
            if in_list {
                assert(pv == prev_of(order0, p));
                assert(nx == next_of(order0, p));
                if order0.len() == 1 {
                    assert(self.head == Some(i));
                }
            } else if order0.len() > 0 {
                assert(order0[0] != i);
                assert(order0[order0.len() - 1] != i);
            }
        }
        let ghost order1 = if in_list { order0.remove(p) } else { order0 };
        if linked {
            match pv {
                Some(q) => {
                    self.next.set(q, nx);
                },
                None => {
                    self.head = nx;
                },
            }
            match nx {
                Some(q) => {
                    self.prev.set(q, pv);
                },
                None => {
                    self.tail = pv;
                },
            }
            proof {
                lemma_unlink(prev0, next0, head0, tail0, order0, n, p, self.prev@, self.next@, self.head, self.tail);
            }
        }
        let ghost prev1 = self.prev@;
        let ghost next1 = self.next@;
        let ghost head1 = self.head;
        let ghost tail1 = self.tail;
        self.prev.set(i, None);
        let old_head = self.head;
        self.next.set(i, old_head);
        match old_head {
            Some(h) => {
                self.prev.set(h, Some(i));
            },
            None => {},
        }
        self.head = Some(i);
        if self.tail.is_none() {
            self.tail = Some(i);
        }
        self.order = Ghost(seq![i] + order1);
        proof {
            lemma_link_front(prev1, next1, head1, tail1, order1, n, i, self.prev@, self.next@);
        }
    }
}

/// The entry at position `p` moved to the front.
pub open spec fn promote<K, V>(e: Seq<(K, V)>, p: int) -> Seq<(K, V)> {
    seq![e[p]] + e.remove(p)
}

impl<K, V> LruCache<K, V> where K: Hash + Eq + Clone {
    /// Look up `key`, promoting it to most recently used on a hit.
    #[verifier::spinoff_prover]
    #[verifier::rlimit(80)]
    pub fn get(&mut self, key: &K) -> (r: Option<&V>)
        requires
            old(self).wf(),
        ensures
            final(self).wf(),
            final(self).capacity() == old(self).capacity(),
            match r {
                Some(v) => exists|p: int|
                    0 <= p < old(self).entries().len() && (#[trigger] old(self).entries()[p]).0 == *key
                        && old(self).entries()[p].1 == *v && final(self).entries() == promote(
                        old(self).entries(),
                        p,
                    ),
                None => (forall|p: int|
                    0 <= p < old(self).entries().len() ==> (#[trigger] old(self).entries()[p]).0
                        != *key) && final(self).entries() == old(self).entries(),
            },
    {
        let i = match self.lookup_table.get(key) {
            Some(i) => *i,
            None => {
                proof {
                    assert forall|p: int| 0 <= p < self.entries().len() implies (#[trigger] self.entries()[p]).0 != *key by {
                        let j = self.order@[p];
                        assert(self.lookup_table@.dom().contains(self.keys@[j as int]));
                    }
                }
                return None;
            },
        };
        let ghost old_self = *self;
        proof {
            assert(self.lookup_table@.dom().contains(*key));
            let j = choose|j: int| 0 <= j < self.keys@.len() && self.keys@[j] == *key;
            assert(self.lookup_table@[self.keys@[j]] == j);
        }
        self.touch(i);
        proof {
            let p = old_self.order@.index_of(i);
            assert forall|x: usize| x < self.keys@.len() implies self.order@.contains(x) by {
                lemma_promote_contains(old_self.order@, p, x);
            }
            assert(old_self.entries()[p] == (*key, old_self.values@[i as int]));
            assert(self.entries() =~= promote(old_self.entries(), p)) by {
                let e = old_self.entries();
                assert forall|t: int| 0 <= t < self.entries().len() implies self.entries()[t] == promote(e, p)[t] by {
                    if t > 0 {
                        assert(self.order@[t] == old_self.order@.remove(p)[t - 1]);
                    }
                }
            }
            assert(self.order@.len() == self.keys@.len());
        }
        Some(&self.values[i])
    }
}

/// Moving one element to the front keeps every element.
proof fn lemma_promote_contains(order: Seq<usize>, p: int, x: usize)
    requires
        0 <= p < order.len(),
        order.contains(x),
    ensures
        (seq![order[p]] + order.remove(p)).contains(x),
{
    let o2 = seq![order[p]] + order.remove(p);
    let q = choose|q: int| 0 <= q < order.len() && order[q] == x;
    if q == p {
        assert(o2[0] == x);
    } else if q < p {
        assert(o2[q + 1] == x);
    } else {
        assert(o2[q] == x);
    }
}

impl<K, V> LruCache<K, V> where K: Hash + Eq + Clone {
    /// Insert or update `key`, making it the most recently used entry. When
    /// the cache is full, a new key takes the place of the least recently
    /// used entry.
    #[verifier::spinoff_prover]
    #[verifier::rlimit(100)]
    pub fn put(&mut self, key: K, value: V)
        requires
            old(self).wf(),
        ensures
            final(self).wf(),
            final(self).capacity() == old(self).capacity(),
            forall|p: int|
                0 <= p < old(self).entries().len() && (#[trigger] old(self).entries()[p]).0 == key
                    ==> final(self).entries() == seq![(key, value)] + old(self).entries().remove(p),
            (forall|p: int|
                0 <= p < old(self).entries().len() ==> (#[trigger] old(self).entries()[p]).0 != key)
                ==> final(self).entries() == seq![(key, value)] + if old(self).entries().len()
                < old(self).capacity() {
                old(self).entries()
            } else {
                old(self).entries().drop_last()
            },
    {
        assert(self.entries().len() == self.keys@.len());
        // Case 1: the key is present: update the value and promote it.
        if let Some(slot) = self.lookup_table.get(&key) {
            let i = *slot;
            proof {
                assert(self.lookup_table@.dom().contains(key));
                let j = choose|j: int| 0 <= j < self.keys@.len() && self.keys@[j] == key;
                assert(self.lookup_table@[self.keys@[j]] == j);
            }
            proof {
                let j = choose|j: int| 0 <= j < self.keys@.len() && self.keys@[j] == key;
                assert(self.order@.contains(j as usize));
                let q = choose|q: int| 0 <= q < self.order@.len() && self.order@[q] == j as usize;
                assert(self.entries()[q].0 == key);
            }
            self.update_slot(i, key, value);
            return;
        }
        proof {
            assert forall|q: int| 0 <= q < self.entries().len() implies (#[trigger] self.entries()[q]).0 != key by {
                let j = self.order@[q];
                assert(self.lookup_table@.dom().contains(self.keys@[j as int]));
            }
            assert forall|j: int| 0 <= j < self.keys@.len() implies self.keys@[j] != key by {
                assert(self.lookup_table@.dom().contains(self.keys@[j]));
            }
        }
        if self.keys.len() < self.cap {
            // Case 2: room to grow: append a fresh slot and promote it.
            self.append_slot(key, value);
        } else {
            // Case 3: full: reuse the least recently used slot.
            self.reuse_tail(key, value);
        }
    }

    #[verifier::spinoff_prover]
    fn update_slot(&mut self, i: usize, key: K, value: V)
        requires
            old(self).wf(),
            i < old(self).keys@.len(),
            old(self).keys@[i as int] == key,
        ensures
            final(self).wf(),
            final(self).cap == old(self).cap,
            forall|p: int|
                0 <= p < old(self).entries().len() && (#[trigger] old(self).entries()[p]).0 == key
                    ==> final(self).entries() == seq![(key, value)] + old(self).entries().remove(p),
    {
        let ghost old_self = *self;
        let ghost n = self.keys@.len();
        proof {
            assert(self.order@.contains(i));
        }
        self.values.set(i, value);
        self.touch(i);
        proof {
            let p = old_self.order@.index_of(i);
            assert(old_self.order@[p] == i);
            assert forall|x: usize| x < n implies self.order@.contains(x) by {
                lemma_promote_contains(old_self.order@, p, x);
            }
            let e = old_self.entries();
            assert forall|q: int| 0 <= q < e.len() && (#[trigger] e[q]).0 == key implies self.entries()
                == seq![(key, value)] + e.remove(q) by {
                assert(e[q].0 == old_self.keys@[old_self.order@[q] as int]);
                assert(old_self.order@[q] == i) by {
                    if old_self.order@[q] != i {
                        assert(old_self.keys@[old_self.order@[q] as int] != old_self.keys@[i as int]);
                    }
                }
                assert(q == p);
                assert forall|t: int| 0 <= t < self.entries().len() implies self.entries()[t] == (seq![(key, value)] + e.remove(q))[t] by {
                    if t > 0 {
                        assert(self.order@[t] == old_self.order@.remove(p)[t - 1]);
                        assert(self.order@[t] != i);
                    }
                }
                assert(self.entries() =~= seq![(key, value)] + e.remove(q));
            }
            assert(e[p].0 == key);
        }
    }

    #[verifier::spinoff_prover]
    #[verifier::rlimit(100)]
    fn append_slot(&mut self, key: K, value: V)
        requires
            old(self).wf(),
            old(self).keys@.len() < old(self).cap,
            forall|j: int| 0 <= j < old(self).keys@.len() ==> old(self).keys@[j] != key,
        ensures
            final(self).wf(),
            final(self).cap == old(self).cap,
            final(self).entries() == seq![(key, value)] + old(self).entries(),
    {
        let ghost old_self = *self;
        let ghost n = self.keys@.len();
        let i = self.keys.len();
        let ghost prev0 = self.prev@;
        let ghost next0 = self.next@;
        let ghost keys0 = self.keys@;
        let ghost lookup0 = self.lookup_table@;
        self.keys.push(copy_key(&key));
        self.values.push(value);
        self.prev.push(None);
        self.next.push(None);
        self.lookup_table.insert(key, i);
        proof {
            lemma_links_grow(prev0, next0, self.head, self.tail, self.order@, n);
            lemma_lookup_grow(keys0, lookup0, key);
            assert(self.keys@ == keys0.push(key));
            assert(self.lookup_table@ == lookup0.insert(key, i));
        }
        self.touch(i);
        proof {
            Self::lemma_append_done(old_self, *self, key, value);
        }
    }

    proof fn lemma_append_done(old_self: Self, s: Self, key: K, value: V)
        requires
            old_self.wf(),
            old_self.keys@.len() < old_self.cap,
            s.cap == old_self.cap,
            s.keys@ == old_self.keys@.push(key),
            s.values@ == old_self.values@.push(value),
            s.order@ == seq![old_self.keys@.len() as usize] + old_self.order@,
            links(s.prev@, s.next@, s.head, s.tail, s.order@, s.keys@.len()),
            forall|i: int, j: int| 0 <= i < j < s.keys@.len() ==> s.keys@[i] != s.keys@[j],
            s.lookup_table@.dom() == Set::new(|k: K| exists|i: int| 0 <= i < s.keys@.len() && s.keys@[i] == k),
            forall|i: int| 0 <= i < s.keys@.len() ==> s.lookup_table@[#[trigger] s.keys@[i]] == i,
        ensures
            s.wf(),
            s.entries() == seq![(key, value)] + old_self.entries(),
    {
        let n = old_self.keys@.len();
        assert forall|x: usize| x < n + 1 implies s.order@.contains(x) by {
            if x == n {
                assert(s.order@[0] == x);
            } else {
                assert(old_self.order@.contains(x));
                let t = choose|t: int| 0 <= t < old_self.order@.len() && old_self.order@[t] == x;
                assert(s.order@[t + 1] == x);
            }
        }
        let e = old_self.entries();
        assert(s.entries() =~= seq![(key, value)] + e) by {
            assert forall|t: int| 0 <= t < s.entries().len() implies s.entries()[t] == (seq![(key, value)] + e)[t] by {
                if t > 0 {
                    assert(s.order@[t] == old_self.order@[t - 1]);
                    assert(old_self.order@[t - 1] < n);
                }
            }
        }
    }

    #[verifier::spinoff_prover]
    #[verifier::rlimit(40)]
    fn reuse_tail(&mut self, key: K, value: V)
        requires
            old(self).wf(),
            old(self).keys@.len() == old(self).cap,
            forall|j: int| 0 <= j < old(self).keys@.len() ==> old(self).keys@[j] != key,
        ensures
            final(self).wf(),
            final(self).cap == old(self).cap,
            final(self).entries() == seq![(key, value)] + old(self).entries().drop_last(),
    {
        let ghost old_self = *self;
        let ghost n = self.keys@.len();
        if let Some(i) = self.tail {
            let ghost p = n - 1;
            proof {
                assert(self.order@[p] == i);
            }
            let mut new_key = key;
            self.keys.set_and_swap(i, &mut new_key);
            let old_key = new_key;
            self.values.set(i, value);
            self.lookup_table.remove(&old_key);
            let k2 = copy_key(&self.keys[i]);
            self.lookup_table.insert(k2, i);
            proof {
                assert(self.order@.contains(i)) by {
                    assert(self.order@[p] == i);
                }
            }
            self.touch(i);
            proof {
                assert(old_self.order@.index_of(i) == p) by {
                    assert(old_self.order@[p] == i);
                    assert(old_self.order@.no_duplicates());
                }
                assert forall|x: usize| x < n implies self.order@.contains(x) by {
                    lemma_promote_contains(old_self.order@, p, x);
                }
                assert forall|a: int, b: int| 0 <= a < b < n implies self.keys@[a] != self.keys@[b] by {
                    if a != i && b != i {
                        assert(self.keys@[a] == old_self.keys@[a]);
                        assert(self.keys@[b] == old_self.keys@[b]);
                    }
                }
                assert(self.lookup_table@.dom() =~= Set::new(|k: K| exists|j: int| 0 <= j < n && self.keys@[j] == k)) by {
                    assert forall|k: K| self.lookup_table@.dom().contains(k) implies exists|j: int| 0 <= j < n && self.keys@[j] == k by {
                        if k == key {
                            assert(self.keys@[i as int] == k);
                        } else {
                            assert(old_self.lookup_table@.dom().contains(k));
                            let j = choose|j: int| 0 <= j < n && old_self.keys@[j] == k;
                            assert(j != i);
                            assert(self.keys@[j] == k);
                        }
                    }
                    assert forall|k: K| (exists|j: int| 0 <= j < n && self.keys@[j] == k) implies self.lookup_table@.dom().contains(k) by {
                        let j = choose|j: int| 0 <= j < n && self.keys@[j] == k;
                        if j != i {
                            assert(old_self.keys@[j] == k);
                            assert(old_self.lookup_table@.dom().contains(k));
                            assert(k != old_key);
                        }
                    }
                }
                assert forall|j: int| 0 <= j < n implies self.lookup_table@[#[trigger] self.keys@[j]] == j by {
                    if j != i {
                        assert(self.keys@[j] == old_self.keys@[j]);
                        assert(old_self.keys@[j] != key);
                        assert(old_self.keys@[j] != old_key);
                    }
                }
                let e = old_self.entries();
                assert(self.entries() =~= seq![(key, value)] + e.drop_last()) by {
                    assert forall|t: int| 0 <= t < self.entries().len() implies self.entries()[t] == (seq![(key, value)] + e.drop_last())[t] by {
                        if t > 0 {
                            assert(self.order@[t] == old_self.order@.remove(p)[t - 1]);
                            assert(self.order@[t] == old_self.order@[t - 1]);
                            assert(old_self.order@[t - 1] != i);
                        }
                    }
                }
            }
        }
    }
}

/// A fresh slot with no links does not disturb the list.
proof fn lemma_links_grow(
    prev: Seq<Option<usize>>,
    next: Seq<Option<usize>>,
    head: Option<usize>,
    tail: Option<usize>,
    order: Seq<usize>,
    n: nat,
)
    requires
        links(prev, next, head, tail, order, n),
        n < usize::MAX,
    ensures
        links(prev.push(None), next.push(None), head, tail, order, n + 1),
        !order.contains(n as usize),
{
    assert forall|t: int| 0 <= t < order.len() implies prev.push(None)[#[trigger] order[t] as int] == prev_of(order, t) by {
        assert(order[t] < n);
    }
    assert forall|t: int| 0 <= t < order.len() implies next.push(None)[#[trigger] order[t] as int] == next_of(order, t) by {
        assert(order[t] < n);
    }
    if order.contains(n as usize) {
        let t = choose|t: int| 0 <= t < order.len() && order[t] == n as usize;
        assert(order[t] < n);
    }
}

/// Appending a key that is new to the arena keeps the lookup table exact.
proof fn lemma_lookup_grow<K>(keys: Seq<K>, lookup: Map<K, usize>, key: K)
    requires
        forall|i: int, j: int| 0 <= i < j < keys.len() ==> keys[i] != keys[j],
        lookup.dom() == Set::new(|k: K| exists|i: int| 0 <= i < keys.len() && keys[i] == k),
        forall|i: int| 0 <= i < keys.len() ==> lookup[#[trigger] keys[i]] == i,
        forall|j: int| 0 <= j < keys.len() ==> keys[j] != key,
        keys.len() < usize::MAX,
    ensures
        ({
            let keys1 = keys.push(key);
            let lookup1 = lookup.insert(key, keys.len() as usize);
            &&& forall|i: int, j: int| 0 <= i < j < keys1.len() ==> keys1[i] != keys1[j]
            &&& lookup1.dom() == Set::new(|k: K| exists|i: int| 0 <= i < keys1.len() && keys1[i] == k)
            &&& forall|i: int| 0 <= i < keys1.len() ==> lookup1[#[trigger] keys1[i]] == i
        }),
{
    let keys1 = keys.push(key);
    let lookup1 = lookup.insert(key, keys.len() as usize);
    let n = keys.len();
    assert forall|i: int, j: int| 0 <= i < j < keys1.len() implies keys1[i] != keys1[j] by {
        if j == n {
            assert(keys1[i] == keys[i]);
        } else {
            assert(keys1[i] == keys[i]);
            assert(keys1[j] == keys[j]);
        }
    }
    assert(lookup1.dom() =~= Set::new(|k: K| exists|i: int| 0 <= i < keys1.len() && keys1[i] == k)) by {
        assert forall|k: K| lookup1.dom().contains(k) implies exists|i: int| 0 <= i < keys1.len() && keys1[i] == k by {
            if k == key {
                assert(keys1[n as int] == k);
            } else {
                assert(lookup.dom().contains(k));
                let j = choose|j: int| 0 <= j < n && keys[j] == k;
                assert(keys1[j] == k);
            }
        }
        assert forall|k: K| (exists|i: int| 0 <= i < keys1.len() && keys1[i] == k) implies lookup1.dom().contains(k) by {
            let j = choose|j: int| 0 <= j < keys1.len() && keys1[j] == k;
            if j < n {
                assert(keys[j] == k);
                assert(lookup.dom().contains(k));
            }
        }
    }
    assert forall|i: int| 0 <= i < keys1.len() implies lookup1[#[trigger] keys1[i]] == i by {
        if i < n {
            assert(keys1[i] == keys[i]);
            assert(keys[i] != key);
        } else {
            assert(keys1[i] == key);
        }
    }
}

} // verus!
