//! LRU cache built from a hash map of `(value, generation)` and a queue of
//! `(key, generation)` use events.
//!
//! Every access stamps the key with a fresh generation and queues an event.
//! Eviction pops events from the front until it meets one that is still the
//! key's latest: that key is the least recently used.
use vstd::prelude::*;
use std::collections::{HashMap, VecDeque};
use std::hash::Hash;
use vstd::std_specs::hash::obeys_key_model;

verus! {

broadcast use vstd::std_specs::hash::group_hash_axioms;

/// Cloning a `K` gives a value equal to the one cloned.
pub open spec fn exact_clone<K: Clone>() -> bool {
    forall|a: K, b: K| vstd::pervasive::strictly_cloned(a, b) ==> a == b
}

/// Calls `f` on `key`; through a function value the call's outcome is
/// recorded as `call_ensures`.
fn call_with<K, F: Fn(&K) -> K>(f: F, key: &K) -> (r: K)
    requires
        call_requires(f, (key,)),
    ensures
        call_ensures(f, (key,), r),
{
    f(key)
}

/// A copy of `key`, made by its `Clone`.
pub(crate) fn copy_key<K: Clone>(key: &K) -> (r: K)
    requires
        exact_clone::<K>(),
    ensures
        r == *key,
{
    let r = call_with(K::clone, key);
    assert(vstd::pervasive::strictly_cloned(*key, r));
    r
}

pub struct LruCache<K, V> where K: Eq + Hash + Clone, V: Clone {
    capacity: usize,
    map: HashMap<K, (V, u64)>,
    recency: VecDeque<(K, u64)>,
    generation: u64,
    /// The key of every use so far, oldest first: use number `g` has stamp `g + 1`.
    uses: Ghost<Seq<K>>,
}

/// The position of the last use of `k` in `h`, or -1 when `k` was never used.
pub open spec fn last_use<K>(h: Seq<K>, k: K) -> int
    decreases h.len(),
{
    if h.len() == 0 {
        -1
    } else if h.last() == k {
        h.len() - 1
    } else {
        last_use(h.drop_last(), k)
    }
}

/// Position `i` of `h` is the last use of `k`.
pub open spec fn last_at<K>(h: Seq<K>, k: K, i: int) -> bool {
    &&& 0 <= i < h.len()
    &&& h[i] == k
    &&& forall|j: int| i < j < h.len() ==> #[trigger] h[j] != k
}

proof fn lemma_last_at<K>(h: Seq<K>, k: K, i: int)
    requires
        last_at(h, k, i),
    ensures
        last_use(h, k) == i,
    decreases h.len(),
{
    if i < h.len() - 1 {
        assert(h[h.len() - 1] != k);
        let s = h.drop_last();
        assert(last_at(s, k, i)) by {
            assert forall|j: int| i < j < s.len() implies #[trigger] s[j] != k by {
                assert(s[j] == h[j]);
            }
        }
        lemma_last_at(s, k, i);
    }
}

proof fn lemma_last_at_push<K>(h: Seq<K>, x: K, k: K, i: int)
    requires
        k != x,
        last_at(h, k, i),
    ensures
        last_at(h.push(x), k, i),
{
    assert forall|j: int| i < j < h.push(x).len() implies #[trigger] h.push(x)[j] != k by {
        if j < h.len() {
            assert(h.push(x)[j] == h[j]);
        }
    }
}

impl<K, V> LruCache<K, V> where K: Eq + Hash + Clone, V: Clone {
    /// The cached entries.
    pub closed spec fn contents(&self) -> Map<K, V> {
        self.map@.map_values(|e: (V, u64)| e.0)
    }

    /// When each cached key was last used: a larger stamp is more recent.
    pub closed spec fn stamps(&self) -> Map<K, u64> {
        self.map@.map_values(|e: (V, u64)| e.1)
    }

    /// The stamp of the latest use so far.
    pub closed spec fn clock(&self) -> u64 {
        self.generation
    }

    pub closed spec fn cap(&self) -> nat {
        self.capacity as nat
    }

    /// The key of every hit of `get` and every `put` since the cache was made,
    /// oldest first.
    pub closed spec fn history(&self) -> Seq<K> {
        self.uses@
    }

    pub closed spec fn wf(&self) -> bool {
        &&& self.capacity > 0
        &&& obeys_key_model::<K>()
        &&& exact_clone::<K>()
        &&& self.map@.dom().finite()
        &&& self.map@.len() <= self.capacity
        &&& forall|i: int, j: int|
            0 <= i < j < self.recency@.len() ==> #[trigger] self.recency@[i].1
                < #[trigger] self.recency@[j].1
        &&& forall|i: int| 0 <= i < self.recency@.len() ==> (#[trigger] self.recency@[i]).1 <= self.generation
        &&& forall|k: K| #[trigger] self.map@.contains_key(k) ==> self.recency@.contains((k, self.map@[k].1))
        &&& self.uses@.len() == self.generation
        &&& forall|k: K| #[trigger] self.map@.contains_key(k) ==> last_at(self.uses@, k, self.map@[k].1 - 1)
    }

    /// Each cached key's stamp is the time of its last use: one more than the
    /// position of that use in the history. So the least stamp marks the
    /// least recently used key, whatever calls came before.
    pub proof fn lemma_stamps_are_last_uses(&self, k: K)
        requires
            self.wf(),
            self.contents().contains_key(k),
        ensures
            self.stamps()[k] == last_use(self.history(), k) + 1,
    {
        assert(self.map@.contains_key(k));
        lemma_last_at(self.uses@, k, self.map@[k].1 - 1);
    }

    /// Distinct keys were last used at distinct times.
    pub proof fn lemma_stamps_distinct(&self, a: K, b: K)
        requires
            self.wf(),
            self.contents().contains_key(a),
            self.contents().contains_key(b),
            a != b,
        ensures
            self.stamps()[a] != self.stamps()[b],
    {
        assert(self.map@.contains_key(a));
        assert(self.map@.contains_key(b));
        let ia = choose|i: int| 0 <= i < self.recency@.len() && self.recency@[i] == (a, self.map@[a].1);
        let ib = choose|i: int| 0 <= i < self.recency@.len() && self.recency@[i] == (b, self.map@[b].1);
        if ia < ib {
            assert(self.recency@[ia].1 < self.recency@[ib].1);
        } else if ib < ia {
            assert(self.recency@[ib].1 < self.recency@[ia].1);
        }
    }

    /// An empty cache that holds at most `capacity` entries.
    ///
    /// The contracts model keys by value: they ask that `K`'s `Hash` and `Eq`
    /// agree with equality (`obeys_key_model`) and that a clone of a key equals
    /// it (`exact_clone`). Verus knows both for integer and `bool` keys, so a
    /// verified caller uses such keys; unverified callers may use any key
    /// whose `Hash`, `Eq` and `Clone` are lawful, as `HashMap` itself assumes.
    pub fn new(capacity: usize) -> (r: Self)
        requires
            capacity > 0,
            obeys_key_model::<K>(),
            exact_clone::<K>(),
        ensures
            r.wf(),
            r.contents() == Map::<K, V>::empty(),
            r.cap() == capacity,
            r.clock() == 0,
            r.history() == Seq::<K>::empty(),
    {
        let r = LruCache {
            capacity,
            map: HashMap::new(),
            recency: VecDeque::new(),
            generation: 0,
            uses: Ghost(Seq::empty()),
        };
        assert(r.contents() =~= Map::<K, V>::empty());
        r
    }

    pub fn len(&self) -> (r: usize)
        requires
            self.wf(),
        ensures
            r == self.contents().len(),
            r <= self.cap(),
    {
        assert(self.contents().dom() =~= self.map@.dom());
        self.map.len()
    }

    /// A cache never holds more entries than its capacity, whatever calls came before.
    pub proof fn lemma_within_capacity(&self)
        requires
            self.wf(),
        ensures
            self.contents().dom().finite(),
            self.contents().len() <= self.cap(),
            self.cap() > 0,
    {
        assert(self.contents().dom() =~= self.map@.dom());
    }

    pub fn is_empty(&self) -> (r: bool)
        requires
            self.wf(),
        ensures
            r == (self.contents().len() == 0),
    {
        assert(self.contents().dom() =~= self.map@.dom());
        self.map.is_empty()
    }

    /// Look up `key`; on a hit it becomes the most recently used entry.
    pub fn get(&mut self, key: &K) -> (r: Option<V>)
        requires
            old(self).wf(),
            old(self).clock() < u64::MAX,
        ensures
            final(self).wf(),
            final(self).cap() == old(self).cap(),
            match r {
                None => !old(self).contents().contains_key(*key) && *final(self) == *old(self),
                Some(v) => {
                    &&& old(self).contents().contains_key(*key)
                    &&& cloned(old(self).contents()[*key], v)
                    &&& final(self).clock() == old(self).clock() + 1
                    &&& final(self).contents().dom() == old(self).contents().dom()
                    &&& final(self).contents() == old(self).contents().insert(
                        *key,
                        final(self).contents()[*key],
                    )
                    &&& cloned(v, final(self).contents()[*key])
                    &&& final(self).stamps() == old(self).stamps().insert(*key, final(self).clock())
                    &&& final(self).history() == old(self).history().push(*key)
                },
            },
    {
        let value = match self.map.get(key) {
            Some(entry) => entry.0.clone(),
            None => {
                assert(!self.map@.contains_key(*key));
                return None;
            },
        };
        let ghost old_self = *self;
        self.generation = self.generation + 1;
        self.uses = Ghost(self.uses@.push(*key));
        self.recency.push_back((copy_key(key), self.generation));
        let stored = value.clone();
        self.map.insert(copy_key(key), (stored, self.generation));
        proof {
            assert forall|k: K| #[trigger] self.map@.contains_key(k) implies last_at(
                self.uses@,
                k,
                self.map@[k].1 - 1,
            ) by {
                if k != *key {
                    lemma_last_at_push(old_self.uses@, *key, k, old_self.map@[k].1 - 1);
                }
            }
            assert(self.map@.dom() =~= old_self.map@.dom());
            assert(self.contents() =~= old_self.contents().insert(*key, stored));
            assert(self.stamps() =~= old_self.stamps().insert(*key, self.generation));
            assert forall|k: K| #[trigger] self.map@.contains_key(k) implies self.recency@.contains(
                (k, self.map@[k].1),
            ) by {
                if k == *key {
                    assert(self.recency@[self.recency@.len() - 1] == (k, self.map@[k].1));
                } else {
                    assert(old_self.recency@.contains((k, old_self.map@[k].1)));
                    let w = choose|w: int| 0 <= w < old_self.recency@.len() && old_self.recency@[w] == (k, old_self.map@[k].1);
                    assert(self.recency@[w] == old_self.recency@[w]);
                }
            }
            assert forall|i: int, j: int|
                0 <= i < j < self.recency@.len() implies #[trigger] self.recency@[i].1
                < #[trigger] self.recency@[j].1 by {
                if j == self.recency@.len() - 1 {
                    assert(old_self.recency@[i].1 <= old_self.generation);
                }
            }
        }
        Some(value)
    }

    /// Insert or update `key`; it becomes the most recently used entry. A new
    /// key that would exceed the capacity evicts the least recently used one.
    pub fn put(&mut self, key: K, value: V)
        requires
            old(self).wf(),
            old(self).clock() < u64::MAX,
        ensures
            final(self).wf(),
            final(self).cap() == old(self).cap(),
            final(self).clock() == old(self).clock() + 1,
            final(self).history() == old(self).history().push(key),
            old(self).contents().contains_key(key) || old(self).contents().len() < old(self).cap()
                ==> {
                &&& final(self).contents() == old(self).contents().insert(key, value)
                &&& final(self).stamps() == old(self).stamps().insert(key, final(self).clock())
            },
            !old(self).contents().contains_key(key) && old(self).contents().len() == old(self).cap()
                ==> exists|victim: K|
                {
                    &&& #[trigger] old(self).contents().contains_key(victim)
                    &&& forall|k: K|
                        #[trigger] old(self).contents().contains_key(k) ==> old(self).stamps()[victim]
                            <= old(self).stamps()[k]
                    &&& forall|k: K|
                        #[trigger] old(self).contents().contains_key(k) ==> last_use(
                            old(self).history(),
                            victim,
                        ) <= last_use(old(self).history(), k)
                    &&& final(self).contents() == old(self).contents().insert(key, value).remove(
                        victim,
                    )
                    &&& final(self).stamps() == old(self).stamps().insert(
                        key,
                        final(self).clock(),
                    ).remove(victim)
                },
    {
        let ghost old_self = *self;
        assert(old_self.contents().dom() =~= old_self.map@.dom());
        self.generation = self.generation + 1;
        self.uses = Ghost(self.uses@.push(key));
        let k2 = copy_key(&key);
        let previous = self.map.insert(k2, (value, self.generation));
        let is_new = previous.is_none();
        self.recency.push_back((key, self.generation));
        let ghost mid = *self;
        proof {
            assert forall|k: K| #[trigger] mid.map@.contains_key(k) implies last_at(
                mid.uses@,
                k,
                mid.map@[k].1 - 1,
            ) by {
                if k != key {
                    lemma_last_at_push(old_self.uses@, key, k, old_self.map@[k].1 - 1);
                }
            }
            assert(mid.contents() =~= old_self.contents().insert(key, value));
            assert(mid.stamps() =~= old_self.stamps().insert(key, mid.generation));
            assert forall|k: K| #[trigger] mid.map@.contains_key(k) implies mid.recency@.contains(
                (k, mid.map@[k].1),
            ) by {
                if k == key {
                    assert(mid.recency@[mid.recency@.len() - 1] == (k, mid.map@[k].1));
                } else {
                    assert(old_self.recency@.contains((k, old_self.map@[k].1)));
                    let w = choose|w: int| 0 <= w < old_self.recency@.len() && old_self.recency@[w] == (k, old_self.map@[k].1);
                    assert(mid.recency@[w] == old_self.recency@[w]);
                }
            }
            assert forall|i: int, j: int|
                0 <= i < j < mid.recency@.len() implies #[trigger] mid.recency@[i].1
                < #[trigger] mid.recency@[j].1 by {
                if j == mid.recency@.len() - 1 {
                    assert(old_self.recency@[i].1 <= old_self.generation);
                }
            }
            if !is_new {
                assert(mid.map@.len() == old_self.map@.len());
            } else {
                assert(mid.map@.len() == old_self.map@.len() + 1);
            }
        }
        if is_new {
            self.evict_if_needed();
            proof {
                if old_self.map@.len() == old_self.capacity {
                    let victim = choose|victim: K|
                        {
                            &&& #[trigger] mid.map@.contains_key(victim)
                            &&& forall|k: K|
                                #[trigger] mid.map@.contains_key(k) ==> mid.map@[victim].1
                                    <= mid.map@[k].1
                            &&& self.map@ == mid.map@.remove(victim)
                        };
                    assert(victim != key) by {
                        if victim == key {
                            assert(old_self.map@.len() > 0);
                            let other = old_self.map@.dom().choose();
                            assert(old_self.map@.contains_key(other));
                            assert(mid.map@[other].1 <= old_self.generation);
                            assert(mid.map@.contains_key(other));
                        }
                    }
                    assert(old_self.contents().contains_key(victim));
                    assert forall|k: K| #[trigger] old_self.contents().contains_key(k) implies old_self.stamps()[victim]
                        <= old_self.stamps()[k] by {
                        assert(mid.map@.contains_key(k));
                        if k != key {
                            assert(mid.map@[k] == old_self.map@[k]);
                        }
                    }
                    assert forall|k: K| #[trigger] old_self.contents().contains_key(k) implies last_use(
                        old_self.uses@,
                        victim,
                    ) <= last_use(old_self.uses@, k) by {
                        old_self.lemma_stamps_are_last_uses(k);
                        old_self.lemma_stamps_are_last_uses(victim);
                        assert(old_self.stamps()[victim] <= old_self.stamps()[k]);
                    }
                    assert(self.contents() =~= old_self.contents().insert(key, value).remove(victim));
                    assert(self.stamps() =~= old_self.stamps().insert(key, self.generation).remove(victim));
                } else {
                    assert(self.map@ == mid.map@);
                }
            }
        }
    }

    /// Drop the least recently used entry while the cache holds more than its
    /// capacity (at most one after a single insertion).
    fn evict_if_needed(&mut self)
        requires
            old(self).capacity > 0,
            obeys_key_model::<K>(),
            exact_clone::<K>(),
            old(self).map@.dom().finite(),
            old(self).map@.len() <= old(self).capacity + 1,
            forall|i: int, j: int|
                0 <= i < j < old(self).recency@.len() ==> #[trigger] old(self).recency@[i].1
                    < #[trigger] old(self).recency@[j].1,
            forall|i: int| 0 <= i < old(self).recency@.len() ==> (#[trigger] old(self).recency@[i]).1 <= old(self).generation,
            forall|k: K| #[trigger] old(self).map@.contains_key(k) ==> old(self).recency@.contains((k, old(self).map@[k].1)),
            old(self).uses@.len() == old(self).generation,
            forall|k: K| #[trigger] old(self).map@.contains_key(k) ==> last_at(old(self).uses@, k, old(self).map@[k].1 - 1),
        ensures
            final(self).wf(),
            final(self).capacity == old(self).capacity,
            final(self).generation == old(self).generation,
            final(self).uses == old(self).uses,
            old(self).map@.len() <= old(self).capacity ==> final(self).map@ == old(self).map@,
            old(self).map@.len() > old(self).capacity ==> exists|victim: K|
                {
                    &&& #[trigger] old(self).map@.contains_key(victim)
                    &&& forall|k: K|
                        #[trigger] old(self).map@.contains_key(k) ==> old(self).map@[victim].1
                            <= old(self).map@[k].1
                    &&& final(self).map@ == old(self).map@.remove(victim)
                },
    {
        let ghost m0 = self.map@;
        if self.map.len() <= self.capacity {
            return;
        }
        while self.map.len() > self.capacity
            invariant
                self.capacity == old(self).capacity,
                self.generation == old(self).generation,
                m0 == old(self).map@,
                self.capacity > 0,
                obeys_key_model::<K>(),
                exact_clone::<K>(),
                self.map@ == m0,
                m0.dom().finite(),
                m0.len() == self.capacity + 1,
                forall|i: int, j: int|
                    0 <= i < j < self.recency@.len() ==> #[trigger] self.recency@[i].1
                        < #[trigger] self.recency@[j].1,
                forall|i: int| 0 <= i < self.recency@.len() ==> (#[trigger] self.recency@[i]).1 <= self.generation,
                forall|k: K| #[trigger] self.map@.contains_key(k) ==> self.recency@.contains((k, self.map@[k].1)),
                self.uses == old(self).uses,
                self.uses@.len() == self.generation,
                forall|k: K| #[trigger] m0.contains_key(k) ==> last_at(self.uses@, k, m0[k].1 - 1),
            decreases self.recency@.len(),
        {
            proof {
                assert(m0.len() > 0);
                assert(m0.dom().len() > 0);
                let some = m0.dom().choose();
                assert(m0.dom().contains(some));
                assert(self.map@.contains_key(some));
                assert(self.recency@.contains((some, m0[some].1)));
            }
            let ghost q = self.recency@;
            let event = self.recency.pop_front();
            let (key, generation) = event.unwrap();
            let live = match self.map.get(&key) {
                Some(entry) => entry.1 == generation,
                None => false,
            };
            if live {
                self.map.remove(&key);
                proof {
                    assert forall|k: K| #[trigger] m0.contains_key(k) implies m0[key].1 <= m0[k].1 by {
                        if k != key {
                            let w = choose|w: int| 0 <= w < q.len() && q[w] == (k, m0[k].1);
                            assert(w != 0);
                            assert(q[0].1 < q[w].1);
                        }
                    }
                    assert(self.map@ =~= m0.remove(key));
                    assert forall|k: K| #[trigger] self.map@.contains_key(k) implies self.recency@.contains(
                        (k, self.map@[k].1),
                    ) by {
                        let w = choose|w: int| 0 <= w < q.len() && q[w] == (k, m0[k].1);
                        assert(w != 0);
                        assert(self.recency@[w - 1] == q[w]);
                    }
                    assert(m0.contains_key(key));
                    assert(self.map@.len() == m0.len() - 1);
                    assert(self.wf());
                }
                return;
            }
            proof {
                assert forall|k: K| #[trigger] self.map@.contains_key(k) implies self.recency@.contains(
                    (k, self.map@[k].1),
                ) by {
                    let w = choose|w: int| 0 <= w < q.len() && q[w] == (k, m0[k].1);
                    assert(w != 0);
                    assert(self.recency@[w - 1] == q[w]);
                }
            }
        }
    }
}

} // verus!
