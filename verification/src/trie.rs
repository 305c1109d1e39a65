//! A prefix tree over characters, with its nodes kept in one vector.
use vstd::prelude::*;
use crate::text::chars_of;

verus! {

/// A node: its outgoing edges `(character, child index)` and whether a word ends here.
struct TrieNode {
    children: Vec<(char, usize)>,
    terminal: bool,
}

/// A set of words stored as a tree of characters.
pub struct Trie {
    nodes: Vec<TrieNode>,
    /// The characters on the way from the root to each node.
    paths: Ghost<Seq<Seq<char>>>,
}

impl Trie {
    /// The words inserted so far.
    pub closed spec fn words(&self) -> Set<Seq<char>> {
        Set::new(|w: Seq<char>| exists|i: int| 0 <= i < self.nodes@.len() && self.nodes@[i].terminal && self.paths@[i] == w)
    }

    spec fn has_node(&self, p: Seq<char>) -> bool {
        exists|i: int| 0 <= i < self.nodes@.len() && #[trigger] self.paths@[i] == p
    }

    spec fn edge(&self, i: int, k: int) -> (char, usize) {
        self.nodes@[i].children@[k]
    }

    pub closed spec fn wf(&self) -> bool {
        self.shape_ok() && self.covered(Seq::<char>::empty())
    }

    /// Every node but the root lies on the way to an inserted word or to `extra`.
    spec fn covered(&self, extra: Seq<char>) -> bool {
        forall|j: int|
            0 < j < self.nodes@.len() ==> (exists|w: Seq<char>| self.words().contains(w) && (#[trigger] self.paths@[j]).is_prefix_of(w))
                || self.paths@[j].is_prefix_of(extra)
    }

    spec fn shape_ok(&self) -> bool {
        let n = self.nodes@.len();
        let paths = self.paths@;
        &&& n == paths.len()
        &&& n > 0
        &&& paths[0] == Seq::<char>::empty()
        &&& n <= usize::MAX
        // Edges lead to a node whose path extends the parent's by the edge's character.
        &&& forall|i: int, k: int|
            0 <= i < n && 0 <= k < self.nodes@[i].children@.len() ==> (#[trigger] self.edge(i, k)).1 < n && paths[self.edge(i, k).1 as int]
                == paths[i].push(self.edge(i, k).0)
        // A node's edges carry distinct characters.
        &&& forall|i: int, k1: int, k2: int|
            0 <= i < n && 0 <= k1 < self.nodes@[i].children@.len() && 0 <= k2 < self.nodes@[i].children@.len() && k1 != k2
                ==> (#[trigger] self.edge(i, k1)).0 != (#[trigger] self.edge(i, k2)).0
        // Every node but the root hangs off its parent by an edge.
        &&& forall|j: int|
            0 < j < n ==> (#[trigger] paths[j]).len() > 0 && exists|i: int, k: int|
                0 <= i < n && 0 <= k < self.nodes@[i].children@.len() && self.edge(i, k) == (paths[j].last(), j as usize)
                    && paths[i] == paths[j].drop_last()
        // Paths name nodes once.
        &&& forall|i: int, j: int| 0 <= i < n && 0 <= j < n && i != j ==> (#[trigger] paths[i]) != (#[trigger] paths[j])
    }

    /// An empty trie.
    pub fn new() -> (r: Self)
        ensures
            r.wf(),
            r.words() == Set::<Seq<char>>::empty(),
    {
        let mut nodes: Vec<TrieNode> = Vec::new();
        nodes.push(TrieNode { children: Vec::new(), terminal: false });
        let r = Trie { nodes, paths: Ghost(Seq::empty().push(Seq::<char>::empty())) };
        proof {
            assert(r.words() =~= Set::<Seq<char>>::empty());
        }
        r
    }

    /// The child of node `i` along `c`, if any.
    fn child(&self, i: usize, c: char) -> (r: Option<usize>)
        requires
            self.shape_ok(),
            i < self.nodes@.len(),
        ensures
            r matches Some(j) ==> j < self.nodes@.len() && self.paths@[j as int] == self.paths@[i as int].push(c),
            r is None ==> !self.has_node(self.paths@[i as int].push(c)),
    {
        let children = &self.nodes[i].children;
        proof {
            assert forall|m: int| 0 <= m < children@.len() implies (#[trigger] children@[m]).1 < self.nodes@.len()
                && self.paths@[children@[m].1 as int] == self.paths@[i as int].push(children@[m].0) by {
                assert(self.edge(i as int, m) == children@[m]);
            }
        }
        let mut k: usize = 0;
        while k < children.len()
            invariant
                i < self.nodes@.len(),
                children@ == self.nodes@[i as int].children@,
                k <= children@.len(),
                forall|m: int| 0 <= m < children@.len() ==> (#[trigger] children@[m]).1 < self.nodes@.len()
                    && self.paths@[children@[m].1 as int] == self.paths@[i as int].push(children@[m].0),
                forall|m: int| 0 <= m < k ==> (#[trigger] children@[m]).0 != c,
            decreases children@.len() - k,
        {
            if children[k].0 == c {
                return Some(children[k].1);
            }
            k = k + 1;
        }
        proof {
            let p = self.paths@[i as int].push(c);
            if self.has_node(p) {
                let j = choose|j: int| 0 <= j < self.nodes@.len() && #[trigger] self.paths@[j] == p;
                assert(j > 0) by {
                    if j == 0 {
                        assert(self.paths@[0].len() == 0);
                    }
                }
                let (pi, pk) = choose|pi: int, pk: int|
                    0 <= pi < self.nodes@.len() && 0 <= pk < self.nodes@[pi].children@.len() && self.edge(pi, pk) == (
                        self.paths@[j].last(),
                        j as usize,
                    ) && self.paths@[pi] == self.paths@[j].drop_last();
                assert(self.paths@[j].drop_last() =~= self.paths@[i as int]);
                assert(pi == i as int);
                assert(self.edge(pi, pk).0 == c);
                assert(self.edge(pi, pk) == children@[pk]);
            }
        }
        None
    }

    /// The node reached by following `word` from the root, if every step exists.
    fn find_node(&self, word: &[char]) -> (r: Option<usize>)
        requires
            self.shape_ok(),
        ensures
            r matches Some(j) ==> j < self.nodes@.len() && self.paths@[j as int] == word@,
            r is None ==> !self.has_node(word@),
    {
        let mut node: usize = 0;
        let mut d: usize = 0;
        while d < word.len()
            invariant
                self.shape_ok(),
                d <= word@.len(),
                node < self.nodes@.len(),
                self.paths@[node as int] == word@.take(d as int),
            decreases word@.len() - d,
        {
            match self.child(node, word[d]) {
                Some(j) => {
                    proof {
                        assert(word@.take(d + 1) =~= word@.take(d as int).push(word@[d as int]));
                    }
                    node = j;
                },
                None => {
                    proof {
                        assert(word@.take(d + 1) =~= word@.take(d as int).push(word@[d as int]));
                        self.lemma_prefix_closed(word@, d + 1);
                    }
                    return None;
                },
            }
            d = d + 1;
        }
        proof {
            assert(word@.take(d as int) =~= word@);
        }
        Some(node)
    }

    /// Every prefix of a node's path is a node's path.
    proof fn lemma_prefix_closed(&self, p: Seq<char>, m: int)
        requires
            self.shape_ok(),
            0 <= m <= p.len(),
            !self.has_node(p.take(m)),
        ensures
            !self.has_node(p),
        decreases p.len() - m,
    {
        if m < p.len() && self.has_node(p.take(m + 1)) {
            let j = choose|j: int| 0 <= j < self.nodes@.len() && #[trigger] self.paths@[j] == p.take(m + 1);
            assert(j > 0) by {
                if j == 0 {
                    assert(self.paths@[0].len() == 0);
                }
            }
            let (pi, pk) = choose|pi: int, pk: int|
                0 <= pi < self.nodes@.len() && 0 <= pk < self.nodes@[pi].children@.len() && self.edge(pi, pk) == (
                    self.paths@[j].last(),
                    j as usize,
                ) && self.paths@[pi] == self.paths@[j].drop_last();
            assert(p.take(m + 1).drop_last() =~= p.take(m));
            assert(self.paths@[pi] == p.take(m));
        } else if m < p.len() {
            self.lemma_prefix_closed(p, m + 1);
        } else {
            assert(p.take(m) =~= p);
        }
    }

    /// Whether `word` was inserted.
    pub fn search(&self, word: &str) -> (r: bool)
        requires
            self.wf(),
        ensures
            r == self.words().contains(word@),
    {
        let v = chars_of(word);
        match self.find_node(&v) {
            Some(j) => {
                let t = self.nodes[j].terminal;
                proof {
                    if self.words().contains(word@) {
                        let i = choose|i: int| 0 <= i < self.nodes@.len() && self.nodes@[i].terminal && self.paths@[i] == word@;
                        if i != j as int {
                            assert(self.paths@[i] != self.paths@[j as int]);
                        }
                    }
                }
                t
            },
            None => {
                proof {
                    if self.words().contains(word@) {
                        let i = choose|i: int| 0 <= i < self.nodes@.len() && self.nodes@[i].terminal && self.paths@[i] == word@;
                        assert(self.has_node(word@));
                    }
                }
                false
            },
        }
    }

    /// Whether `prefix` begins some inserted word (always for the empty prefix).
    pub fn starts_with(&self, prefix: &str) -> (r: bool)
        requires
            self.wf(),
        ensures
            r == (prefix@.len() == 0 || exists|w: Seq<char>| self.words().contains(w) && prefix@.is_prefix_of(w)),
    {
        let v = chars_of(prefix);
        match self.find_node(&v) {
            Some(j) => {
                proof {
                    if j > 0 {
                        assert(self.covered(Seq::<char>::empty()));
                        if self.paths@[j as int].is_prefix_of(Seq::<char>::empty()) {
                            assert(self.paths@[j as int].len() == 0);
                            assert(self.paths@[j as int] =~= self.paths@[0]);
                        }
                        assert(exists|w: Seq<char>| self.words().contains(w) && (#[trigger] self.paths@[j as int]).is_prefix_of(w));
                    } else {
                        assert(self.paths@[0].len() == 0);
                    }
                }
                true
            },
            None => {
                proof {
                    assert(prefix@.len() > 0) by {
                        if prefix@.len() == 0 {
                            assert(prefix@ =~= Seq::<char>::empty());
                            assert(self.paths@[0] == prefix@);
                        }
                    }
                    if exists|w: Seq<char>| self.words().contains(w) && prefix@.is_prefix_of(w) {
                        let w = choose|w: Seq<char>| self.words().contains(w) && prefix@.is_prefix_of(w);
                        let i = choose|i: int| 0 <= i < self.nodes@.len() && self.nodes@[i].terminal && self.paths@[i] == w;
                        assert(w.take(prefix@.len() as int) =~= prefix@);
                        assert(self.has_node(w));
                        if !self.has_node(prefix@) {
                            self.lemma_prefix_closed(w, prefix@.len() as int);
                        }
                    }
                }
                false
            },
        }
    }
}

impl Trie {
    /// Adds a child of `node` along `c`; no node has that path yet.
    fn add_child(&mut self, node: usize, c: char, Ghost(word): Ghost<Seq<char>>, Ghost(d): Ghost<int>) -> (r: usize)
        requires
            old(self).shape_ok(),
            old(self).covered(word),
            node < old(self).nodes@.len(),
            0 <= d < word.len(),
            old(self).paths@[node as int] == word.take(d),
            c == word[d],
            !old(self).has_node(word.take(d + 1)),
        ensures
            final(self).shape_ok(),
            final(self).covered(word),
            final(self).words() == old(self).words(),
            r < final(self).nodes@.len(),
            final(self).nodes@.len() == old(self).nodes@.len() + 1,
            final(self).paths@[r as int] == word.take(d + 1),
    {
        let ghost old_self = *self;
        let n = self.nodes.len();
        let ghost q = word.take(d + 1);
        proof {
            assert(q =~= self.paths@[node as int].push(c));
        }
        self.nodes.push(TrieNode { children: Vec::new(), terminal: false });
        self.paths = Ghost(self.paths@.push(q));
        let mut tmp = TrieNode { children: Vec::new(), terminal: false };
        self.nodes.set_and_swap(node, &mut tmp);
        tmp.children.push((c, n));
        self.nodes.set_and_swap(node, &mut tmp);
        proof {
            let len = self.nodes@.len();
            assert(len == n + 1);
            assert forall|i: int| 0 <= i < n && i != node implies #[trigger] self.nodes@[i] == old_self.nodes@[i] by {}
            assert(self.nodes@[n as int].children@.len() == 0 && !self.nodes@[n as int].terminal);
            assert(self.nodes@[node as int].children@ == old_self.nodes@[node as int].children@.push((c, n)));
            assert(self.nodes@[node as int].terminal == old_self.nodes@[node as int].terminal);
            assert(self.nodes.len() == self.nodes@.len());
            assert forall|i: int| 0 <= i < n implies #[trigger] self.paths@[i] == old_self.paths@[i] by {}
            assert(self.paths@[n as int] == q);
            // Edges.
            assert forall|i: int, k: int|
                0 <= i < len && 0 <= k < self.nodes@[i].children@.len() implies (#[trigger] self.edge(i, k)).1 < len
                    && self.paths@[self.edge(i, k).1 as int] == self.paths@[i].push(self.edge(i, k).0) by {
                if i != node && i < n {
                    assert(self.edge(i, k) == old_self.edge(i, k));
                } else if i == node && k < old_self.nodes@[i].children@.len() {
                    assert(self.edge(i, k) == old_self.edge(i, k));
                }
            }
            // Distinct characters.
            assert forall|i: int, k1: int, k2: int|
                0 <= i < len && 0 <= k1 < self.nodes@[i].children@.len() && 0 <= k2 < self.nodes@[i].children@.len() && k1 != k2
                    implies (#[trigger] self.edge(i, k1)).0 != (#[trigger] self.edge(i, k2)).0 by {
                if i != node && i < n {
                    assert(self.edge(i, k1) == old_self.edge(i, k1));
                    assert(self.edge(i, k2) == old_self.edge(i, k2));
                } else if i == node {
                    let m = old_self.nodes@[i].children@.len() as int;
                    if k1 == m || k2 == m {
                        let other = if k1 == m { k2 } else { k1 };
                        assert(self.edge(i, other) == old_self.edge(i, other));
                        let e = old_self.edge(i, other);
                        if e.0 == c {
                            assert(old_self.paths@[e.1 as int] == old_self.paths@[i].push(c));
                            assert(old_self.has_node(q));
                        }
                    } else {
                        assert(self.edge(i, k1) == old_self.edge(i, k1));
                        assert(self.edge(i, k2) == old_self.edge(i, k2));
                    }
                }
            }
            // Parent edges.
            assert forall|j: int| 0 < j < len implies (#[trigger] self.paths@[j]).len() > 0 && exists|i: int, k: int|
                0 <= i < len && 0 <= k < self.nodes@[i].children@.len() && self.edge(i, k) == (self.paths@[j].last(), j as usize)
                    && self.paths@[i] == self.paths@[j].drop_last() by {
                if j < n {
                    let (pi, pk) = choose|pi: int, pk: int|
                        0 <= pi < n && 0 <= pk < old_self.nodes@[pi].children@.len() && old_self.edge(pi, pk) == (
                            old_self.paths@[j].last(),
                            j as usize,
                        ) && old_self.paths@[pi] == old_self.paths@[j].drop_last();
                    assert(self.edge(pi, pk) == old_self.edge(pi, pk));
                } else {
                    let m = old_self.nodes@[node as int].children@.len() as int;
                    assert(self.edge(node as int, m) == (c, n));
                    assert(q.drop_last() =~= self.paths@[node as int]);
                }
            }
            // Paths are distinct.
            assert forall|i: int, j: int| 0 <= i < len && 0 <= j < len && i != j implies (#[trigger] self.paths@[i]) != (#[trigger] self.paths@[j]) by {
                if i == n {
                    assert(!old_self.has_node(q));
                    assert(old_self.paths@[j] == self.paths@[j]);
                } else if j == n {
                    assert(!old_self.has_node(q));
                    assert(old_self.paths@[i] == self.paths@[i]);
                }
            }
            // Words are unchanged, and every node is on the way to a word or to `word`.
            assert(self.words() =~= old_self.words()) by {
                assert forall|w: Seq<char>| self.words().contains(w) implies old_self.words().contains(w) by {
                    let i = choose|i: int| 0 <= i < self.nodes@.len() && self.nodes@[i].terminal && self.paths@[i] == w;
                    assert(i < n);
                    if i != node {
                        assert(self.nodes@[i] == old_self.nodes@[i]);
                    }
                }
                assert forall|w: Seq<char>| old_self.words().contains(w) implies self.words().contains(w) by {
                    let i = choose|i: int| 0 <= i < old_self.nodes@.len() && old_self.nodes@[i].terminal && old_self.paths@[i] == w;
                    if i != node {
                        assert(self.nodes@[i] == old_self.nodes@[i]);
                    }
                    assert(self.nodes@[i].terminal);
                    assert(self.paths@[i] == old_self.paths@[i]);
                    assert(0 <= i < self.nodes@.len() && self.nodes@[i].terminal && self.paths@[i] == w);
                }
            }
            assert forall|j: int| 0 < j < len implies (exists|w: Seq<char>| self.words().contains(w) && (#[trigger] self.paths@[j]).is_prefix_of(w))
                || self.paths@[j].is_prefix_of(word) by {
                if j == n {
                    assert(q.is_prefix_of(word));
                } else {
                    assert(self.paths@[j] == old_self.paths@[j]);
                }
            }
        }
        n
    }

    /// Changing only terminal flags keeps the shape.
    proof fn lemma_same_shape(a: Trie, b: Trie)
        requires
            a.shape_ok(),
            a.paths@ == b.paths@,
            a.nodes@.len() == b.nodes@.len(),
            forall|i: int| 0 <= i < a.nodes@.len() ==> (#[trigger] a.nodes@[i]).children@ == b.nodes@[i].children@,
        ensures
            b.shape_ok(),
    {
        let n = b.nodes@.len();
        assert forall|i: int, k: int| 0 <= i < n && 0 <= k < b.nodes@[i].children@.len() implies #[trigger] b.edge(i, k) == a.edge(i, k) by {
            assert(a.nodes@[i].children@ == b.nodes@[i].children@);
        }
        assert forall|j: int| 0 < j < n implies (#[trigger] b.paths@[j]).len() > 0 && exists|i: int, k: int|
            0 <= i < n && 0 <= k < b.nodes@[i].children@.len() && b.edge(i, k) == (b.paths@[j].last(), j as usize)
                && b.paths@[i] == b.paths@[j].drop_last() by {
            let (pi, pk) = choose|pi: int, pk: int|
                0 <= pi < n && 0 <= pk < a.nodes@[pi].children@.len() && a.edge(pi, pk) == (a.paths@[j].last(), j as usize)
                    && a.paths@[pi] == a.paths@[j].drop_last();
            assert(a.nodes@[pi].children@ == b.nodes@[pi].children@);
            assert(b.edge(pi, pk) == a.edge(pi, pk));
        }
        assert forall|i: int, k1: int, k2: int|
            0 <= i < n && 0 <= k1 < b.nodes@[i].children@.len() && 0 <= k2 < b.nodes@[i].children@.len() && k1 != k2
                implies (#[trigger] b.edge(i, k1)).0 != (#[trigger] b.edge(i, k2)).0 by {
            assert(a.nodes@[i].children@ == b.nodes@[i].children@);
            assert(b.edge(i, k1) == a.edge(i, k1));
            assert(b.edge(i, k2) == a.edge(i, k2));
        }
        assert forall|i: int, k: int|
            0 <= i < n && 0 <= k < b.nodes@[i].children@.len() implies (#[trigger] b.edge(i, k)).1 < n && b.paths@[b.edge(i, k).1 as int]
                == b.paths@[i].push(b.edge(i, k).0) by {
            assert(a.nodes@[i].children@ == b.nodes@[i].children@);
            assert(b.edge(i, k) == a.edge(i, k));
        }
    }

    /// Adds `word` to the set.
    pub fn insert(&mut self, word: &str)
        requires
            old(self).wf(),
        ensures
            final(self).wf(),
            final(self).words() == old(self).words().insert(word@),
    {
        let v = chars_of(word);
        let ghost w = v@;
        let ghost words0 = self.words();
        proof {
            assert forall|j: int| 0 < j < self.nodes@.len() implies (exists|x: Seq<char>| self.words().contains(x) && (#[trigger] self.paths@[j]).is_prefix_of(x))
                || self.paths@[j].is_prefix_of(w) by {
                assert(self.covered(Seq::<char>::empty()));
                if self.paths@[j].is_prefix_of(Seq::<char>::empty()) {
                    assert(self.paths@[j].len() == 0);
                    assert(self.paths@[j] =~= self.paths@[0]);
                }
            }
            assert(w.take(0) =~= Seq::<char>::empty());
        }
        let mut node: usize = 0;
        let mut d: usize = 0;
        while d < v.len()
            invariant
                w == v@,
                self.shape_ok(),
                self.covered(w),
                self.words() == words0,
                d <= w.len(),
                node < self.nodes@.len(),
                self.paths@[node as int] == w.take(d as int),
            decreases w.len() - d,
        {
            proof {
                assert(w.take(d + 1) =~= w.take(d as int).push(w[d as int]));
            }
            match self.child(node, v[d]) {
                Some(j) => {
                    node = j;
                },
                None => {
                    node = self.add_child(node, v[d], Ghost(w), Ghost(d as int));
                },
            }
            d = d + 1;
        }
        proof {
            assert(w.take(d as int) =~= w);
        }
        let ghost before = *self;
        let mut tmp = TrieNode { children: Vec::new(), terminal: false };
        self.nodes.set_and_swap(node, &mut tmp);
        tmp.terminal = true;
        self.nodes.set_and_swap(node, &mut tmp);
        proof {
            let len = self.nodes@.len();
            assert forall|i: int| 0 <= i < len && i != node implies #[trigger] self.nodes@[i] == before.nodes@[i] by {}
            assert(self.nodes@[node as int].children@ == before.nodes@[node as int].children@);
            assert forall|i: int| 0 <= i < len implies (#[trigger] self.nodes@[i]).children@ == before.nodes@[i].children@ by {}
            Trie::lemma_same_shape(before, *self);
            assert(self.words() =~= words0.insert(w)) by {
                assert forall|x: Seq<char>| self.words().contains(x) implies words0.insert(w).contains(x) by {
                    let i = choose|i: int| 0 <= i < self.nodes@.len() && self.nodes@[i].terminal && self.paths@[i] == x;
                    if i != node {
                        assert(before.words().contains(x));
                    }
                }
                assert forall|x: Seq<char>| words0.insert(w).contains(x) implies self.words().contains(x) by {
                    if x != w {
                        let i = choose|i: int| 0 <= i < before.nodes@.len() && before.nodes@[i].terminal && before.paths@[i] == x;
                        assert(i != node);
                        assert(self.nodes@[i] == before.nodes@[i]);
                    } else {
                        assert(self.nodes@[node as int].terminal);
                    }
                }
            }
            assert forall|j: int| 0 < j < len implies (exists|x: Seq<char>| self.words().contains(x) && (#[trigger] self.paths@[j]).is_prefix_of(x))
                || self.paths@[j].is_prefix_of(Seq::<char>::empty()) by {
                assert(before.covered(w));
                if self.paths@[j].is_prefix_of(w) {
                    assert(self.words().contains(w));
                } else {
                    let x = choose|x: Seq<char>| before.words().contains(x) && before.paths@[j].is_prefix_of(x);
                    assert(self.words().contains(x));
                }
            }
        }
    }
}

/// The words held after inserting `ws`, in order, into a trie holding `start`.
pub open spec fn inserted(start: Set<Seq<char>>, ws: Seq<Seq<char>>) -> Set<Seq<char>>
    decreases ws.len(),
{
    if ws.len() == 0 {
        start
    } else {
        inserted(start, ws.drop_last()).insert(ws.last())
    }
}

/// Some word of `words` starts with `p`.
pub open spec fn has_word_with_prefix(words: Set<Seq<char>>, p: Seq<char>) -> bool {
    exists|w: Seq<char>| #[trigger] words.contains(w) && p.is_prefix_of(w)
}

/// A trie built by inserting the words `ws` into an empty one holds exactly
/// those words: a search finds every inserted word and nothing else (no mere
/// prefix, no extension), and a prefix matches when some inserted word starts
/// with it.
pub proof fn lemma_built_from(ws: Seq<Seq<char>>)
    ensures
        forall|x: Seq<char>| #[trigger] inserted(Set::empty(), ws).contains(x) <==> ws.contains(x),
        forall|p: Seq<char>|
            #[trigger] has_word_with_prefix(inserted(Set::empty(), ws), p) <==> (exists|i: int|
                0 <= i < ws.len() && p.is_prefix_of(#[trigger] ws[i])),
    decreases ws.len(),
{
    let built = inserted(Set::<Seq<char>>::empty(), ws);
    if ws.len() > 0 {
        let rest = ws.drop_last();
        lemma_built_from(rest);
        assert forall|x: Seq<char>| #[trigger] built.contains(x) <==> ws.contains(x) by {
            assert(built == inserted(Set::<Seq<char>>::empty(), rest).insert(ws.last()));
            assert(inserted(Set::<Seq<char>>::empty(), rest).contains(x) <==> rest.contains(x));
            if ws.contains(x) && x != ws.last() {
                let i = choose|i: int| 0 <= i < ws.len() && ws[i] == x;
                assert(rest[i] == x);
            }
            if rest.contains(x) {
                let i = choose|i: int| 0 <= i < rest.len() && rest[i] == x;
                assert(ws[i] == x);
            }
            assert(ws[ws.len() - 1] == ws.last());
        }
    }
    assert forall|p: Seq<char>|
        #[trigger] has_word_with_prefix(built, p) <==> (exists|i: int|
            0 <= i < ws.len() && p.is_prefix_of(#[trigger] ws[i])) by {
        if exists|w: Seq<char>| #[trigger] built.contains(w) && p.is_prefix_of(w) {
            let w = choose|w: Seq<char>| #[trigger] built.contains(w) && p.is_prefix_of(w);
            assert(ws.contains(w));
            let i = choose|i: int| 0 <= i < ws.len() && ws[i] == w;
            assert(p.is_prefix_of(ws[i]));
        }
        if exists|i: int| 0 <= i < ws.len() && p.is_prefix_of(#[trigger] ws[i]) {
            let i = choose|i: int| 0 <= i < ws.len() && p.is_prefix_of(#[trigger] ws[i]);
            assert(ws.contains(ws[i]));
            assert(built.contains(ws[i]));
        }
    }
}

} // verus!
