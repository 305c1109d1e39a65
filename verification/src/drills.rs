//! Short answers to common prompts: a semaphore, a blocking queue, a hash ring,
//! an HTTP request head, a port newtype and a route enum.
use vstd::prelude::*;
use std::collections::VecDeque;
use std::collections::hash_map::DefaultHasher;
use std::hash::Hasher;
use vstd::std_specs::hash::DefaultHasherAdditionalSpecFns;
use vstd::utf8::encode_utf8;
use crate::consistent_hash::{hashes_of, le_bytes, le_bytes_exec, lemma_add_moves_only_to_new,
    lemma_cut_split, lemma_insert_point, lemma_without_absent, owner, points_of, sorted_ring,
    upper_bound, without, Point};
use crate::text::{ascii_lower, chars_of, chars_range, lemma_next_sep, lowercase_string, matches_lit,
    next_sep, split, split_chars, string_from, trim, trim_bounds};
use crate::time_span::TimeSpan;

verus! {

// --- Semaphore: the permit count; waiting for a permit happens around it ---

/// The permits of a semaphore.
pub struct Semaphore {
    permits: usize,
}

impl Semaphore {
    pub closed spec fn free(&self) -> nat {
        self.permits as nat
    }

    pub fn new(permits: usize) -> (r: Self)
        ensures
            r.free() == permits,
    {
        Semaphore { permits }
    }

    /// Takes a permit; the caller has waited until one is free.
    pub fn acquire(&mut self)
        requires
            old(self).free() > 0,
        ensures
            final(self).free() == old(self).free() - 1,
    {
        self.permits = self.permits - 1;
    }

    /// Takes a permit if one is free right now.
    pub fn try_acquire(&mut self) -> (r: bool)
        ensures
            r <==> old(self).free() > 0,
            final(self).free() == if r { old(self).free() - 1 } else { old(self).free() as int },
    {
        if self.permits == 0 {
            false
        } else {
            self.permits = self.permits - 1;
            true
        }
    }

    /// Gives a permit back.
    pub fn release(&mut self)
        requires
            old(self).free() < usize::MAX,
        ensures
            final(self).free() == old(self).free() + 1,
    {
        self.permits = self.permits + 1;
    }

    pub fn available(&self) -> (r: usize)
        ensures
            r == self.free(),
    {
        self.permits
    }
}

// --- Blocking queue: the queue state; blocking happens around it ---

/// The state of a bounded queue that can be closed.
pub struct BlockingQueue<T> {
    items: VecDeque<T>,
    capacity: usize,
    closed: bool,
}

impl<T> BlockingQueue<T> {
    pub closed spec fn contents(&self) -> Seq<T> {
        self.items@
    }

    pub closed spec fn limit(&self) -> nat {
        self.capacity as nat
    }

    pub closed spec fn is_shut(&self) -> bool {
        self.closed
    }

    /// An open, empty queue holding at most `capacity` items.
    pub fn new(capacity: usize) -> (r: Self)
        ensures
            r.contents() == Seq::<T>::empty(),
            r.limit() == capacity,
            !r.is_shut(),
    {
        BlockingQueue { items: VecDeque::new(), capacity, closed: false }
    }

    /// Whether `push` may be called now.
    pub fn can_push(&self) -> (r: bool)
        ensures
            r <==> self.is_shut() || self.contents().len() < self.limit(),
    {
        self.closed || self.items.len() < self.capacity
    }

    /// Whether `pop` may be called now.
    pub fn can_pop(&self) -> (r: bool)
        ensures
            r <==> self.is_shut() || self.contents().len() > 0,
    {
        self.closed || self.items.len() > 0
    }

    /// Appends `item`, or hands it back when the queue is closed.
    pub fn push(&mut self, item: T) -> (r: Result<(), T>)
        requires
            old(self).is_shut() || old(self).contents().len() < old(self).limit(),
        ensures
            final(self).limit() == old(self).limit(),
            final(self).is_shut() == old(self).is_shut(),
            old(self).is_shut() ==> r == Err::<(), T>(item) && final(self).contents() == old(self).contents(),
            !old(self).is_shut() ==> r is Ok && final(self).contents() == old(self).contents().push(item),
    {
        if self.closed {
            return Err(item);
        }
        self.items.push_back(item);
        Ok(())
    }

    /// Takes the oldest item; `None` once the queue is closed and drained.
    pub fn pop(&mut self) -> (r: Option<T>)
        requires
            old(self).is_shut() || old(self).contents().len() > 0,
        ensures
            final(self).limit() == old(self).limit(),
            final(self).is_shut() == old(self).is_shut(),
            old(self).contents().len() > 0 ==> r == Some(old(self).contents()[0]) && final(self).contents()
                == old(self).contents().drop_first(),
            old(self).contents().len() == 0 ==> r is None && final(self).contents() == old(self).contents(),
    {
        self.items.pop_front()
    }

    /// Closes the queue.
    pub fn close(&mut self)
        ensures
            final(self).is_shut(),
            final(self).contents() == old(self).contents(),
            final(self).limit() == old(self).limit(),
    {
        self.closed = true;
    }
}

// --- Retry decisions ---

/// Whether to try again after `attempts` failed attempts.
pub fn keep_retrying(attempts: u32, max_attempts: u32, retryable: bool) -> (r: bool)
    ensures
        r <==> attempts < max_attempts && retryable,
{
    attempts < max_attempts && retryable
}

/// The next backoff: twice the current one, at most one second.
pub fn next_delay(delay: TimeSpan) -> (r: TimeSpan)
    ensures
        r.spec_nanos() == if delay.spec_nanos() * 2 <= 1_000_000_000 {
            delay.spec_nanos() * 2
        } else {
            1_000_000_000
        },
{
    let second = TimeSpan::from_secs(1);
    if delay.as_nanos() <= 500_000_000 {
        delay.saturating_mul(2).at_most(second)
    } else {
        second
    }
}

// --- Newtype and enum ---

/// A TCP port, never zero.
pub struct Port(u16);

impl Port {
    pub closed spec fn value(&self) -> u16 {
        self.0
    }

    pub fn new(value: u16) -> (r: Result<Self, &'static str>)
        ensures
            value != 0 ==> (r matches Ok(p) && p.value() == value),
            value == 0 ==> (r matches Err(e) && e@ == "port must be non-zero"@),
    {
        if value >= 1 {
            Ok(Port(value))
        } else {
            Err("port must be non-zero")
        }
    }

    pub fn get(self) -> (r: u16)
        ensures
            r == self.value(),
    {
        self.0
    }
}

/// The routes of the API.
#[derive(Debug)]
pub enum Route {
    Health,
    List,
    ById(String),
}

impl Route {
    pub fn parse(path: &str) -> (r: Option<Self>)
        ensures
            path@ == "/healthz"@ ==> r matches Some(Route::Health),
            path@ != "/healthz"@ && path@ == "/v1/gpu-workloads"@ ==> r matches Some(Route::List),
            path@ != "/healthz"@ && path@ != "/v1/gpu-workloads"@ ==> {
                let prefix = "/v1/gpu-workloads/"@;
                if path@.len() >= prefix.len() && path@.take(prefix.len() as int) == prefix {
                    r matches Some(Route::ById(id)) && id@ == path@.skip(prefix.len() as int)
                } else {
                    r is None
                }
            },
    {
        let v = chars_of(path);
        proof {
            reveal_strlit("/v1/gpu-workloads/");
            assert(v@.subrange(0, v@.len() as int) =~= path@);
        }
        if matches_lit(&v, 0, v.len(), "/healthz") {
            return Some(Route::Health);
        }
        if matches_lit(&v, 0, v.len(), "/v1/gpu-workloads") {
            return Some(Route::List);
        }
        let n: usize = 18;
        if v.len() >= n && matches_lit(&v, 0, n, "/v1/gpu-workloads/") {
            proof {
                assert(v@.subrange(0, 18) =~= path@.take(18));
                assert(v@.subrange(18, v@.len() as int) =~= path@.skip(18));
            }
            return Some(Route::ById(string_from(&v, n, v.len())));
        }
        proof {
            if path@.len() >= 18 && path@.take(18) == "/v1/gpu-workloads/"@ {
                assert(v@.subrange(0, 18) =~= path@.take(18));
            }
        }
        None
    }
}

// --- Hash ring ---

/// The ring hash of `input` with a replica number: the UTF-8 bytes, then the
/// number as eight little-endian bytes.
pub open spec fn ring_hash(input: Seq<char>, replica: nat) -> u64 {
    DefaultHasher::spec_finish(seq![encode_utf8(input), le_bytes(replica as u64)])
}

fn hash(input: &str, replica: usize) -> (r: u64)
    ensures
        r == ring_hash(input@, replica as nat),
{
    let mut hasher = DefaultHasher::new();
    let head = input.as_bytes();
    hasher.write(head);
    let bytes = le_bytes_exec(replica as u64);
    let b = bytes.as_slice();
    hasher.write(b);
    proof {
        assert(head@ == encode_utf8(input@));
        assert(b@ == le_bytes(replica as u64));
        assert(hasher@ =~= seq![encode_utf8(input@), le_bytes(replica as u64)]);
    }
    hasher.finish()
}

/// A hash ring of named nodes.
pub struct HashRing {
    points: Vec<(u64, String)>,
}

impl HashRing {
    /// The points of the ring, in order.
    pub closed spec fn ring(&self) -> Seq<Point> {
        points_of(self.points@)
    }

    pub closed spec fn wf(&self) -> bool {
        sorted_ring(self.ring())
    }

    /// A well-formed ring keeps its points ordered by hash, so the ring laws apply to it.
    pub proof fn lemma_wf_sorted(&self)
        requires
            self.wf(),
        ensures
            sorted_ring(self.ring()),
    {
    }

    pub fn new() -> (r: Self)
        ensures
            r.wf(),
            sorted_ring(r.ring()),
            r.ring() == Seq::<Point>::empty(),
    {
        let r = HashRing { points: Vec::new() };
        proof {
            assert(r.ring() =~= Seq::<Point>::empty());
        }
        r
    }

    /// Places `node` at `replicas` more points.
    pub fn add(&mut self, node: &str, replicas: usize)
        requires
            old(self).wf(),
        ensures
            final(self).wf(),
            sorted_ring(final(self).ring()),
            without(final(self).ring(), node@) == without(old(self).ring(), node@),
            hashes_of(final(self).ring(), node@).to_multiset() == hashes_of(old(self).ring(), node@).to_multiset().add(
                Seq::new(replicas as nat, |k: int| ring_hash(node@, k as nat)).to_multiset(),
            ),
    {
        let name = String::from_str(node);
        let ghost r0 = self.ring();
        proof {
            assert(Seq::new(0, |k: int| ring_hash(node@, k as nat)) =~= Seq::<u64>::empty());
            assert(hashes_of(r0, node@).to_multiset().add(Seq::<u64>::empty().to_multiset()) =~= hashes_of(
                r0,
                node@,
            ).to_multiset()) by {
                broadcast use vstd::seq_lib::group_to_multiset_ensures;
            }
        }
        let mut replica: usize = 0;
        while replica < replicas
            invariant
                name@ == node@,
                r0 == old(self).ring(),
                sorted_ring(self.ring()),
                replica <= replicas,
                without(self.ring(), node@) == without(r0, node@),
                hashes_of(self.ring(), node@).to_multiset() == hashes_of(r0, node@).to_multiset().add(
                    Seq::new(replica as nat, |k: int| ring_hash(node@, k as nat)).to_multiset(),
                ),
            decreases replicas - replica,
        {
            let h = hash(node, replica);
            let pos = upper_bound(&self.points, h);
            let ghost before = self.ring();
            proof {
                lemma_cut_split(before, h);
            }
            self.points.insert(pos, (h, name.clone()));
            proof {
                let after = self.ring();
                let x: Point = (h, node@);
                assert(after =~= before.take(pos as int) + seq![x] + before.skip(pos as int));
                assert(before =~= before.take(pos as int) + before.skip(pos as int));
                lemma_insert_point(before, pos as int, x, node@);
                assert(sorted_ring(after)) by {
                    assert forall|a: int, b: int| 0 <= a <= b < after.len() implies (#[trigger] after[a]).0
                        <= (#[trigger] after[b]).0 by {
                        if a < pos {
                            assert(after[a] == before[a]);
                        } else if a > pos {
                            assert(after[a] == before[a - 1]);
                        }
                        if b < pos {
                            assert(after[b] == before[b]);
                        } else if b > pos {
                            assert(after[b] == before[b - 1]);
                        }
                    }
                }
                let hs = Seq::new(replica as nat, |k: int| ring_hash(node@, k as nat));
                assert(Seq::new((replica + 1) as nat, |k: int| ring_hash(node@, k as nat)) =~= hs.push(h));
                vstd::seq_lib::to_multiset_build(hs, h);
                assert(hashes_of(r0, node@).to_multiset().add(hs.to_multiset()).insert(h) =~= hashes_of(
                    r0,
                    node@,
                ).to_multiset().add(hs.to_multiset().insert(h)));
            }
            replica = replica + 1;
        }
    }

    /// The node owning `key`: the first point after the key's hash (taken with
    /// replica number zero), wrapping round; `None` for an empty ring.
    pub fn get(&self, key: &str) -> (r: Option<&str>)
        requires
            self.wf(),
        ensures
            self.ring().len() == 0 ==> r is None,
            self.ring().len() > 0 ==> (r matches Some(n) && n@ == owner(self.ring(), ring_hash(key@, 0))),
    {
        if self.points.len() == 0 {
            return None;
        }
        let h = hash(key, 0);
        let index = upper_bound(&self.points, h);
        let index = if index == self.points.len() { 0 } else { index };
        proof {
            assert(self.ring()[index as int].1 == self.points@[index as int].1@);
        }
        Some(self.points[index].1.as_str())
    }
}

/// Adding a node that was not on the ring moves no key except onto that node.
pub proof fn lemma_ring_add_keeps_owners(before: Seq<Point>, after: Seq<Point>, node: Seq<char>, h: u64)
    requires
        sorted_ring(after),
        without(after, node) == without(before, node),
        forall|k: int| 0 <= k < before.len() ==> (#[trigger] before[k]).1 != node,
        before.len() > 0,
    ensures
        owner(after, h) == owner(before, h) || owner(after, h) == node,
{
    lemma_without_absent(before, node);
    lemma_add_moves_only_to_new(before, after, node, h);
}

// --- HTTP request head ---

/// First index at or after `i` where `"\r\n"` starts, or `s.len()`.
pub open spec fn next_crlf(s: Seq<char>, i: int) -> int
    decreases s.len() - i,
{
    if i + 1 >= s.len() {
        s.len() as int
    } else if s[i] == '\r' && s[i + 1] == '\n' {
        i
    } else {
        next_crlf(s, i + 1)
    }
}

proof fn lemma_next_crlf(s: Seq<char>, i: int)
    requires
        0 <= i <= s.len(),
    ensures
        i <= next_crlf(s, i) <= s.len(),
        next_crlf(s, i) < s.len() ==> next_crlf(s, i) + 1 < s.len() && s[next_crlf(s, i)] == '\r' && s[next_crlf(
            s,
            i,
        ) + 1] == '\n',
    decreases s.len() - i,
{
    if i + 1 < s.len() && !(s[i] == '\r' && s[i + 1] == '\n') {
        lemma_next_crlf(s, i + 1);
    }
}

/// The pieces of `s[start..]` between occurrences of `"\r\n"` (`split("\r\n")`).
pub open spec fn crlf_split_from(s: Seq<char>, start: int) -> Seq<Seq<char>>
    decreases s.len() - start,
{
    if start < 0 || start > s.len() {
        Seq::empty()
    } else {
        let e = next_crlf(s, start);
        if e + 1 >= s.len() || e < start {
            seq![s.subrange(start, s.len() as int)]
        } else {
            seq![s.subrange(start, e)] + crlf_split_from(s, e + 2)
        }
    }
}

/// A header line split at its first colon: the lower-cased trimmed name and
/// the trimmed value; `None` without a colon.
pub open spec fn header_of(line: Seq<char>) -> Option<(Seq<char>, Seq<char>)> {
    let k = next_sep(line, ':', 0);
    if k >= line.len() {
        None
    } else {
        Some(
            (
                trim(line.subrange(0, k)).map_values(|c: char| ascii_lower(c)),
                trim(line.subrange(k + 1, line.len() as int)),
            ),
        )
    }
}

/// The headers of `lines` up to the first empty line, or `None` if one lacks a colon.
pub open spec fn headers_of(lines: Seq<Seq<char>>) -> Option<Seq<(Seq<char>, Seq<char>)>>
    decreases lines.len(),
{
    if lines.len() == 0 || lines[0].len() == 0 {
        Some(seq![])
    } else {
        match (header_of(lines[0]), headers_of(lines.drop_first())) {
            (Some(h), Some(rest)) => Some(seq![h] + rest),
            _ => None,
        }
    }
}

/// What `parse_request_head` accepts: a request line of at least three
/// space-separated parts whose third is `HTTP/1.1`, then header lines up to an
/// empty line. The result is the method, the target and the headers.
pub open spec fn head_spec(input: Seq<char>) -> Option<(Seq<char>, Seq<char>, Seq<(Seq<char>, Seq<char>)>)> {
    let lines = crlf_split_from(input, 0);
    let parts = split(lines[0], ' ');
    if parts.len() < 3 || parts[2] != "HTTP/1.1"@ {
        None
    } else {
        match headers_of(lines.drop_first()) {
            Some(h) => Some((parts[0], parts[1], h)),
            None => None,
        }
    }
}

/// The method, target and headers of a request.
pub struct RequestHead {
    pub method: String,
    pub target: String,
    pub headers: Vec<(String, String)>,
}

impl RequestHead {
    pub open spec fn view_of(&self) -> (Seq<char>, Seq<char>, Seq<(Seq<char>, Seq<char>)>) {
        (self.method@, self.target@, self.headers@.map_values(|h: (String, String)| (h.0@, h.1@)))
    }
}

/// The bounds of the pieces of `v` between occurrences of `"\r\n"`.
fn crlf_lines(v: &[char]) -> (r: Vec<(usize, usize)>)
    ensures
        r@.len() == crlf_split_from(v@, 0).len(),
        forall|k: int| 0 <= k < r@.len() ==> (#[trigger] r@[k]).0 <= r@[k].1 <= v@.len(),
        forall|k: int|
            0 <= k < r@.len() ==> v@.subrange(r@[k].0 as int, r@[k].1 as int) == #[trigger] crlf_split_from(
                v@,
                0,
            )[k],
{
    let mut r: Vec<(usize, usize)> = Vec::new();
    let mut start: usize = 0;
    loop
        invariant
            start <= v@.len(),
            crlf_split_from(v@, 0) == r@.map_values(|b: (usize, usize)| v@.subrange(b.0 as int, b.1 as int))
                + crlf_split_from(v@, start as int),
            forall|k: int| 0 <= k < r@.len() ==> (#[trigger] r@[k]).0 <= r@[k].1 <= v@.len(),
        decreases v@.len() - start,
    {
        let mut e = start;
        while e < v.len() && e + 1 < v.len() && !(v[e] == '\r' && v[e + 1] == '\n')
            invariant
                start <= e <= v@.len(),
                next_crlf(v@, e as int) == next_crlf(v@, start as int),
            decreases v@.len() - e,
        {
            e = e + 1;
        }
        let e = if e < v.len() && e + 1 < v.len() { e } else { v.len() };
        proof {
            lemma_next_crlf(v@, start as int);
        }
        let ghost old_r = r@;
        r.push((start, e));
        assert(r@.map_values(|b: (usize, usize)| v@.subrange(b.0 as int, b.1 as int)) =~= old_r.map_values(
            |b: (usize, usize)| v@.subrange(b.0 as int, b.1 as int),
        ).push(v@.subrange(start as int, e as int)));
        if e >= v.len() {
            assert(crlf_split_from(v@, 0) =~= r@.map_values(
                |b: (usize, usize)| v@.subrange(b.0 as int, b.1 as int),
            ));
            return r;
        }
        assert(crlf_split_from(v@, 0) =~= r@.map_values(
            |b: (usize, usize)| v@.subrange(b.0 as int, b.1 as int),
        ) + crlf_split_from(v@, e + 2));
        start = e + 2;
    }
}

/// Parses one header line of `v[from..to]`.
fn parse_header(v: &[char], from: usize, to: usize) -> (r: Option<(String, String)>)
    requires
        from <= to <= v@.len(),
    ensures
        match header_of(v@.subrange(from as int, to as int)) {
            Some(h) => r matches Some(p) && p.0@ == h.0 && p.1@ == h.1,
            None => r is None,
        },
{
    let ghost line = v@.subrange(from as int, to as int);
    let mut k = from;
    while k < to && v[k] != ':'
        invariant
            from <= k <= to <= v@.len(),
            line == v@.subrange(from as int, to as int),
            next_sep(line, ':', (k - from) as int) == next_sep(line, ':', 0),
        decreases to - k,
    {
        k = k + 1;
    }
    proof {
        lemma_next_sep(line, ':', 0);
    }
    if k >= to {
        return None;
    }
    let (na, nb) = trim_bounds(v, from, k);
    let (va, vb) = trim_bounds(v, k + 1, to);
    proof {
        assert(line.subrange(0, (k - from) as int) =~= v@.subrange(from as int, k as int));
        assert(line.subrange((k - from) + 1, line.len() as int) =~= v@.subrange(k + 1, to as int));
    }
    let name = lowercase_string(v, na, nb);
    let value = string_from(v, va, vb);
    Some((name, value))
}

/// Parses a request line and the headers that follow it up to an empty line.
pub fn parse_request_head(input: &str) -> (r: Option<RequestHead>)
    ensures
        match head_spec(input@) {
            Some(h) => r matches Some(head) && head.view_of() == h,
            None => r is None,
        },
{
    let v = chars_of(input);
    let lines = crlf_lines(&v);
    let ghost ls = crlf_split_from(v@, 0);
    proof {
        lemma_crlf_nonempty(v@, 0);
    }
    let first = chars_range(&v, lines[0].0, lines[0].1);
    let parts = split_chars(&first, ' ');
    proof {
        assert(first@ == ls[0]);
    }
    if parts.len() < 3 {
        return None;
    }
    if !matches_lit(&first, parts[2].0, parts[2].1, "HTTP/1.1") {
        return None;
    }
    let method = string_from(&first, parts[0].0, parts[0].1);
    let target = string_from(&first, parts[1].0, parts[1].1);
    let mut headers: Vec<(String, String)> = Vec::new();
    let mut i: usize = 1;
    proof {
        assert(v@ == input@);
        assert(split(first@, ' ')[2] == "HTTP/1.1"@);
    }
    loop
        invariant
            ls == crlf_split_from(v@, 0),
            v@ == input@,
            head_spec(input@) == match headers_of(ls.drop_first()) {
                Some(h) => Some((method@, target@, h)),
                None => None,
            },
            lines@.len() == ls.len(),
            forall|k: int| 0 <= k < lines@.len() ==> (#[trigger] lines@[k]).0 <= lines@[k].1 <= v@.len(),
            forall|k: int|
                0 <= k < lines@.len() ==> v@.subrange(lines@[k].0 as int, lines@[k].1 as int) == #[trigger] ls[k],
            1 <= i <= ls.len(),
            headers_of(ls.drop_first()) == match headers_of(ls.skip(i as int)) {
                Some(rest) => Some(headers@.map_values(|h: (String, String)| (h.0@, h.1@)) + rest),
                None => None::<Seq<(Seq<char>, Seq<char>)>>,
            },
        ensures
            head_spec(input@) == match headers_of(ls.drop_first()) {
                Some(h) => Some((method@, target@, h)),
                None => None,
            },
            headers_of(ls.drop_first()) == Some(headers@.map_values(|h: (String, String)| (h.0@, h.1@))),
        decreases ls.len() - i,
    {
        if i >= lines.len() {
            proof {
                assert(ls.skip(i as int) =~= Seq::<Seq<char>>::empty());
                assert(headers_of(ls.skip(i as int)) == Some(Seq::<(Seq<char>, Seq<char>)>::empty()));
                assert(headers@.map_values(|h: (String, String)| (h.0@, h.1@)) + seq![] =~= headers@.map_values(
                    |h: (String, String)| (h.0@, h.1@),
                ));
            }
            break;
        }
        let (a, b) = lines[i];
        proof {
            assert(ls.skip(i as int)[0] == ls[i as int]);
            assert(ls.skip(i as int).drop_first() =~= ls.skip(i + 1));
        }
        if a == b {
            proof {
                assert(ls[i as int].len() == 0);
                assert(headers_of(ls.skip(i as int)) == Some(Seq::<(Seq<char>, Seq<char>)>::empty()));
                assert(headers@.map_values(|h: (String, String)| (h.0@, h.1@)) + seq![] =~= headers@.map_values(
                    |h: (String, String)| (h.0@, h.1@),
                ));
            }
            break;
        }
        proof {
            assert(v@.subrange(a as int, b as int) == ls[i as int]);
            assert(ls.skip(i as int)[0].len() > 0);
        }
        match parse_header(&v, a, b) {
            Some(h) => {
                let ghost before = headers@.map_values(|h: (String, String)| (h.0@, h.1@));
                headers.push(h);
                proof {
                    let after = headers@.map_values(|h: (String, String)| (h.0@, h.1@));
                    assert(after =~= before.push((h.0@, h.1@)));
                    match headers_of(ls.skip(i + 1)) {
                        Some(rest) => {
                            assert(before + (seq![(h.0@, h.1@)] + rest) =~= after + rest);
                        },
                        None => {},
                    }
                }
            },
            None => {
                proof {
                    assert(header_of(ls.skip(i as int)[0]) is None);
                    assert(headers_of(ls.skip(i as int)) is None);
                }
                return None;
            },
        }
        i = i + 1;
    }
    proof {
        assert(ls.skip(1) =~= ls.drop_first());
    }
    Some(RequestHead { method, target, headers })
}

proof fn lemma_crlf_nonempty(s: Seq<char>, start: int)
    requires
        0 <= start <= s.len(),
    ensures
        crlf_split_from(s, start).len() > 0,
    decreases s.len() - start,
{
    lemma_next_crlf(s, start);
}

} // verus!
