//! An n-ary tree of strings written as a flat list of lines: each node in
//! pre-order as its value and then its number of children.
use vstd::prelude::*;
use crate::text::{all_digits_in, chars_of, decimal, decimal_string, digit_char, digit_in, parse_bounded,
    parse_radix, parse_radix_exec, radix_value};

verus! {

/// A node with a value and its children, left to right.
#[derive(Debug)]
pub struct NaryNode {
    pub value: String,
    pub children: Vec<NaryNode>,
}

/// The lines that write `t`: its value, its number of children in decimal,
/// then each child's lines in order.
pub open spec fn encoding(t: NaryNode) -> Seq<Seq<char>>
    decreases t, 1nat,
{
    seq![t.value@, decimal(t.children@.len())] + forest_encoding(t.children@)
}

/// The lines of each tree of `ts`, one tree after the other.
pub open spec fn forest_encoding(ts: Seq<NaryNode>) -> Seq<Seq<char>>
    decreases ts, 0nat,
{
    if ts.len() == 0 {
        Seq::empty()
    } else {
        encoding(ts[0]) + forest_encoding(ts.drop_first())
    }
}

/// The number of nodes of `t`.
pub open spec fn size(t: NaryNode) -> nat
    decreases t, 1nat,
{
    1 + forest_size(t.children@)
}

pub open spec fn forest_size(ts: Seq<NaryNode>) -> nat
    decreases ts, 0nat,
{
    if ts.len() == 0 {
        0
    } else {
        size(ts[0]) + forest_size(ts.drop_first())
    }
}

/// The characters of each line.
pub open spec fn texts(lines: Seq<String>) -> Seq<Seq<char>> {
    lines.map_values(|line: String| line@)
}

/// The trees still to write, in order, for a stack whose top is its last entry.
pub open spec fn pending(stack: Seq<&NaryNode>) -> Seq<NaryNode> {
    stack.reverse().map_values(|node: &NaryNode| *node)
}

/// What `str::parse::<usize>` accepts.
pub open spec fn parse_count(s: Seq<char>) -> Option<nat> {
    parse_bounded(s, 10, usize::MAX as nat)
}

/// Reading a node from line `pos`: its value, a count, then that many nodes.
/// Gives the line after the node and the lines that write the node read.
pub open spec fn parse_at(lines: Seq<Seq<char>>, pos: int) -> Option<(int, Seq<Seq<char>>)>
    decreases lines.len() - pos, 0nat, 0nat,
{
    if pos < 0 || pos + 1 >= lines.len() {
        None
    } else {
        match parse_count(lines[pos + 1]) {
            None => None,
            Some(n) => match parse_children(lines, pos + 2, n) {
                None => None,
                Some((end, rest)) => Some((end, seq![lines[pos], decimal(n)] + rest)),
            },
        }
    }
}

/// Reading `n` nodes one after another from line `pos`.
pub open spec fn parse_children(lines: Seq<Seq<char>>, pos: int, n: nat) -> Option<(int, Seq<Seq<char>>)>
    decreases lines.len() - pos, 1nat, n,
{
    if n == 0 {
        if 0 <= pos <= lines.len() {
            Some((pos, Seq::empty()))
        } else {
            None
        }
    } else {
        match parse_at(lines, pos) {
            None => None,
            Some((mid, first)) => if mid <= pos || mid > lines.len() {
                None
            } else {
                match parse_children(lines, mid, (n - 1) as nat) {
                    None => None,
                    Some((end, rest)) => Some((end, first + rest)),
                }
            },
        }
    }
}

proof fn lemma_forest_push(ts: Seq<NaryNode>, t: NaryNode)
    ensures
        forest_encoding(ts.push(t)) == forest_encoding(ts) + encoding(t),
        forest_size(ts.push(t)) == forest_size(ts) + size(t),
    decreases ts.len(),
{
    if ts.len() == 0 {
        assert(ts.push(t).drop_first() =~= Seq::<NaryNode>::empty());
        assert(forest_size(Seq::<NaryNode>::empty()) == 0);
        assert(forest_encoding(Seq::<NaryNode>::empty()) == Seq::<Seq<char>>::empty());
        assert(encoding(t) + Seq::<Seq<char>>::empty() =~= encoding(t));
        assert(Seq::<Seq<char>>::empty() + encoding(t) =~= encoding(t));
    } else {
        lemma_forest_push(ts.drop_first(), t);
        assert(ts.push(t).drop_first() =~= ts.drop_first().push(t));
        assert(ts.push(t)[0] == ts[0]);
        assert(encoding(ts[0]) + (forest_encoding(ts.drop_first()) + encoding(t)) =~= (encoding(ts[0])
            + forest_encoding(ts.drop_first())) + encoding(t));
    }
}

proof fn lemma_forest_single(t: NaryNode)
    ensures
        forest_encoding(seq![t]) == encoding(t),
        forest_size(seq![t]) == size(t),
{
    lemma_forest_push(Seq::empty(), t);
    assert(Seq::<NaryNode>::empty().push(t) =~= seq![t]);
    assert(forest_size(Seq::<NaryNode>::empty()) == 0);
    assert(forest_encoding(Seq::<NaryNode>::empty()) == Seq::<Seq<char>>::empty());
    assert(Seq::<Seq<char>>::empty() + encoding(t) =~= encoding(t));
}

/// The lines and the size of two forests one after the other add up.
pub proof fn lemma_forest_concat(a: Seq<NaryNode>, b: Seq<NaryNode>)
    ensures
        forest_encoding(a + b) == forest_encoding(a) + forest_encoding(b),
        forest_size(a + b) == forest_size(a) + forest_size(b),
    decreases a.len(),
{
    if a.len() == 0 {
        assert(a + b =~= b);
        assert(Seq::<Seq<char>>::empty() + forest_encoding(b) =~= forest_encoding(b));
    } else {
        lemma_forest_concat(a.drop_first(), b);
        assert((a + b).drop_first() =~= a.drop_first() + b);
        assert((a + b)[0] == a[0]);
        assert(encoding(a[0]) + (forest_encoding(a.drop_first()) + forest_encoding(b)) =~= (encoding(a[0])
            + forest_encoding(a.drop_first())) + forest_encoding(b));
    }
}

/// The lines of `t`, node by node in pre-order, with an explicit stack.
pub fn serialize(root: &NaryNode) -> (r: Vec<String>)
    ensures
        texts(r@) == encoding(*root),
{
    let mut serialized: Vec<String> = Vec::new();
    let mut stack: Vec<&NaryNode> = Vec::new();
    stack.push(root);
    proof {
        assert(pending(stack@) =~= seq![*root]);
        lemma_forest_single(*root);
        assert(texts(serialized@) =~= Seq::<Seq<char>>::empty());
        assert(Seq::<Seq<char>>::empty() + encoding(*root) =~= encoding(*root));
    }
    while stack.len() > 0
        invariant
            texts(serialized@) + forest_encoding(pending(stack@)) == encoding(*root),
        decreases forest_size(pending(stack@)),
    {
        let ghost before = stack@;
        let node = stack.pop().unwrap();
        proof {
            assert(before =~= stack@.push(node));
            assert(pending(before) =~= seq![*node] + pending(stack@));
            lemma_forest_concat(seq![*node], pending(stack@));
            lemma_forest_single(*node);
        }
        let ghost done = texts(serialized@);
        let ghost rest = pending(stack@);
        serialized.push(node.value.clone());
        let count = node.children.len();
        serialized.push(decimal_string(count as u128));
        proof {
            assert(texts(serialized@) =~= done + seq![node.value@, decimal(node.children@.len())]);
        }
        let mut i = count;
        while i > 0
            invariant
                i <= count,
                count == node.children@.len(),
                pending(stack@) == node.children@.subrange(i as int, count as int) + rest,
            decreases i,
        {
            i = i - 1;
            let ghost prev = stack@;
            stack.push(&node.children[i]);
            proof {
                assert(node.children@.subrange(i as int, count as int) =~= seq![node.children@[i as int]]
                    + node.children@.subrange(i + 1, count as int));
                assert(pending(stack@) =~= seq![node.children@[i as int]] + pending(prev));
            }
        }
        proof {
            assert(node.children@.subrange(0, count as int) =~= node.children@);
            lemma_forest_concat(node.children@, rest);
            assert(texts(serialized@) + forest_encoding(pending(stack@)) =~= done + (encoding(*node)
                + forest_encoding(rest)));
        }
    }
    proof {
        assert(pending(stack@) =~= Seq::<NaryNode>::empty());
        assert(texts(serialized@) + Seq::<Seq<char>>::empty() =~= texts(serialized@));
    }
    serialized
}

/// Reads the count line the way `str::parse::<usize>` does.
fn parse_count_exec(line: &String) -> (r: Option<usize>)
    ensures
        match parse_count(line@) {
            Some(n) => r == Some(n as usize),
            None => r is None,
        },
{
    let chars = chars_of(line.as_str());
    proof {
        assert(chars@.subrange(0, chars@.len() as int) =~= line@);
    }
    match parse_radix_exec(&chars, 0, chars.len(), 10, usize::MAX as u64) {
        Some(n) => Some(n as usize),
        None => None,
    }
}

/// The decimal writing of a count is read back as that count.
pub proof fn lemma_count_round_trip(n: nat)
    requires
        n <= usize::MAX,
    ensures
        parse_count(decimal(n)) == Some(n),
{
    lemma_decimal_digits(n);
    assert(decimal(n)[0] != '+') by {
        assert(digit_in(decimal(n)[0], 10) is Some);
    }
}

proof fn lemma_decimal_digits(n: nat)
    ensures
        decimal(n).len() > 0,
        all_digits_in(decimal(n), 10),
        radix_value(decimal(n), 10) == n,
    decreases n,
{
    let d = decimal(n);
    if n < 10 {
        assert(digit_char(n) as u32 == 0x30 + n);
        assert(digit_in(d[0], 10) == Some(n));
        assert(d.drop_last() =~= Seq::<char>::empty());
        assert(radix_value(Seq::<char>::empty(), 10) == 0);
        assert(d.last() == d[0]);
    } else {
        lemma_decimal_digits(n / 10);
        let last = digit_char(n % 10);
        assert(last as u32 == 0x30 + n % 10);
        assert(d.drop_last() =~= decimal(n / 10));
        assert(d.last() == last);
        assert(digit_in(last, 10) == Some(n % 10));
        assert((n / 10) * 10 + n % 10 == n) by (nonlinear_arith);
        assert forall|i: int| 0 <= i < d.len() implies (#[trigger] digit_in(d[i], 10)) is Some by {
            if i < d.len() - 1 {
                assert(d[i] == decimal(n / 10)[i]);
            }
        }
    }
}

proof fn lemma_parse_at_bounds(lines: Seq<Seq<char>>, pos: int)
    ensures
        parse_at(lines, pos) matches Some((end, _)) ==> pos + 2 <= end <= lines.len(),
    decreases lines.len() - pos, 0nat, 0nat,
{
    if 0 <= pos && pos + 1 < lines.len() {
        if let Some(n) = parse_count(lines[pos + 1]) {
            lemma_parse_children_bounds(lines, pos + 2, n);
        }
    }
}

proof fn lemma_parse_children_bounds(lines: Seq<Seq<char>>, pos: int, n: nat)
    ensures
        parse_children(lines, pos, n) matches Some((end, _)) ==> pos <= end <= lines.len(),
    decreases lines.len() - pos, 1nat, n,
{
    if n > 0 {
        if let Some((mid, _)) = parse_at(lines, pos) {
            if pos < mid <= lines.len() {
                lemma_parse_children_bounds(lines, mid, (n - 1) as nat);
            }
        }
    }
}

/// Rebuilds a tree from `serialized`, starting at line `*pos` and leaving
/// `*pos` after it.
pub fn deserialize(serialized: &[String], pos: &mut usize) -> (r: Option<NaryNode>)
    ensures
        match parse_at(texts(serialized@), *old(pos) as int) {
            Some((end, lines)) => r matches Some(t) && *final(pos) == end && encoding(t) == lines,
            None => r is None,
        },
    decreases serialized@.len() - *old(pos),
{
    let ghost lines = texts(serialized@);
    let ghost start = *pos as int;
    if *pos >= serialized.len() || *pos + 1 >= serialized.len() {
        return None;
    }
    let value = serialized[*pos].clone();
    proof {
        assert(lines[start] == serialized@[start]@);
        assert(lines[start + 1] == serialized@[start + 1]@);
    }
    let child_count = match parse_count_exec(&serialized[*pos + 1]) {
        Some(n) => n,
        None => return None,
    };
    *pos = *pos + 2;
    let mut children: Vec<NaryNode> = Vec::new();
    let mut i: usize = 0;
    proof {
        assert(forest_encoding(children@) == Seq::<Seq<char>>::empty());
    }
    while i < child_count
        invariant
            lines == texts(serialized@),
            lines.len() == serialized@.len(),
            start == *old(pos) as int,
            0 <= start,
            start + 1 < lines.len(),
            parse_count(lines[start + 1]) == Some(child_count as nat),
            i <= child_count,
            children@.len() == i,
            start + 2 <= *pos <= lines.len(),
            parse_children(lines, start + 2, child_count as nat) == match parse_children(
                lines,
                *pos as int,
                (child_count - i) as nat,
            ) {
                None => None,
                Some((end, rest)) => Some((end, forest_encoding(children@) + rest)),
            },
        decreases child_count - i,
    {
        let ghost here = *pos as int;
        proof {
            lemma_parse_at_bounds(lines, here);
        }
        let child = match deserialize(serialized, pos) {
            Some(c) => c,
            None => {
                proof {
                    assert(parse_at(lines, here) is None);
                    assert(parse_children(lines, here, (child_count - i) as nat) is None);
                    assert(parse_children(lines, start + 2, child_count as nat) is None);
                }
                return None;
            },
        };
        proof {
            lemma_forest_push(children@, child);
            let k = (child_count - i - 1) as nat;
            assert(((child_count - i) as nat - 1) as nat == k);
            match parse_children(lines, *pos as int, k) {
                Some((end, rest)) => {
                    assert(forest_encoding(children@) + (encoding(child) + rest) =~= forest_encoding(
                        children@.push(child),
                    ) + rest);
                },
                None => {},
            }
        }
        children.push(child);
        i = i + 1;
    }
    proof {
        assert(parse_children(lines, *pos as int, 0) == Some((*pos as int, Seq::<Seq<char>>::empty())));
        assert(forest_encoding(children@) + Seq::<Seq<char>>::empty() =~= forest_encoding(children@));
    }
    Some(NaryNode { value, children })
}

/// Reading back what `serialize` wrote gives a tree with the same lines,
/// whatever follows them.
pub proof fn lemma_round_trip(t: NaryNode, rest: Seq<Seq<char>>)
    ensures
        parse_at(encoding(t) + rest, 0) == Some((encoding(t).len() as int, encoding(t))),
{
    lemma_counts_fit(t);
    lemma_parse_encoding_at(t, Seq::empty(), rest);
    assert(Seq::<Seq<char>>::empty() + encoding(t) + rest =~= encoding(t) + rest);
}

/// Every node of `t` has at most `usize::MAX` children.
spec fn forall_counts_fit(t: NaryNode) -> bool
    decreases t, 1nat,
{
    t.children@.len() <= usize::MAX && forest_counts_fit(t.children@)
}

spec fn forest_counts_fit(ts: Seq<NaryNode>) -> bool
    decreases ts, 0nat,
{
    ts.len() == 0 || (forall_counts_fit(ts[0]) && forest_counts_fit(ts.drop_first()))
}

/// A node's children are a `Vec`, so there are at most `usize::MAX` of them.
proof fn lemma_counts_fit(t: NaryNode)
    ensures
        forall_counts_fit(t),
    decreases t, 1nat,
{
    assert(t.children.len() == t.children@.len());
    lemma_forest_counts_fit(t.children@);
}

proof fn lemma_forest_counts_fit(ts: Seq<NaryNode>)
    ensures
        forest_counts_fit(ts),
    decreases ts, 0nat,
{
    if ts.len() > 0 {
        lemma_counts_fit(ts[0]);
        lemma_forest_counts_fit(ts.drop_first());
    }
}

proof fn lemma_parse_encoding_at(t: NaryNode, before: Seq<Seq<char>>, after: Seq<Seq<char>>)
    requires
        forall_counts_fit(t),
    ensures
        parse_at(before + encoding(t) + after, before.len() as int) == Some(
            ((before.len() + encoding(t).len()) as int, encoding(t)),
        ),
    decreases t, 1nat,
{
    let lines = before + encoding(t) + after;
    let p = before.len() as int;
    let n = t.children@.len();
    assert(lines[p] == t.value@);
    assert(lines[p + 1] == decimal(n));
    lemma_count_round_trip(n);
    let mid_before = before + seq![t.value@, decimal(n)];
    assert(lines =~= mid_before + forest_encoding(t.children@) + after);
    lemma_parse_forest_at(t.children@, mid_before, after);
    assert(seq![t.value@, decimal(n)] + forest_encoding(t.children@) =~= encoding(t));
}

proof fn lemma_parse_forest_at(ts: Seq<NaryNode>, before: Seq<Seq<char>>, after: Seq<Seq<char>>)
    requires
        forest_counts_fit(ts),
    ensures
        parse_children(before + forest_encoding(ts) + after, before.len() as int, ts.len()) == Some(
            ((before.len() + forest_encoding(ts).len()) as int, forest_encoding(ts)),
        ),
    decreases ts, 0nat,
{
    let lines = before + forest_encoding(ts) + after;
    if ts.len() == 0 {
        assert(forest_encoding(ts) =~= Seq::<Seq<char>>::empty());
    } else {
        let t = ts[0];
        let tail = ts.drop_first();
        let after_first = forest_encoding(tail) + after;
        assert(lines =~= before + encoding(t) + after_first);
        lemma_parse_encoding_at(t, before, after_first);
        let mid_before = before + encoding(t);
        assert(lines =~= mid_before + forest_encoding(tail) + after);
        lemma_parse_forest_at(tail, mid_before, after);
        lemma_encoding_nonempty(t);
        assert(encoding(t) + forest_encoding(tail) =~= forest_encoding(ts));
    }
}

proof fn lemma_encoding_nonempty(t: NaryNode)
    ensures
        encoding(t).len() >= 2,
{
    assert(encoding(t)[0] == t.value@);
}


/// The children of each tree of `ts`, one tree's after the other's: the next
/// level down.
pub open spec fn next_layer(ts: Seq<NaryNode>) -> Seq<NaryNode>
    decreases ts.len(),
{
    if ts.len() == 0 {
        Seq::empty()
    } else {
        ts[0].children@ + next_layer(ts.drop_first())
    }
}

/// The values of the trees of `ts`.
pub open spec fn layer_values(ts: Seq<NaryNode>) -> Seq<Seq<char>> {
    ts.map_values(|t: NaryNode| t.value@)
}

/// The values of the forest `ts` level by level: its roots, then their
/// children, and so on down to the deepest level.
pub open spec fn levels(ts: Seq<NaryNode>) -> Seq<Seq<Seq<char>>>
    decreases forest_size(ts),
{
    if ts.len() == 0 {
        Seq::empty()
    } else {
        proof {
            lemma_next_layer_size(ts);
        }
        seq![layer_values(ts)] + levels(next_layer(ts))
    }
}

/// The characters of each value of each level.
pub open spec fn level_texts(r: Seq<Vec<&String>>) -> Seq<Seq<Seq<char>>> {
    r.map_values(|level: Vec<&String>| level@.map_values(|value: &String| value@))
}

/// The trees a sequence of references points at.
pub open spec fn targets_of(nodes: Seq<&NaryNode>) -> Seq<NaryNode> {
    nodes.map_values(|node: &NaryNode| *node)
}

/// Going one level down drops each root and keeps every other node.
pub proof fn lemma_next_layer_size(ts: Seq<NaryNode>)
    ensures
        forest_size(next_layer(ts)) + ts.len() == forest_size(ts),
    decreases ts.len(),
{
    if ts.len() == 0 {
        assert(next_layer(ts) == Seq::<NaryNode>::empty());
        assert(forest_size(Seq::<NaryNode>::empty()) == 0);
    } else {
        lemma_next_layer_size(ts.drop_first());
        lemma_forest_concat(ts[0].children@, next_layer(ts.drop_first()));
        assert(next_layer(ts) == ts[0].children@ + next_layer(ts.drop_first()));
        assert(forest_size(ts) == size(ts[0]) + forest_size(ts.drop_first()));
        assert(size(ts[0]) == 1 + forest_size(ts[0].children@));
    }
}

proof fn lemma_next_layer_push(ts: Seq<NaryNode>, t: NaryNode)
    ensures
        next_layer(ts.push(t)) == next_layer(ts) + t.children@,
    decreases ts.len(),
{
    if ts.len() == 0 {
        assert(ts.push(t).drop_first() =~= Seq::<NaryNode>::empty());
        assert(next_layer(Seq::<NaryNode>::empty()) == Seq::<NaryNode>::empty());
        assert(next_layer(ts) == Seq::<NaryNode>::empty());
        assert(ts.push(t)[0] == t);
        assert(t.children@ + Seq::<NaryNode>::empty() =~= t.children@);
        assert(Seq::<NaryNode>::empty() + t.children@ =~= t.children@);
    } else {
        lemma_next_layer_push(ts.drop_first(), t);
        assert(ts.push(t).drop_first() =~= ts.drop_first().push(t));
        assert(ts.push(t)[0] == ts[0]);
        assert(ts[0].children@ + (next_layer(ts.drop_first()) + t.children@) =~= (ts[0].children@ + next_layer(
            ts.drop_first(),
        )) + t.children@);
    }
}

/// Appends references to `node`'s children, in order, to `queue`.
fn push_children<'a>(node: &'a NaryNode, queue: &mut std::collections::VecDeque<&'a NaryNode>)
    ensures
        targets_of(final(queue)@) == targets_of(old(queue)@) + node.children@,
{
    let mut c: usize = 0;
    while c < node.children.len()
        invariant
            c <= node.children@.len(),
            targets_of(queue@) == targets_of(old(queue)@) + node.children@.take(c as int),
        decreases node.children@.len() - c,
    {
        let ghost before = queue@;
        queue.push_back(&node.children[c]);
        proof {
            assert(targets_of(queue@) =~= targets_of(before).push(node.children@[c as int]));
            assert(node.children@.take(c + 1) =~= node.children@.take(c as int).push(node.children@[c as int]));
        }
        c = c + 1;
    }
    proof {
        assert(node.children@.take(c as int) =~= node.children@);
    }
}

/// The values of the tree level by level, breadth first with a queue: each
/// round takes exactly the nodes queued by the round before.
pub fn level_order(root: &NaryNode) -> (r: Vec<Vec<&String>>)
    ensures
        level_texts(r@) == levels(seq![*root]),
{
    let mut result: Vec<Vec<&String>> = Vec::new();
    let mut queue: std::collections::VecDeque<&NaryNode> = std::collections::VecDeque::new();
    queue.push_back(root);
    proof {
        assert(targets_of(queue@) =~= seq![*root]);
        assert(level_texts(result@) =~= Seq::<Seq<Seq<char>>>::empty());
        assert(Seq::<Seq<Seq<char>>>::empty() + levels(seq![*root]) =~= levels(seq![*root]));
    }
    while queue.len() > 0
        invariant
            level_texts(result@) + levels(targets_of(queue@)) == levels(seq![*root]),
        decreases forest_size(targets_of(queue@)),
    {
        let ghost layer = targets_of(queue@);
        let current_size = queue.len();
        let mut level: Vec<&String> = Vec::with_capacity(current_size);
        let mut j: usize = 0;
        proof {
            assert(layer.skip(0) =~= layer);
            assert(layer.take(0) =~= Seq::<NaryNode>::empty());
            assert(targets_of(queue@) =~= layer.skip(0) + next_layer(layer.take(0)));
        }
        while j < current_size
            invariant
                current_size == layer.len(),
                j <= current_size,
                targets_of(queue@) == layer.skip(j as int) + next_layer(layer.take(j as int)),
                level@.map_values(|value: &String| value@) == layer_values(layer.take(j as int)),
            decreases current_size - j,
        {
            let ghost before = queue@;
            proof {
                assert(layer.skip(j as int).len() > 0);
                assert(targets_of(before).len() == before.len());
                assert(targets_of(before)[0] == layer[j as int]);
            }
            let node = queue.pop_front().unwrap();
            proof {
                assert(targets_of(queue@) =~= targets_of(before).drop_first());
                assert(layer.skip(j as int).drop_first() =~= layer.skip(j + 1));
                assert((layer.skip(j as int) + next_layer(layer.take(j as int))).drop_first() =~= layer.skip(j + 1)
                    + next_layer(layer.take(j as int)));
            }
            let ghost lbefore = level@;
            level.push(&node.value);
            push_children(node, &mut queue);
            proof {
                assert(layer.take(j + 1) =~= layer.take(j as int).push(layer[j as int]));
                lemma_next_layer_push(layer.take(j as int), *node);
                assert(targets_of(queue@) =~= layer.skip(j + 1) + next_layer(layer.take(j + 1)));
                assert(level@.map_values(|value: &String| value@) =~= lbefore.map_values(|value: &String| value@).push(
                    node.value@,
                ));
                assert(layer_values(layer.take(j + 1)) =~= layer_values(layer.take(j as int)).push(node.value@));
            }
            j = j + 1;
        }
        proof {
            assert(layer.skip(j as int) =~= Seq::<NaryNode>::empty());
            assert(layer.take(j as int) =~= layer);
            assert(targets_of(queue@) =~= next_layer(layer));
            lemma_next_layer_size(layer);
            let before = level_texts(result@);
            assert(levels(layer) == seq![layer_values(layer)] + levels(next_layer(layer)));
        }
        let ghost rbefore = result@;
        result.push(level);
        proof {
            assert(level_texts(result@) =~= level_texts(rbefore).push(layer_values(layer)));
            assert(level_texts(rbefore) + levels(layer) =~= level_texts(rbefore).push(layer_values(layer)) + levels(
                next_layer(layer),
            ));
        }
    }
    proof {
        assert(targets_of(queue@) =~= Seq::<NaryNode>::empty());
        assert(level_texts(result@) + Seq::<Seq<Seq<char>>>::empty() =~= level_texts(result@));
    }
    result
}


/// The values of the tree level by level, building each level from the
/// children of the one above.
pub fn level_order_by_layers(root: &NaryNode) -> (r: Vec<Vec<&String>>)
    ensures
        level_texts(r@) == levels(seq![*root]),
{
    let mut result: Vec<Vec<&String>> = Vec::new();
    let mut level: Vec<&NaryNode> = Vec::new();
    level.push(root);
    proof {
        assert(targets_of(level@) =~= seq![*root]);
        assert(level_texts(result@) =~= Seq::<Seq<Seq<char>>>::empty());
        assert(Seq::<Seq<Seq<char>>>::empty() + levels(seq![*root]) =~= levels(seq![*root]));
    }
    while level.len() > 0
        invariant
            level_texts(result@) + levels(targets_of(level@)) == levels(seq![*root]),
        decreases forest_size(targets_of(level@)),
    {
        let ghost layer = targets_of(level@);
        let mut values: Vec<&String> = Vec::new();
        let mut next: Vec<&NaryNode> = Vec::new();
        let mut i: usize = 0;
        proof {
            assert(layer.take(0) =~= Seq::<NaryNode>::empty());
            assert(targets_of(next@) =~= next_layer(layer.take(0)));
        }
        while i < level.len()
            invariant
                layer == targets_of(level@),
                i <= level@.len(),
                values@.map_values(|value: &String| value@) == layer_values(layer.take(i as int)),
                targets_of(next@) == next_layer(layer.take(i as int)),
            decreases level@.len() - i,
        {
            let node = level[i];
            proof {
                assert(layer[i as int] == *node);
            }
            let ghost vbefore = values@;
            values.push(&node.value);
            let ghost nbefore = next@;
            let mut c: usize = 0;
            while c < node.children.len()
                invariant
                    c <= node.children@.len(),
                    targets_of(next@) == targets_of(nbefore) + node.children@.take(c as int),
                decreases node.children@.len() - c,
            {
                let ghost before = next@;
                next.push(&node.children[c]);
                proof {
                    assert(targets_of(next@) =~= targets_of(before).push(node.children@[c as int]));
                    assert(node.children@.take(c + 1) =~= node.children@.take(c as int).push(
                        node.children@[c as int],
                    ));
                }
                c = c + 1;
            }
            proof {
                assert(node.children@.take(c as int) =~= node.children@);
                assert(layer.take(i + 1) =~= layer.take(i as int).push(*node));
                lemma_next_layer_push(layer.take(i as int), *node);
                assert(values@.map_values(|value: &String| value@) =~= vbefore.map_values(|value: &String| value@).push(
                    node.value@,
                ));
                assert(layer_values(layer.take(i + 1)) =~= layer_values(layer.take(i as int)).push(node.value@));
            }
            i = i + 1;
        }
        proof {
            assert(layer.take(i as int) =~= layer);
            lemma_next_layer_size(layer);
            assert(levels(layer) == seq![layer_values(layer)] + levels(next_layer(layer)));
        }
        let ghost rbefore = result@;
        result.push(values);
        level = next;
        proof {
            assert(level_texts(result@) =~= level_texts(rbefore).push(layer_values(layer)));
            assert(level_texts(rbefore) + levels(layer) =~= level_texts(rbefore).push(layer_values(layer)) + levels(
                next_layer(layer),
            ));
        }
    }
    proof {
        assert(targets_of(level@) =~= Seq::<NaryNode>::empty());
        assert(level_texts(result@) + Seq::<Seq<Seq<char>>>::empty() =~= level_texts(result@));
    }
    result
}

} // verus!
