//! Valid parentheses: every closing delimiter must close the most recent open
//! one, checked with a stack.
use vstd::prelude::*;
use crate::text::chars_of;

verus! {

/// The opening delimiter that `c` closes, if `c` is a closing delimiter.
pub open spec fn opener_of(c: char) -> Option<char> {
    if c == ')' {
        Some('(')
    } else if c == '}' {
        Some('{')
    } else if c == ']' {
        Some('[')
    } else {
        None
    }
}

pub open spec fn is_opener(c: char) -> bool {
    c == '(' || c == '[' || c == '{'
}

/// The stack after reading `c`: an opener is pushed; every other character
/// must close the opener on top of the stack, which is popped. `None` when it
/// does not: on an empty stack, on a different opener, or for a character
/// that is no delimiter at all.
pub open spec fn step(stack: Seq<char>, c: char) -> Option<Seq<char>> {
    if is_opener(c) {
        Some(stack.push(c))
    } else {
        match opener_of(c) {
            Some(o) => if stack.len() > 0 && stack.last() == o {
                Some(stack.drop_last())
            } else {
                None
            },
            None => None,
        }
    }
}

/// The stack of unclosed openers after reading `s`, or `None` once a closing
/// character did not match.
pub open spec fn scan(s: Seq<char>) -> Option<Seq<char>>
    decreases s.len(),
{
    if s.len() == 0 {
        Some(Seq::empty())
    } else {
        match scan(s.drop_last()) {
            None => None,
            Some(stack) => step(stack, s.last()),
        }
    }
}

fn opener(c: char) -> (r: Option<char>)
    ensures
        r == opener_of(c),
{
    if c == ')' {
        Some('(')
    } else if c == '}' {
        Some('{')
    } else if c == ']' {
        Some('[')
    } else {
        None
    }
}

/// `c` closes a bracket.
pub open spec fn is_closer(c: char) -> bool {
    c == ')' || c == ']' || c == '}'
}

/// The opener `o` and the closer `c` form a pair of one kind: `()`, `[]` or `{}`.
pub open spec fn same_kind(o: char, c: char) -> bool {
    (o == '(' && c == ')') || (o == '[' && c == ']') || (o == '{' && c == '}')
}

/// A closer right after an opener of another kind, as in `(]` or `{)`, can
/// never be balanced: whatever comes before or after, the scan fails.
pub proof fn lemma_mismatch_fails(s: Seq<char>, i: int)
    requires
        0 <= i,
        i + 1 < s.len(),
        is_opener(s[i]),
        is_closer(s[i + 1]),
        !same_kind(s[i], s[i + 1]),
    ensures
        scan(s) is None,
{
    let t = s.take(i + 1);
    assert(t.drop_last() =~= s.take(i));
    assert(s.take(i + 2).drop_last() =~= t);
    if scan(t) is None {
        lemma_scan_fails_after(s, i + 1);
    } else {
        let st = scan(t)->0;
        assert(st.last() == s[i]);
        assert(scan(s.take(i + 2)) is None);
        lemma_scan_fails_after(s, i + 2);
    }
}

/// The stack after reading `s` from a stack that already holds `start`.
pub open spec fn scan_from(start: Seq<char>, s: Seq<char>) -> Option<Seq<char>>
    decreases s.len(),
{
    if s.len() == 0 {
        Some(start)
    } else {
        match scan_from(start, s.drop_last()) {
            None => None,
            Some(stack) => step(stack, s.last()),
        }
    }
}

/// `s` is balanced: every delimiter is closed in order and nothing stays open.
pub open spec fn balanced(s: Seq<char>) -> bool {
    scan(s) == Some(Seq::<char>::empty())
}

proof fn lemma_scan_is_from_empty(s: Seq<char>)
    ensures
        scan(s) == scan_from(Seq::empty(), s),
    decreases s.len(),
{
    if s.len() > 0 {
        lemma_scan_is_from_empty(s.drop_last());
    }
}

/// Reading `a` then `b` is reading `a + b`.
proof fn lemma_scan_concat(start: Seq<char>, a: Seq<char>, b: Seq<char>)
    ensures
        scan_from(start, a + b) == match scan_from(start, a) {
            None => None,
            Some(mid) => scan_from(mid, b),
        },
    decreases b.len(),
{
    if b.len() == 0 {
        assert(a + b =~= a);
    } else {
        assert((a + b).drop_last() =~= a + b.drop_last());
        assert((a + b).last() == b.last());
        lemma_scan_concat(start, a, b.drop_last());
        if scan_from(start, a) is None {
            lemma_scan_none_stays(start, a, b);
        }
    }
}

proof fn lemma_scan_none_stays(start: Seq<char>, a: Seq<char>, b: Seq<char>)
    requires
        scan_from(start, a) is None,
    ensures
        scan_from(start, a + b) is None,
    decreases b.len(),
{
    if b.len() == 0 {
        assert(a + b =~= a);
    } else {
        assert((a + b).drop_last() =~= a + b.drop_last());
        lemma_scan_none_stays(start, a, b.drop_last());
    }
}

/// Openers already on the stack below do not change how `s` is read.
proof fn lemma_scan_below(below: Seq<char>, start: Seq<char>, s: Seq<char>)
    requires
        scan_from(start, s) is Some,
    ensures
        scan_from(below + start, s) == Some(below + scan_from(start, s)->0),
    decreases s.len(),
{
    if s.len() > 0 {
        lemma_scan_below(below, start, s.drop_last());
        let x = scan_from(start, s.drop_last())->0;
        let c = s.last();
        if is_opener(c) {
            assert((below + x).push(c) =~= below + x.push(c));
        } else {
            assert(x.len() > 0);
            assert((below + x).last() == x.last());
            assert((below + x).drop_last() =~= below + x.drop_last());
        }
    }
}

/// Balanced strings put one after the other are balanced.
pub proof fn lemma_balanced_concat(a: Seq<char>, b: Seq<char>)
    requires
        balanced(a),
        balanced(b),
    ensures
        balanced(a + b),
{
    lemma_scan_is_from_empty(a);
    lemma_scan_is_from_empty(b);
    lemma_scan_is_from_empty(a + b);
    lemma_scan_concat(Seq::empty(), a, b);
}

/// A balanced string wrapped in a pair of one kind (`(`, `)`; `[`, `]`;
/// `{`, `}`) is balanced.
pub proof fn lemma_balanced_wrap(o: char, a: Seq<char>, c: char)
    requires
        balanced(a),
        same_kind(o, c),
    ensures
        balanced(seq![o] + a + seq![c]),
{
    let e = Seq::<char>::empty();
    lemma_scan_is_from_empty(a);
    lemma_scan_is_from_empty(seq![o] + a + seq![c]);
    lemma_scan_concat(e, seq![o] + a, seq![c]);
    lemma_scan_concat(e, seq![o], a);
    assert(seq![o].drop_last() =~= e);
    assert(seq![o].last() == o);
    assert(e.push(o) =~= seq![o]);
    assert(scan_from(e, e) == Some(e));
    assert(scan_from(e, seq![o]) == Some(seq![o]));
    lemma_scan_below(seq![o], e, a);
    assert(seq![o] + e =~= seq![o]);
    assert(seq![c].drop_last() =~= e);
    assert(seq![c].last() == c);
    assert(scan_from(seq![o], e) == Some(seq![o]));
    assert(scan_from(seq![o], seq![c]) == step(seq![o], c));
}

/// Whether every delimiter in `s` is closed in order and nothing stays open.
pub fn is_valid(s: &str) -> (r: bool)
    ensures
        r == (scan(s@) == Some(Seq::<char>::empty())),
        r == balanced(s@),
        forall|i: int|
            0 <= i && i + 1 < s@.len() && is_opener(#[trigger] s@[i]) && is_closer(s@[i + 1]) && !same_kind(
                s@[i],
                s@[i + 1],
            ) ==> !r,
{
    proof {
        assert forall|i: int|
            0 <= i && i + 1 < s@.len() && is_opener(#[trigger] s@[i]) && is_closer(s@[i + 1]) && !same_kind(
                s@[i],
                s@[i + 1],
            ) implies scan(s@) is None by {
            lemma_mismatch_fails(s@, i);
        }
    }
    let chars = chars_of(s);
    let mut stack: Vec<char> = Vec::new();
    let mut i: usize = 0;
    while i < chars.len()
        invariant
            i <= chars@.len(),
            chars@ == s@,
            scan(chars@.take(i as int)) == Some(stack@),
        decreases chars@.len() - i,
    {
        let ch = chars[i];
        assert(chars@.take(i + 1).drop_last() =~= chars@.take(i as int));
        if ch == '(' || ch == '[' || ch == '{' {
            stack.push(ch);
        } else {
            let closes = match opener(ch) {
                Some(o) => match stack.pop() {
                    Some(top) => top == o,
                    None => false,
                },
                None => false,
            };
            if !closes {
                proof {
                    lemma_scan_fails_after(chars@, i + 1);
                }
                return false;
            }
        }
        i = i + 1;
    }
    assert(chars@.take(i as int) =~= chars@);
    proof {
        if stack@.len() == 0 {
            assert(stack@ =~= Seq::<char>::empty());
        }
    }
    stack.len() == 0
}

/// Once the scan fails, it stays failed.
proof fn lemma_scan_fails_after(s: Seq<char>, k: int)
    requires
        0 <= k <= s.len(),
        scan(s.take(k)) is None,
    ensures
        scan(s) is None,
    decreases s.len() - k,
{
    if k < s.len() {
        assert(s.take(k + 1).drop_last() =~= s.take(k));
        lemma_scan_fails_after(s, k + 1);
    } else {
        assert(s.take(k) =~= s);
    }
}

} // verus!
