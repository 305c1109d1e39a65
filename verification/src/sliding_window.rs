//! Longest substring without repeating characters, with a sliding window whose
//! start only moves forward.
use vstd::prelude::*;
use std::collections::HashMap;
use crate::text::chars_of;

verus! {

broadcast use vstd::std_specs::hash::group_hash_axioms, vstd::utf8::char_u32_cast;

/// The characters `s[a..b]` are pairwise different.
pub open spec fn distinct(s: Seq<char>, a: int, b: int) -> bool {
    forall|i: int, j: int| a <= i < j < b ==> s[i] != s[j]
}

/// `[a, b)` is a window of `s` without a repeated character.
pub open spec fn clean_window(s: Seq<char>, a: int, b: int) -> bool {
    0 <= a <= b <= s.len() && distinct(s, a, b)
}

/// The length of the longest substring of `s` with no repeated character.
pub fn length_of_longest_substring(s: &str) -> (r: usize)
    ensures
        exists|a: int, b: int| #[trigger] clean_window(s@, a, b) && b - a == r,
        forall|a: int, b: int| #[trigger] clean_window(s@, a, b) ==> b - a <= r,
{
    let chars = chars_of(s);
    let ghost t = chars@;
    let mut last_seen: HashMap<u32, usize> = HashMap::with_capacity(chars.len());
    let mut start: usize = 0;
    let mut longest: usize = 0;
    let mut end: usize = 0;
    proof {
        assert(clean_window(t, 0, 0));
    }
    while end < chars.len()
        invariant
            t == chars@,
            t == s@,
            start <= end <= t.len(),
            clean_window(t, start as int, end as int),
            forall|a: int| 0 <= a < start ==> !#[trigger] distinct(t, a, end as int),
            forall|k: u32|
                #[trigger] last_seen@.contains_key(k) <==> exists|i: int| 0 <= i < end && t[i] as u32 == k,
            forall|k: u32|
                #[trigger] last_seen@.contains_key(k) ==> last_seen@[k] < end && t[last_seen@[k] as int] as u32 == k
                    && forall|i: int| last_seen@[k] < i < end ==> t[i] as u32 != k,
            exists|a: int, b: int| #[trigger] clean_window(t, a, b) && b - a == longest,
            forall|a: int, b: int| #[trigger] clean_window(t, a, b) && b <= end ==> b - a <= longest,
        decreases t.len() - end,
    {
        let ch = chars[end];
        let code = ch as u32;
        let old_start = start;
        match last_seen.get(&code) {
            Some(previous) => {
                let p = *previous;
                if p + 1 > start {
                    start = p + 1;
                }
                proof {
                    assert(t[p as int] as u32 == code);
                    lemma_same_code(t[p as int], ch);
                }
            },
            None => {},
        }
        proof {
            // The new window holds `ch` once.
            assert forall|i: int| start <= i < end implies t[i] != ch by {
                if t[i] == ch {
                    assert(last_seen@.contains_key(code));
                    if t[i] as u32 == code {}
                }
            }
            assert(distinct(t, start as int, end + 1));
            // No earlier start gives a window without repeats.
            assert forall|a: int| 0 <= a < start implies !#[trigger] distinct(t, a, end + 1) by {
                if a < old_start {
                    assert(!distinct(t, a, end as int));
                } else {
                    let p = last_seen@[code];
                    lemma_same_code(t[p as int], ch);
                    assert(t[end as int] == ch);
                }
            }
        }
        let len = end - start + 1;
        if len > longest {
            longest = len;
        }
        let ghost old_map = last_seen@;
        last_seen.insert(code, end);
        proof {
            assert(clean_window(t, start as int, end + 1));
            assert forall|a: int, b: int| #[trigger] clean_window(t, a, b) && b <= end + 1 implies b - a <= longest by {
                if b == end + 1 {
                    if a < start {
                        assert(!distinct(t, a, end + 1));
                    }
                }
            }
            assert forall|k: u32| #[trigger] last_seen@.contains_key(k) <==> exists|i: int| 0 <= i < end + 1 && t[i] as u32 == k by {
                if k != code {
                    if exists|i: int| 0 <= i < end + 1 && t[i] as u32 == k {
                        let i = choose|i: int| 0 <= i < end + 1 && t[i] as u32 == k;
                        assert(i < end);
                    }
                }
            }
        }
        end = end + 1;
    }
    longest
}

proof fn lemma_same_code(a: char, b: char)
    requires
        a as u32 == b as u32,
    ensures
        a == b,
{
    vstd::utf8::char_u32_cast(a, a as u32);
    vstd::utf8::char_u32_cast(b, b as u32);
}

} // verus!
