//! In-place reversal of an ASCII string, reusing the string's buffer.
use vstd::prelude::*;
use vstd::utf8::{decode_utf8, encode_utf8, encode_utf8_decode_utf8, encode_utf8_valid_utf8,
    is_ascii_chars, is_ascii_chars_encode_utf8, valid_utf8};

verus! {

/// Trusted: `String::into_bytes`, which hands over the string's buffer as its
/// UTF-8 bytes without copying them.
#[verifier::external_body]
fn into_utf8_bytes(s: String) -> (r: Vec<u8>)
    ensures
        r@ == encode_utf8(s@),
{
    s.into_bytes()
}

/// Trusted: `String::from_utf8`, which takes over the buffer when it holds
/// UTF-8 and gives the characters those bytes encode.
#[verifier::external_body]
fn string_from_utf8(bytes: Vec<u8>) -> (r: Option<String>)
    ensures
        r is Some <==> valid_utf8(bytes@),
        r matches Some(s) ==> s@ == decode_utf8(bytes@),
{
    String::from_utf8(bytes).ok()
}

/// Reverses a non-empty ASCII string in place, swapping bytes from both ends.
pub fn reverse_str(s: &mut String)
    requires
        is_ascii_chars(old(s)@),
        old(s)@.len() > 0,
    ensures
        final(s)@ == old(s)@.reverse(),
{
    let ghost chars = s@;
    let mut taken = String::new();
    std::mem::swap(s, &mut taken);
    let mut bytes = into_utf8_bytes(taken);
    let ghost orig = bytes@;
    proof {
        is_ascii_chars_encode_utf8(chars);
    }
    let n = bytes.len();
    let mut start: usize = 0;
    let mut end: usize = n - 1;
    while start < end
        invariant
            n == orig.len(),
            bytes@.len() == n,
            start + end == n - 1,
            start <= end + 1,
            forall|i: int| 0 <= i < start ==> #[trigger] bytes@[i] == orig[n - 1 - i],
            forall|i: int| end < i < n ==> #[trigger] bytes@[i] == orig[n - 1 - i],
            forall|i: int| start <= i <= end ==> #[trigger] bytes@[i] == orig[i],
        decreases n - start,
    {
        let front = bytes[start];
        let back = bytes[end];
        bytes.set(start, back);
        bytes.set(end, front);
        start = start + 1;
        end = end - 1;
    }
    proof {
        let rev = chars.reverse();
        assert(is_ascii_chars(rev)) by {
            assert forall|i: int| 0 <= i < rev.len() implies '\0' <= #[trigger] rev[i] <= '\u{7f}' by {
                assert(rev[i] == chars[chars.len() - 1 - i]);
            }
        }
        is_ascii_chars_encode_utf8(rev);
        assert forall|i: int| 0 <= i < n implies #[trigger] bytes@[i] == encode_utf8(rev)[i] by {
            assert(rev[i] == chars[n - 1 - i]);
            assert(orig[n - 1 - i] == chars[n - 1 - i] as u8);
            if start <= i <= end {
                assert(i == n - 1 - i);
            }
        }
        assert(bytes@ =~= encode_utf8(rev));
        encode_utf8_valid_utf8(rev);
        encode_utf8_decode_utf8(rev);
    }
    *s = string_from_utf8(bytes).unwrap();
}

/// Reversing a string twice gives the string back, so two calls of
/// `reverse_str` restore it.
pub proof fn lemma_reverse_twice(s: Seq<char>)
    ensures
        s.reverse().reverse() == s,
{
    assert(s.reverse().reverse() =~= s);
}

} // verus!
