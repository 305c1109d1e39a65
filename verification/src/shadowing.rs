//! Shadowing a binding with new types, and mutating a `mut` binding.
use vstd::prelude::*;
use vstd::utf8::encode_utf8;
use crate::text::{decimal, decimal_string};

verus! {

/// A log of one value seen as an integer, then as its decimal string, then as
/// that string's length in bytes.
pub fn demonstrate_shadowing() -> (log: String)
    ensures
        log@ == "integer: "@ + decimal(7) + "\nstring: "@ + decimal(7) + "\nusize: "@ + decimal(
            encode_utf8(decimal(7)).len(),
        ),
{
    let value: u32 = 7;
    let mut log = String::from_str("integer: ");
    let text = decimal_string(value as u128);
    log.append(text.as_str());
    let value = text;
    log.append("\nstring: ");
    log.append(value.as_str());
    proof {
        assert(decimal(7).len() == 1);
        let c = decimal(7)[0];
        assert(decimal(7).drop_first() =~= Seq::<char>::empty());
        assert(encode_utf8(Seq::<char>::empty()) =~= Seq::<u8>::empty());
        assert(encode_utf8(decimal(7)) == vstd::utf8::encode_scalar(c as u32) + encode_utf8(decimal(7).drop_first()));
        assert(encode_utf8(decimal(7)) =~= vstd::utf8::encode_scalar(c as u32));
        assert(encode_utf8(decimal(7)).len() == 1);
    }
    let value = value.as_str().len();
    log.append("\nusize: ");
    let n = decimal_string(value as u128);
    log.append(n.as_str());
    log
}

/// `"mut count:"` followed by ` 1`, ` 2`, ... up to `n`.
pub open spec fn count_log(n: nat) -> Seq<char>
    decreases n,
{
    if n == 0 {
        "mut count:"@
    } else {
        count_log((n - 1) as nat) + " "@ + decimal(n)
    }
}

/// A log of a counter incremented three times.
pub fn demonstrate_mutation() -> (log: String)
    ensures
        log@ == count_log(3),
{
    let mut count: u32 = 0;
    let mut log = String::from_str("mut count:");
    let mut i: u32 = 0;
    while i < 3
        invariant
            i <= 3,
            count == i,
            log@ == count_log(count as nat),
        decreases 3 - i,
    {
        count = count + 1;
        log.append(" ");
        let d = decimal_string(count as u128);
        log.append(d.as_str());
        i = i + 1;
    }
    log
}

} // verus!
