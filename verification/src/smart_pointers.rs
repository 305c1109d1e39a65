//! A boxed expression tree and a copy-on-write string normalisation.
use vstd::prelude::*;
use vstd::utf8::encode_utf8;

verus! {

/// An arithmetic expression; `Box` gives the recursive type a known size.
#[derive(Debug, PartialEq, Eq)]
pub enum Expr {
    Lit(i64),
    Add(Box<Expr>, Box<Expr>),
}

/// The value of an expression, as a mathematical integer.
pub open spec fn value_of(expr: Expr) -> int
    decreases expr,
{
    match expr {
        Expr::Lit(v) => v as int,
        Expr::Add(l, r) => value_of(*l) + value_of(*r),
    }
}

/// Every sub-expression's value fits in an `i64`.
pub open spec fn fits(expr: Expr) -> bool
    decreases expr,
{
    i64::MIN <= value_of(expr) <= i64::MAX && match expr {
        Expr::Lit(_) => true,
        Expr::Add(l, r) => fits(*l) && fits(*r),
    }
}

/// Evaluates the expression.
pub fn eval(expr: &Expr) -> (r: i64)
    requires
        fits(*expr),
    ensures
        r == value_of(*expr),
    decreases expr,
{
    match expr {
        Expr::Lit(value) => *value,
        Expr::Add(left, right) => eval(left) + eval(right),
    }
}

/// A string that is either borrowed unchanged or newly built.
#[derive(Debug, PartialEq, Eq)]
pub enum Normalized<'a> {
    Borrowed(&'a str),
    Owned(String),
}

impl<'a> Normalized<'a> {
    /// The text, whichever way it is held.
    pub open spec fn text(&self) -> Seq<char> {
        match self {
            Normalized::Borrowed(s) => s@,
            Normalized::Owned(s) => s@,
        }
    }

    pub fn as_str(&self) -> (r: &str)
        ensures
            r@ == self.text(),
    {
        match self {
            Normalized::Borrowed(s) => s,
            Normalized::Owned(s) => s.as_str(),
        }
    }
}

/// What `str::to_uppercase` returns for a string.
pub uninterp spec fn uppercase_of(s: Seq<char>) -> Seq<char>;

/// Trusted: `str::to_uppercase`, the Unicode upper-case mapping of the string;
/// which mapping it applies is left to `uppercase_of`.
#[verifier::external_body]
fn to_uppercase(s: &str) -> (r: String)
    ensures
        r@ == uppercase_of(s@),
{
    s.to_uppercase()
}

/// Some byte of the string is an ASCII lower-case letter.
pub open spec fn has_ascii_lower(bytes: Seq<u8>) -> bool {
    exists|i: int| 0 <= i < bytes.len() && 0x61 <= #[trigger] bytes[i] <= 0x7A
}

/// Upper-cases `input` when asked and it holds an ASCII lower-case letter;
/// otherwise hands the input back without copying.
pub fn normalize(input: &str, uppercase: bool) -> (r: Normalized<'_>)
    ensures
        uppercase && has_ascii_lower(encode_utf8(input@)) ==> (r matches Normalized::Owned(s) && s@
            == uppercase_of(input@)),
        !(uppercase && has_ascii_lower(encode_utf8(input@))) ==> r == Normalized::Borrowed(input),
{
    if uppercase {
        let bytes = input.as_bytes();
        let mut i: usize = 0;
        while i < bytes.len()
            invariant
                uppercase,
                bytes@ == encode_utf8(input@),
                i <= bytes@.len(),
                forall|k: int| 0 <= k < i ==> !(0x61 <= #[trigger] bytes@[k] <= 0x7A),
            decreases bytes@.len() - i,
        {
            if 0x61 <= bytes[i] && bytes[i] <= 0x7A {
                proof {
                    assert(0x61 <= bytes@[i as int] <= 0x7A);
                    assert(has_ascii_lower(bytes@));
                    assert(has_ascii_lower(encode_utf8(input@)));
                }
                return Normalized::Owned(to_uppercase(input));
            }
            i = i + 1;
        }
    }
    Normalized::Borrowed(input)
}

} // verus!
