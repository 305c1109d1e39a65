//! Character-level helpers shared by the parsers.
use vstd::prelude::*;

verus! {

/// The characters of `s`, in order.
pub fn chars_of(s: &str) -> (v: Vec<char>)
    ensures
        v@ == s@,
{
    let mut v: Vec<char> = Vec::new();
    for c in it: s.chars()
        invariant
            v@ == it.seq().take(it.index() as int),
            it.seq() == s@,
    {
        v.push(c);
    }
    v
}

/// Trusted: `String::push` appends one character to the end of the string.
#[verifier::external_body]
fn push_char(s: &mut String, c: char)
    ensures
        final(s)@ == old(s)@.push(c),
{
    s.push(c);
}

/// A `String` holding exactly the characters `v[from..to]`.
pub fn string_from(v: &[char], from: usize, to: usize) -> (s: String)
    requires
        from <= to <= v@.len(),
    ensures
        s@ == v@.subrange(from as int, to as int),
{
    let mut s = String::new();
    let mut i = from;
    while i < to
        invariant
            from <= i <= to <= v@.len(),
            s@ == v@.subrange(from as int, i as int),
        decreases to - i,
    {
        push_char(&mut s, v[i]);
        assert(v@.subrange(from as int, i + 1) == v@.subrange(from as int, i as int).push(v@[i as int]));
        i = i + 1;
    }
    s
}

/// Unicode `White_Space`, the property behind `char::is_whitespace`.
pub open spec fn is_ws(c: char) -> bool {
    let u = c as u32;
    ||| (0x09 <= u <= 0x0D)
    ||| u == 0x20
    ||| u == 0x85
    ||| u == 0xA0
    ||| u == 0x1680
    ||| (0x2000 <= u <= 0x200A)
    ||| u == 0x2028
    ||| u == 0x2029
    ||| u == 0x202F
    ||| u == 0x205F
    ||| u == 0x3000
}

/// Whether `c` is Unicode white space.
pub fn is_whitespace(c: char) -> (b: bool)
    ensures
        b == is_ws(c),
{
    let u = c as u32;
    (0x09 <= u && u <= 0x0D) || u == 0x20 || u == 0x85 || u == 0xA0 || u == 0x1680 || (0x2000
        <= u && u <= 0x200A) || u == 0x2028 || u == 0x2029 || u == 0x202F || u == 0x205F || u
        == 0x3000
}

/// Index of the first character at or after `i` that is not white space.
pub open spec fn skip_ws(s: Seq<char>, i: int) -> int
    decreases s.len() - i,
{
    if i >= s.len() {
        s.len() as int
    } else if is_ws(s[i]) {
        skip_ws(s, i + 1)
    } else {
        i
    }
}

/// One past the last character before `j` that is not white space (0 if none).
pub open spec fn back_ws(s: Seq<char>, j: int) -> int
    decreases j,
{
    if j <= 0 {
        0
    } else if is_ws(s[j - 1]) {
        back_ws(s, j - 1)
    } else {
        j
    }
}

/// `s` with leading and trailing white space removed (`str::trim`).
pub open spec fn trim(s: Seq<char>) -> Seq<char> {
    let lo = skip_ws(s, 0);
    let hi = back_ws(s, s.len() as int);
    if lo < hi {
        s.subrange(lo, hi)
    } else {
        Seq::empty()
    }
}

/// The bounds `(lo, hi)` of `trim(v[from..to])`, as indices into `v`.
pub fn trim_bounds(v: &[char], from: usize, to: usize) -> (r: (usize, usize))
    requires
        from <= to <= v@.len(),
    ensures
        from <= r.0 <= r.1 <= to,
        v@.subrange(r.0 as int, r.1 as int) == trim(v@.subrange(from as int, to as int)),
{
    let ghost s = v@.subrange(from as int, to as int);
    let mut lo = from;
    while lo < to && is_whitespace(v[lo])
        invariant
            from <= lo <= to <= v@.len(),
            s == v@.subrange(from as int, to as int),
            skip_ws(s, (lo - from) as int) == skip_ws(s, 0),
        decreases to - lo,
    {
        lo = lo + 1;
    }
    let mut hi = to;
    while hi > lo && is_whitespace(v[hi - 1])
        invariant
            from <= lo <= hi <= to <= v@.len(),
            s == v@.subrange(from as int, to as int),
            back_ws(s, (hi - from) as int) == back_ws(s, s.len() as int),
            forall|k: int| (lo - from) <= k < s.len() && !is_ws(s[k]) ==> k < hi - from,
        decreases hi - lo,
    {
        hi = hi - 1;
    }
    proof {
        assert(skip_ws(s, (lo - from) as int) == (lo - from) as int);
        if lo < hi {
            assert(back_ws(s, (hi - from) as int) == (hi - from) as int);
        } else {
            lemma_back_ws_below(s, s.len() as int, (lo - from) as int);
        }
        assert(v@.subrange(lo as int, hi as int) =~= trim(s).subrange(0, trim(s).len() as int)
            || lo == hi);
    }
    (lo, hi)
}

proof fn lemma_back_ws_below(s: Seq<char>, j: int, lo: int)
    requires
        0 <= lo,
        j <= s.len(),
        forall|k: int| lo <= k < j ==> is_ws(s[k]),
    ensures
        back_ws(s, j) <= lo,
    decreases j,
{
    if j > lo {
        lemma_back_ws_below(s, j - 1, lo);
    } else {
        lemma_back_ws_le(s, j);
    }
}

proof fn lemma_back_ws_le(s: Seq<char>, j: int)
    ensures
        back_ws(s, j) <= if j < 0 { 0 } else { j },
    decreases j,
{
    if j > 0 {
        lemma_back_ws_le(s, j - 1);
    }
}

/// Whether `v[from..to]` spells exactly `lit`.
pub fn matches_lit(v: &[char], from: usize, to: usize, lit: &str) -> (b: bool)
    requires
        from <= to <= v@.len(),
    ensures
        b == (v@.subrange(from as int, to as int) == lit@),
{
    let n = lit.unicode_len();
    if to - from != n {
        return false;
    }
    let mut i: usize = 0;
    while i < n
        invariant
            from <= to <= v@.len(),
            to - from == n == lit@.len(),
            0 <= i <= n,
            forall|k: int| 0 <= k < i ==> v@[from + k] == lit@[k],
        decreases n - i,
    {
        if v[from + i] != lit.get_char(i) {
            assert(v@.subrange(from as int, to as int)[i as int] != lit@[i as int]);
            return false;
        }
        i = i + 1;
    }
    assert(v@.subrange(from as int, to as int) =~= lit@);
    true
}

/// One past the end of the word that starts at `i` (the first white space at or
/// after `i`, or `s.len()`).
pub open spec fn word_end(s: Seq<char>, i: int) -> int
    decreases s.len() - i,
{
    if i >= s.len() {
        s.len() as int
    } else if is_ws(s[i]) {
        i
    } else {
        word_end(s, i + 1)
    }
}

/// The bounds of the next white-space separated word at or after `i`
/// (`str::split_whitespace`), or `None` when only white space is left.
pub open spec fn next_word(s: Seq<char>, i: int) -> Option<(int, int)> {
    let a = skip_ws(s, i);
    if a >= s.len() {
        None
    } else {
        Some((a, word_end(s, a)))
    }
}

pub proof fn lemma_skip_ws_bounds(s: Seq<char>, i: int)
    requires
        0 <= i,
    ensures
        i <= skip_ws(s, i) || i > s.len(),
        skip_ws(s, i) <= s.len(),
        skip_ws(s, i) < s.len() ==> !is_ws(s[skip_ws(s, i)]),
    decreases s.len() - i,
{
    if i < s.len() && is_ws(s[i]) {
        lemma_skip_ws_bounds(s, i + 1);
    }
}

pub proof fn lemma_word_end_bounds(s: Seq<char>, i: int)
    requires
        0 <= i <= s.len(),
    ensures
        i <= word_end(s, i) <= s.len(),
        i < s.len() && !is_ws(s[i]) ==> i < word_end(s, i),
    decreases s.len() - i,
{
    if i < s.len() && !is_ws(s[i]) {
        lemma_word_end_bounds(s, i + 1);
    }
}

/// The next white-space separated word of `v` at or after `i`.
pub fn next_word_exec(v: &[char], i: usize) -> (r: Option<(usize, usize)>)
    requires
        i <= v@.len(),
    ensures
        match r {
            None => next_word(v@, i as int) is None,
            Some((a, b)) => next_word(v@, i as int) == Some((a as int, b as int)) && i <= a < b
                <= v@.len(),
        },
{
    let mut a = i;
    while a < v.len() && is_whitespace(v[a])
        invariant
            i <= a <= v@.len(),
            skip_ws(v@, a as int) == skip_ws(v@, i as int),
        decreases v@.len() - a,
    {
        a = a + 1;
    }
    if a >= v.len() {
        return None;
    }
    let mut b = a;
    while b < v.len() && !is_whitespace(v[b])
        invariant
            a <= b <= v@.len(),
            a < v@.len(),
            !is_ws(v@[a as int]),
            word_end(v@, b as int) == word_end(v@, a as int),
        decreases v@.len() - b,
    {
        b = b + 1;
    }
    proof {
        lemma_word_end_bounds(v@, a as int);
    }
    Some((a, b))
}

/// The value of `c` as a digit in base `radix` (at most 16), if it is one
/// (`char::to_digit`).
pub open spec fn digit_in(c: char, radix: nat) -> Option<nat> {
    let u = c as u32;
    let d: int = if 0x30 <= u <= 0x39 {
        u - 0x30
    } else if 0x61 <= u <= 0x7A {
        u - 0x61 + 10
    } else if 0x41 <= u <= 0x5A {
        u - 0x41 + 10
    } else {
        -1
    };
    if 0 <= d < radix {
        Some(d as nat)
    } else {
        None
    }
}

pub open spec fn all_digits_in(s: Seq<char>, radix: nat) -> bool {
    forall|i: int| 0 <= i < s.len() ==> (#[trigger] digit_in(s[i], radix)) is Some
}

/// The value of a string of digits in base `radix`.
pub open spec fn radix_value(s: Seq<char>, radix: nat) -> nat
    decreases s.len(),
{
    if s.len() == 0 {
        0
    } else {
        radix_value(s.drop_last(), radix) * radix + digit_in(s.last(), radix).unwrap()
    }
}

/// What `from_str_radix` accepts, before the range check: an optional `+` and
/// then at least one digit of the base.
pub open spec fn parse_radix(s: Seq<char>, radix: nat) -> Option<nat> {
    let d = if s.len() > 0 && s[0] == '+' {
        s.drop_first()
    } else {
        s
    };
    if d.len() == 0 || !all_digits_in(d, radix) {
        None
    } else {
        Some(radix_value(d, radix))
    }
}

/// `parse_radix` with the range check of an unsigned type whose largest value
/// is `max`.
pub open spec fn parse_bounded(s: Seq<char>, radix: nat, max: nat) -> Option<nat> {
    match parse_radix(s, radix) {
        Some(n) if n <= max => Some(n),
        _ => None,
    }
}

/// What `str::parse::<u32>` accepts.
pub open spec fn parse_u32(s: Seq<char>) -> Option<u32> {
    match parse_bounded(s, 10, u32::MAX as nat) {
        Some(n) => Some(n as u32),
        None => None,
    }
}

/// Parse `v[from..to]` in base `radix` (10 or 16) as an unsigned number no
/// larger than `max`, the way `from_str_radix` does for an unsigned type.
pub fn parse_radix_exec(v: &[char], from: usize, to: usize, radix: u32, max: u64) -> (r: Option<
    u64,
>)
    requires
        from <= to <= v@.len(),
        radix == 10 || radix == 16,
    ensures
        match r {
            Some(n) => parse_bounded(v@.subrange(from as int, to as int), radix as nat, max as nat)
                == Some(n as nat),
            None => parse_bounded(v@.subrange(from as int, to as int), radix as nat, max as nat)
                is None,
        },
{
    let ghost s = v@.subrange(from as int, to as int);
    let ghost rd = radix as nat;
    let mut start = from;
    if from < to && v[from] == '+' {
        start = from + 1;
    }
    let ghost d = v@.subrange(start as int, to as int);
    assert(d == (if s.len() > 0 && s[0] == '+' { s.drop_first() } else { s }));
    if start == to {
        return None;
    }
    let cap: u128 = max as u128 + 1;
    let mut acc: u128 = 0;
    let mut i = start;
    while i < to
        invariant
            from <= start <= i <= to <= v@.len(),
            d == v@.subrange(start as int, to as int),
            s == v@.subrange(from as int, to as int),
            d == (if s.len() > 0 && s[0] == '+' { s.drop_first() } else { s }),
            d.len() > 0,
            rd == radix as nat,
            radix == 10 || radix == 16,
            all_digits_in(v@.subrange(start as int, i as int), rd),
            cap == max as u128 + 1,
            acc == if radix_value(v@.subrange(start as int, i as int), rd) >= cap {
                cap as nat
            } else {
                radix_value(v@.subrange(start as int, i as int), rd)
            },
        decreases to - i,
    {
        let c = v[i];
        let u = c as u32;
        let digit: u32 = if 0x30 <= u && u <= 0x39 {
            u - 0x30
        } else if 0x61 <= u && u <= 0x7A {
            u - 0x61 + 10
        } else if 0x41 <= u && u <= 0x5A {
            u - 0x41 + 10
        } else {
            99
        };
        if digit >= radix {
            assert(d[(i - start) as int] == c);
            assert(digit_in(d[(i - start) as int], rd) is None);
            assert(!all_digits_in(d, rd));
            return None;
        }
        let ghost prev = v@.subrange(start as int, i as int);
        let ghost next = v@.subrange(start as int, i + 1);
        assert(next.drop_last() =~= prev);
        assert(next.last() == c);
        assert(digit_in(c, rd) == Some(digit as nat));
        if acc >= cap {
            acc = cap;
        } else {
            assert(acc * (radix as u128) <= 0x10_0000_0000_0000_0000) by (nonlinear_arith)
                requires
                    acc < 0x1_0000_0000_0000_0000u128,
                    radix <= 16,
            ;
            acc = acc * (radix as u128) + digit as u128;
            if acc > cap {
                acc = cap;
            }
        }
        proof {
            let pv = radix_value(prev, rd);
            let nv = radix_value(next, rd);
            assert(nv == pv * rd + digit);
            if pv >= cap {
                assert(pv * rd >= pv) by (nonlinear_arith)
                    requires rd >= 1;
            }
        }
        assert(all_digits_in(next, rd)) by {
            assert forall|k: int| 0 <= k < next.len() implies (#[trigger] digit_in(next[k], rd)) is Some by {
                if k < prev.len() {
                    assert(next[k] == prev[k]);
                }
            }
        }
        i = i + 1;
    }
    assert(v@.subrange(start as int, to as int) =~= d);
    if acc > max as u128 {
        None
    } else {
        Some(acc as u64)
    }
}

/// Parse `v[from..to]` as a `u32` the way `str::parse::<u32>` does.
pub fn parse_u32_exec(v: &[char], from: usize, to: usize) -> (r: Option<u32>)
    requires
        from <= to <= v@.len(),
    ensures
        r == parse_u32(v@.subrange(from as int, to as int)),
{
    match parse_radix_exec(v, from, to, 10, 0xFFFF_FFFF) {
        Some(n) => Some(n as u32),
        None => None,
    }
}

/// The decimal digits of `n`, most significant first, with no leading zeros
/// (`"0"` for zero).
pub open spec fn decimal(n: nat) -> Seq<char>
    decreases n,
{
    if n < 10 {
        seq![digit_char(n)]
    } else {
        decimal(n / 10).push(digit_char(n % 10))
    }
}

pub open spec fn digit_char(d: nat) -> char {
    (('0' as u32) + d) as char
}

/// `n` written in decimal.
pub fn decimal_string(n: u128) -> (s: String)
    ensures
        s@ == decimal(n as nat),
{
    let mut digits: Vec<char> = Vec::new();
    let mut m = n;
    // Digits are produced least significant first.
    while m >= 10
        invariant
            decimal(n as nat) == decimal(m as nat) + digits@.reverse(),
        decreases m,
    {
        let d = (m % 10) as u32;
        let c = char_of_digit(d);
        proof {
            assert(decimal(m as nat) == decimal((m / 10) as nat).push(digit_char((m % 10) as nat)));
            assert(digits@.push(c).reverse() =~= seq![c] + digits@.reverse());
            assert(decimal(m as nat) + digits@.reverse() =~= decimal((m / 10) as nat) + digits@.push(c).reverse());
        }
        digits.push(c);
        m = m / 10;
    }
    let c = char_of_digit(m as u32);
    proof {
        assert(digits@.push(c).reverse() =~= seq![c] + digits@.reverse());
    }
    digits.push(c);
    let mut rev: Vec<char> = Vec::new();
    let mut i = digits.len();
    while i > 0
        invariant
            i <= digits@.len(),
            rev@ == digits@.reverse().take((digits@.len() - i) as int),
        decreases i,
    {
        i = i - 1;
        proof {
            assert(digits@.reverse().take((digits@.len() - i) as int) =~= digits@.reverse().take((digits@.len() - i - 1) as int).push(digits@[i as int]));
        }
        rev.push(digits[i]);
    }
    assert(rev@ =~= decimal(n as nat));
    string_from(&rev, 0, rev.len())
}

fn char_of_digit(d: u32) -> (c: char)
    requires
        d < 10,
    ensures
        c == digit_char(d as nat),
{
    if d == 0 { '0' }
    else if d == 1 { '1' }
    else if d == 2 { '2' }
    else if d == 3 { '3' }
    else if d == 4 { '4' }
    else if d == 5 { '5' }
    else if d == 6 { '6' }
    else if d == 7 { '7' }
    else if d == 8 { '8' }
    else { '9' }
}

/// `c` with ASCII upper case letters mapped to lower case.
pub open spec fn ascii_lower(c: char) -> char {
    if 'A' <= c <= 'Z' {
        ((c as u32) + 32) as char
    } else {
        c
    }
}

/// ASCII case-insensitive equality (`str::eq_ignore_ascii_case`).
pub open spec fn eq_ignore_case(a: Seq<char>, b: Seq<char>) -> bool {
    a.len() == b.len() && forall|i: int| 0 <= i < a.len() ==> ascii_lower(a[i]) == ascii_lower(
        b[i],
    )
}

pub fn to_ascii_lower(c: char) -> (r: char)
    ensures
        r == ascii_lower(c),
{
    if 'A' <= c && c <= 'Z' {
        let u = c as u32 + 32;
        char_from_ascii(u)
    } else {
        c
    }
}

fn char_from_ascii(u: u32) -> (c: char)
    requires
        0x61 <= u <= 0x7A,
    ensures
        c == u as char,
{
    if u == 0x61 { 'a' } else if u == 0x62 { 'b' } else if u == 0x63 { 'c' }
    else if u == 0x64 { 'd' } else if u == 0x65 { 'e' } else if u == 0x66 { 'f' }
    else if u == 0x67 { 'g' } else if u == 0x68 { 'h' } else if u == 0x69 { 'i' }
    else if u == 0x6A { 'j' } else if u == 0x6B { 'k' } else if u == 0x6C { 'l' }
    else if u == 0x6D { 'm' } else if u == 0x6E { 'n' } else if u == 0x6F { 'o' }
    else if u == 0x70 { 'p' } else if u == 0x71 { 'q' } else if u == 0x72 { 'r' }
    else if u == 0x73 { 's' } else if u == 0x74 { 't' } else if u == 0x75 { 'u' }
    else if u == 0x76 { 'v' } else if u == 0x77 { 'w' } else if u == 0x78 { 'x' }
    else if u == 0x79 { 'y' } else { 'z' }
}

/// Whether `a[af..at]` equals `b` ignoring ASCII case.
pub fn eq_ignore_case_exec(a: &[char], af: usize, at: usize, b: &[char]) -> (r: bool)
    requires
        af <= at <= a@.len(),
    ensures
        r == eq_ignore_case(a@.subrange(af as int, at as int), b@),
{
    if at - af != b.len() {
        return false;
    }
    let mut i: usize = 0;
    while i < b.len()
        invariant
            af <= at <= a@.len(),
            at - af == b@.len(),
            i <= b@.len(),
            forall|k: int| 0 <= k < i ==> ascii_lower(a@[af + k]) == ascii_lower(b@[k]),
        decreases b@.len() - i,
    {
        if to_ascii_lower(a[af + i]) != to_ascii_lower(b[i]) {
            assert(ascii_lower(a@.subrange(af as int, at as int)[i as int]) != ascii_lower(b@[i as int]));
            return false;
        }
        i = i + 1;
    }
    true
}

/// First index at or after `i` holding `sep`, or `s.len()`.
pub open spec fn next_sep<A>(s: Seq<A>, sep: A, i: int) -> int
    decreases s.len() - i,
{
    if i >= s.len() {
        s.len() as int
    } else if s[i] == sep {
        i
    } else {
        next_sep(s, sep, i + 1)
    }
}

pub proof fn lemma_next_sep<A>(s: Seq<A>, sep: A, i: int)
    requires
        0 <= i <= s.len(),
    ensures
        i <= next_sep(s, sep, i) <= s.len(),
        next_sep(s, sep, i) < s.len() ==> s[next_sep(s, sep, i)] == sep,
        forall|k: int| i <= k < next_sep(s, sep, i) ==> s[k] != sep,
    decreases s.len() - i,
{
    if i < s.len() && s[i] != sep {
        lemma_next_sep(s, sep, i + 1);
    }
}

/// The pieces of `s[start..]` between occurrences of `sep` (`split(sep)`):
/// always at least one piece.
pub open spec fn split_from<A>(s: Seq<A>, sep: A, start: int) -> Seq<Seq<A>>
    decreases s.len() - start,
{
    if start < 0 || start > s.len() {
        Seq::empty()
    } else {
        let e = next_sep(s, sep, start);
        if e >= s.len() || e < start {
            seq![s.subrange(start, s.len() as int)]
        } else {
            seq![s.subrange(start, e)] + split_from(s, sep, e + 1)
        }
    }
}

/// `s` split at every `sep`.
pub open spec fn split<A>(s: Seq<A>, sep: A) -> Seq<Seq<A>> {
    split_from(s, sep, 0)
}

/// The bounds of the pieces of `v` between occurrences of `sep`.
pub fn split_chars(v: &[char], sep: char) -> (r: Vec<(usize, usize)>)
    ensures
        r@.len() == split(v@, sep).len(),
        forall|k: int| 0 <= k < r@.len() ==> (#[trigger] r@[k]).0 <= r@[k].1 <= v@.len(),
        forall|k: int|
            0 <= k < r@.len() ==> v@.subrange(r@[k].0 as int, r@[k].1 as int) == #[trigger] split(
                v@,
                sep,
            )[k],
{
    let mut r: Vec<(usize, usize)> = Vec::new();
    let mut start: usize = 0;
    loop
        invariant
            start <= v@.len(),
            split(v@, sep) == r@.map_values(
                |b: (usize, usize)| v@.subrange(b.0 as int, b.1 as int),
            ) + split_from(v@, sep, start as int),
            forall|k: int| 0 <= k < r@.len() ==> (#[trigger] r@[k]).0 <= r@[k].1 <= v@.len(),
        decreases v@.len() - start,
    {
        let mut e = start;
        while e < v.len() && v[e] != sep
            invariant
                start <= e <= v@.len(),
                next_sep(v@, sep, e as int) == next_sep(v@, sep, start as int),
            decreases v@.len() - e,
        {
            e = e + 1;
        }
        proof {
            lemma_next_sep(v@, sep, start as int);
        }
        let ghost old_r = r@;
        r.push((start, e));
        assert(r@.map_values(|b: (usize, usize)| v@.subrange(b.0 as int, b.1 as int)) =~= old_r.map_values(
            |b: (usize, usize)| v@.subrange(b.0 as int, b.1 as int),
        ).push(v@.subrange(start as int, e as int)));
        if e >= v.len() {
            assert(split(v@, sep) =~= r@.map_values(
                |b: (usize, usize)| v@.subrange(b.0 as int, b.1 as int),
            ));
            return r;
        }
        assert(split(v@, sep) =~= r@.map_values(
            |b: (usize, usize)| v@.subrange(b.0 as int, b.1 as int),
        ) + split_from(v@, sep, e + 1));
        start = e + 1;
    }
}

/// The bounds of the pieces of `v` between occurrences of `sep`.
pub fn split_bytes(v: &[u8], sep: u8) -> (r: Vec<(usize, usize)>)
    ensures
        r@.len() == split(v@, sep).len(),
        forall|k: int| 0 <= k < r@.len() ==> (#[trigger] r@[k]).0 <= r@[k].1 <= v@.len(),
        forall|k: int|
            0 <= k < r@.len() ==> v@.subrange(r@[k].0 as int, r@[k].1 as int) == #[trigger] split(
                v@,
                sep,
            )[k],
{
    let mut r: Vec<(usize, usize)> = Vec::new();
    let mut start: usize = 0;
    loop
        invariant
            start <= v@.len(),
            split(v@, sep) == r@.map_values(
                |b: (usize, usize)| v@.subrange(b.0 as int, b.1 as int),
            ) + split_from(v@, sep, start as int),
            forall|k: int| 0 <= k < r@.len() ==> (#[trigger] r@[k]).0 <= r@[k].1 <= v@.len(),
        decreases v@.len() - start,
    {
        let mut e = start;
        while e < v.len() && v[e] != sep
            invariant
                start <= e <= v@.len(),
                next_sep(v@, sep, e as int) == next_sep(v@, sep, start as int),
            decreases v@.len() - e,
        {
            e = e + 1;
        }
        proof {
            lemma_next_sep(v@, sep, start as int);
        }
        let ghost old_r = r@;
        r.push((start, e));
        assert(r@.map_values(|b: (usize, usize)| v@.subrange(b.0 as int, b.1 as int)) =~= old_r.map_values(
            |b: (usize, usize)| v@.subrange(b.0 as int, b.1 as int),
        ).push(v@.subrange(start as int, e as int)));
        if e >= v.len() {
            assert(split(v@, sep) =~= r@.map_values(
                |b: (usize, usize)| v@.subrange(b.0 as int, b.1 as int),
            ));
            return r;
        }
        assert(split(v@, sep) =~= r@.map_values(
            |b: (usize, usize)| v@.subrange(b.0 as int, b.1 as int),
        ) + split_from(v@, sep, e + 1));
        start = e + 1;
    }
}

pub proof fn lemma_split_nonempty<A>(s: Seq<A>, sep: A)
    ensures
        split(s, sep).len() >= 1,
        split(s, sep)[0] == s.subrange(0, next_sep(s, sep, 0)),
{
    lemma_next_sep(s, sep, 0);
}

/// The characters `v[from..to]` as a new vector.
pub fn chars_range(v: &[char], from: usize, to: usize) -> (r: Vec<char>)
    requires
        from <= to <= v@.len(),
    ensures
        r@ == v@.subrange(from as int, to as int),
{
    let mut r: Vec<char> = Vec::new();
    let mut i = from;
    while i < to
        invariant
            from <= i <= to <= v@.len(),
            r@ == v@.subrange(from as int, i as int),
        decreases to - i,
    {
        r.push(v[i]);
        assert(v@.subrange(from as int, i + 1) =~= v@.subrange(from as int, i as int).push(v@[i as int]));
        i = i + 1;
    }
    r
}

/// `v[from..to]` with ASCII upper case letters mapped to lower case
/// (`str::to_ascii_lowercase`).
pub fn lowercase_string(v: &[char], from: usize, to: usize) -> (s: String)
    requires
        from <= to <= v@.len(),
    ensures
        s@ == v@.subrange(from as int, to as int).map_values(|c: char| ascii_lower(c)),
{
    let mut s = String::new();
    let mut i = from;
    while i < to
        invariant
            from <= i <= to <= v@.len(),
            s@ == v@.subrange(from as int, i as int).map_values(|c: char| ascii_lower(c)),
        decreases to - i,
    {
        push_char(&mut s, to_ascii_lower(v[i]));
        assert(v@.subrange(from as int, i + 1).map_values(|c: char| ascii_lower(c)) =~= v@.subrange(
            from as int,
            i as int,
        ).map_values(|c: char| ascii_lower(c)).push(ascii_lower(v@[i as int])));
        i = i + 1;
    }
    s
}

} // verus!
