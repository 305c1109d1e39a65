//! HTTP/1.1 request parsing: request line, headers, and body framing.
//!
//! `Content-Length` together with `Transfer-Encoding` is rejected as ambiguous,
//! as are obsolete line folding and a missing `Host`. Header and body sizes are
//! bounded by `Limits`.
use vstd::prelude::*;
use vstd::utf8::{decode_utf8, valid_utf8};
use crate::text::{
    chars_of, chars_range, eq_ignore_case, next_sep, lemma_next_sep, lemma_split_nonempty, eq_ignore_case_exec, matches_lit, parse_bounded, parse_radix_exec,
    split, split_bytes, split_chars, string_from, trim, trim_bounds,
};

verus! {

#[derive(Debug, Clone, Copy, PartialEq, Eq, Hash, Structural)]
pub enum Method {
    Get,
    Head,
    Post,
    Put,
    Patch,
    Delete,
    Options,
}

/// The method a request-line token names.
pub open spec fn method_of(s: Seq<char>) -> Option<Method> {
    if s == "GET"@ {
        Some(Method::Get)
    } else if s == "HEAD"@ {
        Some(Method::Head)
    } else if s == "POST"@ {
        Some(Method::Post)
    } else if s == "PUT"@ {
        Some(Method::Put)
    } else if s == "PATCH"@ {
        Some(Method::Patch)
    } else if s == "DELETE"@ {
        Some(Method::Delete)
    } else if s == "OPTIONS"@ {
        Some(Method::Options)
    } else {
        None
    }
}

/// Each of the seven method names of a request line stands for its own
/// method, and the names are case-sensitive: `get` names no method.
pub proof fn lemma_method_names()
    ensures
        method_of("GET"@) == Some(Method::Get),
        method_of("HEAD"@) == Some(Method::Head),
        method_of("POST"@) == Some(Method::Post),
        method_of("PUT"@) == Some(Method::Put),
        method_of("PATCH"@) == Some(Method::Patch),
        method_of("DELETE"@) == Some(Method::Delete),
        method_of("OPTIONS"@) == Some(Method::Options),
        method_of("get"@) is None,
        method_of(Seq::empty()) is None,
{
    reveal_strlit("GET");
    reveal_strlit("HEAD");
    reveal_strlit("POST");
    reveal_strlit("PUT");
    reveal_strlit("PATCH");
    reveal_strlit("DELETE");
    reveal_strlit("OPTIONS");
    reveal_strlit("get");
    assert("GET"@.len() != "HEAD"@.len());
    assert("GET"@.len() != "POST"@.len());
    assert("GET"@[0] != "PUT"@[0]);
    assert("GET"@.len() != "PATCH"@.len());
    assert("GET"@.len() != "DELETE"@.len());
    assert("GET"@.len() != "OPTIONS"@.len());
    assert("HEAD"@[0] != "POST"@[0]);
    assert("HEAD"@.len() != "PUT"@.len());
    assert("HEAD"@.len() != "PATCH"@.len());
    assert("HEAD"@.len() != "DELETE"@.len());
    assert("HEAD"@.len() != "OPTIONS"@.len());
    assert("POST"@.len() != "PUT"@.len());
    assert("POST"@.len() != "PATCH"@.len());
    assert("POST"@.len() != "DELETE"@.len());
    assert("POST"@.len() != "OPTIONS"@.len());
    assert("PUT"@.len() != "PATCH"@.len());
    assert("PUT"@.len() != "DELETE"@.len());
    assert("PUT"@.len() != "OPTIONS"@.len());
    assert("PATCH"@.len() != "DELETE"@.len());
    assert("PATCH"@.len() != "OPTIONS"@.len());
    assert("DELETE"@.len() != "OPTIONS"@.len());
    assert("get"@[0] != "GET"@[0]);
}

impl Method {
    pub fn parse(token: &str) -> (r: Option<Self>)
        ensures
            r == method_of(token@),
            token@ == "GET"@ ==> r == Some(Method::Get),
            token@ == "HEAD"@ ==> r == Some(Method::Head),
            token@ == "POST"@ ==> r == Some(Method::Post),
            token@ == "PUT"@ ==> r == Some(Method::Put),
            token@ == "PATCH"@ ==> r == Some(Method::Patch),
            token@ == "DELETE"@ ==> r == Some(Method::Delete),
            token@ == "OPTIONS"@ ==> r == Some(Method::Options),
    {
        proof {
            lemma_method_names();
        }
        let v = chars_of(token);
        assert(v@.subrange(0, v@.len() as int) =~= v@);
        Self::parse_chars(&v, 0, v.len())
    }

    fn parse_chars(v: &[char], from: usize, to: usize) -> (r: Option<Self>)
        requires
            from <= to <= v@.len(),
        ensures
            r == method_of(v@.subrange(from as int, to as int)),
    {
        if matches_lit(v, from, to, "GET") {
            Some(Method::Get)
        } else if matches_lit(v, from, to, "HEAD") {
            Some(Method::Head)
        } else if matches_lit(v, from, to, "POST") {
            Some(Method::Post)
        } else if matches_lit(v, from, to, "PUT") {
            Some(Method::Put)
        } else if matches_lit(v, from, to, "PATCH") {
            Some(Method::Patch)
        } else if matches_lit(v, from, to, "DELETE") {
            Some(Method::Delete)
        } else if matches_lit(v, from, to, "OPTIONS") {
            Some(Method::Options)
        } else {
            None
        }
    }

    /// Safe methods do not change server state.
    pub fn is_safe(self) -> (b: bool)
        ensures
            b == (self is Get || self is Head || self is Options),
    {
        match self {
            Method::Get | Method::Head | Method::Options => true,
            _ => false,
        }
    }

    /// Idempotent methods can be repeated with the same effect.
    pub fn is_idempotent(self) -> (b: bool)
        ensures
            b == (self is Get || self is Head || self is Options || self is Put
                || self is Delete),
    {
        match self {
            Method::Get | Method::Head | Method::Options | Method::Put | Method::Delete => true,
            _ => false,
        }
    }
}

#[derive(Debug, Clone, Copy, PartialEq, Eq, Structural)]
pub enum Version {
    Http10,
    Http11,
}

#[derive(Debug, Clone, Copy)]
pub struct Limits {
    pub max_header_bytes: usize,
    pub max_body_bytes: usize,
}

impl Default for Limits {
    /// 16 KiB of head and 8 MiB of body.
    fn default() -> (r: Self)
        ensures
            r.max_header_bytes == 16 * 1024,
            r.max_body_bytes == 8 * 1024 * 1024,
    {
        Limits { max_header_bytes: 16 * 1024, max_body_bytes: 8 * 1024 * 1024 }
    }
}

#[derive(Debug, Clone, PartialEq, Eq)]
pub struct Request {
    pub method: Method,
    pub target: String,
    pub version: Version,
    pub headers: Vec<(String, String)>,
    pub body: Vec<u8>,
}

#[derive(Debug, Clone, Copy, PartialEq, Eq)]
pub enum ParseError {
    /// Not a complete request yet; read more and retry.
    Incomplete,
    Malformed(&'static str),
    MissingHost,
    /// `Content-Length` and `Transfer-Encoding` were both present.
    AmbiguousBodyLength,
    UnsupportedTransferEncoding,
    PayloadTooLarge,
}

/// A parse failure as a value: `Malformed` carries its reason's characters.
pub enum Failure {
    Incomplete,
    Malformed(Seq<char>),
    MissingHost,
    AmbiguousBodyLength,
    UnsupportedTransferEncoding,
    PayloadTooLarge,
}

impl View for ParseError {
    type V = Failure;

    open spec fn view(&self) -> Failure {
        match self {
            ParseError::Incomplete => Failure::Incomplete,
            ParseError::Malformed(reason) => Failure::Malformed(reason@),
            ParseError::MissingHost => Failure::MissingHost,
            ParseError::AmbiguousBodyLength => Failure::AmbiguousBodyLength,
            ParseError::UnsupportedTransferEncoding => Failure::UnsupportedTransferEncoding,
            ParseError::PayloadTooLarge => Failure::PayloadTooLarge,
        }
    }
}

/// The message for a parse failure.
pub open spec fn failure_message(f: Failure) -> Seq<char> {
    match f {
        Failure::Incomplete => "incomplete request"@,
        Failure::Malformed(reason) => "malformed request: "@ + reason,
        Failure::MissingHost => "HTTP/1.1 requires exactly one Host header"@,
        Failure::AmbiguousBodyLength => "Content-Length and Transfer-Encoding are mutually exclusive"@,
        Failure::UnsupportedTransferEncoding => "unsupported Transfer-Encoding"@,
        Failure::PayloadTooLarge => "request exceeds configured limits"@,
    }
}

impl ParseError {
    /// The message for users.
    pub fn to_string(&self) -> (s: String)
        ensures
            s@ == failure_message(self@),
    {
        match self {
            ParseError::Incomplete => String::from_str("incomplete request"),
            ParseError::Malformed(reason) => {
                let mut s = String::from_str("malformed request: ");
                s.append(reason);
                s
            },
            ParseError::MissingHost => String::from_str("HTTP/1.1 requires exactly one Host header"),
            ParseError::AmbiguousBodyLength => String::from_str(
                "Content-Length and Transfer-Encoding are mutually exclusive",
            ),
            ParseError::UnsupportedTransferEncoding => String::from_str("unsupported Transfer-Encoding"),
            ParseError::PayloadTooLarge => String::from_str("request exceeds configured limits"),
        }
    }
}

pub open spec fn malformed(reason: &str) -> Failure {
    Failure::Malformed(reason@)
}

pub open spec fn view_result<T, U>(r: Result<T, ParseError>, f: spec_fn(T) -> U) -> Result<
    U,
    Failure,
> {
    match r {
        Ok(t) => Ok(f(t)),
        Err(e) => Err(e@),
    }
}

/// The first `CR LF` at or after `i` (the index of its `CR`).
pub open spec fn crlf_from(d: Seq<u8>, i: int) -> Option<int>
    decreases d.len() - i,
{
    if i < 0 || i + 1 >= d.len() {
        None
    } else if d[i] == 13 && d[i + 1] == 10 {
        Some(i)
    } else {
        crlf_from(d, i + 1)
    }
}

pub proof fn lemma_crlf_from(d: Seq<u8>, i: int)
    requires
        0 <= i,
    ensures
        crlf_from(d, i) matches Some(k) ==> i <= k && k + 1 < d.len() && d[k] == 13 && d[k + 1]
            == 10,
    decreases d.len() - i,
{
    if i + 1 < d.len() && !(d[i] == 13 && d[i + 1] == 10) {
        lemma_crlf_from(d, i + 1);
    }
}

/// Index of the first `CR LF` in `data` at or after `from`.
fn find_crlf(data: &[u8], from: usize) -> (r: Option<usize>)
    ensures
        match r {
            Some(k) => crlf_from(data@, from as int) == Some(k as int) && from <= k && k + 1
                < data.len(),
            None => crlf_from(data@, from as int) is None,
        },
{
    if from > data.len() {
        return None;
    }
    let mut i = from;
    while data.len() > 0 && i < data.len() - 1
        invariant
            from <= i <= data@.len(),
            crlf_from(data@, i as int) == crlf_from(data@, from as int),
        decreases data@.len() - i,
    {
        if data[i] == 13 && data[i + 1] == 10 {
            return Some(i);
        }
        i = i + 1;
    }
    None
}

/// The chunk-size token of a chunk header line: the bytes before the first `;`.
pub open spec fn size_token(line: Seq<u8>) -> Seq<u8> {
    split(line, 59u8)[0]
}

/// The size a chunk header line announces: hexadecimal after trimming, in range
/// for `usize`.
pub open spec fn chunk_size(line: Seq<u8>) -> Option<nat> {
    let tok = size_token(line);
    if !valid_utf8(tok) {
        None
    } else {
        parse_bounded(trim(decode_utf8(tok)), 16, usize::MAX as nat)
    }
}

/// Skip trailer lines from `cursor` up to the empty line that ends the body.
pub open spec fn trailers_from(data: Seq<u8>, cursor: int, body: Seq<u8>) -> Result<
    Seq<u8>,
    Failure,
>
    decreases data.len() - cursor,
{
    proof {
        if cursor >= 0 {
            lemma_crlf_from(data, cursor);
        }
    }
    match crlf_from(data, cursor) {
        None => Err(Failure::Incomplete),
        Some(k) => if k <= cursor || cursor < 0 {
            Ok(body)
        } else {
            trailers_from(data, k + 2, body)
        },
    }
}

/// Decode chunks from `cursor` on, given the body decoded so far.
pub open spec fn chunked_from(data: Seq<u8>, cursor: int, body: Seq<u8>, max: nat) -> Result<
    Seq<u8>,
    Failure,
>
    decreases data.len() - cursor,
{
    match crlf_from(data, cursor) {
        None => Err(Failure::Incomplete),
        Some(le) => {
            if le < cursor {
                Err(Failure::Incomplete)
            } else {
                match chunk_size(data.subrange(cursor, le)) {
                    None => Err(Failure::Malformed("chunk size"@)),
                    Some(size) => {
                        let start = le + 2;
                        if size == 0 {
                            trailers_from(data, start, body)
                        } else if body.len() + size > max {
                            Err(Failure::PayloadTooLarge)
                        } else if start + size > usize::MAX {
                            Err(Failure::Malformed("chunk overflow"@))
                        } else if start + size + 2 > data.len() {
                            Err(Failure::Incomplete)
                        } else if data[start + size] != 13 || data[start + size + 1] != 10 {
                            Err(Failure::Malformed("chunk not CRLF-terminated"@))
                        } else {
                            chunked_from(
                                data,
                                start + size + 2,
                                body + data.subrange(start, start + size),
                                max,
                            )
                        }
                    },
                }
            }
        },
    }
}

/// Trusted: `std::str::from_utf8` succeeds exactly on valid UTF-8 and then
/// yields the string those bytes encode.
#[verifier::external_body]
fn utf8_str(bytes: &[u8]) -> (r: Option<&str>)
    ensures
        r is Some <==> valid_utf8(bytes@),
        r matches Some(s) ==> s@ == decode_utf8(bytes@),
{
    std::str::from_utf8(bytes).ok()
}

/// The characters that `bytes[from..to]` encodes, if they are valid UTF-8.
fn utf8_chars(bytes: &[u8], from: usize, to: usize) -> (r: Option<Vec<char>>)
    requires
        from <= to <= bytes@.len(),
    ensures
        r is Some <==> valid_utf8(bytes@.subrange(from as int, to as int)),
        r matches Some(v) ==> v@ == decode_utf8(bytes@.subrange(from as int, to as int)),
{
    let piece = slice_range(bytes, from, to);
    match utf8_str(piece) {
        Some(s) => Some(chars_of(s)),
        None => None,
    }
}

/// `bytes[from..to]` as a slice.
fn slice_range(bytes: &[u8], from: usize, to: usize) -> (r: &[u8])
    requires
        from <= to <= bytes@.len(),
    ensures
        r@ == bytes@.subrange(from as int, to as int),
{
    vstd::slice::slice_subrange(bytes, from, to)
}

/// The size announced by the chunk header line `data[from..to]`.
fn parse_chunk_size(data: &[u8], from: usize, to: usize) -> (r: Option<usize>)
    requires
        from <= to <= data@.len(),
    ensures
        match r {
            Some(n) => chunk_size(data@.subrange(from as int, to as int)) == Some(n as nat),
            None => chunk_size(data@.subrange(from as int, to as int)) is None,
        },
{
    let ghost line = data@.subrange(from as int, to as int);
    let line_slice = slice_range(data, from, to);
    let pieces = split_bytes(line_slice, 59u8);
    assert(split(line, 59u8).len() >= 1) by {
        crate::text::lemma_split_nonempty(line, 59u8);
    }
    let (a, b) = pieces[0];
    let Some(chars) = utf8_chars(line_slice, a, b) else {
        return None;
    };
    let (lo, hi) = trim_bounds(&chars, 0, chars.len());
    assert(chars@.subrange(0, chars@.len() as int) =~= chars@);
    match parse_radix_exec(&chars, lo, hi, 16, usize::MAX as u64) {
        Some(n) => Some(n as usize),
        None => None,
    }
}

/// Decode a chunked body from the start of `data`, refusing a body longer
/// than `max_body` bytes.
pub fn decode_chunked(data: &[u8], max_body: usize) -> (r: Result<Vec<u8>, ParseError>)
    ensures
        view_result(r, |b: Vec<u8>| b@) == chunked_from(data@, 0, Seq::empty(), max_body as nat),
{
    let mut cursor: usize = 0;
    let mut body: Vec<u8> = Vec::new();
    loop
        invariant
            cursor <= data@.len(),
            body@.len() <= max_body,
            chunked_from(data@, cursor as int, body@, max_body as nat) == chunked_from(
                data@,
                0,
                Seq::empty(),
                max_body as nat,
            ),
        decreases data@.len() - cursor,
    {
        proof {
            lemma_crlf_from(data@, cursor as int);
        }
        let line_end = match find_crlf(data, cursor) {
            Some(k) => k,
            None => {
                return Err(ParseError::Incomplete);
            },
        };
        let Some(size) = parse_chunk_size(data, cursor, line_end) else {
            return Err(ParseError::Malformed("chunk size"));
        };
        let start = line_end + 2;
        if size == 0 {
            return skip_trailers(data, start, body);
        }
        if size > max_body - body.len() {
            return Err(ParseError::PayloadTooLarge);
        }
        if size > usize::MAX - start {
            return Err(ParseError::Malformed("chunk overflow"));
        }
        let chunk_end = start + size;
        if data.len() < 2 || chunk_end > data.len() - 2 {
            return Err(ParseError::Incomplete);
        }
        if data[chunk_end] != 13 || data[chunk_end + 1] != 10 {
            return Err(ParseError::Malformed("chunk not CRLF-terminated"));
        }
        let ghost old_body = body@;
        let mut i = start;
        while i < chunk_end
            invariant
                start <= i <= chunk_end <= data@.len(),
                body@ == old_body + data@.subrange(start as int, i as int),
            decreases chunk_end - i,
        {
            body.push(data[i]);
            assert(data@.subrange(start as int, i + 1) =~= data@.subrange(start as int, i as int).push(data@[i as int]));
            i = i + 1;
        }
        cursor = chunk_end + 2;
    }
}

fn skip_trailers(data: &[u8], from: usize, body: Vec<u8>) -> (r: Result<Vec<u8>, ParseError>)
    requires
        from <= data@.len(),
    ensures
        view_result(r, |b: Vec<u8>| b@) == trailers_from(data@, from as int, body@),
{
    let mut cursor = from;
    loop
        invariant
            cursor <= data@.len(),
            trailers_from(data@, cursor as int, body@) == trailers_from(data@, from as int, body@),
        decreases data@.len() - cursor,
    {
        proof {
            lemma_crlf_from(data@, cursor as int);
        }
        match find_crlf(data, cursor) {
            None => {
                return Err(ParseError::Incomplete);
            },
            Some(end) => {
                if end == cursor {
                    return Ok(body);
                }
                cursor = end + 2;
            },
        }
    }
}

/// A header as values: its name and its (trimmed) value.
pub type HeaderView = (Seq<char>, Seq<char>);

pub open spec fn headers_view(hs: Seq<(Vec<char>, Vec<char>)>) -> Seq<HeaderView> {
    hs.map_values(|h: (Vec<char>, Vec<char>)| (h.0@, h.1@))
}

/// The values of the headers named `name` (ignoring ASCII case), in order.
pub open spec fn values_named(hs: Seq<HeaderView>, name: Seq<char>) -> Seq<Seq<char>>
    decreases hs.len(),
{
    if hs.len() == 0 {
        Seq::empty()
    } else {
        let rest = values_named(hs.drop_last(), name);
        if eq_ignore_case(hs.last().0, name) {
            rest.push(hs.last().1)
        } else {
            rest
        }
    }
}

/// The `j`-th comma separated coding of a `Transfer-Encoding` value, trimmed.
pub open spec fn coding(value: Seq<char>, j: int) -> Seq<char> {
    trim(split(value, ',')[j])
}

/// Every coding listed in `value` is `chunked` (empty list items are ignored).
pub open spec fn all_chunked(value: Seq<char>) -> bool {
    forall|j: int|
        0 <= j < split(value, ',').len() ==> (#[trigger] coding(value, j)).len() == 0
            || eq_ignore_case(coding(value, j), "chunked"@)
}

/// `value` lists at least one coding.
pub open spec fn lists_coding(value: Seq<char>) -> bool {
    exists|j: int| 0 <= j < split(value, ',').len() && (#[trigger] coding(value, j)).len() > 0
}

/// The `Transfer-Encoding` values name only `chunked`, at least once.
pub open spec fn codings_ok(te: Seq<Seq<char>>) -> bool {
    &&& forall|i: int| 0 <= i < te.len() ==> all_chunked(#[trigger] te[i])
    &&& exists|i: int| 0 <= i < te.len() && lists_coding(#[trigger] te[i])
}

/// A `Content-Length` value as a number.
pub open spec fn length_value(value: Seq<char>) -> Option<nat> {
    parse_bounded(trim(value), 10, usize::MAX as nat)
}

/// The body that follows the head, framed by the headers `hs`.
pub open spec fn body_spec(input: Seq<u8>, start: int, hs: Seq<HeaderView>, limits: Limits) -> Result<
    Seq<u8>,
    Failure,
> {
    let te = values_named(hs, "transfer-encoding"@);
    let cl = values_named(hs, "content-length"@);
    if te.len() > 0 && cl.len() > 0 {
        Err(Failure::AmbiguousBodyLength)
    } else if te.len() > 0 {
        if !codings_ok(te) {
            Err(Failure::UnsupportedTransferEncoding)
        } else {
            chunked_from(
                input.subrange(start, input.len() as int),
                0,
                Seq::empty(),
                limits.max_body_bytes as nat,
            )
        }
    } else if cl.len() == 0 {
        Ok(Seq::empty())
    } else {
        match length_value(cl[0]) {
            None => Err(Failure::Malformed("invalid Content-Length"@)),
            Some(n) => {
                if exists|k: int| 1 <= k < cl.len() && length_value(#[trigger] cl[k]) != Some(n) {
                    Err(Failure::Malformed("conflicting Content-Length"@))
                } else if n > limits.max_body_bytes {
                    Err(Failure::PayloadTooLarge)
                } else if input.len() < start + n {
                    Err(Failure::Incomplete)
                } else {
                    Ok(input.subrange(start, start + n))
                }
            },
        }
    }
}

/// The positions of the headers named `name`, in order.
fn positions_named(hs: &Vec<(Vec<char>, Vec<char>)>, name: &str) -> (r: Vec<usize>)
    ensures
        forall|k: int| 0 <= k < r@.len() ==> (#[trigger] r@[k]) < hs@.len(),
        r@.map_values(|k: usize| hs@[k as int].1@) == values_named(headers_view(hs@), name@),
{
    let lit = chars_of(name);
    let mut r: Vec<usize> = Vec::new();
    let mut i: usize = 0;
    while i < hs.len()
        invariant
            i <= hs@.len(),
            lit@ == name@,
            forall|k: int| 0 <= k < r@.len() ==> (#[trigger] r@[k]) < i,
            r@.map_values(|k: usize| hs@[k as int].1@) == values_named(
                headers_view(hs@.take(i as int)),
                name@,
            ),
        decreases hs@.len() - i,
    {
        let ghost old_r = r@;
        assert(headers_view(hs@.take(i + 1)).drop_last() =~= headers_view(hs@.take(i as int)));
        let key = &hs[i].0;
        assert(key@.subrange(0, key@.len() as int) =~= key@);
        if eq_ignore_case_exec(key, 0, key.len(), &lit) {
            r.push(i);
            assert(r@.map_values(|k: usize| hs@[k as int].1@) =~= old_r.map_values(
                |k: usize| hs@[k as int].1@,
            ).push(hs@[i as int].1@));
        }
        i = i + 1;
    }
    assert(hs@.take(i as int) =~= hs@);
    r
}

/// Whether every coding in `value` is `chunked`, and whether it lists any.
fn scan_codings(value: &Vec<char>) -> (r: (bool, bool))
    ensures
        r.0 == all_chunked(value@),
        r.1 == lists_coding(value@),
{
    let chunked = chars_of("chunked");
    let pieces = split_chars(value, ',');
    let mut ok = true;
    let mut any = false;
    let mut j: usize = 0;
    while j < pieces.len()
        invariant
            j <= pieces@.len(),
            chunked@ == "chunked"@,
            pieces@.len() == split(value@, ',').len(),
            forall|k: int|
                0 <= k < pieces@.len() ==> (#[trigger] pieces@[k]).0 <= pieces@[k].1 <= value@.len(),
            forall|k: int|
                0 <= k < pieces@.len() ==> value@.subrange(pieces@[k].0 as int, pieces@[k].1 as int)
                    == #[trigger] split(value@, ',')[k],
            ok == forall|k: int|
                0 <= k < j ==> (#[trigger] coding(value@, k)).len() == 0 || eq_ignore_case(
                    coding(value@, k),
                    "chunked"@,
                ),
            any == exists|k: int| 0 <= k < j && (#[trigger] coding(value@, k)).len() > 0,
        decreases pieces@.len() - j,
    {
        let (a, b) = pieces[j];
        let ghost piece = split(value@, ',')[j as int];
        assert(value@.subrange(a as int, b as int) == piece);
        let (lo, hi) = trim_bounds(value, a, b);
        assert(coding(value@, j as int) == value@.subrange(lo as int, hi as int));
        if hi > lo {
            any = true;
            if !eq_ignore_case_exec(value, lo, hi, &chunked) {
                ok = false;
            }
        }
        j = j + 1;
    }
    (ok, any)
}

/// Parse the body that starts at `body_start`, framed by `headers`.
fn parse_body(
    input: &[u8],
    body_start: usize,
    headers: &Vec<(Vec<char>, Vec<char>)>,
    limits: Limits,
) -> (r: Result<Vec<u8>, ParseError>)
    requires
        body_start <= input@.len(),
    ensures
        view_result(r, |b: Vec<u8>| b@) == body_spec(
            input@,
            body_start as int,
            headers_view(headers@),
            limits,
        ),
{
    let ghost hs = headers_view(headers@);
    let te = positions_named(headers, "transfer-encoding");
    let cl = positions_named(headers, "content-length");
    let ghost tev = values_named(hs, "transfer-encoding"@);
    let ghost clv = values_named(hs, "content-length"@);
    assert(te@.len() == tev.len());
    assert(cl@.len() == clv.len());
    if te.len() > 0 && cl.len() > 0 {
        return Err(ParseError::AmbiguousBodyLength);
    }
    if te.len() > 0 {
        let mut all_ok = true;
        let mut any = false;
        let mut i: usize = 0;
        while i < te.len()
            invariant
                i <= te@.len(),
                te@.len() == tev.len(),
                forall|k: int| 0 <= k < te@.len() ==> (#[trigger] te@[k]) < headers@.len(),
                forall|k: int| 0 <= k < te@.len() ==> headers@[te@[k] as int].1@ == #[trigger] tev[k],
                all_ok == forall|k: int| 0 <= k < i ==> all_chunked(#[trigger] tev[k]),
                any == exists|k: int| 0 <= k < i && lists_coding(#[trigger] tev[k]),
            decreases te@.len() - i,
        {
            assert(te@.map_values(|k: usize| headers@[k as int].1@)[i as int] == tev[i as int]);
            let (ok, has) = scan_codings(&headers[te[i]].1);
            if !ok {
                all_ok = false;
            }
            if has {
                any = true;
            }
            i = i + 1;
        }
        if !(all_ok && any) {
            return Err(ParseError::UnsupportedTransferEncoding);
        }
        let rest = slice_range(input, body_start, input.len());
        return decode_chunked(rest, limits.max_body_bytes);
    }
    if cl.len() == 0 {
        return Ok(Vec::new());
    }
    assert(cl@.map_values(|k: usize| headers@[k as int].1@)[0] == clv[0]);
    let first = match parse_length(&headers[cl[0]].1) {
        Some(n) => n,
        None => {
            return Err(ParseError::Malformed("invalid Content-Length"));
        },
    };
    let mut k: usize = 1;
    while k < cl.len()
        invariant
            1 <= k <= cl@.len(),
            cl@.len() == clv.len(),
            forall|j: int| 0 <= j < cl@.len() ==> (#[trigger] cl@[j]) < headers@.len(),
            cl@.map_values(|j: usize| headers@[j as int].1@) == clv,
            forall|j: int| 1 <= j < k ==> length_value(#[trigger] clv[j]) == Some(first as nat),
            length_value(clv[0]) == Some(first as nat),
            hs == headers_view(headers@),
            tev == values_named(hs, "transfer-encoding"@),
            clv == values_named(hs, "content-length"@),
            tev.len() == 0,
        decreases cl@.len() - k,
    {
        assert(cl@.map_values(|j: usize| headers@[j as int].1@)[k as int] == clv[k as int]);
        let this = parse_length(&headers[cl[k]].1);
        match this {
            Some(n) if n == first => {},
            _ => {
                assert(length_value(clv[k as int]) != Some(first as nat));
                assert(exists|j: int| 1 <= j < clv.len() && length_value(#[trigger] clv[j]) != Some(first as nat));
                return Err(ParseError::Malformed("conflicting Content-Length"));
            },
        }
        k = k + 1;
    }
    if first > limits.max_body_bytes {
        return Err(ParseError::PayloadTooLarge);
    }
    if input.len() - body_start < first {
        return Err(ParseError::Incomplete);
    }
    let piece = slice_range(input, body_start, body_start + first);
    Ok(vstd::slice::slice_to_vec(piece))
}

/// A `Content-Length` value as a number.
fn parse_length(value: &Vec<char>) -> (r: Option<usize>)
    ensures
        match r {
            Some(n) => length_value(value@) == Some(n as nat),
            None => length_value(value@) is None,
        },
{
    let (lo, hi) = trim_bounds(value, 0, value.len());
    assert(value@.subrange(0, value@.len() as int) =~= value@);
    match parse_radix_exec(value, lo, hi, 10, usize::MAX as u64) {
        Some(n) => Some(n as usize),
        None => None,
    }
}

/// The first `CR LF CR LF` at or after `i`: the end of the head.
pub open spec fn blank_line_from(d: Seq<u8>, i: int) -> Option<int>
    decreases d.len() - i,
{
    if i < 0 || i + 3 >= d.len() {
        None
    } else if d[i] == 13 && d[i + 1] == 10 && d[i + 2] == 13 && d[i + 3] == 10 {
        Some(i)
    } else {
        blank_line_from(d, i + 1)
    }
}

/// A line without its trailing `CR`, if it has one.
pub open spec fn strip_cr(l: Seq<u8>) -> Seq<u8> {
    if l.len() > 0 && l.last() == 13 {
        l.drop_last()
    } else {
        l
    }
}

/// The lines of the head: split at `LF`, each without a trailing `CR`.
pub open spec fn head_lines(head: Seq<u8>) -> Seq<Seq<u8>> {
    split(head, 10u8).map_values(|l: Seq<u8>| strip_cr(l))
}

/// The request line: method, target and version, separated by single spaces.
pub open spec fn request_line_spec(line: Seq<u8>) -> Result<(Method, Seq<char>, Version), Failure> {
    if !valid_utf8(line) {
        Err(Failure::Malformed("request line"@))
    } else {
        let parts = split(decode_utf8(line), ' ');
        match method_of(parts[0]) {
            None => Err(Failure::Malformed("unknown method"@)),
            Some(m) => if parts.len() < 2 {
                Err(Failure::Malformed("target"@))
            } else if parts.len() < 3 || !(parts[2] == "HTTP/1.1"@ || parts[2] == "HTTP/1.0"@) {
                Err(Failure::Malformed("version"@))
            } else if parts.len() > 3 || parts[1].len() == 0 {
                Err(Failure::Malformed("request line"@))
            } else {
                Ok(
                    (
                        m,
                        parts[1],
                        if parts[2] == "HTTP/1.1"@ {
                            Version::Http11
                        } else {
                            Version::Http10
                        },
                    ),
                )
            },
        }
    }
}

/// The bytes that `u8::is_ascii_whitespace` accepts.
pub open spec fn is_ascii_ws(b: u8) -> bool {
    b == 32 || b == 9 || b == 10 || b == 12 || b == 13
}

/// One header line: `None` for a blank line, else the header or the reason it
/// is refused.
pub open spec fn header_line_spec(l: Seq<u8>) -> Option<Result<HeaderView, Failure>> {
    if l.len() == 0 {
        None
    } else if l[0] == 32 || l[0] == 9 {
        Some(Err(Failure::Malformed("obsolete line folding"@)))
    } else {
        let c = next_sep(l, 58u8, 0);
        if c >= l.len() {
            Some(Err(Failure::Malformed("header without colon"@)))
        } else {
            let nb = l.subrange(0, c);
            let vb = l.subrange(c + 1, l.len() as int);
            if !valid_utf8(nb) {
                Some(Err(Failure::Malformed("header name"@)))
            } else if nb.len() == 0 || exists|i: int| 0 <= i < nb.len() && is_ascii_ws(#[trigger] nb[i]) {
                Some(Err(Failure::Malformed("invalid header name"@)))
            } else if !valid_utf8(vb) {
                Some(Err(Failure::Malformed("header value"@)))
            } else {
                Some(Ok((decode_utf8(nb), trim(decode_utf8(vb)))))
            }
        }
    }
}

/// The header lines, in order; the first refused line decides the error.
pub open spec fn headers_spec(lines: Seq<Seq<u8>>) -> Result<Seq<HeaderView>, Failure>
    decreases lines.len(),
{
    if lines.len() == 0 {
        Ok(Seq::empty())
    } else {
        match headers_spec(lines.drop_last()) {
            Err(e) => Err(e),
            Ok(hs) => match header_line_spec(lines.last()) {
                None => Ok(hs),
                Some(Err(e)) => Err(e),
                Some(Ok(h)) => Ok(hs.push(h)),
            },
        }
    }
}

/// A parsed request, as values.
pub struct RequestView {
    pub method: Method,
    pub target: Seq<char>,
    pub version: Version,
    pub headers: Seq<HeaderView>,
    pub body: Seq<u8>,
}

impl View for Request {
    type V = RequestView;

    open spec fn view(&self) -> RequestView {
        RequestView {
            method: self.method,
            target: self.target@,
            version: self.version,
            headers: self.headers@.map_values(|h: (String, String)| (h.0@, h.1@)),
            body: self.body@,
        }
    }
}

/// What parsing one request from the start of `input` gives.
pub open spec fn request_spec(input: Seq<u8>, limits: Limits) -> Result<RequestView, Failure> {
    match blank_line_from(input, 0) {
        None => Err(
            if input.len() > limits.max_header_bytes {
                Failure::PayloadTooLarge
            } else {
                Failure::Incomplete
            },
        ),
        Some(p) => if p + 4 > limits.max_header_bytes {
            Err(Failure::PayloadTooLarge)
        } else {
            let lines = head_lines(input.subrange(0, p));
            match request_line_spec(lines[0]) {
                Err(e) => Err(e),
                Ok((m, t, v)) => match headers_spec(lines.drop_first()) {
                    Err(e) => Err(e),
                    Ok(hs) => if v == Version::Http11 && values_named(hs, "host"@).len() != 1 {
                        Err(Failure::MissingHost)
                    } else {
                        match body_spec(input, p + 4, hs, limits) {
                            Err(e) => Err(e),
                            Ok(b) => Ok(
                                RequestView { method: m, target: t, version: v, headers: hs, body: b },
                            ),
                        }
                    },
                },
            }
        },
    }
}

/// Bounds of line `a..b` of `head` without its trailing `CR`.
fn strip_cr_bounds(head: &[u8], a: usize, b: usize) -> (r: usize)
    requires
        a <= b <= head@.len(),
    ensures
        a <= r <= b,
        head@.subrange(a as int, r as int) == strip_cr(head@.subrange(a as int, b as int)),
{
    if b > a && head[b - 1] == 13 {
        assert(head@.subrange(a as int, (b - 1) as int) =~= head@.subrange(a as int, b as int).drop_last());
        b - 1
    } else {
        b
    }
}

fn parse_request_line(head: &[u8], a: usize, b: usize) -> (r: Result<(Method, String, Version), ParseError>)
    requires
        a <= b <= head@.len(),
    ensures
        view_result(r, |t: (Method, String, Version)| (t.0, t.1@, t.2)) == request_line_spec(
            head@.subrange(a as int, b as int),
        ),
{
    let chars = match utf8_chars(head, a, b) {
        Some(c) => c,
        None => {
            return Err(ParseError::Malformed("request line"));
        },
    };
    let parts = split_chars(&chars, ' ');
    proof {
        lemma_split_nonempty(chars@, ' ');
    }
    let p0 = parts[0];
    let method = match Method::parse_chars(&chars, p0.0, p0.1) {
        Some(m) => m,
        None => {
            return Err(ParseError::Malformed("unknown method"));
        },
    };
    if parts.len() < 2 {
        return Err(ParseError::Malformed("target"));
    }
    if parts.len() < 3 {
        return Err(ParseError::Malformed("version"));
    }
    let p1 = parts[1];
    let p2 = parts[2];
    let is11 = matches_lit(&chars, p2.0, p2.1, "HTTP/1.1");
    let is10 = matches_lit(&chars, p2.0, p2.1, "HTTP/1.0");
    if !is11 && !is10 {
        return Err(ParseError::Malformed("version"));
    }
    if parts.len() > 3 || p1.0 == p1.1 {
        return Err(ParseError::Malformed("request line"));
    }
    let version = if is11 {
        Version::Http11
    } else {
        Version::Http10
    };
    Ok((method, string_from(&chars, p1.0, p1.1), version))
}

#[verifier::loop_isolation(false)]
fn parse_header_line(head: &[u8], a: usize, b: usize) -> (r: Option<
    Result<(Vec<char>, Vec<char>), ParseError>,
>)
    requires
        a <= b <= head@.len(),
    ensures
        match r {
            None => header_line_spec(head@.subrange(a as int, b as int)) is None,
            Some(Err(e)) => header_line_spec(head@.subrange(a as int, b as int)) == Some(
                Err::<HeaderView, Failure>(e@),
            ),
            Some(Ok(h)) => header_line_spec(head@.subrange(a as int, b as int)) == Some(
                Ok::<HeaderView, Failure>((h.0@, h.1@)),
            ),
        },
{
    let ghost l = head@.subrange(a as int, b as int);
    if a == b {
        return None;
    }
    if head[a] == 32 || head[a] == 9 {
        return Some(Err(ParseError::Malformed("obsolete line folding")));
    }
    let mut c = a;
    while c < b && head[c] != 58
        invariant
            a <= c <= b <= head@.len(),
            l == head@.subrange(a as int, b as int),
            next_sep(l, 58u8, (c - a) as int) == next_sep(l, 58u8, 0),
        decreases b - c,
    {
        c = c + 1;
    }
    assert(next_sep(l, 58u8, (c - a) as int) == (c - a) as int);
    if c == b {
        return Some(Err(ParseError::Malformed("header without colon")));
    }
    assert(l.subrange(0, (c - a) as int) =~= head@.subrange(a as int, c as int));
    assert(l.subrange((c - a) + 1, l.len() as int) =~= head@.subrange(c + 1, b as int));
    let name = match utf8_chars(head, a, c) {
        Some(n) => n,
        None => {
            return Some(Err(ParseError::Malformed("header name")));
        },
    };
    if c == a {
        assert(l.subrange(0, (c - a) as int).len() == 0);
        assert(header_line_spec(l) == Some(Err::<HeaderView, Failure>(Failure::Malformed("invalid header name"@))));
        return Some(Err(ParseError::Malformed("invalid header name")));
    }
    let mut i = a;
    while i < c
        invariant
            a <= i <= c <= b <= head@.len(),
            forall|k: int| a <= k < i ==> !is_ascii_ws(#[trigger] head@[k]),
        decreases c - i,
    {
        let byte = head[i];
        if byte == 32 || byte == 9 || byte == 10 || byte == 12 || byte == 13 {
            assert(head@.subrange(a as int, c as int)[i - a] == byte);
            assert(is_ascii_ws(l.subrange(0, (c - a) as int)[i - a]));
            return Some(Err(ParseError::Malformed("invalid header name")));
        }
        i = i + 1;
    }
    assert(forall|k: int| 0 <= k < c - a ==> !is_ascii_ws(#[trigger] head@.subrange(a as int, c as int)[k]));
    let value = match utf8_chars(head, c + 1, b) {
        Some(v) => v,
        None => {
            return Some(Err(ParseError::Malformed("header value")));
        },
    };
    let (lo, hi) = trim_bounds(&value, 0, value.len());
    assert(value@.subrange(0, value@.len() as int) =~= value@);
    let trimmed = chars_range(&value, lo, hi);
    Some(Ok((name, trimmed)))
}

/// Parse one request from the start of `input`.
pub fn parse_request(input: &[u8], limits: Limits) -> (r: Result<Request, ParseError>)
    ensures
        view_result(r, |q: Request| q@) == request_spec(input@, limits),
{
    // Find the end of the head.
    let mut p: usize = 0;
    let mut found = false;
    while !found && input.len() >= 4 && p <= input.len() - 4
        invariant
            p <= input@.len(),
            blank_line_from(input@, p as int) == blank_line_from(input@, 0),
            found ==> blank_line_from(input@, 0) == Some(p as int) && p + 4 <= input.len(),
        decreases input@.len() - p, (if found { 0int } else { 1int }),
    {
        if input[p] == 13 && input[p + 1] == 10 && input[p + 2] == 13 && input[p + 3] == 10 {
            found = true;
        } else {
            p = p + 1;
        }
    }
    if !found {
        assert(blank_line_from(input@, p as int) is None);
        if input.len() > limits.max_header_bytes {
            return Err(ParseError::PayloadTooLarge);
        } else {
            return Err(ParseError::Incomplete);
        }
    }
    let header_end = p;
    if header_end + 4 > limits.max_header_bytes {
        return Err(ParseError::PayloadTooLarge);
    }
    let head = slice_range(input, 0, header_end);
    let body_start = header_end + 4;
    let ghost lines = head_lines(head@);
    let pieces = split_bytes(head, 10u8);
    proof {
        lemma_split_nonempty(head@, 10u8);
    }
    let (a0, b0) = pieces[0];
    let e0 = strip_cr_bounds(head, a0, b0);
    assert(lines[0] == head@.subrange(a0 as int, e0 as int));
    let (method, target, version) = match parse_request_line(head, a0, e0) {
        Ok(t) => t,
        Err(e) => {
            return Err(e);
        },
    };
    let mut headers: Vec<(Vec<char>, Vec<char>)> = Vec::new();
    assert(headers_view(headers@) =~= Seq::<HeaderView>::empty());
    assert(lines.subrange(1, 1) =~= Seq::<Seq<u8>>::empty());
    let mut k: usize = 1;
    while k < pieces.len()
        invariant
            1 <= k <= pieces@.len(),
            pieces@.len() == split(head@, 10u8).len(),
            lines == head_lines(head@),
            lines.len() == pieces@.len(),
            request_line_spec(lines[0]) is Ok,
            blank_line_from(input@, 0) == Some(header_end as int),
            header_end + 4 <= limits.max_header_bytes,
            head@ == input@.subrange(0, header_end as int),
            forall|j: int| 0 <= j < pieces@.len() ==> (#[trigger] pieces@[j]).0 <= pieces@[j].1 <= head@.len(),
            forall|j: int|
                0 <= j < pieces@.len() ==> head@.subrange(pieces@[j].0 as int, pieces@[j].1 as int)
                    == #[trigger] split(head@, 10u8)[j],
            headers_spec(lines.subrange(1, k as int)) == Ok::<Seq<HeaderView>, Failure>(
                headers_view(headers@),
            ),
        decreases pieces@.len() - k,
    {
        let (a, b) = pieces[k];
        let e = strip_cr_bounds(head, a, b);
        assert(lines[k as int] == head@.subrange(a as int, e as int));
        assert(lines.subrange(1, k + 1).drop_last() =~= lines.subrange(1, k as int));
        assert(lines.subrange(1, k + 1).last() == lines[k as int]);
        match parse_header_line(head, a, e) {
            None => {},
            Some(Err(err)) => {
                proof {
                    assert(lines.drop_first().subrange(0, k as int) =~= lines.subrange(1, k + 1));
                    assert(headers_spec(lines.subrange(1, k + 1)) == Err::<Seq<HeaderView>, Failure>(err@));
                    lemma_headers_err_prefix(lines.drop_first(), k as int, err@);
                }
                return Err(err);
            },
            Some(Ok(h)) => {
                let ghost old_h = headers@;
                headers.push(h);
                assert(headers_view(headers@) =~= headers_view(old_h).push((h.0@, h.1@)));
            },
        }
        k = k + 1;
    }
    assert(lines.subrange(1, k as int) =~= lines.drop_first());
    let ghost hs = headers_view(headers@);
    if version == Version::Http11 {
        let hosts = positions_named(&headers, "host");
        if hosts.len() != 1 {
            return Err(ParseError::MissingHost);
        }
    }
    let body = match parse_body(input, body_start, &headers, limits) {
        Ok(b) => b,
        Err(e) => {
            return Err(e);
        },
    };
    let mut out: Vec<(String, String)> = Vec::new();
    let mut i: usize = 0;
    while i < headers.len()
        invariant
            i <= headers@.len(),
            out@.len() == i,
            forall|j: int|
                0 <= j < i ==> (#[trigger] out@[j]).0@ == headers@[j].0@ && out@[j].1@
                    == headers@[j].1@,
        decreases headers@.len() - i,
    {
        let name = string_from(&headers[i].0, 0, headers[i].0.len());
        let value = string_from(&headers[i].1, 0, headers[i].1.len());
        assert(headers@[i as int].0@.subrange(0, headers@[i as int].0@.len() as int) =~= headers@[i as int].0@);
        assert(headers@[i as int].1@.subrange(0, headers@[i as int].1@.len() as int) =~= headers@[i as int].1@);
        out.push((name, value));
        i = i + 1;
    }
    let request = Request { method, target, version, headers: out, body };
    assert(request@.headers =~= hs);
    Ok(request)
}

/// Once a line is refused, the lines after it do not change the outcome.
proof fn lemma_headers_err_prefix(lines: Seq<Seq<u8>>, n: int, e: Failure)
    requires
        0 <= n <= lines.len(),
        headers_spec(lines.subrange(0, n)) == Err::<Seq<HeaderView>, Failure>(e),
    ensures
        headers_spec(lines) == Err::<Seq<HeaderView>, Failure>(e),
    decreases lines.len() - n,
{
    if n < lines.len() {
        assert(lines.subrange(0, n + 1).drop_last() =~= lines.subrange(0, n));
        lemma_headers_err_prefix(lines, n + 1, e);
    } else {
        assert(lines.subrange(0, n) =~= lines);
    }
}

/// A `CR LF` found in `d` is found at the same place once more bytes follow.
proof fn lemma_crlf_extend(d: Seq<u8>, e: Seq<u8>, i: int)
    requires
        crlf_from(d, i) is Some,
    ensures
        crlf_from(d + e, i) == crlf_from(d, i),
    decreases d.len() - i,
{
    if !(i < 0 || i + 1 >= d.len()) {
        assert((d + e)[i] == d[i] && (d + e)[i + 1] == d[i + 1]);
        if !(d[i] == 13 && d[i + 1] == 10) {
            lemma_crlf_extend(d, e, i + 1);
        }
    }
}

/// The end of a head found in `d` is found at the same place once more bytes follow.
proof fn lemma_blank_line_extend(d: Seq<u8>, e: Seq<u8>, i: int)
    requires
        blank_line_from(d, i) is Some,
    ensures
        blank_line_from(d + e, i) == blank_line_from(d, i),
        blank_line_from(d, i) matches Some(p) ==> i <= p && p + 4 <= d.len(),
    decreases d.len() - i,
{
    if !(i < 0 || i + 3 >= d.len()) {
        assert((d + e)[i] == d[i] && (d + e)[i + 1] == d[i + 1] && (d + e)[i + 2] == d[i + 2]
            && (d + e)[i + 3] == d[i + 3]);
        if !(d[i] == 13 && d[i + 1] == 10 && d[i + 2] == 13 && d[i + 3] == 10) {
            lemma_blank_line_extend(d, e, i + 1);
        }
    }
}

/// Trailers that end within `d` end the same way once more bytes follow.
proof fn lemma_trailers_extend(d: Seq<u8>, e: Seq<u8>, cursor: int, body: Seq<u8>)
    requires
        trailers_from(d, cursor, body) is Ok,
    ensures
        trailers_from(d + e, cursor, body) == trailers_from(d, cursor, body),
    decreases d.len() - cursor,
{
    if let Some(k) = crlf_from(d, cursor) {
        lemma_crlf_extend(d, e, cursor);
        if cursor >= 0 {
            lemma_crlf_from(d, cursor);
        }
        if !(k <= cursor || cursor < 0) {
            lemma_trailers_extend(d, e, k + 2, body);
        }
    }
}

/// A chunked body that is complete within `d` decodes the same once more bytes follow.
proof fn lemma_chunked_extend(d: Seq<u8>, e: Seq<u8>, cursor: int, body: Seq<u8>, max: nat)
    requires
        chunked_from(d, cursor, body, max) is Ok,
    ensures
        chunked_from(d + e, cursor, body, max) == chunked_from(d, cursor, body, max),
    decreases d.len() - cursor,
{
    if let Some(le) = crlf_from(d, cursor) {
        lemma_crlf_extend(d, e, cursor);
        if le >= cursor {
            if cursor < 0 {
                assert(crlf_from(d, cursor) is None);
            }
            lemma_crlf_from(d, cursor);
            assert((d + e).subrange(cursor, le) =~= d.subrange(cursor, le));
            if let Some(size) = chunk_size(d.subrange(cursor, le)) {
                let start = le + 2;
                if size == 0 {
                    lemma_trailers_extend(d, e, start, body);
                } else if body.len() + size <= max && start + size <= usize::MAX && start + size + 2
                    <= d.len() {
                    assert((d + e)[start + size] == d[start + size]);
                    assert((d + e)[start + size + 1] == d[start + size + 1]);
                    assert((d + e).subrange(start, start + size) =~= d.subrange(start, start + size));
                    if d[start + size] == 13 && d[start + size + 1] == 10 {
                        lemma_chunked_extend(
                            d,
                            e,
                            start + size + 2,
                            body + d.subrange(start, start + size),
                            max,
                        );
                    }
                }
            }
        }
    }
}

/// A body that is complete within `input` is framed the same once more bytes follow.
proof fn lemma_body_extend(input: Seq<u8>, extra: Seq<u8>, start: int, hs: Seq<HeaderView>, limits: Limits)
    requires
        0 <= start <= input.len(),
        body_spec(input, start, hs, limits) is Ok,
    ensures
        body_spec(input + extra, start, hs, limits) == body_spec(input, start, hs, limits),
{
    let whole = input + extra;
    let te = values_named(hs, "transfer-encoding"@);
    let cl = values_named(hs, "content-length"@);
    if te.len() > 0 && cl.len() == 0 && codings_ok(te) {
        let d = input.subrange(start, input.len() as int);
        assert(whole.subrange(start, whole.len() as int) =~= d + extra);
        lemma_chunked_extend(d, extra, 0, Seq::empty(), limits.max_body_bytes as nat);
    } else if te.len() == 0 && cl.len() > 0 {
        if let Some(n) = length_value(cl[0]) {
            if input.len() >= start + n {
                assert(whole.subrange(start, start + n) =~= input.subrange(start, start + n));
            }
        }
    }
}

/// Bytes that follow a complete request, such as the start of the next
/// pipelined request, do not change what is parsed: the same request, body
/// included, comes out.
pub proof fn lemma_request_ignores_trailing_bytes(input: Seq<u8>, extra: Seq<u8>, limits: Limits)
    requires
        request_spec(input, limits) is Ok,
    ensures
        request_spec(input + extra, limits) == request_spec(input, limits),
{
    let whole = input + extra;
    lemma_blank_line_extend(input, extra, 0);
    let p = blank_line_from(input, 0)->0;
    assert(whole.subrange(0, p) =~= input.subrange(0, p));
    let lines = head_lines(input.subrange(0, p));
    if let Ok((m, t, v)) = request_line_spec(lines[0]) {
        if let Ok(hs) = headers_spec(lines.drop_first()) {
            lemma_body_extend(input, extra, p + 4, hs, limits);
        }
    }
}

/// The value of the first header named `name` (ignoring ASCII case).
pub open spec fn first_named(hs: Seq<HeaderView>, name: Seq<char>) -> Option<Seq<char>>
    decreases hs.len(),
{
    if hs.len() == 0 {
        None
    } else if eq_ignore_case(hs[0].0, name) {
        Some(hs[0].1)
    } else {
        first_named(hs.drop_first(), name)
    }
}

/// The comma separated list `list` names `token` (ignoring ASCII case and the
/// white space around items).
pub open spec fn lists_token(list: Seq<char>, token: Seq<char>) -> bool {
    exists|j: int| 0 <= j < split(list, ',').len() && eq_ignore_case(#[trigger] coding(list, j), token)
}

/// Whether the connection stays open after a request with these version and
/// headers.
pub open spec fn keep_alive_spec(version: Version, hs: Seq<HeaderView>) -> bool {
    let connection = match first_named(hs, "connection"@) {
        Some(v) => v,
        None => Seq::empty(),
    };
    match version {
        Version::Http11 => !lists_token(connection, "close"@),
        Version::Http10 => lists_token(connection, "keep-alive"@),
    }
}

/// Whether `list` names `token`.
fn has_token(list: &Vec<char>, token: &str) -> (b: bool)
    ensures
        b == lists_token(list@, token@),
{
    let t = chars_of(token);
    let pieces = split_chars(list, ',');
    let mut j: usize = 0;
    while j < pieces.len()
        invariant
            j <= pieces@.len(),
            t@ == token@,
            pieces@.len() == split(list@, ',').len(),
            forall|k: int| 0 <= k < pieces@.len() ==> (#[trigger] pieces@[k]).0 <= pieces@[k].1 <= list@.len(),
            forall|k: int|
                0 <= k < pieces@.len() ==> list@.subrange(pieces@[k].0 as int, pieces@[k].1 as int)
                    == #[trigger] split(list@, ',')[k],
            forall|k: int| 0 <= k < j ==> !eq_ignore_case(#[trigger] coding(list@, k), token@),
        decreases pieces@.len() - j,
    {
        let (a, b) = pieces[j];
        assert(list@.subrange(a as int, b as int) == split(list@, ',')[j as int]);
        let (lo, hi) = trim_bounds(list, a, b);
        assert(coding(list@, j as int) == list@.subrange(lo as int, hi as int));
        if eq_ignore_case_exec(list, lo, hi, &t) {
            return true;
        }
        j = j + 1;
    }
    false
}

impl Request {
    /// First header value matching `name`, case-insensitively.
    pub fn header(&self, name: &str) -> (r: Option<&str>)
        ensures
            match r {
                Some(v) => first_named(self@.headers, name@) == Some(v@),
                None => first_named(self@.headers, name@) is None,
            },
    {
        let lit = chars_of(name);
        let ghost hs = self@.headers;
        assert(hs.subrange(0, hs.len() as int) =~= hs);
        let mut i: usize = 0;
        while i < self.headers.len()
            invariant
                i <= self.headers@.len(),
                lit@ == name@,
                hs == self@.headers,
                first_named(hs.subrange(i as int, hs.len() as int), name@) == first_named(hs, name@),
            decreases self.headers@.len() - i,
        {
            let key = chars_of(self.headers[i].0.as_str());
            assert(key@.subrange(0, key@.len() as int) =~= key@);
            assert(hs.subrange(i as int, hs.len() as int).drop_first() =~= hs.subrange(i + 1, hs.len() as int));
            if eq_ignore_case_exec(&key, 0, key.len(), &lit) {
                return Some(self.headers[i].1.as_str());
            }
            i = i + 1;
        }
        None
    }

    /// HTTP/1.1 reuses the connection unless `Connection: close`; HTTP/1.0 only
    /// reuses it with `Connection: keep-alive`.
    pub fn should_keep_alive(&self) -> (b: bool)
        ensures
            b == keep_alive_spec(self.version, self@.headers),
    {
        let connection = match self.header("connection") {
            Some(v) => chars_of(v),
            None => Vec::new(),
        };
        match self.version {
            Version::Http11 => !has_token(&connection, "close"),
            Version::Http10 => has_token(&connection, "keep-alive"),
        }
    }
}

} // verus!
