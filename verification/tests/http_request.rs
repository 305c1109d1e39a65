use rust_interview_lab::http_request::{decode_chunked, parse_request, Limits, Method, ParseError, Request, Version};

fn parse(raw: &[u8]) -> Result<Request, ParseError> {
    parse_request(raw, Limits::default())
}

#[test]
fn parses_a_get_and_a_post_with_content_length() {
    let get = parse(b"GET /v1/gpu-workloads HTTP/1.1\r\nHost: api\r\nAccept: */*\r\n\r\n").expect("valid");
    assert_eq!(get.method, Method::Get);
    assert_eq!(get.header("HOST"), Some("api"));
    assert!(get.body.is_empty());
    assert!(get.should_keep_alive());

    let post = parse(b"POST / HTTP/1.1\r\nHost: api\r\nContent-Length: 5\r\n\r\nhello").expect("valid");
    assert_eq!(post.body, b"hello");
    assert!(!post.method.is_idempotent());
}

#[test]
fn decodes_chunked_bodies() {
    let raw = b"POST /u HTTP/1.1\r\nHost: api\r\nTransfer-Encoding: chunked\r\n\r\n5\r\nhello\r\n6\r\n world\r\n0\r\n\r\n";
    assert_eq!(parse(raw).expect("valid").body, b"hello world");
}

#[test]
fn rejects_ambiguous_framing_and_bad_framing() {
    let smuggling = b"POST / HTTP/1.1\r\nHost: api\r\nContent-Length: 5\r\nTransfer-Encoding: chunked\r\n\r\nhello";
    assert_eq!(parse(smuggling), Err(ParseError::AmbiguousBodyLength));

    let gzip = b"POST / HTTP/1.1\r\nHost: api\r\nTransfer-Encoding: gzip\r\n\r\n";
    assert_eq!(parse(gzip), Err(ParseError::UnsupportedTransferEncoding));
}

#[test]
fn rejects_missing_host_and_line_folding() {
    assert_eq!(parse(b"GET / HTTP/1.1\r\nAccept: */*\r\n\r\n"), Err(ParseError::MissingHost));
    let folded = b"GET / HTTP/1.1\r\nHost: api\r\nX-A: 1\r\n continued\r\n\r\n";
    assert!(matches!(parse(folded), Err(ParseError::Malformed(_))));
}

#[test]
fn reports_incomplete_and_enforces_limits() {
    assert_eq!(parse(b"GET / HTTP/1.1\r\nHost: api\r\n"), Err(ParseError::Incomplete));
    let limits = Limits { max_header_bytes: 1024, max_body_bytes: 10 };
    let raw = b"POST / HTTP/1.1\r\nHost: api\r\nContent-Length: 999\r\n\r\n";
    assert_eq!(parse_request(raw, limits), Err(ParseError::PayloadTooLarge));
}

#[test]
fn http_1_0_needs_keep_alive_opt_in() {
    let raw = b"GET / HTTP/1.0\r\n\r\n";
    assert!(!parse(raw).expect("valid").should_keep_alive());
    let raw = b"GET / HTTP/1.0\r\nConnection: keep-alive\r\n\r\n";
    assert!(parse(raw).expect("valid").should_keep_alive());
}

#[test]
fn methods_parse_and_classify() {
    assert_eq!(Method::parse("PUT"), Some(Method::Put));
    assert_eq!(Method::parse("put"), None);
    assert!(Method::Get.is_safe());
    assert!(!Method::Delete.is_safe());
    assert!(Method::Delete.is_idempotent());
}

#[test]
fn request_fields_and_connection_close() {
    let r = parse(b"GET /a?b HTTP/1.1\r\nHost: api\r\nConnection: close\r\n\r\n").expect("valid");
    assert_eq!(r.target, "/a?b");
    assert_eq!(r.version, Version::Http11);
    assert!(!r.should_keep_alive());
    assert_eq!(r.header("missing"), None);
}

#[test]
fn chunked_decoder_reports_each_failure() {
    assert_eq!(decode_chunked(b"3\r\nabc\r\n0\r\n\r\n", 100), Ok(b"abc".to_vec()));
    assert_eq!(decode_chunked(b"3\r\nab", 100), Err(ParseError::Incomplete));
    assert_eq!(decode_chunked(b"5\r\nhello\r\n0\r\n\r\n", 4), Err(ParseError::PayloadTooLarge));
    assert!(matches!(decode_chunked(b"zz\r\n", 100), Err(ParseError::Malformed(_))));
}

#[test]
fn header_section_limit_is_enforced() {
    let limits = Limits { max_header_bytes: 8, max_body_bytes: 10 };
    assert_eq!(parse_request(b"GET / HTTP/1.1\r\nHost: api\r\n\r\n", limits), Err(ParseError::PayloadTooLarge));
}

#[test]
fn parse_errors_render_a_message() {
    assert_eq!(ParseError::Incomplete.to_string(), "incomplete request");
    assert_eq!(ParseError::Malformed("chunk size").to_string(), "malformed request: chunk size");
    assert_eq!(ParseError::MissingHost.to_string(), "HTTP/1.1 requires exactly one Host header");
    assert_eq!(
        ParseError::AmbiguousBodyLength.to_string(),
        "Content-Length and Transfer-Encoding are mutually exclusive"
    );
    assert_eq!(ParseError::UnsupportedTransferEncoding.to_string(), "unsupported Transfer-Encoding");
    assert_eq!(ParseError::PayloadTooLarge.to_string(), "request exceeds configured limits");
}

#[test]
fn bytes_after_a_complete_request_are_ignored() {
    let next = b"GET /next HTTP/1.1\r\nHost: api\r\n\r\n";
    let requests: [&[u8]; 3] = [
        b"GET /v1 HTTP/1.1\r\nHost: api\r\n\r\n",
        b"POST / HTTP/1.1\r\nHost: api\r\nContent-Length: 5\r\n\r\nhello",
        b"POST /u HTTP/1.1\r\nHost: api\r\nTransfer-Encoding: chunked\r\n\r\n5\r\nhello\r\n0\r\n\r\n",
    ];
    for raw in requests {
        let alone = parse(raw).expect("valid");
        let pipelined = parse(&[raw, &next[..]].concat()).expect("valid");
        assert_eq!(alone, pipelined);
    }
}
