//! Heads, headers and framing.

use rproxy::http::{
    find_head_end, header, host_without_port, parse_request_head, parse_response_head,
    remove_header, request_body_framing, response_body_framing, set_header, target_path,
    wants_keep_alive, write_request_head, write_response_head, BodyFraming, RequestHead,
    ResponseHead, Version,
};

fn fields(v: &[(&str, &str)]) -> Vec<(String, String)> {
    v.iter().map(|(n, x)| (n.to_string(), x.to_string())).collect()
}

#[test]
fn finds_head_end() {
    assert_eq!(find_head_end(b"GET / HTTP/1.1\r\n\r\nBODY"), Some(18));
    assert_eq!(find_head_end(b"GET / HTTP/1.1\r\nHost: x"), None);
}

#[test]
fn parses_request_head() {
    let raw = b"POST /api?x=1 HTTP/1.1\r\nHost: example.com\r\nContent-Length: 5\r\n\r\n";
    let head = parse_request_head(raw).unwrap();
    assert_eq!(head.method, "POST");
    assert_eq!(head.target, "/api?x=1");
    assert_eq!(head.version, Version::Http11);
    assert_eq!(header(&head.headers, "HOST"), Some("example.com"));
    assert_eq!(request_body_framing(&head).unwrap(), BodyFraming::Length(5));
}

#[test]
fn rejects_malformed_request_line() {
    assert!(parse_request_head(b"GET /\r\n\r\n").is_err());
    assert!(parse_request_head(b"GET / HTTP/2.0\r\n\r\n").is_err());
    assert!(parse_request_head(b"\r\n\r\n").is_err());
}

#[test]
fn rejects_space_before_colon() {
    let raw = b"GET / HTTP/1.1\r\nHost : evil\r\n\r\n";
    assert!(parse_request_head(raw).is_err());
}

#[test]
fn rejects_cl_plus_te() {
    let raw = b"POST / HTTP/1.1\r\nContent-Length: 5\r\nTransfer-Encoding: chunked\r\n\r\n";
    let head = parse_request_head(raw).unwrap();
    assert!(request_body_framing(&head).is_err());
}

#[test]
fn chunked_request_framing() {
    let raw = b"POST / HTTP/1.1\r\nTransfer-Encoding: chunked\r\n\r\n";
    let head = parse_request_head(raw).unwrap();
    assert_eq!(request_body_framing(&head).unwrap(), BodyFraming::Chunked);
}

#[test]
fn parses_response_head() {
    let raw = b"HTTP/1.1 404 Not Found\r\nContent-Length: 9\r\n\r\n";
    let head = parse_response_head(raw).unwrap();
    assert_eq!(head.status, 404);
    assert_eq!(head.reason, "Not Found");
    assert_eq!(response_body_framing("GET", &head).unwrap(), BodyFraming::Length(9));
}

#[test]
fn head_and_204_have_no_body() {
    let raw = b"HTTP/1.1 200 OK\r\nContent-Length: 100\r\n\r\n";
    let head = parse_response_head(raw).unwrap();
    assert_eq!(response_body_framing("HEAD", &head).unwrap(), BodyFraming::Empty);

    let raw = b"HTTP/1.1 204 No Content\r\n\r\n";
    let head = parse_response_head(raw).unwrap();
    assert_eq!(response_body_framing("GET", &head).unwrap(), BodyFraming::Empty);
}

#[test]
fn response_without_length_is_until_close() {
    let raw = b"HTTP/1.1 200 OK\r\nServer: old\r\n\r\n";
    let head = parse_response_head(raw).unwrap();
    assert_eq!(response_body_framing("GET", &head).unwrap(), BodyFraming::UntilClose);
}

#[test]
fn keep_alive_defaults() {
    let h11: Vec<(String, String)> = vec![];
    assert!(wants_keep_alive(Version::Http11, &h11));
    assert!(!wants_keep_alive(Version::Http10, &h11));
    let close = vec![("Connection".to_string(), "close".to_string())];
    assert!(!wants_keep_alive(Version::Http11, &close));
    let ka = vec![("Connection".to_string(), "keep-alive".to_string())];
    assert!(wants_keep_alive(Version::Http10, &ka));
}

#[test]
fn refusals_of_heads_say_why() {
    let e = parse_request_head(b"GET / HTTP/3\r\n\r\n").unwrap_err();
    assert_eq!(e.message, "unsupported HTTP version: HTTP/3");
    let e = parse_request_head(b"GET / HTTP/1.1\r\nno colon here\r\n\r\n").unwrap_err();
    assert_eq!(e.message, "malformed header line: \"no colon here\"");
    let e = parse_request_head(&[0x47, 0xff, 0x0d, 0x0a, 0x0d, 0x0a]).unwrap_err();
    assert_eq!(e.message, "head is not valid UTF-8");
    assert!(parse_response_head(b"HTTP/1.1 099 Odd\r\n\r\n").is_err());
    assert!(parse_response_head(b"HTTP/1.1 600 Odd\r\n\r\n").is_err());
    assert!(parse_response_head(b"HTTP/1.1\r\n\r\n").is_err());
    assert_eq!(parse_response_head(b"HTTP/1.0 200\r\n\r\n").unwrap().reason, "");
}

#[test]
fn unclear_framings_are_refused() {
    let raw = b"POST / HTTP/1.1\r\nTransfer-Encoding: gzip\r\n\r\n";
    assert!(request_body_framing(&parse_request_head(raw).unwrap()).is_err());
    let raw = b"POST / HTTP/1.1\r\nContent-Length: five\r\n\r\n";
    assert!(request_body_framing(&parse_request_head(raw).unwrap()).is_err());
    let raw = b"POST / HTTP/1.1\r\nContent-Length: -5\r\n\r\n";
    assert!(request_body_framing(&parse_request_head(raw).unwrap()).is_err());
    let raw = b"POST / HTTP/1.1\r\nContent-Length: 0\r\n\r\n";
    let head = parse_request_head(raw).unwrap();
    assert_eq!(request_body_framing(&head).unwrap(), BodyFraming::Empty);
}

#[test]
fn a_removed_field_is_gone_in_any_case() {
    let mut h = fields(&[("A", "1"), ("x-b", "2"), ("X-B", "3"), ("C", "4")]);
    remove_header(&mut h, "X-b");
    assert_eq!(h, fields(&[("A", "1"), ("C", "4")]));
    assert_eq!(header(&h, "x-b"), None);
}

#[test]
fn a_set_field_is_the_only_one() {
    let mut h = fields(&[("A", "1"), ("x-b", "2"), ("X-B", "3")]);
    set_header(&mut h, "X-B", "new");
    assert_eq!(h, fields(&[("A", "1"), ("X-B", "new")]));
    assert_eq!(header(&h, "x-B"), Some("new"));
}

#[test]
fn hosts_lose_their_port() {
    assert_eq!(host_without_port("example.com:8080"), "example.com");
    assert_eq!(host_without_port("example.com"), "example.com");
    assert_eq!(host_without_port("[::1]:8080"), "[::1]");
}

#[test]
fn targets_lose_their_query() {
    assert_eq!(target_path("/a/b?c=d?e"), "/a/b");
    assert_eq!(target_path("/a/b"), "/a/b");
}

#[test]
fn a_written_request_reads_back() {
    let head = RequestHead {
        method: "PUT".to_string(),
        target: "/a?b=c".to_string(),
        version: Version::Http11,
        headers: fields(&[("Host", "x"), ("X-Long", "a b c")]),
    };
    let bytes = write_request_head(&head);
    assert_eq!(bytes, b"PUT /a?b=c HTTP/1.1\r\nHost: x\r\nX-Long: a b c\r\n\r\n");
    let back = parse_request_head(&bytes).unwrap();
    assert_eq!(back.method, head.method);
    assert_eq!(back.target, head.target);
    assert_eq!(back.headers, head.headers);
}

#[test]
fn a_written_response_reads_back() {
    let head = ResponseHead {
        version: Version::Http10,
        status: 503,
        reason: "Service Unavailable".to_string(),
        headers: fields(&[("Retry-After", "1")]),
    };
    let bytes = write_response_head(&head);
    assert_eq!(bytes, b"HTTP/1.0 503 Service Unavailable\r\nRetry-After: 1\r\n\r\n");
    let back = parse_response_head(&bytes).unwrap();
    assert_eq!(back.status, 503);
    assert_eq!(back.reason, head.reason);
    assert_eq!(back.headers, head.headers);
    assert_eq!(back.version, Version::Http10);
}

#[test]
fn a_written_head_ends_at_its_blank_line() {
    let req = RequestHead {
        method: "GET".into(),
        target: "/\u{e9}".into(),
        version: Version::Http11,
        headers: fields(&[("Host", "x"), ("Empty", ""), ("Name", "\u{4e2d}")]),
    };
    let out = write_request_head(&req);
    assert_eq!(find_head_end(&out), Some(out.len()));
    assert_eq!(out.windows(2).filter(|w| *w == b"\r\n").count(), 5);
    let resp = ResponseHead {
        version: Version::Http10,
        status: 200,
        reason: "".into(),
        headers: vec![],
    };
    let out = write_response_head(&resp);
    assert_eq!(find_head_end(&out), Some(out.len()));
    assert_eq!(out.windows(2).filter(|w| *w == b"\r\n").count(), 2);
}
