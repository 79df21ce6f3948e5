//! Connections, bodies, and the decisions of an exchange.

use rproxy::balancer::{Lease, Upstream};
use rproxy::fault::{Fault, FaultKind};
use rproxy::http::{
    header, request_body_framing, response_body_framing, BodyFraming, RequestHead, ResponseHead,
    Version,
};
use rproxy::ip::IpAddr;
use rproxy::middleware::auth::{Auth, Credential};
use rproxy::middleware::{Chain, Shared};
use rproxy::proxy::conn::{BodyCopy, Conn, Relay, Step, Wanted, BUF_SIZE};
use rproxy::proxy::exchange::{
    on_body_sent, on_dialed, on_head, on_head_written, on_relayed, on_response, pick_server,
    run_layers, turn_away, Admission, Asked, Attempt, BodySent, Client, Dial, Dialed, Finish, Gate,
    HeadEvent, Next, Picked, Response, Sent, Written,
};
use rproxy::proxy::{
    answer_head, error_response, error_response_with, forward_head, is_idempotent, is_poolable,
    rejection_response, sent_close, strip_hop_by_hop,
};
use rproxy::rewrite::{ForwardContext, RewriteRules};
use rproxy::router::{resolve_route, Route, RouteTable};
use rproxy::security::Limits;
use rproxy::time::{Duration, Instant};
use rproxy::waf::{Reputation, RuleSet};

/// A connection of which the bytes are at hand, in pieces.
struct Pipe {
    conn: Conn,
    pieces: Vec<Vec<u8>>,
}

impl Pipe {
    fn new(data: &[u8]) -> Pipe {
        Pipe::cut(data, usize::MAX)
    }

    /// The bytes arrive in pieces of that length.
    fn cut(data: &[u8], len: usize) -> Pipe {
        let len = len.min(BUF_SIZE);
        let mut pieces: Vec<Vec<u8>> = data.chunks(len).map(|c| c.to_vec()).collect();
        pieces.reverse();
        Pipe { conn: Conn::new(), pieces }
    }

    /// Reads once; nothing at the end of the stream.
    fn read(&mut self) -> bool {
        match self.pieces.pop() {
            None => false,
            Some(mut p) => {
                let room = self.conn.room();
                if p.len() > room {
                    let rest = p.split_off(room);
                    self.pieces.push(rest);
                }
                self.conn.feed(&p);
                true
            }
        }
    }

    fn read_head(&mut self) -> Result<Option<Vec<u8>>, Fault> {
        loop {
            match self.conn.read_head()? {
                Wanted::Head(h) => return Ok(Some(h)),
                Wanted::Read => {
                    if !self.read() {
                        self.conn.head_eof()?;
                        return Ok(None);
                    }
                }
            }
        }
    }

    fn run(&mut self, relay: Relay, out: &mut Vec<u8>) -> Result<BodyCopy, Fault> {
        let mut relay = relay;
        loop {
            match relay.step(&mut self.conn)? {
                Step::Write(w) => out.extend_from_slice(&w),
                Step::Ended(b) => return Ok(b),
                Step::Read => {
                    if !self.read() {
                        return relay.eof();
                    }
                }
            }
        }
    }

    fn copy_body_limited(
        &mut self,
        out: &mut Vec<u8>,
        framing: BodyFraming,
        max: Option<u64>,
    ) -> Result<BodyCopy, Fault> {
        self.run(Relay::start(framing, max), out)
    }

    fn copy_body_to(&mut self, out: &mut Vec<u8>, framing: BodyFraming) -> Result<bool, Fault> {
        match self.copy_body_limited(out, framing, None)? {
            BodyCopy::Done { reusable } => Ok(reusable),
            BodyCopy::TooLarge => panic!("no limit was given"),
        }
    }

    fn drain_body(&mut self, framing: BodyFraming, cap: u64) -> Result<bool, Fault> {
        let mut sink = Vec::new();
        Ok(self.run(Relay::drain(framing, cap), &mut sink)? != BodyCopy::TooLarge)
    }
}

#[test]
fn length_body_over_cap_is_refused_without_copying() {
    let mut conn = Pipe::new(b"0123456789");
    let mut out = Vec::new();
    let r = conn.copy_body_limited(&mut out, BodyFraming::Length(10), Some(4)).unwrap();
    assert_eq!(r, BodyCopy::TooLarge);
    assert!(out.is_empty(), "no body byte may be forwarded when over cap");
}

#[test]
fn length_body_at_the_cap_is_allowed() {
    let mut conn = Pipe::new(b"01234");
    let mut out = Vec::new();
    let r = conn.copy_body_limited(&mut out, BodyFraming::Length(5), Some(5)).unwrap();
    assert_eq!(r, BodyCopy::Done { reusable: true });
    assert_eq!(out, b"01234");
}

#[test]
fn chunked_body_over_cap_stops_mid_stream() {
    let body = b"4\r\naaaa\r\n4\r\nbbbb\r\n4\r\ncccc\r\n0\r\n\r\n";
    let mut conn = Pipe::new(body);
    let mut out = Vec::new();
    let r = conn.copy_body_limited(&mut out, BodyFraming::Chunked, Some(10)).unwrap();
    assert_eq!(r, BodyCopy::TooLarge);
    let sent = String::from_utf8_lossy(&out);
    assert!(sent.contains("aaaa") && sent.contains("bbbb"), "got {sent:?}");
    assert!(!sent.contains("cccc"), "chunk crossing the cap leaked: {sent:?}");
}

#[test]
fn single_oversized_chunk_is_caught_before_its_header() {
    let body = b"20\r\naaaaaaaaaaaaaaaaaaaaaaaaaaaaaaaa\r\n0\r\n\r\n";
    let mut conn = Pipe::new(body);
    let mut out = Vec::new();
    let r = conn.copy_body_limited(&mut out, BodyFraming::Chunked, Some(10)).unwrap();
    assert_eq!(r, BodyCopy::TooLarge);
    assert!(out.is_empty(), "oversized chunk emitted framing: {out:?}");
}

#[test]
fn chunked_body_under_cap_passes_through_whole() {
    let body = b"4\r\naaaa\r\n4\r\nbbbb\r\n0\r\n\r\n";
    let mut conn = Pipe::new(body);
    let mut out = Vec::new();
    let r = conn.copy_body_limited(&mut out, BodyFraming::Chunked, Some(1024)).unwrap();
    assert_eq!(r, BodyCopy::Done { reusable: true });
    assert_eq!(String::from_utf8_lossy(&out), "4\r\naaaa\r\n4\r\nbbbb\r\n0\r\n\r\n");
}

#[test]
fn no_cap_allows_any_size() {
    let big = vec![b'x'; 32 * 1024];
    let mut conn = Pipe::new(&big);
    let mut out = Vec::new();
    let r = conn
        .copy_body_limited(&mut out, BodyFraming::Length(big.len() as u64), None)
        .unwrap();
    assert_eq!(r, BodyCopy::Done { reusable: true });
    assert_eq!(out.len(), big.len());
}

#[test]
fn empty_body_passes_any_cap() {
    let mut conn = Pipe::new(b"");
    let mut out = Vec::new();
    let r = conn.copy_body_limited(&mut out, BodyFraming::Empty, Some(0)).unwrap();
    assert_eq!(r, BodyCopy::Done { reusable: true });
}

#[test]
fn read_head_can_be_timed_out() {
    // Without bytes the reader only ever asks for another read.
    let mut conn = Conn::new();
    for _ in 0..3 {
        assert!(matches!(conn.read_head(), Ok(Wanted::Read)));
    }
}

#[test]
fn reads_head_across_fragmented_input() {
    let mut conn = Pipe { conn: Conn::new(), pieces: vec![] };
    for frag in [&b" x\r\n\r\n"[..], b"TP/1.1\r\nHost:", b"GET / HT"] {
        conn.pieces.push(frag.to_vec());
    }
    let head = conn.read_head().unwrap().unwrap();
    assert!(head.ends_with(b"\r\n\r\n"));
    assert!(head.starts_with(b"GET / HTTP/1.1"));
}

#[test]
fn clean_eof_returns_none() {
    let mut conn = Pipe::new(b"");
    assert!(conn.read_head().unwrap().is_none());
}

#[test]
fn eof_mid_head_is_error() {
    let mut conn = Pipe::new(b"GET / HTTP/1.1\r\nHos");
    let e = conn.read_head().unwrap_err();
    assert_eq!(e.kind, FaultKind::UnexpectedEof);
    assert_eq!(e.message, "connection closed mid-head");
}

#[test]
fn preserves_pipelined_bytes_after_head() {
    let mut conn = Pipe::new(
        b"POST / HTTP/1.1\r\nContent-Length: 5\r\n\r\nhelloGET /next HTTP/1.1\r\n\r\n",
    );
    let _head = conn.read_head().unwrap().unwrap();
    let mut body = Vec::new();
    conn.copy_body_to(&mut body, BodyFraming::Length(5)).unwrap();
    assert_eq!(body, b"hello");
    let head2 = conn.read_head().unwrap().unwrap();
    assert!(head2.starts_with(b"GET /next"));
}

#[test]
fn copies_chunked_body_verbatim() {
    let raw = b"5\r\nhello\r\n6\r\n world\r\n0\r\n\r\n";
    let mut conn = Pipe::new(raw);
    let mut out = Vec::new();
    conn.copy_body_to(&mut out, BodyFraming::Chunked).unwrap();
    assert_eq!(out, raw);
}

#[test]
fn chunked_with_extension_is_normalized() {
    let raw = b"5;ext=1\r\nhello\r\n0\r\n\r\n";
    let mut conn = Pipe::new(raw);
    let mut out = Vec::new();
    conn.copy_body_to(&mut out, BodyFraming::Chunked).unwrap();
    assert_eq!(out, b"5\r\nhello\r\n0\r\n\r\n");
}

#[test]
fn rejects_garbage_chunk_size() {
    let mut conn = Pipe::new(b"zzz\r\nhello\r\n0\r\n\r\n");
    let mut out = Vec::new();
    let e = conn.copy_body_to(&mut out, BodyFraming::Chunked).unwrap_err();
    assert_eq!(e.message, "invalid chunk size: \"zzz\"");
}

#[test]
fn drain_length_body_within_cap_keeps_alive() {
    let mut conn = Pipe::new(b"hello");
    assert!(conn.drain_body(BodyFraming::Length(5), 64 * 1024).unwrap());
}

#[test]
fn drain_oversized_length_signals_close() {
    let mut conn = Pipe::new(&vec![b'x'; 1024]);
    assert!(!conn.drain_body(BodyFraming::Length(100 * 1024), 1024).unwrap());
}

#[test]
fn drain_then_next_request_parses() {
    let mut conn = Pipe::new(b"helloGET /next HTTP/1.1\r\n\r\n");
    assert!(conn.drain_body(BodyFraming::Length(5), 64 * 1024).unwrap());
    let head = conn.read_head().unwrap().unwrap();
    assert!(head.starts_with(b"GET /next"));
}

#[test]
fn until_close_copies_to_eof() {
    let mut conn = Pipe::new(b"raw bytes until eof");
    let mut out = Vec::new();
    let reusable = conn.copy_body_to(&mut out, BodyFraming::UntilClose).unwrap();
    assert_eq!(out, b"raw bytes until eof");
    assert!(!reusable);
}

#[test]
fn strips_hop_by_hop_and_connection_named() {
    let mut headers = vec![
        ("Host".to_string(), "x".to_string()),
        ("Connection".to_string(), "close, X-Custom".to_string()),
        ("Keep-Alive".to_string(), "timeout=5".to_string()),
        ("X-Custom".to_string(), "die".to_string()),
        ("Accept".to_string(), "*/*".to_string()),
    ];
    strip_hop_by_hop(&mut headers);
    let names: Vec<&str> = headers.iter().map(|(n, _)| n.as_str()).collect();
    assert_eq!(names, vec!["Host", "Accept"]);
}

#[test]
fn idempotent_methods_are_retryable() {
    for m in ["GET", "HEAD", "PUT", "DELETE", "OPTIONS", "TRACE"] {
        assert!(is_idempotent(m), "{m} should be retryable");
    }
    for m in ["POST", "PATCH", "CONNECT", "WEIRD"] {
        assert!(!is_idempotent(m), "{m} must NOT be retried");
    }
    assert!(is_idempotent("get"));
}

#[test]
fn poolable_when_all_five_conditions_hold() {
    assert!(is_poolable(BodyFraming::Length(5), false, true, false, true));
}

#[test]
fn not_poolable_on_until_close_framing() {
    assert!(!is_poolable(BodyFraming::UntilClose, false, true, false, true));
}

#[test]
fn not_poolable_when_backend_sent_connection_close() {
    assert!(!is_poolable(BodyFraming::Length(5), true, true, false, true));
}

#[test]
fn not_poolable_on_http10_backend() {
    assert!(!is_poolable(BodyFraming::Length(5), false, false, false, true));
}

#[test]
fn not_poolable_when_exchange_errored() {
    assert!(!is_poolable(BodyFraming::Length(5), false, true, true, true));
}

#[test]
fn not_poolable_when_buffer_not_empty() {
    assert!(!is_poolable(BodyFraming::Length(5), false, true, false, false));
}

#[test]
fn conn_buffer_is_empty_true_when_fully_consumed() {
    let mut conn = Pipe::new(b"GET / HTTP/1.1\r\n\r\n");
    let _ = conn.read_head().unwrap();
    assert!(conn.conn.buffer_is_empty());
}

#[test]
fn conn_buffer_is_empty_false_with_leftover_bytes() {
    let mut conn = Pipe::new(b"GET / HTTP/1.1\r\n\r\nGET /next HTTP/1.1\r\n\r\n");
    let _ = conn.read_head().unwrap();
    assert!(!conn.conn.buffer_is_empty());
}

#[test]
fn heads_over_the_limit_are_refused() {
    let mut conn = Pipe::new(&vec![b'x'; 20_000]);
    let e = conn.read_head().unwrap_err();
    assert_eq!(e.kind, FaultKind::InvalidData);
    assert_eq!(e.message, "request head exceeds limit");
}

#[test]
fn a_head_may_fill_the_limit() {
    for (len, whole) in [(16_384, true), (16_385, false)] {
        for cut in [1_000, usize::MAX] {
            let mut data = vec![b'x'; len - 4];
            data.extend_from_slice(b"\r\n\r\nrest");
            let mut conn = Pipe::cut(&data, cut);
            match conn.read_head() {
                Ok(Some(head)) => assert!(whole && head.len() == len),
                Ok(None) => panic!("no head"),
                Err(e) => assert!(!whole && e.message == "request head exceeds limit"),
            }
        }
    }
}

#[test]
fn streams_may_be_cut_anywhere() {
    let raw = b"5;x\r\nhello\r\n1\r\n!\r\n0\r\nTrailer: 1\r\n\r\nGET";
    for len in 1..raw.len() {
        let mut conn = Pipe::cut(raw, len);
        let mut out = Vec::new();
        let r = conn.copy_body_limited(&mut out, BodyFraming::Chunked, Some(6)).unwrap();
        assert_eq!(r, BodyCopy::Done { reusable: true });
        assert_eq!(out, b"5\r\nhello\r\n1\r\n!\r\n0\r\nTrailer: 1\r\n\r\n");
        while conn.read() {}
        assert_eq!(conn.conn.buf, b"GET");
    }
}

#[test]
fn chunks_need_their_separator() {
    let mut conn = Pipe::new(b"2\r\nabX\r\n0\r\n\r\n");
    let mut out = Vec::new();
    let e = conn.copy_body_to(&mut out, BodyFraming::Chunked).unwrap_err();
    assert_eq!(e.message, "missing CRLF after chunk data");
}

#[test]
fn endless_lines_are_refused() {
    let mut conn = Pipe::new(&vec![b'1'; 20_000]);
    let mut out = Vec::new();
    let e = conn.copy_body_to(&mut out, BodyFraming::Chunked).unwrap_err();
    assert_eq!(e.message, "chunk line too long");
}

#[test]
fn bodies_that_end_early_are_failures() {
    let mut out = Vec::new();
    let e = Pipe::new(b"abc").copy_body_to(&mut out, BodyFraming::Length(5)).unwrap_err();
    assert_eq!(e.kind, FaultKind::UnexpectedEof);
    assert_eq!(e.message, "connection closed mid-body");
    let e = Pipe::new(b"5\r\nab").copy_body_to(&mut out, BodyFraming::Chunked).unwrap_err();
    assert_eq!(e.message, "connection closed mid-body");
    let e = Pipe::new(b"5").copy_body_to(&mut out, BodyFraming::Chunked).unwrap_err();
    assert_eq!(e.message, "connection closed mid-chunk");
}

#[test]
fn chunked_bodies_are_drained_up_to_the_cap() {
    let raw = b"4\r\naaaa\r\n0\r\n\r\nGET";
    let mut conn = Pipe::new(raw);
    assert!(conn.drain_body(BodyFraming::Chunked, 4).unwrap());
    assert_eq!(conn.conn.buf, b"GET");
    assert!(!Pipe::new(raw).drain_body(BodyFraming::Chunked, 3).unwrap());
    assert!(!Pipe::new(raw).drain_body(BodyFraming::UntilClose, 100).unwrap());
    assert!(Pipe::new(raw).drain_body(BodyFraming::Empty, 0).unwrap());
}

// ---------------------------------------------------------------------------
// Heads
// ---------------------------------------------------------------------------

fn request(method: &str, headers: &[(&str, &str)]) -> RequestHead {
    RequestHead {
        method: method.into(),
        target: "/a".into(),
        version: Version::Http10,
        headers: headers.iter().map(|(n, v)| (n.to_string(), v.to_string())).collect(),
    }
}

fn response(status: u16, headers: &[(&str, &str)]) -> ResponseHead {
    ResponseHead {
        version: Version::Http10,
        status,
        reason: "OK".into(),
        headers: headers.iter().map(|(n, v)| (n.to_string(), v.to_string())).collect(),
    }
}

#[test]
fn forwarded_heads_are_framed_once() {
    let mut req = request(
        "POST",
        &[("Host", "x"), ("Transfer-Encoding", "chunked"), ("Connection", "keep-alive")],
    );
    let ctx = ForwardContext {
        client_ip: "1.2.3.4".into(),
        original_host: Some("x"),
        scheme: "https",
    };
    forward_head(&mut req, BodyFraming::Chunked, &RewriteRules::default(), &ctx);
    assert_eq!(req.version, Version::Http11);
    let te: Vec<_> = req
        .headers
        .iter()
        .filter(|(n, _)| n.eq_ignore_ascii_case("transfer-encoding"))
        .collect();
    assert_eq!(te.len(), 1);
    assert_eq!(header(&req.headers, "connection"), Some("keep-alive"));
    assert_eq!(header(&req.headers, "x-forwarded-proto"), Some("https"));
    assert_eq!(request_body_framing(&req).unwrap(), BodyFraming::Chunked);
}

#[test]
fn framings_survive_the_passage() {
    let ctx = || ForwardContext { client_ip: "1.2.3.4".into(), original_host: None, scheme: "http" };
    let mut req = request("POST", &[("Content-Length", "7"), ("Connection", "close, x-a")]);
    forward_head(&mut req, BodyFraming::Length(7), &RewriteRules::default(), &ctx());
    assert_eq!(request_body_framing(&req).unwrap(), BodyFraming::Length(7));
    let mut resp = response(200, &[("Content-Length", "7"), ("Transfer-Encoding", "chunked")]);
    assert_eq!(response_body_framing("GET", &resp).unwrap(), BodyFraming::Chunked);
    answer_head(&mut resp, BodyFraming::Chunked, &RewriteRules::default(), false);
    assert_eq!(response_body_framing("GET", &resp).unwrap(), BodyFraming::Chunked);
    assert_eq!(header(&resp.headers, "connection"), Some("close"));
}

#[test]
fn framings_without_a_length_survive_a_named_length() {
    let ctx = || ForwardContext { client_ip: "1.2.3.4".into(), original_host: None, scheme: "http" };
    let named = ("Connection", "content-length");
    for (fields, framing) in [
        (vec![named, ("Transfer-Encoding", "chunked")], BodyFraming::Chunked),
        (vec![named, ("Content-Length", "0")], BodyFraming::Empty),
        (vec![named], BodyFraming::Empty),
    ] {
        let mut req = request("POST", &fields);
        assert_eq!(request_body_framing(&req).unwrap(), framing);
        forward_head(&mut req, framing, &RewriteRules::default(), &ctx());
        assert_eq!(request_body_framing(&req).unwrap(), framing);
    }
    for (method, fields, framing) in [
        ("GET", vec![named, ("Transfer-Encoding", "chunked")], BodyFraming::Chunked),
        ("HEAD", vec![named, ("Content-Length", "7")], BodyFraming::Empty),
        ("GET", vec![named], BodyFraming::UntilClose),
    ] {
        let mut resp = response(200, &fields);
        assert_eq!(response_body_framing(method, &resp).unwrap(), framing);
        answer_head(&mut resp, framing, &RewriteRules::default(), true);
        assert_eq!(response_body_framing(method, &resp).unwrap(), framing);
    }
}

#[test]
fn answered_heads_are_framed_once() {
    let mut resp = response(200, &[("Transfer-Encoding", "chunked"), ("Connection", "close")]);
    let usable = answer_head(&mut resp, BodyFraming::Chunked, &RewriteRules::default(), true);
    assert!(usable);
    assert_eq!(resp.version, Version::Http11);
    assert_eq!(header(&resp.headers, "transfer-encoding"), Some("chunked"));
    assert_eq!(header(&resp.headers, "connection"), Some("keep-alive"));

    let mut resp = response(200, &[]);
    let usable = answer_head(&mut resp, BodyFraming::UntilClose, &RewriteRules::default(), true);
    assert!(!usable);
    assert_eq!(header(&resp.headers, "connection"), Some("close"));
}

#[test]
fn errors_close_the_connection() {
    assert_eq!(
        error_response(404, "Not Found"),
        b"HTTP/1.1 404 Not Found\r\nContent-Type: text/plain\r\nContent-Length: 14\r\nConnection: close\r\n\r\n404 Not Found\n"
    );
    let more = error_response_with(429, "Slow", &vec![("Retry-After".into(), "3".into())]);
    assert!(String::from_utf8(more).unwrap().contains("\r\nRetry-After: 3\r\n\r\n429 Slow\n"));
}

#[test]
fn refusals_own_their_framing() {
    let resp = response(401, &[("Content-Length", "999"), ("X-Request-Id", "i"), ("connection", "x")]);
    let text = String::from_utf8(rejection_response(&resp, "no\n", true)).unwrap();
    assert_eq!(
        text,
        "HTTP/1.1 401 OK\r\nX-Request-Id: i\r\nContent-Type: text/plain\r\nContent-Length: 3\r\nConnection: keep-alive\r\n\r\nno\n"
    );
}

#[test]
fn closing_backends_say_so() {
    let h = |v: &str| vec![("Connection".to_string(), v.to_string())];
    assert!(sent_close(&h("foo, Close")));
    assert!(!sent_close(&h("keep-alive")));
    assert!(!sent_close(&[]));
}

// ---------------------------------------------------------------------------
// Exchanges
// ---------------------------------------------------------------------------

fn table() -> RouteTable {
    let names = vec!["api".to_string()];
    let none = vec![];
    let a = resolve_route("/a=api", &names, true, true, true, &none).unwrap();
    RouteTable::new(vec![a], vec![Upstream::from_spec("api", "127.0.0.1:1,127.0.0.1:2").unwrap()])
}

fn limits() -> Limits {
    Limits { max_body: 10, max_headers: 3 }
}

fn client() -> Client {
    Client {
        ip: IpAddr::V4(0x0102_0304),
        shown: "1.2.3.4:5".into(),
        ip_shown: "1.2.3.4".into(),
        scheme: "http",
        limits: limits(),
    }
}

fn t(n: u64) -> Instant {
    Instant { nanos: n }
}

fn gate(head: &[u8]) -> Gate {
    on_head(HeadEvent::Bytes(head.to_vec()), &limits(), &table())
}

fn refused(g: Gate) -> (u16, bool, Option<String>) {
    match g {
        Gate::Refuse(r) => (r.status, r.must_send, r.fault.map(|f| f.message)),
        _ => panic!("expected a refusal"),
    }
}

#[test]
fn heads_pass_the_gates_in_order() {
    assert_eq!(refused(on_head(HeadEvent::TimedOut, &limits(), &table())), (408, false, None));
    assert!(matches!(on_head(HeadEvent::Closed, &limits(), &table()), Gate::Close));
    let fault = Fault { kind: FaultKind::UnexpectedEof, message: "gone".into() };
    assert_eq!(
        refused(on_head(HeadEvent::Failed(fault), &limits(), &table())),
        (400, false, Some("gone".into()))
    );
    assert_eq!(refused(gate(b"nonsense\r\n\r\n")).0, 400);
    assert_eq!(refused(gate(b"GET /a HTTP/1.1\r\nA: 1\r\nB: 1\r\nC: 1\r\nD: 1\r\n\r\n")).0, 431);
    assert_eq!(refused(gate(b"GET /a HTTP/1.1\r\nTransfer-Encoding: odd\r\n\r\n")).0, 400);
    assert_eq!(refused(gate(b"GET /a HTTP/1.1\r\nContent-Length: 11\r\n\r\n")), (413, true, None));
    assert_eq!(refused(gate(b"GET /b HTTP/1.1\r\n\r\n")), (404, true, None));
    match gate(b"GET /a?x HTTP/1.0\r\nHost: h:1\r\nContent-Length: 10\r\n\r\n") {
        Gate::Pass(a) => {
            assert_eq!(a.route, 0);
            assert_eq!(a.framing, BodyFraming::Length(10));
            assert!(!a.keep);
            assert_eq!(a.host.as_deref(), Some("h:1"));
        }
        _ => panic!("expected a route"),
    }
}

fn shared() -> Shared {
    Shared {
        now: t(0),
        reputation: Reputation::new(3, Duration::from_secs(60)),
        rules: RuleSet::compiled().unwrap(),
    }
}

fn asked(method: &str) -> Asked {
    Asked {
        req: request(method, &[("Host", "h")]),
        framing: BodyFraming::Empty,
        keep: true,
        route: 0,
        host: Some("h".into()),
    }
}

fn attempt(method: &str) -> Attempt {
    let mut chain = Chain::<Auth>::new(vec![]);
    let rules = RewriteRules::default();
    match run_layers(&client(), asked(method), &rules, &mut chain, &mut shared(), t(1)) {
        Admission::Forward(a) => a,
        _ => panic!("no layer refuses"),
    }
}

#[test]
fn admitted_requests_are_rewritten_once() {
    let a = attempt("GET");
    assert_eq!(
        String::from_utf8(a.head).unwrap(),
        "GET /a HTTP/1.1\r\nHost: h\r\nX-Forwarded-For: 1.2.3.4\r\nX-Real-IP: 1.2.3.4\r\nX-Forwarded-Host: h\r\nX-Forwarded-Proto: http\r\nConnection: keep-alive\r\n\r\n"
    );
    assert!(a.retryable);
    assert_eq!(a.tries, 0);
}

#[test]
fn refused_requests_are_turned_away() {
    let auth = Auth {
        creds: vec![Credential::Bearer { token: "t".into(), label: "l".into() }],
        realm: "r".into(),
    };
    let mut chain = Chain::new(vec![auth]);
    let rules = RewriteRules::default();
    let turned =
        match run_layers(&client(), asked("GET"), &rules, &mut chain, &mut shared(), t(1)) {
            Admission::Drain(x) => x,
            _ => panic!("expected a refusal"),
        };
    assert_eq!(turned.entered, 0);
    assert_eq!(turned.ctx.rejected_by, Some("auth"));
    let reply = turn_away(&chain, turned, true);
    assert!(reply.keep);
    let text = String::from_utf8(reply.bytes).unwrap();
    assert!(text.starts_with("HTTP/1.1 401 "), "{text}");
    assert!(text.contains("\r\nConnection: keep-alive\r\n"), "{text}");
}

fn dial(table: &mut RouteTable, a: Attempt) -> Dial {
    match pick_server(table, a, client().ip, 0, t(2)) {
        Picked::Connect(d) => d,
        _ => panic!("expected a server"),
    }
}

#[test]
fn failed_connects_try_another_server() {
    let mut table = table();
    let mut a = attempt("GET");
    for n in 1..=2 {
        let d = dial(&mut table, a);
        a = match on_dialed(&mut table, d, Dialed::Failed, t(3)) {
            Next::Again(x) => x,
            _ => panic!("expected another try"),
        };
        assert_eq!(a.tries, n);
    }
    let d = dial(&mut table, a);
    match on_dialed(&mut table, d, Dialed::TimedOut, t(3)) {
        Next::Refuse(r) => assert_eq!(r.status, 504),
        _ => panic!("expected a refusal"),
    }
    assert!(table.pool(0).servers.iter().all(|s| s.inflight() == 0));

    let d = dial(&mut table, attempt("POST"));
    match on_dialed(&mut table, d, Dialed::Failed, t(3)) {
        Next::Refuse(r) => assert_eq!(r.status, 502),
        _ => panic!("a POST is never tried again"),
    }
}

#[test]
fn exhausted_pools_are_a_bad_gateway() {
    let mut table = table();
    for s in &mut table.pools[0].servers {
        for _ in 0..100 {
            s.record_failure(t(1));
        }
    }
    match pick_server(&mut table, attempt("GET"), client().ip, 0, t(2)) {
        Picked::Refuse(r) => assert_eq!((r.status, r.reason), (502, "Bad Gateway")),
        _ => panic!("expected a refusal"),
    }
}

fn sent(table: &mut RouteTable) -> Sent {
    let d = dial(table, attempt("GET"));
    let d = match on_dialed(table, d, Dialed::Open, t(3)) {
        Next::Write(d) => d,
        _ => panic!("expected a connection"),
    };
    match on_head_written(table, d, true, t(4)) {
        Written::Body(s) => s,
        _ => panic!("expected the body"),
    }
}

#[test]
fn dead_pooled_connections_are_tried_again() {
    let mut table = table();
    let d = dial(&mut table, attempt("GET"));
    assert!(matches!(on_head_written(&mut table, d, false, t(4)), Written::Again(_)));
    assert!(table.pool(0).servers.iter().all(|s| s.inflight() == 0));
}

#[test]
fn sent_requests_count_as_failures_until_proved_otherwise() {
    let mut table = table();
    let s = sent(&mut table);
    assert_eq!(s.lease.outcome, Some(false));
    assert!(s.lease.served);
    assert_eq!(s.ctx.upstream.as_deref(), Some("api"));
    assert_eq!(s.ctx.backend.as_deref(), Some("127.0.0.1:1"));
    match on_body_sent(&mut table, s, Ok(BodyCopy::TooLarge), t(5)) {
        BodySent::Refuse(r) => assert_eq!(r.status, 413),
        _ => panic!("expected a refusal"),
    }
    assert_eq!(table.pool(0).servers[0].inflight(), 0);
}

#[test]
fn responses_are_relayed_and_judged() {
    let mut table = table();
    let chain = Chain::<Auth>::new(vec![]);
    let s = sent(&mut table);
    let s = match on_body_sent(&mut table, s, Ok(BodyCopy::Done { reusable: true }), t(5)) {
        BodySent::Await(s) => s,
        _ => panic!("expected the response"),
    };
    let head = b"HTTP/1.1 200 OK\r\nContent-Length: 2\r\n\r\n".to_vec();
    let a = match on_response(&mut table, &chain, s, HeadEvent::Bytes(head), t(6)) {
        Response::Relay(a) => a,
        _ => panic!("expected an answer"),
    };
    assert_eq!(a.lease.outcome, Some(true));
    assert_eq!(
        String::from_utf8(a.head.clone()).unwrap(),
        "HTTP/1.1 200 OK\r\nContent-Length: 2\r\nConnection: keep-alive\r\n\r\n"
    );
    match on_relayed(&mut table, a, Ok(true), t(7)) {
        Finish::Done { keep, pool } => assert!(keep && pool),
        _ => panic!("expected the end"),
    }
    assert_eq!(table.pool(0).servers[0].inflight(), 0);
}

#[test]
fn silent_and_broken_backends_are_failures() {
    let chain = Chain::<Auth>::new(vec![]);
    let mut table = table();
    let s = sent(&mut table);
    match on_response(&mut table, &chain, s, HeadEvent::TimedOut, t(6)) {
        Response::Refuse(r) => assert_eq!(r.status, 504),
        _ => panic!("expected a refusal"),
    }
    let s = sent(&mut table);
    match on_response(&mut table, &chain, s, HeadEvent::Closed, t(6)) {
        Response::Fail(e) => assert_eq!(e.message, "backend closed before responding"),
        _ => panic!("expected a failure"),
    }
    let s = sent(&mut table);
    let bad = b"HTTP/9 200 OK\r\n\r\n".to_vec();
    assert!(matches!(
        on_response(&mut table, &chain, s, HeadEvent::Bytes(bad), t(6)),
        Response::Fail(_)
    ));
    let s = sent(&mut table);
    let head = b"HTTP/1.1 503 Busy\r\nConnection: close\r\n\r\n".to_vec();
    match on_response(&mut table, &chain, s, HeadEvent::Bytes(head), t(6)) {
        Response::Relay(a) => {
            assert_eq!(a.lease.outcome, Some(false));
            assert!(a.sent_close && a.http11 && !a.usable);
            let e = Fault { kind: FaultKind::UnexpectedEof, message: "cut".into() };
            assert!(matches!(on_relayed(&mut table, a, Err(e), t(7)), Finish::Fail(_)));
        }
        _ => panic!("expected an answer"),
    }
    assert!(table.pool(0).servers.iter().all(|s| s.inflight() == 0));
}

#[test]
fn routes_for_everything_have_their_own_pool() {
    let mut table = RouteTable::new(vec![Route::catch_all("127.0.0.1:9")], vec![]);
    let l: Lease = table.pick(0, client().ip, 0, t(1)).unwrap();
    assert_eq!(table.pool(0).servers[0].inflight(), 1);
    table.release(0, l, t(2));
    assert_eq!(table.pool(0).servers[0].inflight(), 0);
}
