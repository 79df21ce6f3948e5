//! Request ids and the access log.

use rproxy::http::{header, RequestHead, ResponseHead, Version};
use rproxy::ip::IpAddr;
use rproxy::middleware::observe::{
    json_escape, opt_ms, plain_mode, set_plain, valid_request_id, AccessLog, LogFormat, RequestId,
    Times,
};
use rproxy::middleware::{Decision, Middleware, Peer, ReqCtx, Shared};
use rproxy::time::{Duration, Instant};
use rproxy::waf::{Reputation, RuleSet};

fn req_with(headers: Vec<(String, String)>) -> RequestHead {
    RequestHead { method: "GET".into(), target: "/".into(), version: Version::Http11, headers }
}

fn ctx() -> ReqCtx {
    ReqCtx::new(
        Peer { ip: IpAddr::V4(0x7f00_0001), shown: "127.0.0.1:1".into() },
        Instant { nanos: 0 },
        "GET".into(),
        "/".into(),
        None,
    )
}

fn shared() -> Shared {
    Shared {
        now: Instant { nanos: 0 },
        reputation: Reputation::new(3, Duration::from_secs(60)),
        rules: RuleSet::compiled().unwrap(),
    }
}

#[test]
fn generates_id_when_absent() {
    let mut mw = RequestId::new();
    let mut r = req_with(vec![]);
    let mut c = ctx();
    assert!(matches!(mw.on_request(&mut r, &mut c, &mut shared()), Decision::Continue));
    assert!(!c.request_id.is_empty());
    assert_eq!(header(&r.headers, "x-request-id"), Some(c.request_id.as_str()));
}

#[test]
fn honors_valid_inbound_id() {
    let mut mw = RequestId::new();
    let mut r = req_with(vec![("X-Request-Id".into(), "trace-abc123".into())]);
    let mut c = ctx();
    mw.on_request(&mut r, &mut c, &mut shared());
    assert_eq!(c.request_id, "trace-abc123");
}

#[test]
fn replaces_oversized_inbound_id() {
    let mut mw = RequestId::new();
    let big = "x".repeat(65);
    let mut r = req_with(vec![("X-Request-Id".into(), big.clone())]);
    let mut c = ctx();
    mw.on_request(&mut r, &mut c, &mut shared());
    assert_ne!(c.request_id, big);
    assert!(!c.request_id.is_empty());
}

#[test]
fn replaces_control_char_inbound_id() {
    let mut mw = RequestId::new();
    let mut r = req_with(vec![("X-Request-Id".into(), "evil\r\nSet-Cookie: x".into())]);
    let mut c = ctx();
    mw.on_request(&mut r, &mut c, &mut shared());
    assert!(!c.request_id.contains('\r') && !c.request_id.contains('\n'));
}

#[test]
fn echoes_id_onto_response() {
    let mw = RequestId::new();
    let mut c = ctx();
    c.request_id = "abc-1".into();
    let mut resp = ResponseHead {
        version: Version::Http11,
        status: 200,
        reason: "OK".into(),
        headers: vec![],
    };
    mw.on_response(&c, &mut resp);
    assert_eq!(header(&resp.headers, "x-request-id"), Some("abc-1"));
}

#[test]
fn generated_ids_are_unique() {
    let mut mw = RequestId::new();
    let mut sh = shared();
    let mut ids = std::collections::HashSet::new();
    for _ in 0..1000 {
        let mut r = req_with(vec![]);
        let mut c = ctx();
        mw.on_request(&mut r, &mut c, &mut sh);
        assert!(ids.insert(c.request_id), "duplicate id generated");
    }
}

#[test]
fn valid_request_id_rules() {
    assert!(valid_request_id("abc-123_XYZ"));
    assert!(!valid_request_id(""));
    assert!(!valid_request_id(&"x".repeat(65)));
    assert!(!valid_request_id("has space"));
    assert!(!valid_request_id("has\nnewline"));
}

#[test]
fn json_escape_hostile_target() {
    assert_eq!(
        json_escape(r#"/x","status":200,"forged":"y"#),
        r#"/x\",\"status\":200,\"forged\":\"y"#
    );
    assert_eq!(json_escape("a\r\nb"), r"a\r\nb");
    assert_eq!(json_escape("tab\there"), r"tab\there");
    assert_eq!(json_escape("\x01"), "\\u0001");
    assert_eq!(json_escape("clean/path?q=1"), "clean/path?q=1");
    assert_eq!(json_escape("héllo/世界"), "héllo/世界");
}

/// A span in milliseconds with one decimal, as the log shows it.
fn ms(d: std::time::Duration) -> String {
    format!("{:.1}", d.as_secs_f64() * 1e3)
}

#[test]
fn opt_ms_null_vs_zero() {
    assert_eq!(opt_ms(None), "null");
    assert_eq!(opt_ms(Some(&ms(std::time::Duration::ZERO))), "0.0");
    assert_eq!(opt_ms(Some(&ms(std::time::Duration::from_micros(12_340)))), "12.3");
}

#[test]
fn the_format_is_switched() {
    let mut f = LogFormat { plain: false };
    assert!(!plain_mode(&f));
    set_plain(&mut f, true);
    assert!(plain_mode(&f));
}

fn times() -> Times {
    Times {
        stamp: "2026-08-25T00:00:00.007Z".into(),
        total: "12.3".into(),
        route: Some("0.1".into()),
        connect: None,
        first_byte: Some("9.9".into()),
    }
}

#[test]
fn json_lines_hold_the_request() {
    let mut c = ctx();
    c.target = "/a\"b".into();
    c.request_id = "id-1".into();
    c.upstream = Some("api".into());
    let line = AccessLog { plain: false }.line(&c, 200, &times());
    assert!(line.starts_with('{') && line.ends_with('}'), "{line}");
    assert!(line.contains("\"/a\\\"b\""), "{line}");
    assert!(line.contains("200"), "{line}");
    assert!(line.contains("null"), "{line}");
    assert!(!line.contains('\n'), "{line}");
}

#[test]
fn plain_lines_hold_the_request() {
    let mut c = ctx();
    c.request_id = "id-1".into();
    let line = AccessLog { plain: true }.line(&c, 404, &times());
    assert_eq!(
        line,
        "id=id-1 peer=127.0.0.1:1 method=GET target=/ status=404 dur=12.3ms upstream=- backend=- user=-"
    );
}

#[test]
fn seeded_ids_are_known() {
    let mut a = RequestId::seeded(7);
    let mut b = RequestId::seeded(7);
    let mut sh = shared();
    let mut c = ctx();
    let mut d = ctx();
    a.on_request(&mut req_with(vec![]), &mut c, &mut sh);
    b.on_request(&mut req_with(vec![]), &mut d, &mut sh);
    assert_eq!(c.request_id, d.request_id);
    assert!(valid_request_id(&c.request_id));
}

#[test]
fn seeds_are_the_clock_in_nanoseconds() {
    assert_eq!(RequestId::from_clock(3, 5).seed, 3_000_000_005);
    assert_eq!(RequestId::from_clock(0, 0).seed, 0);
    // 2^64 nanoseconds are 18446744073 seconds and 709551616 nanoseconds.
    assert_eq!(RequestId::from_clock(18_446_744_073, 709_551_617).seed, 1);
    assert_eq!(RequestId::from_clock(3, 5).counter, 0);
}
