//! Authentication and authorisation.

use rproxy::http::{RequestHead, ResponseHead, Version};
use rproxy::ip::IpAddr;
use rproxy::middleware::auth::{base64_decode, ct_eq, Auth, Authz, Credential};
use rproxy::middleware::{Decision, Middleware, Peer, Rejection, ReqCtx, Shared};
use rproxy::time::{Duration, Instant};
use rproxy::waf::{Reputation, RuleSet};

fn base64_encode_for_test(data: &[u8]) -> String {
    const T: &[u8] = b"ABCDEFGHIJKLMNOPQRSTUVWXYZabcdefghijklmnopqrstuvwxyz0123456789+/";
    let mut out = String::new();
    for chunk in data.chunks(3) {
        let b = [chunk[0], *chunk.get(1).unwrap_or(&0), *chunk.get(2).unwrap_or(&0)];
        let n = ((b[0] as u32) << 16) | ((b[1] as u32) << 8) | b[2] as u32;
        out.push(T[((n >> 18) & 63) as usize] as char);
        out.push(T[((n >> 12) & 63) as usize] as char);
        out.push(if chunk.len() > 1 { T[((n >> 6) & 63) as usize] as char } else { '=' });
        out.push(if chunk.len() > 2 { T[(n & 63) as usize] as char } else { '=' });
    }
    out
}

fn basic_header(user: &str, pass: &str) -> String {
    format!("Basic {}", base64_encode_for_test(format!("{user}:{pass}").as_bytes()))
}

fn req(auth: Option<&str>) -> RequestHead {
    let headers = auth.map(|a| vec![("Authorization".into(), a.into())]).unwrap_or_default();
    RequestHead { method: "GET".into(), target: "/".into(), version: Version::Http11, headers }
}

fn ctx() -> ReqCtx {
    ReqCtx::new(
        Peer { ip: IpAddr::V4(0x7f00_0001), shown: "127.0.0.1:1".into() },
        Instant { nanos: 0 },
        "GET".into(),
        "/".into(),
        None,
    )
}

fn shared() -> Shared {
    Shared {
        now: Instant { nanos: 0 },
        reputation: Reputation::new(3, Duration::from_secs(60)),
        rules: RuleSet::compiled().unwrap(),
    }
}

fn basic_auth() -> Auth {
    Auth {
        creds: vec![Credential::Basic { user: "admin".into(), pass: "s3cret".into() }],
        realm: "ferrum".into(),
    }
}

fn ask(auth: &mut Auth, value: Option<&str>, c: &mut ReqCtx) -> Decision {
    let mut r = req(value);
    auth.on_request(&mut r, c, &mut shared())
}

#[test]
fn valid_basic_passes_and_sets_identity() {
    let mut c = ctx();
    let h = basic_header("admin", "s3cret");
    assert!(matches!(ask(&mut basic_auth(), Some(&h), &mut c), Decision::Continue));
    assert_eq!(c.identity.as_deref(), Some("admin"));
}

#[test]
fn wrong_password_401() {
    let h = basic_header("admin", "wrong");
    match ask(&mut basic_auth(), Some(&h), &mut ctx()) {
        Decision::Reject(Rejection { status, .. }) => assert_eq!(status, 401),
        _ => panic!("expected 401"),
    }
}

#[test]
fn unknown_user_401_no_oracle() {
    let h = basic_header("ghost", "s3cret");
    let Decision::Reject(bad_user) = ask(&mut basic_auth(), Some(&h), &mut ctx()) else {
        panic!()
    };
    let h = basic_header("admin", "wrong");
    let Decision::Reject(bad_pass) = ask(&mut basic_auth(), Some(&h), &mut ctx()) else {
        panic!()
    };
    assert_eq!(bad_user.status, bad_pass.status);
    assert_eq!(bad_user.body, bad_pass.body);
}

#[test]
fn missing_auth_401_with_challenge() {
    match ask(&mut basic_auth(), None, &mut ctx()) {
        Decision::Reject(rej) => {
            assert_eq!(rej.status, 401);
            let chal = rej.headers.iter().find(|(n, _)| n.eq_ignore_ascii_case("www-authenticate"));
            assert!(chal.unwrap().1.contains("realm=\"ferrum\""));
        }
        _ => panic!(),
    }
}

#[test]
fn malformed_base64_401_not_panic() {
    let d = ask(&mut basic_auth(), Some("Basic !!!not base64!!!"), &mut ctx());
    assert!(matches!(d, Decision::Reject(_)));
}

#[test]
fn basic_payload_without_colon_401() {
    let h = format!("Basic {}", base64_encode_for_test(b"nocolon"));
    assert!(matches!(ask(&mut basic_auth(), Some(&h), &mut ctx()), Decision::Reject(_)));
}

#[test]
fn wrong_scheme_401() {
    let d = ask(&mut basic_auth(), Some("Bearer sometoken"), &mut ctx());
    assert!(matches!(d, Decision::Reject(_)));
}

#[test]
fn valid_bearer_passes() {
    let mut auth = Auth {
        creds: vec![Credential::Bearer { token: "tok123".into(), label: "svc".into() }],
        realm: "ferrum".into(),
    };
    let mut c = ctx();
    assert!(matches!(ask(&mut auth, Some("Bearer tok123"), &mut c), Decision::Continue));
    assert_eq!(c.identity.as_deref(), Some("svc"));
    assert!(matches!(ask(&mut auth, Some("Bearer wrong"), &mut ctx()), Decision::Reject(_)));
}

#[test]
fn base64_decoder_roundtrip_and_rejects_garbage() {
    assert_eq!(base64_decode(&base64_encode_for_test(b"hello")).unwrap(), b"hello");
    assert_eq!(base64_decode(&base64_encode_for_test(b"any:pw")).unwrap(), b"any:pw");
    assert!(base64_decode("bad!char").is_none());
    assert!(base64_decode("====").is_none());
    assert!(base64_decode("AA==AAAA").is_none());
    assert!(base64_decode("QQ==QQ==").is_none());
    assert!(base64_decode("A=AA").is_none());
}

#[test]
fn ct_eq_correctness() {
    assert!(ct_eq(b"abc", b"abc"));
    assert!(!ct_eq(b"abc", b"abd"));
    assert!(!ct_eq(b"abc", b"ab"));
    assert!(ct_eq(b"", b""));
}

#[test]
fn authz_allows_and_denies_403() {
    let mut authz = Authz { allowed: vec!["admin".into()] };
    let mut c = ctx();
    c.identity = Some("admin".into());
    let d = authz.on_request(&mut req(None), &mut c, &mut shared());
    assert!(matches!(d, Decision::Continue));

    let mut c2 = ctx();
    c2.identity = Some("intern".into());
    match authz.on_request(&mut req(None), &mut c2, &mut shared()) {
        Decision::Reject(Rejection { status, .. }) => assert_eq!(status, 403),
        _ => panic!("expected 403, not 401 — authenticated but not permitted"),
    }
}

#[test]
fn every_byte_reads_back_from_base64() {
    let all: Vec<u8> = (0..=255).collect();
    for n in [1, 2, 3, 255, 256] {
        let text = base64_encode_for_test(&all[..n]);
        assert_eq!(base64_decode(&text).unwrap(), &all[..n]);
    }
}

#[test]
fn layers_leave_responses_alone() {
    let mut resp = ResponseHead {
        version: Version::Http11,
        status: 200,
        reason: "OK".into(),
        headers: vec![],
    };
    basic_auth().on_response(&ctx(), &mut resp);
    assert!(resp.headers.is_empty());
    assert_eq!(basic_auth().name(), "auth");
}
