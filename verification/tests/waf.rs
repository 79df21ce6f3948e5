//! The web application firewall.

use rproxy::http::{RequestHead, Version};
use rproxy::ip::IpAddr;
use rproxy::middleware::{Decision, Middleware, Peer, ReqCtx, Shared};
use rproxy::time::{Duration, Instant};
use rproxy::waf::{
    canonicalize_path, configure_reputation, entity_decode, inspect, normalize, rules,
    shared_reputation, unescape, Reputation, RuleSet, Verdict, Waf, WafMode, DEFAULT_THRESHOLD,
    NO_UA_POINTS, RULE_POINTS,
};

fn get(target: &str, headers: Vec<(&str, &str)>) -> RequestHead {
    RequestHead {
        method: "GET".into(),
        target: target.into(),
        version: Version::Http11,
        headers: headers.into_iter().map(|(n, v)| (n.to_string(), v.to_string())).collect(),
    }
}

fn look(req: &RequestHead) -> Verdict {
    inspect(&RuleSet::compiled().unwrap(), req)
}

fn score(target: &str) -> u32 {
    look(&get(target, vec![("User-Agent", "Mozilla/5.0")])).score
}

#[test]
fn percent_decoding_single_and_double() {
    let (t, f) = normalize("%27%20or%201=1", false);
    assert_eq!(t, "' or 1=1");
    assert!(!f.double_encoded);
    let (t, f) = normalize("%2527", false);
    assert_eq!(t, "'");
    assert!(f.double_encoded);
}

#[test]
fn plus_space_entities_case_whitespace_null() {
    let (t, _) = normalize("a+b", true);
    assert_eq!(t, "a b");
    let (t, _) = normalize("a+b", false);
    assert_eq!(t, "a+b");
    let (t, _) = normalize("&lt;SCRIPT&gt;", false);
    assert_eq!(t, "<script>");
    let (t, _) = normalize("UNION\t\n  SELECT", false);
    assert_eq!(t, "union select");
    let (t, f) = normalize("abc%00def", false);
    assert_eq!(t, "abcdef");
    assert!(f.null_byte);
}

#[test]
fn broken_escapes_stay_literal() {
    let (t, _) = normalize("100%zz%2", false);
    assert_eq!(t, "100%zz%2");
}

#[test]
fn canonicalization_and_climb() {
    assert_eq!(canonicalize_path("/a/./b/../c"), ("/a/c".into(), false));
    assert_eq!(canonicalize_path("/a/../../etc/passwd"), ("/etc/passwd".into(), true));
    assert_eq!(canonicalize_path("/..//../x"), ("/x".into(), true));
    assert_eq!(canonicalize_path("/normal/path"), ("/normal/path".into(), false));
}

#[test]
fn sqli_payloads_convict() {
    assert!(score("/login?user=admin&pass=%27%20OR%201=1--") >= DEFAULT_THRESHOLD);
    assert!(score("/q?id=1%20UNION%20SELECT%20password%20FROM%20users") >= DEFAULT_THRESHOLD);
    assert!(score("/q?id=1;DROP%20TABLE%20users") >= DEFAULT_THRESHOLD);
    assert!(score("/q?id=1%20AND%20sleep(5)--") >= DEFAULT_THRESHOLD);
    assert!(score("/q?t=information_schema.tables%20--") >= DEFAULT_THRESHOLD);
}

#[test]
fn xss_payloads_convict() {
    assert!(score("/s?q=%3Cscript%3Ealert(1)%3C/script%3E") >= DEFAULT_THRESHOLD);
    assert!(score("/s?q=%3Cimg%20src=x%20onerror=alert(1)%3E") >= DEFAULT_THRESHOLD);
    assert!(score("/s?q=javascript:document.cookie") >= DEFAULT_THRESHOLD);
    assert!(score("/s?q=&lt;script&gt;alert(1)&lt;/script&gt;") >= DEFAULT_THRESHOLD);
}

#[test]
fn traversal_payloads_convict() {
    assert!(score("/files/../../../etc/passwd") >= DEFAULT_THRESHOLD);
    assert!(score("/files/%2e%2e/%2e%2e/etc/passwd") >= DEFAULT_THRESHOLD);
    assert!(score("/files/%252e%252e/%252e%252e/etc/shadow") >= DEFAULT_THRESHOLD);
}

#[test]
fn scanner_ua_convicts() {
    let v = look(&get("/", vec![("User-Agent", "sqlmap/1.7-dev")]));
    assert!(v.score >= DEFAULT_THRESHOLD);
}

#[test]
fn benign_traffic_passes() {
    assert!(score("/search?q=O%27Brien") < DEFAULT_THRESHOLD);
    assert!(score("/directions?to=union+station") < DEFAULT_THRESHOLD);
    assert!(score("/pricing?cta=select+a+plan") < DEFAULT_THRESHOLD);
    assert!(score("/blog?tag=script+kiddie+culture") < DEFAULT_THRESHOLD);
    assert!(score("/docs/1.2.3/api") < DEFAULT_THRESHOLD);
    assert!(score("/api/users/42?fields=name,email") == 0);
}

#[test]
fn no_ua_is_a_nudge_not_a_conviction() {
    let v = look(&get("/plain", vec![]));
    assert_eq!(v.score, NO_UA_POINTS);
    assert!(v.score < DEFAULT_THRESHOLD);
}

#[test]
fn scores_accumulate_across_surfaces() {
    let weak = look(&get("/q?a=%27--", vec![("User-Agent", "Mozilla")]));
    assert!(weak.score < DEFAULT_THRESHOLD);
    let stacked = look(&get("/q?a=%27--", vec![("User-Agent", "nikto/2.1")]));
    assert!(stacked.score >= DEFAULT_THRESHOLD);
}

fn ip(last: u32) -> IpAddr {
    IpAddr::V4(0x0a00_0000 + last)
}

fn now() -> Instant {
    Instant { nanos: 1_000_000_000 }
}

fn later(d: Duration) -> Instant {
    Instant { nanos: now().nanos + d.nanos as u64 }
}

#[test]
fn strikes_ban_at_threshold_and_ban_lifts() {
    let mut r = Reputation::new(3, Duration::from_millis(50));
    let a = ip(1);
    assert!(r.strike(a, now(), true).is_none());
    assert!(r.strike(a, now(), true).is_none());
    let term = r.strike(a, now(), true);
    assert_eq!(term, Some(Duration::from_millis(50)));
    assert!(r.is_banned(a, now()));
    assert!(!r.is_banned(a, later(Duration::from_millis(60))), "ban expired");
}

#[test]
fn ban_backoff_doubles() {
    let mut r = Reputation::new(1, Duration::from_secs(60));
    let a = ip(2);
    assert_eq!(r.strike(a, now(), true), Some(Duration::from_secs(60)));
    assert!(!r.is_banned(a, later(Duration::from_secs(61))));
    assert_eq!(
        r.strike(a, later(Duration::from_secs(61)), true),
        Some(Duration::from_secs(120))
    );
}

#[test]
fn detect_mode_records_but_never_bans() {
    let mut r = Reputation::new(1, Duration::from_secs(60));
    let a = ip(3);
    assert!(r.strike(a, now(), false).is_none());
    assert!(r.strike(a, now(), false).is_none());
    assert!(!r.is_banned(a, now()));
}

#[test]
fn stale_strikes_decay() {
    let mut r = Reputation::new(2, Duration::from_millis(10));
    let a = ip(4);
    assert!(r.strike(a, now(), true).is_none());
    assert!(r.strike(a, later(Duration::from_millis(200)), true).is_none());
}

#[test]
fn strangers_are_not_banned() {
    let mut r = Reputation::new(1, Duration::from_secs(60));
    assert!(!r.is_banned(IpAddr::V4(0xc0a8_0101), now()));
}

fn shared() -> Shared {
    Shared {
        now: now(),
        reputation: Reputation::new(3, Duration::from_secs(60)),
        rules: RuleSet::compiled().unwrap(),
    }
}

fn ctx(ip: IpAddr, shown: &str) -> ReqCtx {
    ReqCtx::new(
        Peer { ip, shown: shown.into() },
        now(),
        "GET".into(),
        "/".into(),
        None,
    )
}

#[test]
fn waf_blocks_convicts_and_passes_benign() {
    let mut waf = Waf { mode: WafMode::Block, threshold: DEFAULT_THRESHOLD };
    let mut sh = shared();
    let mut c = ctx(IpAddr::V4(0x7f00_0001), "127.0.0.1:9");
    let mut attack = get("/q?id=1%20UNION%20SELECT%20*%20FROM%20users--", vec![]);
    match waf.on_request(&mut attack, &mut c, &mut sh) {
        Decision::Reject(rej) => {
            assert_eq!(rej.status, 403);
            assert!(!rej.body.contains("union"), "no rule oracle in the body");
        }
        Decision::Continue => panic!("attack must be blocked"),
    }
    let mut benign = get("/api/users/42", vec![("User-Agent", "Mozilla")]);
    assert!(matches!(waf.on_request(&mut benign, &mut c, &mut sh), Decision::Continue));
}

#[test]
fn detect_mode_forwards_the_attack() {
    let mut waf = Waf { mode: WafMode::Detect, threshold: DEFAULT_THRESHOLD };
    let mut sh = shared();
    let mut c = ctx(IpAddr::V4(0x7f00_0001), "127.0.0.1:9");
    let mut attack = get("/q?id=%27%20OR%201=1--", vec![]);
    assert!(matches!(waf.on_request(&mut attack, &mut c, &mut sh), Decision::Continue));
    assert!(c.waf_score.unwrap() >= DEFAULT_THRESHOLD);
    assert_eq!(sh.reputation.stats.detected, 1);
}

#[test]
fn third_conviction_bans_and_fourth_request_is_refused_uninspected() {
    let mut waf = Waf { mode: WafMode::Block, threshold: DEFAULT_THRESHOLD };
    let mut sh = shared();
    let mut c = ctx(IpAddr::V4(0x0a09_0909), "10.9.9.9:1234");
    for _ in 0..3 {
        let mut attack = get("/q?id=1%20UNION%20SELECT%20x--", vec![]);
        assert!(matches!(waf.on_request(&mut attack, &mut c, &mut sh), Decision::Reject(_)));
    }
    let mut innocent = get("/perfectly/fine", vec![("User-Agent", "Mozilla")]);
    assert!(matches!(waf.on_request(&mut innocent, &mut c, &mut sh), Decision::Reject(_)));
    assert_eq!(sh.reputation.stats.ban_refused, 1);
}

#[test]
fn escapes_need_two_hex_digits() {
    assert_eq!(unescape(b"%41%+5%4", false), (b"A%+5%4".to_vec(), true));
    assert_eq!(unescape(b"a+b", true), (b"a b".to_vec(), true));
    assert_eq!(unescape(b"plain", true), (b"plain".to_vec(), false));
}

#[test]
fn invalid_bytes_are_replaced() {
    let (t, _) = normalize("%ff", false);
    assert_eq!(t, "\u{fffd}");
}

#[test]
fn unicode_is_lowered() {
    let (t, _) = normalize("%C3%84", false);
    assert_eq!(t, "ä");
}

#[test]
fn entities_are_decoded() {
    assert_eq!(entity_decode("&lt;a&gt;"), "<a>");
    assert_eq!(entity_decode("&amp;"), "&amp;");
}

#[test]
fn the_points_of_all_rules_are_bounded() {
    let sum: u32 = rules().iter().map(|r| r.points).sum();
    assert_eq!(sum, RULE_POINTS);
}

#[test]
fn modes_are_read() {
    assert_eq!(WafMode::parse("block").unwrap(), WafMode::Block);
    assert_eq!(WafMode::parse("detect").unwrap(), WafMode::Detect);
    assert!(WafMode::parse("maybe").is_err());
}

#[test]
fn events_of_the_firewall_are_rendered() {
    let mut r = Reputation::new(1, Duration::from_secs(60));
    let _ = r.strike(ip(9), now(), true);
    let text = r.render_prometheus();
    assert!(text.starts_with("# HELP ferrum_waf_events_total WAF activity by outcome.\n"));
    assert!(text.contains("ferrum_waf_events_total{result=\"banned\"} 1\n"), "{text}");
}

#[test]
fn the_shared_store_is_set_up_once() {
    let mut slot = None;
    configure_reputation(&mut slot, 1, Duration::from_secs(5));
    configure_reputation(&mut slot, 9, Duration::from_secs(9));
    let mut r = shared_reputation(slot);
    assert_eq!(r.strike(ip(1), now(), true), Some(Duration::from_secs(5)));
    let mut r = shared_reputation(None);
    assert_eq!(r.strike(ip(1), now(), true), None);
    assert_eq!(r.strike(ip(1), now(), true), None);
    assert_eq!(r.strike(ip(1), now(), true), Some(Duration::from_secs(60)));
}

#[test]
fn canonical_paths_stay_as_they_are() {
    for path in ["", "/", "//", "/a//b/", "a/./b", "/../x/..", "/a/b/../../..", "/..a/b."] {
        let (out, _) = canonicalize_path(path);
        assert_eq!(canonicalize_path(&out), (out.clone(), false));
        assert!(out.starts_with('/'));
        assert!(out == "/" || !out.ends_with('/'), "{out}");
    }
}

#[test]
fn a_climb_is_not_made_up_for() {
    assert!(canonicalize_path("/a/../../b/c/d").1);
    assert!(!canonicalize_path("/a/b/../../c").1);
    assert!(!canonicalize_path("/a/./..").1);
    assert!(canonicalize_path("/a/./../..").1);
}

#[test]
fn normal_text_has_no_capitals() {
    let (text, _) = normalize("%41 UNION \u{130}SELECT", false);
    assert!(text.starts_with("a union i"), "{text}");
    assert!(!text.chars().any(|c| c.is_ascii_uppercase()), "{text}");
}
