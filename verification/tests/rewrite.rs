//! Rewriting of heads.

use rproxy::http::{header, set_header, RequestHead, ResponseHead, Version};
use rproxy::rewrite::{ForwardContext, RewriteRules, L5_KEYS};


const CLIENT: &str = "203.0.113.7";

fn req(headers: &[(&str, &str)]) -> RequestHead {
    RequestHead {
        method: "GET".to_string(),
        target: "/users".to_string(),
        version: Version::Http11,
        headers: headers
            .iter()
            .map(|(n, v)| (n.to_string(), v.to_string()))
            .collect(),
    }
}

fn ctx<'a>(original_host: Option<&'a str>) -> ForwardContext<'a> {
    ForwardContext { client_ip: CLIENT.to_string(), original_host, scheme: "http" }
}

fn get<'a>(r: &'a RequestHead, name: &str) -> Option<&'a str> {
    header(&r.headers, name)
}

#[test]
fn xff_appends_to_existing_chain() {
    let mut r = req(&[("X-Forwarded-For", "1.2.3.4")]);
    RewriteRules::default().apply_request(&mut r, &ctx(None));
    assert_eq!(get(&r, "x-forwarded-for"), Some("1.2.3.4, 203.0.113.7"));
}

#[test]
fn xff_created_when_absent() {
    let mut r = req(&[]);
    RewriteRules::default().apply_request(&mut r, &ctx(None));
    assert_eq!(get(&r, "x-forwarded-for"), Some("203.0.113.7"));
}

#[test]
fn x_real_ip_overwrites_forgery() {
    let mut r = req(&[("X-Real-IP", "9.9.9.9")]);
    RewriteRules::default().apply_request(&mut r, &ctx(None));
    assert_eq!(get(&r, "x-real-ip"), Some("203.0.113.7"));
    assert_eq!(
        r.headers.iter().filter(|(n, _)| n.eq_ignore_ascii_case("x-real-ip")).count(),
        1,
        "overwrite must not leave a duplicate"
    );
}

#[test]
fn xfh_xfp_set_when_absent_preserved_when_present() {
    let mut r = req(&[]);
    RewriteRules::default().apply_request(&mut r, &ctx(Some("example.com")));
    assert_eq!(get(&r, "x-forwarded-host"), Some("example.com"));
    assert_eq!(get(&r, "x-forwarded-proto"), Some("http"));

    let mut r2 = req(&[
        ("X-Forwarded-Host", "orig.example.com"),
        ("X-Forwarded-Proto", "https"),
    ]);
    RewriteRules::default().apply_request(&mut r2, &ctx(Some("example.com")));
    assert_eq!(get(&r2, "x-forwarded-host"), Some("orig.example.com"));
    assert_eq!(get(&r2, "x-forwarded-proto"), Some("https"));
}

#[test]
fn no_forwarded_injects_nothing() {
    let mut r = req(&[]);
    RewriteRules::no_forwarded().apply_request(&mut r, &ctx(Some("example.com")));
    for h in ["x-forwarded-for", "x-real-ip", "x-forwarded-host", "x-forwarded-proto"] {
        assert_eq!(get(&r, h), None, "{h} must not be injected");
    }
}

#[test]
fn set_header_overwrites() {
    let mut h = vec![("A".to_string(), "1".to_string()), ("B".to_string(), "2".to_string())];
    set_header(&mut h, "a", "9");
    assert_eq!(header(&h, "A"), Some("9"));
    assert_eq!(h.len(), 2, "must overwrite, not append");
}

fn rules_path(strip: Option<&str>, prefix: Option<&str>) -> RewriteRules {
    RewriteRules {
        strip: strip.map(str::to_string),
        prefix: prefix.map(str::to_string),
        ..Default::default()
    }
}

fn target_after(target: &str, strip: Option<&str>, prefix: Option<&str>) -> String {
    let mut r = req(&[]);
    r.target = target.to_string();
    rules_path(strip, prefix).apply_request(&mut r, &ctx(None));
    r.target
}

#[test]
fn strip_removes_prefix_keeping_query() {
    assert_eq!(target_after("/api/users?page=2", Some("/api"), None), "/users?page=2");
    assert_eq!(target_after("/api/users", Some("/api"), None), "/users");
}

#[test]
fn strip_whole_path_yields_root() {
    assert_eq!(target_after("/api", Some("/api"), None), "/");
    assert_eq!(target_after("/api?x=1", Some("/api"), None), "/?x=1");
}

#[test]
fn strip_non_matching_is_noop() {
    assert_eq!(target_after("/other/users", Some("/api"), None), "/other/users");
}

#[test]
fn strip_ignores_non_segment_boundary() {
    assert_eq!(target_after("/apixyz", Some("/api"), None), "/apixyz");
}

#[test]
fn strip_matches_on_segment_boundary() {
    assert_eq!(target_after("/api/users", Some("/api"), None), "/users");
}

#[test]
fn strip_trailing_slash_yields_root() {
    assert_eq!(target_after("/api/", Some("/api"), None), "/");
}

#[test]
fn prefix_prepends_and_composes_after_strip() {
    assert_eq!(target_after("/users", None, Some("/v2")), "/v2/users");
    assert_eq!(target_after("/api/users?a=b", Some("/api"), Some("/v2")), "/v2/users?a=b");
}

#[test]
fn xfh_reports_original_host_not_rewritten_one() {
    let mut r = req(&[("Host", "example.com")]);
    let rules = RewriteRules { host: Some("backend.local".to_string()), ..Default::default() };
    rules.apply_request(&mut r, &ctx(Some("example.com")));
    assert_eq!(get(&r, "host"), Some("backend.local"), "backend sees the rewritten Host");
    assert_eq!(
        get(&r, "x-forwarded-host"),
        Some("example.com"),
        "but X-Forwarded-Host must preserve what the client asked for"
    );
}

#[test]
fn host_rewrite_replaces_host() {
    let mut r = req(&[("Host", "example.com")]);
    let rules = RewriteRules { host: Some("backend.local".to_string()), ..Default::default() };
    rules.apply_request(&mut r, &ctx(Some("example.com")));
    assert_eq!(get(&r, "host"), Some("backend.local"));
    assert_eq!(
        r.headers.iter().filter(|(n, _)| n.eq_ignore_ascii_case("host")).count(),
        1,
        "exactly one Host header — duplicates are a smuggling vector"
    );
}

#[test]
fn set_header_rule_overwrites() {
    let mut r = req(&[("X-Env", "dev")]);
    let rules = RewriteRules {
        set_headers: vec![("X-Env".to_string(), "prod".to_string())],
        ..Default::default()
    };
    rules.apply_request(&mut r, &ctx(None));
    assert_eq!(get(&r, "x-env"), Some("prod"));
    assert_eq!(r.headers.iter().filter(|(n, _)| n.eq_ignore_ascii_case("x-env")).count(), 1);
}

#[test]
fn remove_header_rule_is_case_insensitive() {
    let mut r = req(&[("X-Secret", "shh")]);
    let rules = RewriteRules {
        remove_headers: vec!["x-secret".to_string()],
        ..Default::default()
    };
    rules.apply_request(&mut r, &ctx(None));
    assert_eq!(get(&r, "X-Secret"), None);
}

#[test]
fn explicit_set_header_runs_after_forwarded_injection() {
    let mut r = req(&[]);
    let rules = RewriteRules {
        set_headers: vec![("X-Real-IP".to_string(), "10.9.9.9".to_string())],
        ..Default::default()
    };
    rules.apply_request(&mut r, &ctx(None));
    assert_eq!(
        get(&r, "x-real-ip"),
        Some("10.9.9.9"),
        "an explicit set-header must win over unconditional forwarded injection"
    );

    let mut r2 = req(&[]);
    let rules2 = RewriteRules {
        set_headers: vec![("X-Forwarded-Proto".to_string(), "https".to_string())],
        ..Default::default()
    };
    rules2.apply_request(&mut r2, &ctx(None));
    assert_eq!(get(&r2, "x-forwarded-proto"), Some("https"));
}

#[test]
fn response_header_rules_apply() {
    let mut resp = ResponseHead {
        version: Version::Http11,
        status: 200,
        reason: "OK".to_string(),
        headers: vec![
            ("Server".to_string(), "backend/1.0".to_string()),
            ("X-Cache".to_string(), "MISS".to_string()),
        ],
    };
    let rules = RewriteRules {
        set_resp_headers: vec![("X-Cache".to_string(), "HIT".to_string())],
        remove_resp_headers: vec!["server".to_string()],
        ..Default::default()
    };
    rules.apply_response(&mut resp);
    assert_eq!(header(&resp.headers, "x-cache"), Some("HIT"));
    assert_eq!(header(&resp.headers, "Server"), None);
}

#[test]
fn options_parse() {
    let r = RewriteRules::from_options(
        " strip=/api ; prefix=/v2 ; host=backend.local ; set-header=X-Env:prod ; \
         remove-header=X-Secret ; set-resp-header=X-Cache:HIT ; remove-resp-header=Server ",
        true,
    )
    .unwrap();
    assert_eq!(r.strip.as_deref(), Some("/api"));
    assert_eq!(r.prefix.as_deref(), Some("/v2"));
    assert_eq!(r.host.as_deref(), Some("backend.local"));
    assert_eq!(r.set_headers, vec![("X-Env".to_string(), "prod".to_string())]);
    assert_eq!(r.remove_headers, vec!["X-Secret".to_string()]);
    assert_eq!(r.set_resp_headers, vec![("X-Cache".to_string(), "HIT".to_string())]);
    assert_eq!(r.remove_resp_headers, vec!["Server".to_string()]);
    assert!(r.forwarded);

    let d = RewriteRules::from_options("", true).unwrap();
    assert!(d.strip.is_none() && d.forwarded);
    let n = RewriteRules::from_options("", false).unwrap();
    assert!(!n.forwarded);

    let u = RewriteRules::from_options("set-header=X-Url:http://a/b", true).unwrap();
    assert_eq!(u.set_headers[0].1, "http://a/b");
}

#[test]
fn options_reject_bad_input() {
    assert!(RewriteRules::from_options("bogus=1", true).is_err());
    assert!(RewriteRules::from_options("strip=", true).is_err());
    assert!(RewriteRules::from_options("prefix=", true).is_err());
    assert!(RewriteRules::from_options("host=", true).is_err());
    assert!(RewriteRules::from_options("set-header=NoColon", true).is_err());
    assert!(RewriteRules::from_options("remove-header=", true).is_err());
    for protected in ["Content-Length", "Transfer-Encoding", "Connection", "Host"] {
        assert!(
            RewriteRules::from_options(&format!("set-header={protected}:x"), true).is_err(),
            "set-header must reject {protected}"
        );
        assert!(
            RewriteRules::from_options(&format!("remove-header={protected}"), true).is_err(),
            "remove-header must reject {protected}"
        );
        assert!(
            RewriteRules::from_options(&format!("set-resp-header={protected}:x"), true).is_err(),
            "set-resp-header must reject {protected}"
        );
    }
    assert!(RewriteRules::from_options("set-header=content-length:5", true).is_err());
}

#[test]
fn strip_trailing_slash_normalized_at_parse() {
    let a = RewriteRules::from_options("strip=/api/", true).unwrap();
    let b = RewriteRules::from_options("strip=/api", true).unwrap();
    assert_eq!(a.strip, b.strip, "trailing slash must be normalized away");
    assert_eq!(a.strip.as_deref(), Some("/api"));

    let mut r1 = req(&[]);
    r1.target = "/api/users".to_string();
    a.apply_request(&mut r1, &ctx(None));
    let mut r2 = req(&[]);
    r2.target = "/api/users".to_string();
    b.apply_request(&mut r2, &ctx(None));
    assert_eq!(r1.target, r2.target);
    assert_eq!(r1.target, "/users");

    assert!(RewriteRules::from_options("strip=/", true).is_err());
}

#[test]
fn set_header_rejects_crlf_in_value() {
    assert!(
        RewriteRules::from_options(
            "set-header=X-Foo:bar\r\nTransfer-Encoding: chunked",
            true
        )
        .is_err(),
        "the reproduced Transfer-Encoding smuggling payload must be refused"
    );
    for payload in [
        "set-header=X-Foo:a\rb",
        "set-header=X-Foo:a\nb",
        "set-header=X-Foo:a\r\nb",
        "set-resp-header=X-Foo:a\r\nEvil: 1",
    ] {
        assert!(
            RewriteRules::from_options(payload, true).is_err(),
            "value with CR/LF must be rejected: {payload:?}"
        );
    }
}

#[test]
fn header_names_must_be_valid_tokens() {
    for bad in [
        "set-header=Foo Bar:x",  // space
        "set-header=Foo\x01:x",  // control char
        "set-header=Föö:x",      // non-ASCII
        "remove-header=Foo Bar", // remove path validated too
    ] {
        assert!(
            RewriteRules::from_options(bad, true).is_err(),
            "invalid header name must be rejected: {bad:?}"
        );
    }

    let ok = RewriteRules::from_options("set-header=X-My_Header.v1:value", true).unwrap();
    assert_eq!(ok.set_headers[0].0, "X-My_Header.v1");
    let ok2 = RewriteRules::from_options("remove-header=X-My_Header.v1", true).unwrap();
    assert_eq!(ok2.remove_headers[0], "X-My_Header.v1");
}

#[test]
fn hop_by_hop_headers_are_protected() {
    for h in ["Upgrade", "TE", "Trailer"] {
        assert!(
            RewriteRules::from_options(&format!("set-header={h}:x"), true).is_err(),
            "set-header must reject hop-by-hop {h}"
        );
        assert!(
            RewriteRules::from_options(&format!("set-resp-header={h}:x"), true).is_err(),
            "set-resp-header must reject hop-by-hop {h}"
        );
        assert!(
            RewriteRules::from_options(&format!("remove-header={h}"), true).is_err(),
            "remove-header must reject hop-by-hop {h}"
        );
        assert!(
            RewriteRules::from_options(&format!("remove-resp-header={h}"), true).is_err(),
            "remove-resp-header must reject hop-by-hop {h}"
        );
    }
}

#[test]
fn non_origin_form_target_is_left_unchanged() {
    assert_eq!(
        target_after("http://evil.com/api/users", Some("/api"), Some("/v2")),
        "http://evil.com/api/users"
    );
    assert_eq!(target_after("*", Some("/api"), Some("/v2")), "*");
}

#[test]
fn forwarded_requests_keep_their_query() {
    assert_eq!(target_after("/a?x=/api/y", Some("/api"), Some("/p")), "/p/a?x=/api/y");
}

#[test]
fn keys_of_the_family_are_known() {
    assert!(L5_KEYS.contains(&"strip"));
    assert!(L5_KEYS.contains(&"set-resp-header"));
    assert!(!L5_KEYS.contains(&"auth"));
}

#[test]
fn refusals_of_rules_say_why() {
    let e = RewriteRules::from_options("set-header=Host:x", true).unwrap_err();
    assert!(e.message.contains("Host"), "{}", e.message);
    let e = RewriteRules::from_options("strip", true).unwrap_err();
    assert!(e.message.contains("strip"), "{}", e.message);
}
