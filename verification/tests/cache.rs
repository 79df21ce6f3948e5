//! The response cache.

use rproxy::cache::store::SHARDS;
use rproxy::cache::{
    etag_matches, freshness_from_headers, not_modified_head, request_cache_control,
    request_is_cacheable, ttl_from_304, validators, Cache, CachedResponse, Entry, Key, KeyInput,
    Lookup, DEFAULT_MAX_BODY, DEFAULT_MAX_BYTES, DEFAULT_MAX_ENTRIES,
};
use rproxy::http::{header, RequestHead, Version};
use rproxy::time::{Duration, Instant};

fn get(target: &str, headers: Vec<(&str, &str)>) -> RequestHead {
    RequestHead {
        method: "GET".into(),
        target: target.into(),
        version: Version::Http11,
        headers: headers.into_iter().map(|(n, v)| (n.to_string(), v.to_string())).collect(),
    }
}

fn now() -> Instant {
    Instant { nanos: 100_000_000_000 }
}

fn before(secs: u64) -> Instant {
    Instant { nanos: now().nanos - secs * 1_000_000_000 }
}

fn entry(body: &[u8], ttl_secs: u64) -> Entry {
    Entry {
        status: 200,
        reason: "OK".into(),
        headers: vec![("Content-Type".into(), "text/plain".into())],
        body: body.to_vec(),
        stored_at: now(),
        ttl: Duration::from_secs(ttl_secs),
        etag: None,
        last_modified: None,
        vary_names: Vec::new(),
        last_used: now(),
    }
}

fn cache() -> Cache {
    Cache::new(DEFAULT_MAX_BYTES, DEFAULT_MAX_ENTRIES, DEFAULT_MAX_BODY)
}

fn ki(route: usize, req: &RequestHead, host: &str) -> KeyInput {
    KeyInput::from_request(route, req, host)
}

fn count(c: &Cache) -> usize {
    (0..SHARDS).map(|i| c.shards[i].map.len()).sum()
}

#[test]
fn miss_then_hit_roundtrip() {
    let mut c = cache();
    let req = get("/a", vec![]);
    assert!(matches!(c.lookup(&ki(0, &req, "h"), now()), Lookup::Miss));
    let key = Key::build(&ki(0, &req, "h"), &[]);
    c.store(key, entry(b"hello", 60));
    match c.lookup(&ki(0, &req, "h"), now()) {
        Lookup::Hit(r) => {
            assert_eq!(&*r.body, b"hello");
            assert_eq!(r.status, 200);
        }
        _ => panic!("expected hit"),
    }
    assert_eq!(c.stats.hits, 1);
    assert_eq!(c.stats.misses, 1);
}

#[test]
fn routes_do_not_share_entries() {
    let mut c = cache();
    let req = get("/a", vec![]);
    c.store(Key::build(&ki(0, &req, "h"), &[]), entry(b"route0", 60));
    assert!(matches!(c.lookup(&ki(1, &req, "h"), now()), Lookup::Miss));
}

#[test]
fn hosts_do_not_share_entries_and_host_is_case_insensitive() {
    let mut c = cache();
    let req = get("/a", vec![]);
    c.store(Key::build(&ki(0, &req, "example.com"), &[]), entry(b"x", 60));
    assert!(matches!(c.lookup(&ki(0, &req, "other.com"), now()), Lookup::Miss));
    assert!(matches!(c.lookup(&ki(0, &req, "EXAMPLE.com"), now()), Lookup::Hit(_)));
}

#[test]
fn expired_without_validator_is_miss() {
    let mut c = cache();
    let req = get("/a", vec![]);
    let mut e = entry(b"old", 0);
    e.stored_at = before(10);
    c.store(Key::build(&ki(0, &req, "h"), &[]), e);
    assert!(matches!(c.lookup(&ki(0, &req, "h"), now()), Lookup::Miss));
    assert_eq!(count(&c), 0);
}

#[test]
fn expired_with_validator_is_stale_and_restamp_revives() {
    let mut c = cache();
    let req = get("/a", vec![]);
    let mut e = entry(b"old", 1);
    e.etag = Some("\"v1\"".into());
    e.stored_at = before(10);
    c.store(Key::build(&ki(0, &req, "h"), &[]), e);
    let stale_key = match c.lookup(&ki(0, &req, "h"), now()) {
        Lookup::Stale { key, etag, .. } => {
            assert_eq!(etag.as_deref(), Some("\"v1\""));
            key
        }
        _ => panic!("expected stale"),
    };
    let revived = c.restamp(&stale_key, Duration::from_secs(60), now()).unwrap();
    assert_eq!(&*revived.body, b"old");
    assert!(matches!(c.lookup(&ki(0, &req, "h"), now()), Lookup::Hit(_)));
    assert_eq!(c.stats.revalidated, 1);
}

#[test]
fn vary_stores_separate_variants() {
    let mut c = cache();
    let req_gzip = get("/a", vec![("Accept-Encoding", "gzip")]);
    let req_plain = get("/a", vec![]);
    let names = vec!["accept-encoding".to_string()];
    let mut e1 = entry(b"gzip-body", 60);
    e1.vary_names = names.clone();
    c.store(Key::build(&ki(0, &req_gzip, "h"), &names), e1);

    assert!(matches!(c.lookup(&ki(0, &req_plain, "h"), now()), Lookup::Miss));

    let mut e2 = entry(b"plain-body", 60);
    e2.vary_names = names.clone();
    c.store(Key::build(&ki(0, &req_plain, "h"), &names), e2);

    match c.lookup(&ki(0, &req_gzip, "h"), now()) {
        Lookup::Hit(r) => assert_eq!(&*r.body, b"gzip-body"),
        _ => panic!(),
    }
    match c.lookup(&ki(0, &req_plain, "h"), now()) {
        Lookup::Hit(r) => assert_eq!(&*r.body, b"plain-body"),
        _ => panic!(),
    }
}

#[test]
fn lru_evicts_oldest_within_bounds() {
    let mut c = Cache::new(16 * 400, 16 * 2, DEFAULT_MAX_BODY);
    let r1 = get("/same", vec![]);
    let k = Key::build(&ki(0, &r1, "h"), &[]);
    c.store(k.copied(), entry(b"a", 60));
    for i in 0..40 {
        let host = format!("h{i}");
        let key = Key::build(&ki(0, &r1, &host), &[]);
        c.store(key, entry(b"b", 60));
    }
    assert!(c.stats.evicted > 0);
    assert!(count(&c) <= 16 * 2);
}

#[test]
fn oversized_body_is_not_stored() {
    let mut c = Cache::new(DEFAULT_MAX_BYTES, DEFAULT_MAX_ENTRIES, 4);
    let req = get("/big", vec![]);
    c.store(Key::build(&ki(0, &req, "h"), &[]), entry(b"way too big", 60));
    assert!(matches!(c.lookup(&ki(0, &req, "h"), now()), Lookup::Miss));
    assert_eq!(c.stats.stored, 0);
}

#[test]
fn invalidate_removes_all_variants() {
    let mut c = cache();
    let names = vec!["accept-encoding".to_string()];
    let req_gzip = get("/a", vec![("Accept-Encoding", "gzip")]);
    let req_plain = get("/a", vec![]);
    let mut e1 = entry(b"g", 60);
    e1.vary_names = names.clone();
    let mut e2 = entry(b"p", 60);
    e2.vary_names = names.clone();
    c.store(Key::build(&ki(0, &req_gzip, "h"), &names), e1);
    c.store(Key::build(&ki(0, &req_plain, "h"), &names), e2);
    c.invalidate(0, "h", "/a");
    assert!(matches!(c.lookup(&ki(0, &req_gzip, "h"), now()), Lookup::Miss));
    assert!(matches!(c.lookup(&ki(0, &req_plain, "h"), now()), Lookup::Miss));
    assert!(c.stats.invalidated >= 2);
}

#[test]
fn a_long_run_stays_bounded() {
    let mut c = Cache::new(16 * 4096, 16 * 8, DEFAULT_MAX_BODY);
    for t in 0..8 {
        for i in 0..200 {
            let req = get(&format!("/{}", i % 32), vec![]);
            let host = format!("t{t}");
            if let Lookup::Miss = c.lookup(&ki(0, &req, &host), now()) {
                c.store(Key::build(&ki(0, &req, &host), &[]), entry(b"x", 60));
            }
        }
    }
    assert!(count(&c) <= 16 * 8);
    assert_eq!(c.stats.hits + c.stats.misses, 1600);
}

#[test]
fn entries_over_the_budget_are_not_counted_as_stored() {
    let mut c = Cache::new(16 * 100, 16, DEFAULT_MAX_BODY);
    let req = get("/a", vec![]);
    c.store(Key::build(&ki(0, &req, "h"), &[]), entry(b"x", 60));
    assert_eq!(c.stats.stored, 0);
    assert_eq!(count(&c), 0);
}

#[test]
fn the_longest_unused_goes_first() {
    // One entry for each part: the second newcomer of a part evicts the first.
    let mut c = Cache::new(DEFAULT_MAX_BYTES, 16, DEFAULT_MAX_BODY);
    let req = get("/a", vec![]);
    let base = ki(0, &req, "h");
    c.store(Key::build(&base, &[]), entry(b"first", 60));
    for i in 0..200 {
        let mut e = entry(b"later", 60);
        e.last_used = Instant { nanos: now().nanos + 1 };
        c.store(Key::build(&ki(i + 1, &req, "h"), &[]), e);
    }
    assert!(matches!(c.lookup(&base, now()), Lookup::Miss));
    assert_eq!(count(&c), 16);
    assert_eq!(c.stats.stored, 201);
    assert_eq!(c.stats.evicted, 201 - 16);
}

#[test]
fn ages_are_whole_seconds() {
    let mut c = cache();
    let req = get("/a", vec![]);
    let mut e = entry(b"x", 60);
    e.stored_at = Instant { nanos: before(3).nanos - 500_000_000 };
    c.store(Key::build(&ki(0, &req, "h"), &[]), e);
    match c.lookup(&ki(0, &req, "h"), now()) {
        Lookup::Hit(r) => assert_eq!(r.age_secs, 3),
        _ => panic!("expected hit"),
    }
}

#[test]
fn restamping_what_is_gone_gives_nothing() {
    let mut c = cache();
    let req = get("/a", vec![]);
    let key = Key::build(&ki(0, &req, "h"), &[]);
    assert!(c.restamp(&key, Duration::from_secs(60), now()).is_none());
    assert_eq!(c.stats.revalidated, 0);
}

#[test]
fn invalidation_spares_other_targets() {
    let mut c = cache();
    let a = get("/a", vec![]);
    let b = get("/b", vec![]);
    c.store(Key::build(&ki(0, &a, "h"), &[]), entry(b"a", 60));
    c.store(Key::build(&ki(0, &b, "h"), &[]), entry(b"b", 60));
    c.invalidate(0, "h", "/a");
    assert!(matches!(c.lookup(&ki(0, &b, "h"), now()), Lookup::Hit(_)));
    assert_eq!(c.stats.invalidated, 1);
}

#[test]
fn keys_sort_their_variant() {
    let req = get("/a", vec![("B", "2"), ("a", "1")]);
    let names = vec!["b".to_string(), "A".to_string(), "c".to_string()];
    let k = Key::build(&ki(0, &req, "H"), &names);
    assert_eq!(
        k.vary,
        vec![
            ("a".to_string(), "1".to_string()),
            ("b".to_string(), "2".to_string()),
            ("c".to_string(), "".to_string()),
        ]
    );
    assert_eq!(k.host, "h");
}

#[test]
fn events_are_rendered() {
    let mut c = cache();
    let req = get("/a", vec![]);
    let _ = c.lookup(&ki(0, &req, "h"), now());
    let text = c.render_prometheus();
    assert_eq!(
        text,
        "# HELP ferrum_cache_events_total Cache activity by outcome.\n# TYPE ferrum_cache_events_total counter\nferrum_cache_events_total{result=\"miss\"} 1\n"
    );
}

fn hdrs(pairs: &[(&str, &str)]) -> Vec<(String, String)> {
    pairs.iter().map(|(n, v)| (n.to_string(), v.to_string())).collect()
}

#[test]
fn request_gates() {
    assert!(request_is_cacheable(&get("/", vec![])));
    assert!(!request_is_cacheable(&get("/", vec![("Authorization", "Bearer x")])));
    let mut post = get("/", vec![]);
    post.method = "POST".into();
    assert!(!request_is_cacheable(&post));
}

#[test]
fn response_status_gate() {
    let d = Duration::from_secs(60);
    let h = hdrs(&[("Cache-Control", "max-age=10")]);
    assert!(freshness_from_headers(200, &h, d).ttl.is_some());
    assert!(freshness_from_headers(301, &h, d).ttl.is_some());
    assert!(freshness_from_headers(404, &h, d).ttl.is_some());
    assert!(freshness_from_headers(500, &h, d).ttl.is_none());
    assert!(freshness_from_headers(302, &h, d).ttl.is_none());
}

#[test]
fn no_store_private_and_set_cookie_block_storage() {
    let d = Duration::from_secs(60);
    for h in [
        hdrs(&[("Cache-Control", "no-store")]),
        hdrs(&[("Cache-Control", "private, max-age=100")]),
        hdrs(&[("Cache-Control", "MAX-AGE=100"), ("Set-Cookie", "sid=1")]),
    ] {
        assert!(freshness_from_headers(200, &h, d).ttl.is_none());
    }
}

#[test]
fn s_maxage_beats_max_age_and_directives_are_case_insensitive() {
    let d = Duration::from_secs(60);
    let h = hdrs(&[("Cache-Control", "max-age=100, S-MaxAge=5")]);
    assert_eq!(freshness_from_headers(200, &h, d).ttl, Some(Duration::from_secs(5)));
}

#[test]
fn no_cache_means_store_but_always_stale() {
    let d = Duration::from_secs(60);
    let with_validator = hdrs(&[("Cache-Control", "no-cache"), ("ETag", "\"a\"")]);
    assert_eq!(
        freshness_from_headers(200, &with_validator, d).ttl,
        Some(Duration::from_secs(0))
    );
    let without = hdrs(&[("Cache-Control", "no-cache")]);
    assert!(freshness_from_headers(200, &without, d).ttl.is_none());
}

#[test]
fn default_ttl_only_with_validator() {
    let d = Duration::from_secs(60);
    let with = hdrs(&[("ETag", "\"a\"")]);
    assert_eq!(freshness_from_headers(200, &with, d).ttl, Some(d));
    let without = hdrs(&[("Content-Type", "text/html")]);
    assert!(freshness_from_headers(200, &without, d).ttl.is_none());
}

#[test]
fn vary_star_uncacheable_vary_names_normalized() {
    let d = Duration::from_secs(60);
    let star = hdrs(&[("Cache-Control", "max-age=10"), ("Vary", "*")]);
    assert!(freshness_from_headers(200, &star, d).ttl.is_none());
    let v = hdrs(&[
        ("Cache-Control", "max-age=10"),
        ("Vary", "Accept-Encoding, ACCEPT-language, accept-encoding"),
    ]);
    let f = freshness_from_headers(200, &v, d);
    assert_eq!(f.vary_names, vec!["accept-encoding", "accept-language"]);
}

#[test]
fn etag_comparison_rules() {
    assert!(etag_matches("\"abc\"", "\"abc\""));
    assert!(etag_matches("W/\"abc\"", "\"abc\""));
    assert!(etag_matches("\"abc\"", "W/\"abc\""));
    assert!(etag_matches("\"x\", \"abc\"", "\"abc\""));
    assert!(etag_matches("*", "\"anything\""));
    assert!(!etag_matches("\"abc\"", "\"abd\""));
}

#[test]
fn request_cache_control_parsing() {
    let r = get("/", vec![("Cache-Control", "no-store, no-cache")]);
    assert_eq!(request_cache_control(&r), (true, true));
    let r2 = get("/", vec![]);
    assert_eq!(request_cache_control(&r2), (false, false));
}

#[test]
fn not_modified_head_carries_caching_headers_only() {
    let cached = CachedResponse {
        status: 200,
        reason: "OK".into(),
        headers: hdrs(&[
            ("ETag", "\"v\""),
            ("Cache-Control", "max-age=10"),
            ("Content-Type", "text/html"),
            ("Content-Length", "100"),
        ]),
        body: Vec::new(),
        age_secs: 0,
        etag: Some("\"v\"".into()),
    };
    let h = not_modified_head(&cached);
    assert_eq!(h.status, 304);
    assert!(header(&h.headers, "etag").is_some());
    assert!(header(&h.headers, "content-type").is_none());
    assert!(header(&h.headers, "content-length").is_none());
}

#[test]
fn a_304_renews_the_time() {
    let d = Duration::from_secs(60);
    assert_eq!(
        ttl_from_304(&hdrs(&[("Cache-Control", "max-age=7")]), d),
        Duration::from_secs(7)
    );
    assert_eq!(ttl_from_304(&hdrs(&[]), d), d);
}

#[test]
fn of_a_304_only_the_lifetimes_count() {
    let d = Duration::from_secs(60);
    let seven = Duration::from_secs(7);
    let ttl = |h: &[(&str, &str)]| ttl_from_304(&hdrs(h), d);
    assert_eq!(ttl(&[("Cache-Control", "no-store, max-age=7")]), seven);
    assert_eq!(ttl(&[("Cache-Control", "private, max-age=7")]), seven);
    assert_eq!(ttl(&[("Set-Cookie", "a=b"), ("Cache-Control", "max-age=7")]), seven);
    assert_eq!(ttl(&[("Vary", "*"), ("Cache-Control", "max-age=7")]), seven);
    assert_eq!(ttl(&[("Cache-Control", "max-age=9, s-maxage=7")]), seven);
    assert_eq!(ttl(&[("Cache-Control", "no-store")]), d);
    assert_eq!(ttl(&[("ETag", "\"v\""), ("Cache-Control", "no-cache")]), Duration::from_secs(0));
}

#[test]
fn validators_are_taken_from_the_head() {
    let (etag, modified) = validators(&hdrs(&[("etag", "\"v\""), ("Last-Modified", "today")]));
    assert_eq!(etag.as_deref(), Some("\"v\""));
    assert_eq!(modified.as_deref(), Some("today"));
    assert_eq!(validators(&hdrs(&[])), (None, None));
}

#[test]
fn the_order_of_names_does_not_split_variants() {
    let req = get("/a", vec![("B", "2"), ("a", "1")]);
    let one = vec!["a".to_string(), "b".to_string()];
    let two = vec!["b".to_string(), "a".to_string()];
    let x = Key::build(&ki(0, &req, "h"), &one);
    let y = Key::build(&ki(0, &req, "h"), &two);
    assert_eq!(x.vary, y.vary);
}
