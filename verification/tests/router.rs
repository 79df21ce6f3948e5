//! Routes, and the command line that declares them.

use rproxy::balancer::breaker::HealthConfig;
use rproxy::balancer::{PoolConfig, Upstream};
use rproxy::cli::{address_texts, build_routes, parse_duration, Settings};
use rproxy::fault::Fault;
use rproxy::ip::IpAddr;
use rproxy::logging::Level;
use rproxy::middleware::{MiddlewareConfig, Number};
use rproxy::pattern::Pattern;
use rproxy::router::{
    parse_matchers, partition_options, resolve_route, route_number_texts, PathMatcher, Route,
    RouteTable, Target,
};
use rproxy::time::Duration;
use rproxy::tls::ClientAuth;

/// Reads the numbers of a route spec.
fn numbers(spec: &str) -> Vec<(String, Option<Number>)> {
    route_number_texts(spec)
        .into_iter()
        .map(|t| {
            let n = t.parse::<f64>().ok().map(|f| Number {
                bits: f.to_bits(),
                positive: !(f <= 0.0),
                at_least_one: !(f < 1.0),
            });
            (t, n)
        })
        .collect()
}

fn resolve(
    spec: &str,
    names: &[&str],
    forwarded: bool,
    request_id: bool,
    access_log: bool,
) -> Result<Route, Fault> {
    let names = names.iter().map(|n| n.to_string()).collect();
    resolve_route(spec, &names, forwarded, request_id, access_log, &numbers(spec))
}

/// A table of specs; each target is a declared pool of one server.
fn table(specs: &[&str]) -> RouteTable {
    let mut names: Vec<String> = Vec::new();
    for s in specs {
        if let Some((_, target)) = s.rsplit_once('=') {
            if !names.contains(&target.to_string()) {
                names.push(target.to_string());
            }
        }
    }
    let pools = names.iter().map(|n| Upstream::single(n)).collect();
    let routes = specs
        .iter()
        .map(|s| resolve_route(s, &names, true, true, true, &numbers(s)).unwrap())
        .collect();
    RouteTable::new(routes, pools)
}

fn route_to<'a>(t: &'a RouteTable, method: &str, host: Option<&str>, path: &str) -> Option<&'a str> {
    t.find(method, host, path).map(|u| u.name())
}

fn name(r: &Route) -> &str {
    match &r.upstream {
        Target::Own(u) => u.name(),
        Target::Declared(_) => panic!("expected a pool of its own"),
    }
}

fn describe(c: &MiddlewareConfig) -> String {
    c.describe("10", "10")
}

#[test]
fn exact_beats_prefix_beats_catchall() {
    let t = table(&["/=B_ANY", "/api/**=B_PREFIX", "/api/health=B_EXACT"]);
    assert_eq!(route_to(&t, "GET", None, "/api/health"), Some("B_EXACT"));
    assert_eq!(route_to(&t, "GET", None, "/api/users"), Some("B_PREFIX"));
    assert_eq!(route_to(&t, "GET", None, "/other"), Some("B_ANY"));
}

#[test]
fn longest_prefix_wins() {
    let t = table(&["/api/**=B_SHORT", "/api/v2/**=B_LONG"]);
    assert_eq!(route_to(&t, "GET", None, "/api/v2/users"), Some("B_LONG"));
    assert_eq!(route_to(&t, "GET", None, "/api/v1/users"), Some("B_SHORT"));
}

#[test]
fn host_routing() {
    let t = table(&["api.example.com/=B_API", "/=B_DEFAULT"]);
    assert_eq!(route_to(&t, "GET", Some("api.example.com"), "/x"), Some("B_API"));
    assert_eq!(route_to(&t, "GET", Some("API.EXAMPLE.COM"), "/x"), Some("B_API"));
    assert_eq!(route_to(&t, "GET", Some("other.com"), "/x"), Some("B_DEFAULT"));
    assert_eq!(route_to(&t, "GET", None, "/x"), Some("B_DEFAULT"));
}

#[test]
fn method_routing() {
    let t = table(&["POST /upload=B_UP", "/upload=B_GET"]);
    assert_eq!(route_to(&t, "POST", None, "/upload"), Some("B_UP"));
    assert_eq!(route_to(&t, "GET", None, "/upload"), Some("B_GET"));
}

#[test]
fn wildcard_single_segment() {
    let t = table(&["/files/*=B_FILE"]);
    assert_eq!(route_to(&t, "GET", None, "/files/report.pdf"), Some("B_FILE"));
    assert_eq!(route_to(&t, "GET", None, "/files/2026/report.pdf"), None);
    assert_eq!(route_to(&t, "GET", None, "/files/"), None);
}

#[test]
fn regex_routing() {
    let t = table(&["~^/v[0-9]+/=B_VER", "/=B_DEFAULT"]);
    assert_eq!(route_to(&t, "GET", None, "/v2/users"), Some("B_VER"));
    assert_eq!(route_to(&t, "GET", None, "/vX/users"), Some("B_DEFAULT"));
}

#[test]
fn no_match_returns_none() {
    let t = table(&["/api/health=B"]);
    assert_eq!(route_to(&t, "GET", None, "/nope"), None);
}

#[test]
fn host_scoped_route_more_specific_than_bare() {
    let t = table(&["/api/**=B_BARE", "svc.local/api/**=B_HOST"]);
    assert_eq!(route_to(&t, "GET", Some("svc.local"), "/api/x"), Some("B_HOST"));
    assert_eq!(route_to(&t, "GET", Some("elsewhere"), "/api/x"), Some("B_BARE"));
}

#[test]
fn parse_errors() {
    assert!(parse_matchers("/no-target").is_err());
    assert!(parse_matchers("/x=").is_err());
    assert!(parse_matchers("~[invalid=B").is_err());
    assert!(parse_matchers("noslash=B").is_err());
}

#[test]
fn parse_shapes() {
    assert!(matches!(parse_matchers("/=B").unwrap().path, PathMatcher::Any));
    assert!(matches!(parse_matchers("/a=B").unwrap().path, PathMatcher::Exact(_)));
    assert!(matches!(parse_matchers("/a/**=B").unwrap().path, PathMatcher::Prefix(_)));
    assert!(matches!(parse_matchers("/a/*=B").unwrap().path, PathMatcher::Wildcard(_)));
    assert!(matches!(parse_matchers("~^/x=B").unwrap().path, PathMatcher::Regex(_)));
    let r = parse_matchers("POST host.com/a=B").unwrap();
    assert_eq!(r.method.as_deref(), Some("POST"));
    assert_eq!(r.host.as_deref(), Some("host.com"));
}

#[test]
fn route_resolution_rules() {
    let named = resolve("/svc/**=api", &["api"], true, true, true).unwrap();
    assert!(matches!(named.upstream, Target::Declared(0)));

    let wrapped = resolve("/=127.0.0.1:9000", &["api"], true, true, true).unwrap();
    assert_eq!(name(&wrapped), "127.0.0.1:9000");

    assert!(resolve("/=not_a_pool", &["api"], true, true, true).is_err());
}

#[test]
fn route_without_options_gets_default_rules() {
    let r = resolve("/api/**=127.0.0.1:9001", &[], true, true, true).unwrap();
    assert!(r.rules.strip.is_none());
    assert!(r.rules.forwarded);
    assert_eq!(name(&r), "127.0.0.1:9001");
}

#[test]
fn route_with_options_parses_target_correctly() {
    let r =
        resolve("/api/**=127.0.0.1:9001;strip=/api;host=b.local", &[], true, true, true).unwrap();
    assert_eq!(name(&r), "127.0.0.1:9001", "target must not absorb the options");
    assert_eq!(r.rules.strip.as_deref(), Some("/api"));
    assert_eq!(r.rules.host.as_deref(), Some("b.local"));
}

#[test]
fn no_forwarded_propagates_to_routes() {
    let r = resolve("/=127.0.0.1:9001", &[], false, true, true).unwrap();
    assert!(!r.rules.forwarded);
}

#[test]
fn route_with_bad_option_errors() {
    assert!(resolve("/=127.0.0.1:9001;bogus=1", &[], true, true, true).is_err());
    assert!(
        resolve("/=127.0.0.1:9001;set-header=Connection:close", &[], true, true, true).is_err(),
        "protected header must be rejected at startup"
    );
}

#[test]
fn l5_and_l6_options_compose() {
    let r = resolve(
        "/api/**=127.0.0.1:9002;strip=/api;auth=basic:u:p;rate=10/s",
        &[],
        true,
        true,
        true,
    )
    .unwrap();
    assert!(r.rules.strip.is_some(), "L5 option parsed");
    let d = describe(&r.chain);
    assert!(d.contains("auth") && d.contains("ratelimit"), "L6 chain built: {d}");
}

#[test]
fn unknown_option_still_errors_after_partition() {
    let e = resolve("/=127.0.0.1:9000;bogus=1", &[], true, true, true).unwrap_err();
    assert_eq!(e.message, "unknown route option \"bogus\"");
}

#[test]
fn no_options_gets_default_chain() {
    let r = resolve("/=127.0.0.1:9000", &[], true, true, true).unwrap();
    let d = describe(&r.chain);
    assert!(d.contains("log") && d.contains("request-id"));
    assert!(!d.contains("auth"));
}

#[test]
fn no_request_id_flag_omits_it_from_chain() {
    let r = resolve("/=127.0.0.1:9000", &[], true, false, true).unwrap();
    let d = describe(&r.chain);
    assert!(!d.contains("request-id"), "request-id disabled: {d}");
    assert!(d.contains("log"));
}

#[test]
fn the_first_of_equals_wins() {
    let t = table(&["~^/a=B_FIRST", "~a$=B_SECOND"]);
    assert_eq!(route_to(&t, "GET", None, "/a"), Some("B_FIRST"));
    let t = table(&["~a$=B_SECOND", "~^/a=B_FIRST"]);
    assert_eq!(route_to(&t, "GET", None, "/a"), Some("B_SECOND"));
}

#[test]
fn the_path_counts_before_the_scope() {
    let t = table(&["h/api/**=B_HOST", "/api/v2/**=B_LONG"]);
    assert_eq!(route_to(&t, "GET", Some("h"), "/api/v2/x"), Some("B_LONG"));
    assert_eq!(route_to(&t, "GET", Some("h"), "/api/v1/x"), Some("B_HOST"));
}

#[test]
fn hosts_count_before_methods() {
    let t = table(&["GET /a=B_METHOD", "h/a=B_HOST"]);
    assert_eq!(route_to(&t, "GET", Some("h"), "/a"), Some("B_HOST"));
    assert_eq!(route_to(&t, "GET", None, "/a"), Some("B_METHOD"));
}

#[test]
fn wildcards_count_before_prefixes() {
    let t = table(&["/files/**=B_ALL", "/files/*=B_ONE"]);
    assert_eq!(route_to(&t, "GET", None, "/files/x"), Some("B_ONE"));
    assert_eq!(route_to(&t, "GET", None, "/files/x/y"), Some("B_ALL"));
}

#[test]
fn shared_pools_are_listed_once() {
    let t = table(&["/a=P", "/b=Q", "/c=P"]);
    assert_eq!(t.upstreams(), vec![0, 1]);
}

#[test]
fn routes_describe_themselves() {
    let t = table(&["POST h/a/**=P", "~^/x=P"]);
    let none = (String::new(), String::new());
    assert_eq!(
        t.describe(&vec![none.clone(), none]),
        vec![
            "POST h prefix=/a/ -> [rr] P (middleware: log, request-id)",
            "* * regex=^/x -> [rr] P (middleware: log, request-id)",
        ]
    );
}

#[test]
fn options_are_partitioned() {
    let (a, b) = partition_options(" strip=/x ; auth=basic:u:p;; realm = r").unwrap();
    assert_eq!(a, "strip=/x");
    assert_eq!(b, "auth=basic:u:p;realm = r");
}

#[test]
fn bad_expressions_are_quoted() {
    let e = parse_matchers("~[=B").unwrap_err().message;
    assert!(e.starts_with("invalid regex (") && e.ends_with(": \"~[=B\""), "{e}");
}

// ---------------------------------------------------------------------------
// The command line
// ---------------------------------------------------------------------------

fn args(v: &[&str]) -> Vec<String> {
    v.iter().map(|s| s.to_string()).collect()
}

fn settings(v: &[&str]) -> Result<Settings, Fault> {
    let a = args(v);
    let readings = address_texts(&a)
        .into_iter()
        .map(|t| {
            let ip = match t.as_str() {
                "10.0.0.0" => Some(IpAddr::V4(0x0a00_0000)),
                "10.1.2.3" => Some(IpAddr::V4(0x0a01_0203)),
                _ => None,
            };
            (t, ip)
        })
        .collect();
    Settings::from_args(&a, &readings)
}

#[test]
fn durations_are_read() {
    assert_eq!(parse_duration("2s").unwrap(), Duration::from_secs(2));
    assert_eq!(parse_duration("500ms").unwrap(), Duration::from_millis(500));
    assert_eq!(parse_duration("7").unwrap(), Duration::from_secs(7));
    assert_eq!(
        parse_duration("2m").unwrap_err().message,
        "bad duration \"2m\" (expected e.g. 2s or 500ms)"
    );
}

#[test]
fn flags_set_their_settings() {
    let s = settings(&[
        "/=127.0.0.1:1",
        "--hc-fail",
        "5",
        "--backend-timeout",
        "3s",
        "--tls-client-auth",
        "optional",
        "--max-body",
        "1k",
        "--deny-cidr",
        "10.0.0.0/8,10.1.2.3",
        "--no-forwarded",
        "--log-level",
        "debug",
        "--log-plain",
        "--admin",
        "127.0.0.1:9100",
        "--upstream",
        "api=127.0.0.1:2",
    ])
    .unwrap();
    assert_eq!(s.route_specs, vec!["/=127.0.0.1:1"]);
    assert_eq!(s.upstream_specs, vec!["api=127.0.0.1:2"]);
    assert_eq!(s.hc.fail_threshold, 5);
    assert_eq!(s.backend_timeout, Duration::from_secs(3));
    assert_eq!(s.tls.client_auth, ClientAuth::Optional);
    assert_eq!(s.limits.max_body, 1024);
    assert_eq!(s.cidrs.deny.len(), 2);
    assert!(!s.forwarded && s.request_id && s.access_log);
    assert_eq!(s.log_level, Some(Level::Debug));
    assert!(s.log_plain);
    assert_eq!(s.admin.as_deref(), Some("127.0.0.1:9100"));
}

#[test]
fn wrong_flags_are_refused() {
    let message = |v: &[&str]| settings(v).unwrap_err().message;
    assert_eq!(message(&["--hc-interval"]), "--hc-interval requires a value");
    assert_eq!(message(&["--max-conns", "many"]), "--max-conns expects a number");
    assert_eq!(
        message(&["--allow-cidr", "nowhere"]),
        "bad IP address \"nowhere\" in CIDR \"nowhere\""
    );
    assert!(message(&["--max-body", "huge"]).starts_with("bad size"));
    assert!(message(&["--log-level", "loud"]).starts_with("unknown log level"));
}

fn build(ups: &[&str], routes: &[&str]) -> Result<RouteTable, Fault> {
    build_routes(
        &args(ups),
        &args(routes),
        &HealthConfig::default(),
        PoolConfig::default(),
        false,
        true,
        false,
        &vec![],
    )
}

#[test]
fn routes_may_be_left_out() {
    let t = build(&[], &[]).unwrap();
    assert_eq!(route_to(&t, "GET", None, "/x"), Some("127.0.0.1:9000"));
    assert!(!t.routes[0].rules.forwarded);
    assert!(t.routes[0].chain.request_id && !t.routes[0].chain.access_log);
    let t = build(&[], &["127.0.0.1:7"]).unwrap();
    assert_eq!(route_to(&t, "GET", None, "/x"), Some("127.0.0.1:7"));
}

#[test]
fn declared_pools_are_bound_by_name() {
    let t = build(&["api=lc:127.0.0.1:1,127.0.0.1:2"], &["/a=api", "/b=127.0.0.1:3"]).unwrap();
    assert_eq!(route_to(&t, "GET", None, "/a"), Some("api"));
    assert_eq!(t.pool(0).servers.len(), 2);
    assert_eq!(route_to(&t, "GET", None, "/b"), Some("127.0.0.1:3"));
}

#[test]
fn wrong_declarations_are_refused() {
    let message = |u: &[&str], r: &[&str]| build(u, r).map(|_| ()).unwrap_err().message;
    assert_eq!(message(&["api"], &[]), "--upstream must be NAME=SPEC, got \"api\"");
    assert_eq!(message(&["=x:1"], &[]), "--upstream has empty name: \"=x:1\"");
    assert_eq!(message(&["a=x:1", "a=y:1"], &[]), "duplicate upstream name \"a\"");
    assert!(message(&["a=x"], &[]).contains("host:port"));
    assert!(message(&[], &["/a=api"]).starts_with("unknown upstream \"api\""));
}

#[test]
fn the_order_of_routes_does_not_matter() {
    let specs = ["/=B_ANY", "/api/**=B_PREFIX", "h/api/**=B_HOST", "/api/*=B_ONE", "/api/x=B_EXACT"];
    let mut turned = specs;
    for _ in 0..specs.len() {
        turned.rotate_left(1);
        let t = table(&turned);
        assert_eq!(route_to(&t, "GET", Some("h"), "/api/x"), Some("B_EXACT"));
        assert_eq!(route_to(&t, "GET", Some("h"), "/api/y"), Some("B_ONE"));
        assert_eq!(route_to(&t, "GET", Some("h"), "/api/y/z"), Some("B_HOST"));
        assert_eq!(route_to(&t, "GET", None, "/api/y/z"), Some("B_PREFIX"));
        assert_eq!(route_to(&t, "GET", None, "/"), Some("B_ANY"));
    }
}

#[test]
fn the_last_value_of_a_flag_counts() {
    let s = settings(&["--max-conns", "5", "--admin", "a:1", "--max-conns", "7"]).unwrap();
    assert_eq!(s.max_conns, 7);
    assert_eq!(s.admin.as_deref(), Some("a:1"));
    let s = settings(&["--deny-cidr", "10.0.0.0/8", "--deny-cidr", "10.1.2.3"]).unwrap();
    assert_eq!(s.cidrs.deny.len(), 2);
}

#[test]
fn patterns_mind_case() {
    let p = Pattern::new("^/Admin").unwrap();
    assert_eq!(p.as_str(), "^/Admin");
    assert!(p.is_match("/Admin/x"));
    assert!(!p.is_match("/admin/x"));
    let m = PathMatcher::Regex(p);
    assert!(m.matches("/Admin") && !m.matches("/x/Admin"));
    assert_eq!(m.describe(), "regex=^/Admin");
    assert!(Pattern::new("[").is_err());
}
