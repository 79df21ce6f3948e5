//! The chain of layers, the options of a route, and the table of the rate limiter.

use std::cell::RefCell;
use std::rc::Rc;

use rproxy::http::{header, RequestHead, ResponseHead, Version};
use rproxy::ip::IpAddr;
use rproxy::middleware::auth::{Auth, Authz, Credential};
use rproxy::middleware::observe::RequestId;
use rproxy::middleware::options::number_texts;
use rproxy::middleware::ratelimit::{limit, Bucket, BucketTable, Slot, SHARD_CAP};
use rproxy::middleware::{
    AnyLayer, Chain, Decision, Layer, Middleware, MiddlewareConfig, Number, Peer, Rejection, ReqCtx,
    Shared,
};
use rproxy::fault::Fault;
use rproxy::time::{Duration, Instant};
use rproxy::waf::{Reputation, RuleSet, Waf, WafMode};

type Log = Rc<RefCell<Vec<String>>>;

/// A layer that notes its label in each phase, and may refuse the request.
struct Probe {
    label: &'static str,
    log: Log,
    reject: bool,
}

impl Middleware for Probe {
    fn name(&self) -> &'static str {
        self.label
    }

    fn on_request(
        &mut self,
        _req: &mut RequestHead,
        _ctx: &mut ReqCtx,
        _shared: &mut Shared,
    ) -> Decision {
        self.log.borrow_mut().push(format!("req:{}", self.label));
        if self.reject {
            Decision::Reject(Rejection {
                status: 418,
                reason: "teapot",
                headers: vec![],
                body: String::new(),
            })
        } else {
            Decision::Continue
        }
    }

    fn on_response(&self, _ctx: &ReqCtx, _resp: &mut ResponseHead) {
        self.log.borrow_mut().push(format!("resp:{}", self.label));
    }
}

fn req() -> RequestHead {
    RequestHead {
        method: "GET".into(),
        target: "/".into(),
        version: Version::Http11,
        headers: vec![],
    }
}

fn resp() -> ResponseHead {
    ResponseHead {
        version: Version::Http11,
        status: 200,
        reason: "OK".into(),
        headers: vec![],
    }
}

fn ctx() -> ReqCtx {
    ReqCtx::new(
        Peer { ip: IpAddr::V4(0x7f00_0001), shown: "127.0.0.1:1".into() },
        Instant { nanos: 0 },
        "GET".into(),
        "/".into(),
        None,
    )
}

fn shared() -> Shared {
    Shared {
        now: Instant { nanos: 0 },
        reputation: Reputation::new(3, Duration::from_secs(60)),
        rules: RuleSet::compiled().unwrap(),
    }
}

fn probes(log: &Log, rejecter: Option<usize>) -> Chain<Probe> {
    let labels = ["a", "b", "c"];
    let mws = labels
        .iter()
        .enumerate()
        .map(|(i, l)| Probe { label: l, log: log.clone(), reject: Some(i) == rejecter })
        .collect();
    Chain::new(mws)
}

#[test]
fn on_request_runs_forward() {
    let log: Log = Rc::new(RefCell::new(vec![]));
    let mut chain = probes(&log, None);
    assert!(chain.run_request(&mut req(), &mut ctx(), &mut shared()).is_ok());
    assert_eq!(*log.borrow(), ["req:a", "req:b", "req:c"]);
}

#[test]
fn on_response_runs_reverse() {
    let log: Log = Rc::new(RefCell::new(vec![]));
    let chain = probes(&log, None);
    chain.run_response_all(&ctx(), &mut resp());
    assert_eq!(*log.borrow(), ["resp:c", "resp:b", "resp:a"]);
}

#[test]
fn reject_short_circuits_inner_layers() {
    let log: Log = Rc::new(RefCell::new(vec![]));
    let mut chain = probes(&log, Some(1));
    let mut c = ctx();
    let err = chain.run_request(&mut req(), &mut c, &mut shared());
    assert!(matches!(err, Err((1, _))));
    assert_eq!(*log.borrow(), ["req:a", "req:b"]);
    assert_eq!(c.rejected_by, Some("b"));
}

#[test]
fn reject_unwinds_only_entered_layers() {
    let log: Log = Rc::new(RefCell::new(vec![]));
    let mut chain = probes(&log, Some(1));
    let _ = chain.run_request(&mut req(), &mut ctx(), &mut shared());
    log.borrow_mut().clear();
    chain.run_response(&ctx(), &mut resp(), 1);
    assert_eq!(*log.borrow(), ["resp:a"]);
}

#[test]
fn chains_describe_themselves() {
    let log: Log = Rc::new(RefCell::new(vec![]));
    assert_eq!(probes(&log, None).describe(), "a, b, c");
    let named = Chain::<Probe>::with_summary(vec![], "nothing".into());
    assert_eq!(named.describe(), "nothing");
}

/// Reads the numbers of options.
fn numbers(opts: &str) -> Vec<(String, Option<Number>)> {
    number_texts(opts)
        .into_iter()
        .map(|t| {
            let n = t.parse::<f64>().ok().map(|f| Number {
                bits: f.to_bits(),
                positive: !(f <= 0.0),
                at_least_one: !(f < 1.0),
            });
            (t, n)
        })
        .collect()
}

fn options(opts: &str, request_id: bool, access_log: bool) -> Result<MiddlewareConfig, Fault> {
    MiddlewareConfig::from_options(opts, request_id, access_log, &numbers(opts))
}

/// Tokens for a second.
fn per_second(c: &MiddlewareConfig) -> Option<f64> {
    c.rate.map(|r| {
        let n = f64::from_bits(r.count.bits);
        if r.per_minute {
            n / 60.0
        } else {
            n
        }
    })
}

fn describe(c: &MiddlewareConfig) -> String {
    let rate = per_second(c).unwrap_or(0.0);
    let burst = c.burst.map(|b| f64::from_bits(b.bits)).unwrap_or(rate.ceil().max(1.0));
    c.describe(&format!("{rate}"), &format!("{burst}"))
}

#[test]
fn parses_all_l6_options() {
    let c = options(
        "auth=basic:admin:pw;auth=bearer:tok;realm=api;require-user=admin;rate=100/s;burst=200",
        true,
        true,
    )
    .unwrap();
    assert_eq!(c.creds.len(), 2);
    assert_eq!(c.realm, "api");
    assert_eq!(c.require_user, vec!["admin"]);
    assert_eq!(per_second(&c), Some(100.0));
    assert_eq!(c.burst.map(|b| f64::from_bits(b.bits)), Some(200.0));
}

#[test]
fn rate_per_minute() {
    let c = options("rate=60/m", true, true).unwrap();
    assert_eq!(per_second(&c), Some(1.0));
}

#[test]
fn require_user_without_auth_errors() {
    assert!(options("require-user=admin", true, true).is_err());
}

#[test]
fn rate_zero_errors() {
    assert!(options("rate=0/s", true, true).is_err());
}

#[test]
fn burst_zero_errors() {
    assert!(options("rate=10/s;burst=0", true, true).is_err());
}

#[test]
fn malformed_rate_errors() {
    assert!(options("rate=abc", true, true).is_err());
    assert!(options("rate=10/x", true, true).is_err());
}

#[test]
fn unknown_auth_scheme_errors() {
    assert!(options("auth=digest:x:y", true, true).is_err());
}

#[test]
fn basic_without_colon_errors() {
    assert!(options("auth=basic:nocolon", true, true).is_err());
}

#[test]
fn basic_password_may_contain_colon() {
    let c = options("auth=basic:admin:p:ss", true, true).unwrap();
    match &c.creds[0] {
        Credential::Basic { user, pass } => {
            assert_eq!(user, "admin");
            assert_eq!(pass, "p:ss");
        }
        _ => panic!("expected Basic"),
    }
}

#[test]
fn default_burst_is_one_second_of_rate() {
    let c = options("rate=50/s", true, true).unwrap();
    assert!(c.burst.is_none());
    assert!(describe(&c).contains("burst=50"));
}

#[test]
fn disabling_request_id_omits_it_from_chain() {
    let c = options("", false, true).unwrap();
    let d = describe(&c);
    assert!(d.contains("log"));
    assert!(!d.contains("request-id"));
}

#[test]
fn default_chain_is_log_and_request_id() {
    let c = options("", true, true).unwrap();
    let d = describe(&c);
    assert!(d.contains("log") && d.contains("request-id"));
    assert!(!d.contains("auth") && !d.contains("ratelimit"));
}

#[test]
fn layers_stand_in_their_order() {
    let c = options(
        "require-user=admin;auth=basic:admin:pw;rate=1/s;waf=block;waf-threshold=7",
        true,
        true,
    )
    .unwrap();
    let layers = c.build(false);
    assert_eq!(layers.len(), 6);
    assert!(matches!(layers[0], Layer::AccessLog(_)));
    assert!(matches!(layers[1], Layer::RequestId));
    match &layers[2] {
        Layer::Waf(w) => {
            assert_eq!(w.threshold, 7);
            assert_eq!(w.mode, WafMode::Block);
        }
        _ => panic!("expected the firewall"),
    }
    assert!(matches!(layers[3], Layer::RateLimit { .. }));
    assert!(matches!(layers[4], Layer::Auth(_)));
    assert!(matches!(layers[5], Layer::Authz(_)));
}

#[test]
fn options_without_a_value_are_refused() {
    let e = options("realm", true, true).unwrap_err();
    assert_eq!(e.message, "middleware option: \"realm\" must be name=value");
    let e = options("waf-threshold=0", true, true).unwrap_err();
    assert!(e.message.contains("waf-threshold must be >= 1"), "{}", e.message);
    assert!(options("burst=5", true, true).is_err());
    assert!(options("waf=maybe", true, true).is_err());
}

/// A token bucket over the table.
struct Limiter {
    rate: f64,
    burst: f64,
    table: BucketTable,
}

impl Limiter {
    fn new(rate: f64, burst: f64) -> Limiter {
        Limiter { rate, burst, table: BucketTable::new() }
    }

    fn allow(&mut self, ip: IpAddr, now: Instant) -> Result<(), u64> {
        let (tokens, since) = match self.table.slot(ip, now) {
            Slot::Known(b) => (f64::from_bits(b.tokens), b.last_refill),
            Slot::Fresh => (self.burst, now),
            Slot::Full => return Ok(()),
        };
        let elapsed = now.since(since).nanos as f64 / 1e9;
        let filled = (tokens + elapsed * self.rate).min(self.burst);
        let (left, answer) = if filled >= 1.0 {
            (filled - 1.0, Ok(()))
        } else {
            let secs = ((1.0 - filled) / self.rate).ceil() as u64;
            (filled, Err(secs.max(1)))
        };
        let wait = ((self.burst - left) / self.rate * 1e9).ceil() as u64;
        let full_at = Instant { nanos: now.nanos.saturating_add(wait) };
        self.table.store(ip, Bucket { tokens: left.to_bits(), full_at, last_refill: now });
        answer
    }
}

fn v4(n: u32) -> IpAddr {
    IpAddr::V4(0x0a00_0000 + n)
}

fn at(secs: u64) -> Instant {
    Instant { nanos: secs * 1_000_000_000 }
}

#[test]
fn burst_allows_exactly_n_then_rejects() {
    let mut lim = Limiter::new(1.0, 3.0);
    assert!(lim.allow(v4(1), at(0)).is_ok());
    assert!(lim.allow(v4(1), at(0)).is_ok());
    assert!(lim.allow(v4(1), at(0)).is_ok());
    assert!(lim.allow(v4(1), at(0)).is_err());
}

#[test]
fn refill_after_time_advance() {
    let mut lim = Limiter::new(2.0, 2.0);
    assert!(lim.allow(v4(2), at(0)).is_ok());
    assert!(lim.allow(v4(2), at(0)).is_ok());
    assert!(lim.allow(v4(2), at(0)).is_err());
    assert!(lim.allow(v4(2), at(1)).is_ok());
    assert!(lim.allow(v4(2), at(1)).is_ok());
    assert!(lim.allow(v4(2), at(1)).is_err());
}

#[test]
fn retry_after_is_at_least_one() {
    let mut lim = Limiter::new(1.0, 1.0);
    assert!(lim.allow(v4(3), at(0)).is_ok());
    match lim.allow(v4(3), at(0)) {
        Err(secs) => assert!(secs >= 1),
        Ok(()) => panic!("should be rejected"),
    }
}

#[test]
fn distinct_ips_have_independent_buckets() {
    let mut lim = Limiter::new(1.0, 1.0);
    assert!(lim.allow(v4(4), at(0)).is_ok());
    assert!(lim.allow(v4(4), at(0)).is_err());
    assert!(lim.allow(v4(5), at(0)).is_ok());
}

#[test]
fn ipv4_and_ipv6_coexist() {
    let mut lim = Limiter::new(1.0, 1.0);
    assert!(lim.allow(v4(6), at(0)).is_ok());
    assert!(lim.allow(IpAddr::V6(1), at(0)).is_ok());
}

#[test]
fn shard_cap_does_not_panic_and_active_ip_works() {
    let mut lim = Limiter::new(1000.0, 1000.0);
    for i in 0..(SHARD_CAP * 2) {
        let _ = lim.allow(v4(i as u32), at(0));
    }
    assert!(lim.allow(IpAddr::V4(0xac10_0001), at(3600)).is_ok());
}

#[test]
fn buckets_that_refilled_make_room() {
    // A token refills in ten seconds: a bucket that lost one is full again at 10 s, and
    // idle for long at 60 s.
    let mut lim = Limiter::new(0.1, 5.0);
    let mut n = 0;
    while lim.table.shards.iter().any(|s| s.len() < SHARD_CAP) {
        assert!(lim.allow(v4(n), at(0)).is_ok());
        n += 1;
    }
    let stranger = IpAddr::V4(0xac10_0001);
    assert!(matches!(lim.table.slot(stranger, at(59)), Slot::Full));
    assert!(matches!(lim.table.slot(stranger, at(60)), Slot::Fresh));
    assert!(lim.allow(stranger, at(60)).is_ok());
    assert!(matches!(lim.table.slot(stranger, at(60)), Slot::Known(_)));
}

#[test]
fn buckets_that_are_not_full_yet_stay() {
    // Thirty spent tokens take five minutes to come back.
    let mut lim = Limiter::new(0.1, 30.0);
    let spender = v4(0);
    for _ in 0..30 {
        assert!(lim.allow(spender, at(0)).is_ok());
    }
    let home = lim.table.shards.iter().position(|s| s.len() == 1).unwrap();
    let mut n = 1;
    while lim.table.shards[home].len() < SHARD_CAP {
        let _ = lim.allow(v4(n), at(0));
        n += 1;
    }
    while lim.table.shards[home].len() == SHARD_CAP {
        let _ = lim.table.slot(v4(n), at(299));
        n += 1;
    }
    assert!(matches!(lim.table.slot(spender, at(299)), Slot::Known(_)));
    assert_eq!(lim.table.shards[home].len(), 1);
}

#[test]
fn refusals_say_when_to_come_back() {
    match limit(Err(7)) {
        Decision::Reject(r) => {
            assert_eq!(r.status, 429);
            assert_eq!(header(&r.headers, "retry-after"), Some("7"));
        }
        _ => panic!("expected a refusal"),
    }
    assert!(matches!(limit(Ok(())), Decision::Continue));
}

#[test]
fn only_full_idle_buckets_are_dropped() {
    let mut t = BucketTable::new();
    let first = v4(0);
    let part = |t: &BucketTable| t.shards.iter().position(|s| s.iter().any(|(a, _)| *a == first));
    assert!(matches!(t.slot(first, at(0)), Slot::Fresh));
    t.store(first, Bucket { tokens: 0, full_at: at(100), last_refill: at(0) });
    let home = part(&t).unwrap();
    let mut n = 1;
    while t.shards[home].len() < SHARD_CAP {
        let ip = v4(n);
        if matches!(t.slot(ip, at(0)), Slot::Fresh) {
            t.store(ip, Bucket { tokens: 1, full_at: at(0), last_refill: at(0) });
        }
        n += 1;
    }
    // Newcomers of the full part: nothing is idle yet, and then all but the first are.
    for i in n..n + 1000 {
        let _ = t.slot(v4(i), at(59));
    }
    assert_eq!(t.shards[home].len(), SHARD_CAP);
    for i in n..n + 1000 {
        let _ = t.slot(v4(i), at(60));
    }
    assert_eq!(t.shards[home].len(), 1);
    assert!(matches!(t.slot(first, at(60)), Slot::Known(_)));
}

#[test]
fn only_the_listed_numbers_matter() {
    let opts = "realm=7;rate=5/s;burst=9";
    assert_eq!(number_texts(opts), vec!["5", "9"]);
    let mut more = numbers(opts);
    more.push(("7".to_string(), None));
    let a = MiddlewareConfig::from_options(opts, true, true, &numbers(opts)).unwrap();
    let b = MiddlewareConfig::from_options(opts, true, true, &more).unwrap();
    assert_eq!(describe(&a), describe(&b));
}

#[test]
fn layers_of_all_kinds_stand_in_one_chain() {
    let log: Log = Rc::new(RefCell::new(vec![]));
    let creds = vec![Credential::Bearer { token: "t".into(), label: "bot".into() }];
    let auth = Auth { creds, realm: "r".into() };
    let mut chain = Chain::new(vec![
        AnyLayer::Outside(Probe { label: "a", log: log.clone(), reject: false }),
        AnyLayer::RequestId(RequestId::seeded(255)),
        AnyLayer::Waf(Waf { mode: WafMode::Block, threshold: 10 }),
        AnyLayer::Auth(auth),
        AnyLayer::Authz(Authz { allowed: vec!["nobody".into()] }),
        AnyLayer::Outside(Probe { label: "b", log: log.clone(), reject: false }),
    ]);
    assert_eq!(chain.describe(), "a, request-id, waf, auth, authz, b");

    let mut head = req();
    let mut state = ctx();
    let refused = chain.run_request(&mut head, &mut state, &mut shared());
    let (entered, rejection) = refused.unwrap_err();
    assert_eq!((entered, rejection.status), (3, 401));
    assert_eq!(state.rejected_by, Some("auth"));
    assert_eq!(header(&head.headers, "x-request-id"), Some("ff-0"));
    assert_eq!(*log.borrow(), ["req:a"]);

    let mut answer = resp();
    chain.run_response(&state, &mut answer, entered);
    assert_eq!(header(&answer.headers, "x-request-id"), Some("ff-0"));
    assert_eq!(*log.borrow(), ["req:a", "resp:a"]);
}

#[test]
fn a_bucket_is_written_in_one_place() {
    let mut t = BucketTable::new();
    assert!(t.shards.iter().all(|s| s.is_empty()));
    let bucket = |n: u64| Bucket { tokens: n, full_at: at(0), last_refill: at(0) };
    let count = |t: &BucketTable| t.shards.iter().map(|s| s.len()).sum::<usize>();
    for n in 0..100 {
        t.store(v4(n), bucket(1));
    }
    assert_eq!(count(&t), 100);
    t.store(v4(7), bucket(2));
    assert_eq!(count(&t), 100);
    assert_eq!(t.slot(v4(7), at(0)), Slot::Known(bucket(2)));
    assert_eq!(t.slot(v4(8), at(0)), Slot::Known(bucket(1)));
}
