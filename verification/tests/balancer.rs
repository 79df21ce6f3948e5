//! Pools, algorithms and breakers.

use rproxy::balancer::breaker::{Breaker, BreakerState, HealthConfig, ProbeAction};
use rproxy::balancer::{
    fnv1a, Algorithm, Lease, PoolConfig, Rng, Upstream, VNODES_PER_SERVER,
};
use rproxy::balancer::idle::IdlePool;
use rproxy::balancer::spec::{ignored_weights, is_host_port};
use rproxy::health::{apply_probe_result, due_servers, probe_passed, probe_request};
use rproxy::ip::IpAddr;
use rproxy::time::{Duration, Instant};

fn ip(a: u8, b: u8, c: u8, d: u8) -> IpAddr {
    IpAddr::V4(u32::from_be_bytes([a, b, c, d]))
}

fn any() -> IpAddr {
    ip(1, 1, 1, 1)
}

fn secs(n: u64) -> Duration {
    Duration::from_secs(n)
}

fn t0() -> Instant {
    Instant { nanos: 5_000_000_000 }
}

fn plus(t: Instant, d: Duration) -> Instant {
    Instant { nanos: t.nanos + d.nanos as u64 }
}

fn hc() -> HealthConfig {
    HealthConfig {
        fail_threshold: 3,
        success_threshold: 2,
        backoff_base: secs(1),
        backoff_max: secs(30),
        interval: secs(2),
        timeout: secs(1),
        path: "/health".to_string(),
    }
}

fn pool(algo: Algorithm, servers: &[(&str, u32)]) -> Upstream {
    let servers = servers.iter().map(|(a, w)| (a.to_string(), *w)).collect();
    Upstream::build("test".to_string(), algo, servers, hc(), PoolConfig::default())
}

/// Picks one server by its place.
fn lease_on(up: &mut Upstream, server: usize) -> Lease {
    up.servers[server].inflight += 1;
    Lease { server, started: t0(), served: false, outcome: None }
}

#[test]
fn round_robin_cycles() {
    let mut up = pool(Algorithm::RoundRobin, &[("a:1", 1), ("b:1", 1), ("c:1", 1)]);
    let seq: Vec<_> = (0..4).map(|_| up.select(any(), 0).unwrap()).collect();
    assert_eq!(seq, vec![0, 1, 2, 0]);
}

#[test]
fn weighted_round_robin_ratio() {
    let mut up = pool(Algorithm::WeightedRoundRobin, &[("a:1", 5), ("b:1", 1)]);
    let mut counts = [0usize; 2];
    for _ in 0..100 {
        counts[up.select(any(), 0).unwrap()] += 1;
    }
    assert!(counts[0] > counts[1] * 4, "counts={counts:?}");
    assert!(counts[0] < counts[1] * 6, "counts={counts:?}");
}

#[test]
fn random_touches_all() {
    let mut up = pool(Algorithm::Random, &[("a:1", 1), ("b:1", 1), ("c:1", 1)]);
    let mut rng = Rng::seeded(12345, 1);
    let mut seen = [false; 3];
    for _ in 0..300 {
        let roll = rng.next_random();
        seen[up.select(any(), roll).unwrap()] = true;
    }
    assert!(seen.iter().all(|&s| s), "some server never picked: {seen:?}");
}

#[test]
fn least_conn_picks_idle() {
    let mut up = pool(Algorithm::LeastConnections, &[("a:1", 1), ("b:1", 1), ("c:1", 1)]);
    let _l0a = lease_on(&mut up, 0);
    let _l0b = lease_on(&mut up, 0);
    let _l1 = lease_on(&mut up, 1);
    assert_eq!(up.select(any(), 0), Some(2));
}

#[test]
fn least_conn_rebalances_after_drop() {
    let mut up = pool(Algorithm::LeastConnections, &[("a:1", 1), ("b:1", 1)]);
    let held = lease_on(&mut up, 0);
    assert_eq!(up.select(any(), 0), Some(1));
    up.release(held, t0());
    assert_eq!(up.select(any(), 0), Some(0));
}

#[test]
fn lease_releases_on_every_path() {
    let mut up = pool(Algorithm::LeastConnections, &[("a:1", 1)]);
    let l = up.pick(any(), 0, t0()).unwrap();
    assert_eq!(l.inflight(&up), 1);
    up.release(l, t0());
    assert_eq!(up.servers[0].inflight(), 0);

    let mut l = up.pick(any(), 0, t0()).unwrap();
    l.mark_failure();
    up.release(l, t0());
    assert_eq!(up.servers[0].inflight(), 0, "lease leaked on a failure");
}

#[test]
fn least_response_time_prefers_faster_and_untried() {
    let mut up = pool(Algorithm::LeastResponseTime, &[("a:1", 1), ("b:1", 1), ("c:1", 1)]);
    up.servers[0].record_rtt(Duration::from_millis(50));
    up.servers[1].record_rtt(Duration::from_millis(5));
    assert_eq!(up.select(any(), 0), Some(2));

    up.servers[2].record_rtt(Duration::from_millis(20));
    assert_eq!(up.select(any(), 0), Some(1));
}

#[test]
fn ip_hash_stable() {
    let mut up = pool(Algorithm::IpHash, &[("a:1", 1), ("b:1", 1), ("c:1", 1)]);
    let client = ip(203, 0, 113, 7);
    let first = up.select(client, 0).unwrap();
    for i in 0..50 {
        assert_eq!(up.select(client, i), Some(first));
    }
}

#[test]
fn ip_hash_spreads() {
    let mut up = pool(Algorithm::IpHash, &[("a:1", 1), ("b:1", 1), ("c:1", 1)]);
    let mut seen = [false; 3];
    for i in 0..255u8 {
        seen[up.select(ip(10, 0, 0, i), 0).unwrap()] = true;
    }
    assert!(seen.iter().all(|&s| s), "IP hash left a server unused: {seen:?}");
}

#[test]
fn consistent_hash_stable() {
    let mut up = pool(Algorithm::ConsistentHash, &[("a:1", 1), ("b:1", 1), ("c:1", 1)]);
    let client = ip(198, 51, 100, 23);
    let first = up.select(client, 0).unwrap();
    for i in 0..50 {
        assert_eq!(up.select(client, i), Some(first));
    }
}

fn retained(algo: Algorithm) -> f64 {
    const KEYS: u32 = 10_000;
    let four = [("s0:1", 1), ("s1:1", 1), ("s2:1", 1), ("s3:1", 1)];
    let three = [("s0:1", 1), ("s1:1", 1), ("s2:1", 1)];
    let mut before = pool(algo, &four);
    let mut after = pool(algo, &three);
    let mut kept = 0u32;
    for i in 0..KEYS {
        let client = IpAddr::V4(i.wrapping_mul(2_654_435_761));
        let x = before.select(client, 0).unwrap();
        let y = after.select(client, 0).unwrap();
        if before.servers[x].addr() == after.servers[y].addr() {
            kept += 1;
        }
    }
    kept as f64 / KEYS as f64
}

#[test]
fn consistent_hash_beats_modulo_under_removal() {
    let chash = retained(Algorithm::ConsistentHash);
    let iphash = retained(Algorithm::IpHash);
    assert!(chash >= 0.70, "consistent hash retained only {chash:.3}");
    assert!(iphash < 0.40, "ip hash retained {iphash:.3} — too stable to be modulo");
}

#[test]
fn spec_parser_shapes() {
    assert_eq!(
        Upstream::from_spec("x", "127.0.0.1:9001").unwrap().algorithm,
        Algorithm::RoundRobin
    );
    assert_eq!(
        Upstream::from_spec("x", "localhost:9001").unwrap().algorithm,
        Algorithm::RoundRobin
    );
    for (tag, algo) in [
        ("rr", Algorithm::RoundRobin),
        ("wrr", Algorithm::WeightedRoundRobin),
        ("rand", Algorithm::Random),
        ("lc", Algorithm::LeastConnections),
        ("lrt", Algorithm::LeastResponseTime),
        ("iphash", Algorithm::IpHash),
        ("chash", Algorithm::ConsistentHash),
    ] {
        let spec = format!("{tag}:127.0.0.1:9001,127.0.0.1:9002");
        let up = Upstream::from_spec("x", &spec).unwrap();
        assert_eq!(up.algorithm, algo, "tag {tag}");
        assert_eq!(up.servers.len(), 2);
    }
    let up = Upstream::from_spec("x", "wrr: 10.0.0.1:80*3 , 10.0.0.2:80*1 ").unwrap();
    assert_eq!(up.wrr_index.len(), 4);
    let up = Upstream::from_spec("x", "chash:node1:6379,node2:6379").unwrap();
    assert_eq!(up.servers.len(), 2);
    assert_eq!(up.ring.len(), 2 * VNODES_PER_SERVER);
}

#[test]
fn spec_parser_errors() {
    assert!(Upstream::from_spec("x", "").is_err());
    assert!(Upstream::from_spec("x", "rr:").is_err());
    assert!(Upstream::from_spec("x", "127.0.0.1").is_err());
    assert!(Upstream::from_spec("x", "host:0").is_err());
    assert!(Upstream::from_spec("x", "bogus:127.0.0.1:9001").is_err());
    assert!(Upstream::from_spec("x", "wrr:127.0.0.1:9001*0").is_err());
}

#[test]
fn weight_on_non_weighted_is_accepted() {
    let up = Upstream::from_spec("x", "rr:127.0.0.1:9001*5,127.0.0.1:9002").unwrap();
    assert_eq!(up.servers.len(), 2);
    assert!(up.wrr_index.is_empty());
}

#[test]
fn single_server_pool() {
    let mut up = Upstream::single("127.0.0.1:9000");
    assert_eq!(up.select(any(), 0), Some(0));
    assert_eq!(up.servers[0].addr(), "127.0.0.1:9000");
}

#[test]
fn breaker_tolerates_failures_below_threshold() {
    let mut b = Breaker::new(&hc());
    b.record_failure(t0());
    b.record_failure(t0());
    assert!(b.allows_traffic());
    assert_eq!(b.state(), BreakerState::Closed);
}

#[test]
fn breaker_trips_open_at_threshold() {
    let mut b = Breaker::new(&hc());
    for _ in 0..3 {
        b.record_failure(t0());
    }
    assert_eq!(b.state(), BreakerState::Open);
    assert!(!b.allows_traffic());
}

#[test]
fn breaker_success_resets_failure_run() {
    let mut b = Breaker::new(&hc());
    b.record_failure(t0());
    b.record_failure(t0());
    b.record_success(t0());
    b.record_failure(t0());
    b.record_failure(t0());
    assert_eq!(b.state(), BreakerState::Closed, "2 failures after reset must not trip");
}

#[test]
fn breaker_open_admits_one_half_open_trial_after_cooldown() {
    let mut b = Breaker::new(&hc());
    for _ in 0..3 {
        b.record_failure(t0());
    }
    assert!(b.probe_due(t0()).is_none());
    assert!(b.probe_due(plus(t0(), Duration::from_millis(999))).is_none());
    let after = plus(t0(), secs(1));
    assert!(matches!(b.probe_due(after), Some(ProbeAction::HalfOpenTrial)));
    assert_eq!(b.state(), BreakerState::HalfOpen);
    assert!(b.probe_due(after).is_none());
    assert!(!b.allows_traffic());
}

#[test]
fn breaker_recovers_after_success_threshold() {
    let mut b = Breaker::new(&hc());
    for _ in 0..3 {
        b.record_failure(t0());
    }
    let t1 = plus(t0(), secs(1));
    b.probe_due(t1);
    b.record_success(t1);
    assert_eq!(b.state(), BreakerState::HalfOpen, "one success is not enough");
    b.record_success(t1);
    assert_eq!(b.state(), BreakerState::Closed);
    assert!(b.allows_traffic());
    assert_eq!(b.cooldown(), secs(1), "backoff reset on recovery");
}

#[test]
fn probes_alone_bring_a_server_back() {
    let mut b = Breaker::new(&hc());
    for _ in 0..3 {
        b.record_failure(t0());
    }
    let t1 = plus(t0(), secs(1));
    assert_eq!(b.probe_due(t1), Some(ProbeAction::HalfOpenTrial));
    assert_eq!(b.probe_due(plus(t0(), secs(9))), None, "the trial is still out");
    b.record_success(t1);
    assert_eq!(b.state(), BreakerState::HalfOpen);
    let t3 = plus(t0(), secs(3));
    assert_eq!(b.probe_due(t3), Some(ProbeAction::HalfOpenTrial));
    assert_eq!(b.probe_due(t3), None);
    b.record_success(t3);
    assert_eq!(b.state(), BreakerState::Closed);
    assert_eq!(b.probe_due(t3), Some(ProbeAction::Normal));
}

#[test]
fn a_failed_second_trial_cools_down_again() {
    let mut b = Breaker::new(&hc());
    for _ in 0..3 {
        b.record_failure(t0());
    }
    let t1 = plus(t0(), secs(1));
    b.probe_due(t1);
    b.record_success(t1);
    b.probe_due(t1);
    b.record_failure(t1);
    assert_eq!(b.state(), BreakerState::Open);
    assert_eq!(b.probe_due(plus(t1, secs(1))), None);
    assert_eq!(b.probe_due(plus(t1, secs(2))), Some(ProbeAction::HalfOpenTrial));
}

#[test]
fn breaker_failed_trial_doubles_backoff() {
    let mut b = Breaker::new(&hc());
    for _ in 0..3 {
        b.record_failure(t0());
    }
    assert_eq!(b.cooldown(), secs(1));
    let t1 = plus(t0(), secs(1));
    b.probe_due(t1);
    b.record_failure(t1);
    assert_eq!(b.state(), BreakerState::Open);
    assert_eq!(b.cooldown(), secs(2), "backoff must double");
}

#[test]
fn breaker_backoff_caps_at_max() {
    let mut b = Breaker::new(&hc());
    let mut t = t0();
    for _ in 0..3 {
        b.record_failure(t);
    }
    for _ in 0..8 {
        t = plus(t, b.cooldown());
        b.probe_due(t);
        b.record_failure(t);
    }
    assert_eq!(b.cooldown(), secs(30), "must cap, not grow unbounded");
}

#[test]
fn breaker_backoff_resets_after_recovery() {
    let mut b = Breaker::new(&hc());
    let mut t = t0();
    for _ in 0..3 {
        b.record_failure(t);
    }
    t = plus(t, secs(1));
    b.probe_due(t);
    b.record_failure(t);
    t = plus(t, secs(2));
    b.probe_due(t);
    b.record_success(t);
    b.record_success(t);
    assert_eq!(b.cooldown(), secs(1));
    for _ in 0..3 {
        b.record_failure(t);
    }
    assert_eq!(b.cooldown(), secs(1));
}

#[test]
fn server_available_follows_breaker() {
    let mut up = pool(Algorithm::RoundRobin, &[("a:1", 1)]);
    assert!(up.servers_slice()[0].available(), "a fresh server must serve traffic");
    for _ in 0..3 {
        up.servers[0].record_failure(t0());
    }
    assert!(
        !up.servers_slice()[0].available(),
        "a tripped server must be excluded from selection"
    );
}

#[test]
fn lease_failure_feeds_breaker() {
    let mut up = pool(Algorithm::RoundRobin, &[("a:1", 1)]);
    for _ in 0..3 {
        let mut l = up.pick(any(), 0, t0()).unwrap();
        l.mark_failure();
        up.release(l, t0());
    }
    assert!(!up.servers_slice()[0].available(), "3 failed requests must trip the breaker");
}

#[test]
fn lease_success_feeds_breaker() {
    let mut up = pool(Algorithm::RoundRobin, &[("a:1", 1)]);
    for ok in [false, false, true, false] {
        let mut l = up.pick(any(), 0, t0()).unwrap();
        if ok {
            l.mark_success();
        } else {
            l.mark_failure();
        }
        up.release(l, t0());
    }
    assert!(up.servers_slice()[0].available(), "run was reset, so this must not trip");
}

#[test]
fn unmarked_lease_does_not_touch_breaker() {
    let mut up = pool(Algorithm::RoundRobin, &[("a:1", 1)]);
    for _ in 0..10 {
        let l = up.pick(any(), 0, t0()).unwrap();
        up.release(l, t0());
    }
    assert!(up.servers_slice()[0].available(), "unjudged requests must not trip the breaker");
    assert_eq!(up.servers_slice()[0].inflight(), 0, "inflight must still be released");
}

#[test]
fn probe_results_drive_the_breaker() {
    let cfg = HealthConfig { fail_threshold: 2, ..HealthConfig::default() };
    let mut up = Upstream::for_test("p", Algorithm::RoundRobin, &["127.0.0.1:1"], cfg);

    apply_probe_result(&mut up.servers[0], false, t0());
    assert!(up.servers[0].available(), "one failure is below the threshold");
    apply_probe_result(&mut up.servers[0], false, t0());
    assert_eq!(up.servers[0].breaker().state(), BreakerState::Open, "threshold reached");

    let t1 = plus(t0(), secs(1));
    assert!(up.servers[0].breaker.probe_due(t1).is_some());
    apply_probe_result(&mut up.servers[0], true, t1);
    apply_probe_result(&mut up.servers[0], true, t1);
    assert!(up.servers[0].available(), "successful trials must restore traffic");
}

#[test]
fn tripped_servers_are_passed_over() {
    let mut up = pool(Algorithm::RoundRobin, &[("a:1", 1), ("b:1", 1), ("c:1", 1)]);
    for _ in 0..3 {
        up.servers[1].record_failure(t0());
    }
    let seq: Vec<_> = (0..4).map(|_| up.select(any(), 0).unwrap()).collect();
    assert_eq!(seq, vec![0, 2, 2, 0]);
    for i in [0, 2] {
        for _ in 0..3 {
            up.servers[i].record_failure(t0());
        }
    }
    assert_eq!(up.select(any(), 0), None);
    assert!(up.pick(any(), 0, t0()).is_none());
}

#[test]
fn the_hash_is_fnv_1a() {
    assert_eq!(fnv1a(b""), 0xcbf2_9ce4_8422_2325);
    assert_eq!(fnv1a(b"a"), 0xaf63_dc4c_8601_ec8c);
    assert_eq!(fnv1a(b"foobar"), 0x8594_4171_f739_67e8);
}

#[test]
fn response_times_are_averaged() {
    let mut up = pool(Algorithm::LeastResponseTime, &[("a:1", 1)]);
    up.servers[0].record_rtt(Duration::from_millis(8));
    assert_eq!(up.servers[0].ewma_us, 8000);
}

#[test]
fn released_leases_report_served_times() {
    let mut up = pool(Algorithm::LeastResponseTime, &[("a:1", 1)]);
    let mut l = up.pick(any(), 0, t0()).unwrap();
    l.mark_served();
    l.mark_success();
    up.release(l, plus(t0(), Duration::from_millis(3)));
    assert_eq!(up.servers[0].ewma_us, 3000);
    assert_eq!(up.servers[0].inflight(), 0);
}

#[test]
fn breakers_report_their_changes() {
    let mut b = Breaker::new(&hc());
    assert_eq!(b.record_failure(t0()), None);
    assert_eq!(b.record_failure(t0()), None);
    assert_eq!(b.record_failure(t0()), Some((BreakerState::Closed, BreakerState::Open)));
    assert_eq!(b.record_failure(t0()), None);
    assert_eq!(b.record_success(t0()), None);
    assert_eq!(b.state(), BreakerState::Open);
}

#[test]
fn addresses_have_host_and_port() {
    assert!(is_host_port("localhost:80"));
    assert!(is_host_port("10.0.0.1:65535"));
    assert!(!is_host_port("10.0.0.1:65536"));
    assert!(!is_host_port("10.0.0.1:0"));
    assert!(!is_host_port(":80"));
    assert!(!is_host_port("localhost"));
}

#[test]
fn health_paths_are_set_in_the_spec() {
    let up = Upstream::from_spec_with_health(
        "api",
        "127.0.0.1:9001;health=/ready",
        &hc(),
        PoolConfig::default(),
    )
    .unwrap();
    assert_eq!(up.health().path, "/ready");
    assert_eq!(up.health().fail_threshold, 3);
    let e = Upstream::from_spec_with_health(
        "api",
        "127.0.0.1:9001;path=/ready",
        &hc(),
        PoolConfig::default(),
    )
    .unwrap_err();
    assert!(e.message.contains("expected ;health=PATH"), "{}", e.message);
}

#[test]
fn pools_describe_themselves() {
    let up = Upstream::from_spec("x", "lc:127.0.0.1:9001,127.0.0.1:9002").unwrap();
    assert_eq!(up.describe(), "[lc] 127.0.0.1:9001, 127.0.0.1:9002");
    assert_eq!(up.name(), "x");
    assert_eq!(up.algorithm().tag(), "lc");
}

#[test]
fn due_servers_are_asked_once() {
    let mut up = pool(Algorithm::RoundRobin, &[("a:1", 1), ("b:1", 1), ("c:1", 1)]);
    for _ in 0..3 {
        up.servers[1].record_failure(t0());
    }
    assert_eq!(due_servers(&mut up, t0()), vec![0, 2]);
    let later = plus(t0(), secs(1));
    assert_eq!(due_servers(&mut up, later), vec![0, 1, 2]);
    assert_eq!(due_servers(&mut up, later), vec![0, 2]);
    up.servers[1].record_success(later);
    assert_eq!(due_servers(&mut up, later), vec![0, 1, 2]);
}

#[test]
fn probes_are_plain_requests() {
    assert_eq!(
        probe_request("/health", "127.0.0.1:9001"),
        "GET /health HTTP/1.1\r\nHost: 127.0.0.1:9001\r\nConnection: close\r\n\r\n"
    );
    assert!(probe_passed(b"HTTP/1.1 204 No Content\r\n\r\n"));
    assert!(probe_passed(b"HTTP/1.0 299 Odd\r\n\r\n"));
    assert!(!probe_passed(b"HTTP/1.1 301 Moved\r\n\r\n"));
    assert!(!probe_passed(b"HTTP/1.1 500 Oops\r\n\r\n"));
    assert!(!probe_passed(b"hello"));
}

#[test]
fn chance_does_not_get_stuck() {
    let mut a = Rng::seeded(0, 0);
    assert_ne!(a.next_random(), a.next_random());
}

#[test]
fn the_last_idle_connection_is_taken_first() {
    let cfg = PoolConfig { max_idle: 2, idle_timeout: secs(10) };
    let mut idle = IdlePool::new();
    idle.put("a", cfg, t0());
    idle.put("b", cfg, t0());
    idle.put("c", cfg, t0());
    assert_eq!(idle.take(cfg, t0()), Some("b"));
    assert_eq!(idle.take(cfg, plus(t0(), secs(10))), None);
    assert_eq!(idle.take(cfg, t0()), None);
}

#[test]
fn weights_without_a_reader_are_remarked_on() {
    let remarks = ignored_weights("lc:10.0.0.1:80*3, 10.0.0.2:80 , 10.0.0.3:80*1;health=/up");
    assert_eq!(
        remarks,
        vec![
            "weight on \"10.0.0.1:80\" ignored (algorithm lc is not weighted)",
            "weight on \"10.0.0.3:80\" ignored (algorithm lc is not weighted)",
        ]
    );
    assert!(ignored_weights("wrr:10.0.0.1:80*3,10.0.0.2:80").is_empty());
    assert!(ignored_weights("lc:10.0.0.1:80*0").is_empty());
    assert!(ignored_weights("bogus:10.0.0.1:80*2").is_empty());
    assert!(Algorithm::WeightedRoundRobin.uses_weight());
    assert!(!Algorithm::ConsistentHash.uses_weight());
}
