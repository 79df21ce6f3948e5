//! Which server a request goes to, and what is learned from it.

use vstd::arithmetic::div_mod::lemma_mod_bound;
use vstd::prelude::*;

use crate::balancer::breaker::{
    default_health, due, failed, fresh, limits_of, Breaker, BreakerState,
};
use crate::balancer::idle::{drawn, kept};
use crate::balancer::{
    around, averaged, chosen, default_pool, fnv, lemma_lightest, lemma_wrap, moved_on, pool_wf,
    released, returned, ring_sorted, ring_start, serving, taken, timed, Algorithm, Lease,
    PoolConfig, PoolView, ServerView,
};
use crate::health::{due_among, told, well};
use crate::http::response_of;
use crate::ip::{octets_of, IpAddr};
use crate::time::{Duration, Instant};

verus! {

// ---------------------------------------------------------------------------
// Response times
// ---------------------------------------------------------------------------

/// The average follows its samples: a fifth of each new one counts. A sample above the
/// average by five or more raises it without reaching the sample, one below lowers it
/// without falling under the sample, and the first one is taken as it is. No average
/// is 0, which stands for an untried server.
pub proof fn law_the_average_follows_its_samples(old_us: u64, sample: u64)
    requires
        sample > 0,
    ensures
        old_us == 0 ==> averaged(old_us, sample) == sample,
        old_us > 0 ==> 5 * averaged(old_us, sample) <= 4 * old_us + sample < 5 * averaged(
            old_us,
            sample,
        ) + 5,
        old_us > 0 && sample >= old_us + 5 ==> old_us < averaged(old_us, sample) < sample,
        old_us > 0 && sample < old_us ==> sample <= averaged(old_us, sample) < old_us,
        old_us > 0 && sample == old_us ==> averaged(old_us, sample) == old_us,
        averaged(old_us, sample) > 0,
        averaged(old_us, 0) == averaged(old_us, 1),
{
}

/// A response counts for the average with its time in microseconds.
pub proof fn law_response_times_are_in_microseconds(old_us: u64, micros: u64, rest: int)
    requires
        0 <= rest < 1000,
    ensures
        timed(old_us, micros * 1000 + rest) == averaged(old_us, micros),
{
    assert((micros * 1000 + rest) / 1000 == micros);
}

/// A released lease: an exchange that took place moves the server's average by the time
/// that it took, and one that did not leaves it; a success and a failure go to the
/// server's breaker, and no judgement leaves it.
pub proof fn law_a_release_reports_the_exchange(s: ServerView, lease: Lease, now: Instant)
    requires
        lease.started.nanos <= now.nanos,
    ensures
        lease.served ==> returned(s, lease, now).ewma_us == timed(
            s.ewma_us,
            now.nanos - lease.started.nanos,
        ),
        !lease.served ==> returned(s, lease, now).ewma_us == s.ewma_us,
        lease.outcome == Some(true) && s.breaker.state == BreakerState::Closed ==> returned(
            s,
            lease,
            now,
        ).breaker.fails == 0 && serving(returned(s, lease, now)),
        lease.outcome == Some(false) && s.breaker.state == BreakerState::Closed && s.breaker.fails
            + 1 < s.breaker.limits.fail_threshold ==> returned(s, lease, now).breaker.fails
            == s.breaker.fails + 1 && serving(returned(s, lease, now)),
        lease.outcome == Some(false) && s.breaker.state == BreakerState::Closed && s.breaker.fails
            + 1 >= s.breaker.limits.fail_threshold ==> !serving(returned(s, lease, now)),
        lease.outcome is None ==> returned(s, lease, now).breaker == s.breaker,
        returned(s, lease, now).addr == s.addr,
        s.inflight > 0 ==> returned(s, lease, now).inflight == s.inflight - 1,
{
}

/// A pick counts one request in flight at its server, and touches no other.
pub proof fn law_a_pick_is_in_flight(p: PoolView, i: int, other: int)
    requires
        0 <= i < p.servers.len(),
        0 <= other < p.servers.len(),
        p.servers[i].inflight < usize::MAX,
    ensures
        taken(p, i).servers[i].inflight == p.servers[i].inflight + 1,
        taken(p, i).servers[i].ewma_us == p.servers[i].ewma_us,
        taken(p, i).servers[i].breaker == p.servers[i].breaker,
        other != i ==> taken(p, i).servers[other] == p.servers[other],
{
}

// ---------------------------------------------------------------------------
// Choices
// ---------------------------------------------------------------------------

/// Only a server whose breaker is closed serves.
pub proof fn law_only_closed_breakers_serve(s: ServerView)
    ensures
        serving(s) <==> s.breaker.state == BreakerState::Closed,
{
}

/// Least connections sends a request where the fewest are in flight, and least response
/// time where the average is lowest; of equals the first server is taken.
pub proof fn law_the_least_loaded_is_chosen(p: PoolView, ip: IpAddr, roll: u64, j: int)
    requires
        0 <= j < p.servers.len(),
        serving(p.servers[j]),
        p.algorithm == Algorithm::LeastConnections || p.algorithm == Algorithm::LeastResponseTime,
    ensures
        chosen(p, ip, roll) is Some,
        ({
            let i = chosen(p, ip, roll)->0;
            &&& 0 <= i < p.servers.len() && serving(p.servers[i])
            &&& p.algorithm == Algorithm::LeastConnections ==> p.servers[i].inflight
                <= p.servers[j].inflight
            &&& p.algorithm == Algorithm::LeastConnections && p.servers[i].inflight
                == p.servers[j].inflight ==> i <= j
            &&& p.algorithm == Algorithm::LeastResponseTime ==> p.servers[i].ewma_us
                <= p.servers[j].ewma_us
            &&& p.algorithm == Algorithm::LeastResponseTime && p.servers[i].ewma_us
                == p.servers[j].ewma_us ==> i <= j
        }),
{
    lemma_lightest(p.servers, p.algorithm == Algorithm::LeastResponseTime, p.servers.len() as int);
}

proof fn lemma_next_serving(s: Seq<ServerView>, start: int, k: int, d: int)
    requires
        s.len() > 0,
        0 <= start,
        0 <= k <= d < s.len(),
        serving(s[(start + d) % (s.len() as int)]),
        forall|e: int| k <= e < d ==> !serving(s[#[trigger] ((start + e) % (s.len() as int))]),
    ensures
        around(s, start, k) == Some((start + d) % (s.len() as int)),
    decreases d - k,
{
    if k < d {
        assert(!serving(s[(start + k) % (s.len() as int)]));
        lemma_next_serving(s, start, k + 1, d);
    }
}

/// Where a choice starts, for the algorithms that go around the pool.
pub open spec fn start_of(p: PoolView, ip: IpAddr, roll: u64) -> int {
    match p.algorithm {
        Algorithm::RoundRobin => p.cursor as int % (p.servers.len() as int),
        Algorithm::WeightedRoundRobin => p.wrr_index[p.cursor as int % (
        p.wrr_index.len() as int)] as int,
        Algorithm::Random => roll as int % (p.servers.len() as int),
        _ => fnv(octets_of(ip)) as int % (p.servers.len() as int),
    }
}

/// A server that is out is stood in for by the next one of the pool that serves: the
/// choice is the first serving server from where the algorithm starts.
pub proof fn law_the_next_server_stands_in(p: PoolView, ip: IpAddr, roll: u64, d: int)
    requires
        p.algorithm == Algorithm::RoundRobin || p.algorithm == Algorithm::WeightedRoundRobin
            || p.algorithm == Algorithm::Random || p.algorithm == Algorithm::IpHash,
        pool_wf(p),
        0 <= d < p.servers.len(),
        serving(p.servers[(start_of(p, ip, roll) + d) % (p.servers.len() as int)]),
        forall|e: int|
            0 <= e < d ==> !serving(
                p.servers[#[trigger] ((start_of(p, ip, roll) + e) % (p.servers.len() as int))],
            ),
    ensures
        chosen(p, ip, roll) == Some((start_of(p, ip, roll) + d) % (p.servers.len() as int)),
{
    let n = p.servers.len() as int;
    lemma_mod_bound(p.cursor as int, n);
    lemma_mod_bound(roll as int, n);
    lemma_mod_bound(fnv(octets_of(ip)) as int, n);
    if p.algorithm == Algorithm::WeightedRoundRobin {
        lemma_mod_bound(p.cursor as int, p.wrr_index.len() as int);
    }
    lemma_next_serving(p.servers, start_of(p, ip, roll), 0, d);
}

/// Each pick of the round-robin algorithms moves them on by one.
pub proof fn law_round_robin_moves_on(p: PoolView)
    requires
        p.servers.len() > 0,
        p.cursor < usize::MAX,
    ensures
        p.algorithm == Algorithm::RoundRobin || p.algorithm == Algorithm::WeightedRoundRobin
            ==> moved_on(p) == (PoolView { cursor: (p.cursor + 1) as usize, ..p }),
        p.algorithm != Algorithm::RoundRobin && p.algorithm != Algorithm::WeightedRoundRobin
            ==> moved_on(p) == p,
{
}

proof fn lemma_ring_place(r: Seq<(u64, usize)>, h: u64)
    requires
        ring_sorted(r),
    ensures
        ({
            let k = ring_start(r, h);
            &&& 0 <= k <= r.len()
            &&& forall|i: int| 0 <= i < k ==> (#[trigger] r[i]).0 < h
            &&& k < r.len() ==> r[k].0 >= h
        }),
    decreases r.len(),
{
    if r.len() > 0 && r[0].0 < h {
        let t = r.drop_first();
        assert forall|i: int, j: int| 0 <= i <= j < t.len() implies (#[trigger] t[i]).0 <= (
        #[trigger] t[j]).0 by {
            assert(r[i + 1].0 <= r[j + 1].0);
        }
        lemma_ring_place(t, h);
        assert forall|i: int| 0 <= i < ring_start(r, h) implies (#[trigger] r[i]).0 < h by {
            if i > 0 {
                assert(t[i - 1] == r[i]);
            }
        }
        if ring_start(r, h) < r.len() {
            assert(t[ring_start(t, h)] == r[ring_start(r, h)]);
        }
    }
}

/// On the ring a client goes to the server of the first node at or behind the hash of
/// its address, and of the first node of all where none is behind it.
pub proof fn law_the_ring_goes_clockwise(p: PoolView, ip: IpAddr, roll: u64, k: int)
    requires
        p.algorithm == Algorithm::ConsistentHash,
        pool_wf(p),
        p.servers.len() > 0,
        0 <= k < p.ring.len(),
        serving(p.servers[p.ring[k].1 as int]),
        (p.ring[k].0 >= fnv(octets_of(ip)) && forall|i: int|
            0 <= i < k ==> (#[trigger] p.ring[i]).0 < fnv(octets_of(ip))) || (k == 0 && forall|i: int|
            0 <= i < p.ring.len() ==> (#[trigger] p.ring[i]).0 < fnv(octets_of(ip))),
    ensures
        chosen(p, ip, roll) == Some(p.ring[k].1 as int),
{
    let h = fnv(octets_of(ip));
    let s = ring_start(p.ring, h);
    let n = p.ring.len() as int;
    lemma_ring_place(p.ring, h);
    if p.ring[k].0 >= h {
        if s < k {
            assert(p.ring[s].0 < h);
        }
        if k < s {
            assert(p.ring[k].0 < h);
        }
        assert(s == k);
        lemma_wrap(s, n);
    } else {
        if s < n {
            assert(p.ring[s].0 < h);
        }
        assert(s == n);
        lemma_wrap(s, n);
    }
    assert((s + 0) % n == k);
}

/// The hash of bytes is 64-bit FNV-1a: from the offset on, each byte is mixed in by
/// exclusive or and then the prime is multiplied in.
pub proof fn law_the_hash_is_fnv(bytes: Seq<u8>, b: u8)
    ensures
        fnv(Seq::empty()) == 0xcbf2_9ce4_8422_2325,
        fnv(bytes.push(b)) == (fnv(bytes) ^ (b as u64)).wrapping_mul(0x0000_0100_0000_01b3),
{
    assert(bytes.push(b).drop_last() =~= bytes);
}

/// The octets of an address, from the first to the last.
pub proof fn law_octets_stand_in_order(a: u8, b: u8, c: u8, d: u8)
    ensures
        octets_of(
            IpAddr::V4((a * 16_777_216 + b * 65_536 + c * 256 + d) as u32),
        ) == seq![a, b, c, d],
{
    let n: nat = (a * 16_777_216 + b * 65_536 + c * 256 + d) as nat;
    reveal_with_fuel(crate::ip::high_first, 5);
    assert(n / 256 == a * 65_536 + b * 256 + c);
    assert(n % 256 == d);
    assert((n / 256) / 256 == a * 256 + b);
    assert((n / 256) % 256 == c);
    assert(((n / 256) / 256) / 256 == a);
    assert(((n / 256) / 256) % 256 == b);
    assert(octets_of(IpAddr::V4(n as u32)) =~= seq![a, b, c, d]);
}

// ---------------------------------------------------------------------------
// Health
// ---------------------------------------------------------------------------

/// A server is well where its probe is answered with a 2xx, and not otherwise.
pub proof fn law_only_a_2xx_is_well(head: Seq<u8>)
    ensures
        well(head) <==> (response_of(head) matches Ok(r) && 200 <= r.status <= 299),
{
}

/// A failed probe counts as a failure and a passed one as a success.
pub proof fn law_probes_count(b: Breaker, now: Instant)
    requires
        b.state == BreakerState::Closed,
        b.fails < usize::MAX,
    ensures
        told(b, true, now).fails == 0,
        told(b, true, now).state == BreakerState::Closed,
        b.fails + 1 < b.limits.fail_threshold ==> told(b, false, now).fails == b.fails + 1
            && told(b, false, now).state == BreakerState::Closed,
        b.fails + 1 >= b.limits.fail_threshold ==> told(b, false, now).state == BreakerState::Open,
{
}

proof fn lemma_due_among(v: Seq<ServerView>, n: int, now: Instant, i: int)
    requires
        0 <= n <= v.len(),
        n <= usize::MAX,
        0 <= i,
    ensures
        due_among(v, n, now).contains(i as usize) && i <= usize::MAX <==> i < n && due(
            v[i].breaker,
            now,
        ) is Some,
    decreases n,
{
    if n > 0 {
        lemma_due_among(v, n - 1, now, i);
        let was = due_among(v, n - 1, now);
        let x = (n - 1) as usize;
        let p = was.push(x);
        assert(p.contains(i as usize) <==> was.contains(i as usize) || x == i as usize) by {
            if p.contains(i as usize) {
                let k = choose|k: int| 0 <= k < p.len() && p[k] == i as usize;
                if k < was.len() {
                    assert(was[k] == i as usize);
                }
            }
            if was.contains(i as usize) {
                let k = choose|k: int| 0 <= k < was.len() && was[k] == i as usize;
                assert(p[k] == i as usize);
            }
            if x == i as usize {
                assert(p[was.len() as int] == x);
            }
        }
    }
}

/// Every serving server is probed, every tripped one whose cooldown is over and every
/// recovering one without a trial out; no other is.
pub proof fn law_the_due_are_probed(v: Seq<ServerView>, now: Instant, i: int)
    requires
        0 <= i < v.len() <= usize::MAX,
    ensures
        due_among(v, v.len() as int, now).contains(i as usize) <==> {
            let b = v[i].breaker;
            match b.state {
                BreakerState::Closed => true,
                BreakerState::Open => now.nanos >= b.open_until,
                BreakerState::HalfOpen => !b.trial,
            }
        },
{
    lemma_due_among(v, v.len() as int, now, i);
}

/// A server starts serving, with the limits of its pool's settings: cooldowns in
/// nanoseconds.
pub proof fn law_servers_start_well(secs: (u32, u32), fails: usize, successes: usize, path: Seq<char>)
    ensures
        ({
            let c = crate::balancer::breaker::HealthView {
                fail_threshold: fails,
                success_threshold: successes,
                backoff_base: Duration { nanos: (secs.0 * 1_000_000_000) as u128 },
                backoff_max: Duration { nanos: (secs.1 * 1_000_000_000) as u128 },
                interval: Duration { nanos: 0 },
                timeout: Duration { nanos: 0 },
                path,
            };
            let b = fresh(limits_of(c));
            &&& b.state == BreakerState::Closed
            &&& b.fails == 0 && b.successes == 0 && !b.trial
            &&& b.limits.fail_threshold == fails
            &&& b.limits.success_threshold == successes
            &&& b.backoff == secs.0 * 1_000_000_000
            &&& b.limits.base == secs.0 * 1_000_000_000
            &&& b.limits.max == secs.1 * 1_000_000_000
        }),
{
}

/// A breaker that trips stays shut for its cooldown, from the failure on: the first
/// time for the base.
pub proof fn law_a_trip_starts_the_cooldown(b: Breaker, now: Instant)
    requires
        b.state == BreakerState::Closed,
        b.fails + 1 >= b.limits.fail_threshold,
        now.nanos + b.backoff <= u64::MAX,
    ensures
        failed(b, now).state == BreakerState::Open,
        failed(b, now).backoff == b.backoff,
        failed(b, now).open_until == now.nanos + b.backoff,
{
}

/// Where nothing is set: three failures trip, two successes bring back, cooldowns run
/// from one second to thirty, probes go out every two seconds, take one at most, and
/// ask for `/health`; thirty-two idle connections are kept for a minute.
pub proof fn law_the_defaults_of_a_pool()
    ensures
        default_health().fail_threshold == 3,
        default_health().success_threshold == 2,
        default_health().backoff_base.nanos == 1_000_000_000,
        default_health().backoff_max.nanos == 30 * 1_000_000_000,
        default_health().interval.nanos == 2 * 1_000_000_000,
        default_health().timeout.nanos == 1_000_000_000,
        default_health().path == "/health"@,
        default_pool().max_idle == 32,
        default_pool().idle_timeout.nanos == 60 * 1_000_000_000,
{
}

// ---------------------------------------------------------------------------
// Idle connections
// ---------------------------------------------------------------------------

/// An idle connection is handed out until it has been idle for the limit, and never
/// after; and no more are kept than the limit says.
pub proof fn law_idle_connections_expire<T>(v: Seq<(Instant, T)>, x: T, cfg: PoolConfig, at: Instant, now: Instant)
    requires
        at.nanos <= now.nanos,
        v.len() < cfg.max_idle,
    ensures
        drawn(kept(v, x, cfg, at), cfg, now).0 == if now.nanos - at.nanos < cfg.idle_timeout.nanos {
            Some(x)
        } else {
            None
        },
        kept(v, x, cfg, at).len() == v.len() + 1,
{
}

/// A full pool of idle connections takes no more.
pub proof fn law_idle_connections_are_bounded<T>(v: Seq<(Instant, T)>, x: T, cfg: PoolConfig, now: Instant)
    ensures
        v.len() >= cfg.max_idle ==> kept(v, x, cfg, now) == v,
        v.len() <= cfg.max_idle ==> kept(v, x, cfg, now).len() <= cfg.max_idle,
{
}

} // verus!
