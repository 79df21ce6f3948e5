//! Load balancing: which server of a pool serves a request.
//!
//! A pool is a named group of servers with an algorithm. A pick counts as one
//! request in flight until it is released; the release also feeds the response
//! time and the breaker. Only servers whose breaker is closed are ever picked.

pub mod breaker;
pub mod idle;
pub mod spec;

use vstd::prelude::*;



pub use breaker::{Breaker, BreakerState, HealthConfig, ProbeAction};

use crate::ip::{octets_of, IpAddr};

use crate::time::{elapsed, Duration, Instant};
use breaker::{asked, change, failed, fresh, limits_of, low64, succeeded, HealthView};

verus! {

/// The strategies by which a pool chooses.
#[derive(Debug, Clone, Copy, PartialEq, Eq, Structural)]
pub enum Algorithm {
    /// One server after the other.
    RoundRobin,
    /// One after the other, over a list in which each stands as often as its weight.
    WeightedRoundRobin,
    /// Any server.
    Random,
    /// The server with the fewest requests in flight.
    LeastConnections,
    /// The server with the lowest average response time.
    LeastResponseTime,
    /// A hash of the client's address, modulo the number of servers.
    IpHash,
    /// A ring of virtual nodes: a client's server survives changes of the pool.
    ConsistentHash,
}

impl Algorithm {
    /// The algorithm's tag.
    pub open spec fn tag_text(self) -> Seq<char> {
        match self {
            Algorithm::RoundRobin => "rr"@,
            Algorithm::WeightedRoundRobin => "wrr"@,
            Algorithm::Random => "rand"@,
            Algorithm::LeastConnections => "lc"@,
            Algorithm::LeastResponseTime => "lrt"@,
            Algorithm::IpHash => "iphash"@,
            Algorithm::ConsistentHash => "chash"@,
        }
    }

    /// The algorithm's tag.
    pub fn tag(self) -> (r: &'static str)
        ensures
            r@ == self.tag_text(),
    {
        match self {
            Algorithm::RoundRobin => "rr",
            Algorithm::WeightedRoundRobin => "wrr",
            Algorithm::Random => "rand",
            Algorithm::LeastConnections => "lc",
            Algorithm::LeastResponseTime => "lrt",
            Algorithm::IpHash => "iphash",
            Algorithm::ConsistentHash => "chash",
        }
    }

    /// Does the algorithm read the servers' weights?
    pub fn uses_weight(self) -> (r: bool)
        ensures
            r == (self == Algorithm::WeightedRoundRobin),
    {
        self == Algorithm::WeightedRoundRobin
    }
}

/// Tunables of the pool of idle connections.
#[derive(Debug, Clone, Copy, PartialEq, Eq, Structural)]
pub struct PoolConfig {
    /// Idle connections kept for each server.
    pub max_idle: usize,
    /// How long an idle connection is kept.
    pub idle_timeout: Duration,
}

/// The tunables where nothing else is set: thirty-two connections, for a minute.
pub open spec fn default_pool() -> PoolConfig {
    PoolConfig { max_idle: 32, idle_timeout: Duration { nanos: 60_000_000_000 } }
}

impl Default for PoolConfig {
    fn default() -> (c: PoolConfig)
        ensures
            c == default_pool(),
    {
        PoolConfig { max_idle: 32, idle_timeout: Duration::from_secs(60) }
    }
}

// ---------------------------------------------------------------------------
// Hashing and chance
// ---------------------------------------------------------------------------

/// The start value of FNV-1a.
pub const FNV_OFFSET: u64 = 0xcbf29ce484222325;

/// The factor of FNV-1a.
pub const FNV_PRIME: u64 = 0x100000001b3;

/// FNV-1a, 64 bits: each byte is mixed in by exclusive or, then the hash is
/// multiplied. A fixed algorithm keeps a client at its server for good.
pub open spec fn fnv(bytes: Seq<u8>) -> u64
    decreases bytes.len(),
{
    if bytes.len() == 0 {
        FNV_OFFSET
    } else {
        (fnv(bytes.drop_last()) ^ (bytes.last() as u64)).wrapping_mul(FNV_PRIME)
    }
}

/// The FNV-1a hash of bytes.
pub fn fnv1a(bytes: &[u8]) -> (h: u64)
    ensures
        h == fnv(bytes@),
{
    let mut h: u64 = FNV_OFFSET;
    let mut i: usize = 0;
    assert(bytes@.take(0) =~= Seq::empty());
    while i < bytes.len()
        invariant
            i <= bytes@.len(),
            h == fnv(bytes@.take(i as int)),
        decreases bytes.len() - i,
    {
        assert(bytes@.take(i + 1).drop_last() =~= bytes@.take(i as int));
        h = (h ^ (bytes[i] as u64)).wrapping_mul(FNV_PRIME);
        i = i + 1;
    }
    assert(bytes@.take(i as int) =~= bytes@);
    h
}

/// The hash of an address, by its octets and not by its text.
pub open spec fn ip_hash(ip: IpAddr) -> u64 {
    fnv(octets_of(ip))
}

/// The hash of an address.
pub fn hash_ip(ip: IpAddr) -> (h: u64)
    ensures
        h == ip_hash(ip),
{
    let v = ip.octets();
    fnv1a(v.as_slice())
}

/// A source of random-looking numbers. It is never 0, where it would be stuck.
#[derive(Debug, Clone, Copy, PartialEq, Eq, Structural)]
pub struct Rng {
    pub state: u64,
}

/// One step of xorshift64.
pub open spec fn shifted(x: u64) -> u64 {
    let a = x ^ (x << 13);
    let b = a ^ (a >> 7);
    b ^ (b << 17)
}

impl Rng {
    /// The source can go on.
    pub open spec fn wf(&self) -> bool {
        self.state != 0
    }

    /// A source for the `n`th thread, at a time in nanoseconds.
    pub fn seeded(nanos: u64, n: u64) -> (r: Rng)
        ensures
            r.wf(),
            ({
                let seed = nanos ^ n.wrapping_mul(0x9E3779B97F4A7C15);
                r.state == if seed == 0 {
                    0xDEAD_BEEF_CAFE_F00D
                } else {
                    seed
                }
            }),
    {
        let seed: u64 = nanos ^ n.wrapping_mul(0x9E3779B97F4A7C15);
        Rng {
            state: if seed == 0 {
                0xDEAD_BEEF_CAFE_F00D
            } else {
                seed
            },
        }
    }

    /// The next number.
    pub fn next_random(&mut self) -> (r: u64)
        requires
            old(self).wf(),
        ensures
            final(self).wf(),
            r == shifted(old(self).state),
            final(self).state == r,
    {
        let mut x: u64 = self.state;
        proof {
            law_chance_never_gets_stuck(x);
        }
        x = x ^ (x << 13);
        x = x ^ (x >> 7);
        x = x ^ (x << 17);
        self.state = x;
        x
    }
}

/// A source that is not 0 never comes to 0.
pub proof fn law_chance_never_gets_stuck(x: u64)
    requires
        x != 0,
    ensures
        shifted(x) != 0,
{
    assert(x != 0 ==> (x ^ (x << 13)) != 0) by (bit_vector);
    let a = x ^ (x << 13);
    assert(a != 0 ==> (a ^ (a >> 7)) != 0) by (bit_vector);
    let b = a ^ (a >> 7);
    assert(b != 0 ==> (b ^ (b << 17)) != 0) by (bit_vector);
}

// ---------------------------------------------------------------------------
// Servers
// ---------------------------------------------------------------------------

/// One backend server of a pool.
#[derive(Debug)]
pub struct Server {
    pub addr: String,
    /// Requests in flight.
    pub inflight: usize,
    /// The average response time in microseconds; 0 means that it is untried.
    pub ewma_us: u64,
    pub breaker: Breaker,
}

/// What a server is.
pub struct ServerView {
    pub addr: Seq<char>,
    pub inflight: usize,
    pub ewma_us: u64,
    pub breaker: Breaker,
}

impl View for Server {
    type V = ServerView;

    open spec fn view(&self) -> ServerView {
        ServerView {
            addr: self.addr@,
            inflight: self.inflight,
            ewma_us: self.ewma_us,
            breaker: self.breaker,
        }
    }
}

/// What servers are.
pub open spec fn server_views(v: Seq<Server>) -> Seq<ServerView> {
    Seq::new(v.len(), |i: int| v[i]@)
}

/// A server that may get traffic.
pub open spec fn serving(s: ServerView) -> bool {
    s.breaker.state == BreakerState::Closed
}

/// The average after one more sample in microseconds: a fifth of the sample and
/// four fifths of what was. A sample is at least 1, so that a fast server is not
/// taken for an untried one.
pub open spec fn averaged(old_us: u64, sample_us: u64) -> u64 {
    let s = if sample_us == 0 {
        1u64
    } else {
        sample_us
    };
    if old_us == 0 {
        s
    } else {
        ((old_us * 4 + s) / 5) as u64
    }
}

/// The average after a response that took so many nanoseconds: it counts in whole
/// microseconds.
pub open spec fn timed(old_us: u64, nanos: int) -> u64 {
    averaged(old_us, low64((nanos / 1000) as u128))
}

impl Server {
    /// A server without history, which serves.
    pub fn new(addr: String, health: &HealthConfig) -> (s: Server)
        ensures
            s@ == (ServerView {
                addr: addr@,
                inflight: 0,
                ewma_us: 0,
                breaker: fresh(limits_of(health@)),
            }),
            s.breaker.wf(),
    {
        Server { addr, inflight: 0, ewma_us: 0, breaker: Breaker::new(health) }
    }

    /// The server's address.
    pub fn addr(&self) -> (r: &str)
        ensures
            r@ == self@.addr,
    {
        self.addr.as_str()
    }

    /// Whether the server may get traffic.
    pub fn available(&self) -> (r: bool)
        ensures
            r == serving(self@),
    {
        self.breaker.allows_traffic()
    }

    /// The server's breaker.
    pub fn breaker(&self) -> (r: &Breaker)
        ensures
            *r == self.breaker,
    {
        &self.breaker
    }

    /// Requests in flight.
    pub fn inflight(&self) -> (r: usize)
        ensures
            r == self.inflight,
    {
        self.inflight
    }

    /// Reports a success, of a request or of a probe.
    pub fn record_success(&mut self, now: Instant) -> (r: Option<(BreakerState, BreakerState)>)
        requires
            old(self).breaker.wf(),
        ensures
            final(self).breaker.wf(),
            final(self)@ == (ServerView { breaker: succeeded(old(self).breaker), ..old(self)@ }),
            r == change(old(self).breaker, final(self).breaker),
    {
        self.breaker.record_success(now)
    }

    /// Reports a failure, of a request or of a probe.
    pub fn record_failure(&mut self, now: Instant) -> (r: Option<(BreakerState, BreakerState)>)
        requires
            old(self).breaker.wf(),
        ensures
            final(self).breaker.wf(),
            final(self)@ == (ServerView { breaker: failed(old(self).breaker, now), ..old(self)@ }),
            r == change(old(self).breaker, final(self).breaker),
    {
        self.breaker.record_failure(now)
    }

    /// Takes one response time into the average.
    pub fn record_rtt(&mut self, rtt: Duration)
        ensures
            final(self)@ == (ServerView {
                ewma_us: timed(old(self).ewma_us, rtt.nanos as int),
                ..old(self)@
            }),
    {
        let micros: u64 = (rtt.nanos / 1000 % 0x1_0000_0000_0000_0000) as u64;
        let sample: u64 = if micros == 0 {
            1
        } else {
            micros
        };
        self.ewma_us = if self.ewma_us == 0 {
            sample
        } else {
            ((self.ewma_us as u128 * 4 + sample as u128) / 5) as u64
        };
    }
}

// ---------------------------------------------------------------------------
// Pools
// ---------------------------------------------------------------------------

/// Virtual nodes of each server on the ring.
pub const VNODES_PER_SERVER: usize = 160;

/// A named pool of servers.
#[derive(Debug)]
pub struct Upstream {
    pub name: String,
    pub algorithm: Algorithm,
    pub servers: Vec<Server>,
    /// Counts picks, for the round-robin algorithms.
    pub cursor: usize,
    /// For the weighted algorithm: each server's index as often as its weight.
    pub wrr_index: Vec<usize>,
    /// For the hash ring: hashes of virtual nodes with their servers, sorted.
    pub ring: Vec<(u64, usize)>,
    pub health: HealthConfig,
    pub pool: PoolConfig,
}

/// What a pool is.
pub struct PoolView {
    pub name: Seq<char>,
    pub algorithm: Algorithm,
    pub servers: Seq<ServerView>,
    pub cursor: usize,
    pub wrr_index: Seq<usize>,
    pub ring: Seq<(u64, usize)>,
    pub health: HealthView,
    pub pool: PoolConfig,
}

impl View for Upstream {
    type V = PoolView;

    open spec fn view(&self) -> PoolView {
        PoolView {
            name: self.name@,
            algorithm: self.algorithm,
            servers: server_views(self.servers@),
            cursor: self.cursor,
            wrr_index: self.wrr_index@,
            ring: self.ring@,
            health: self.health@,
            pool: self.pool,
        }
    }
}

/// The ring is sorted by hash.
pub open spec fn ring_sorted(r: Seq<(u64, usize)>) -> bool {
    forall|i: int, j: int| 0 <= i <= j < r.len() ==> (#[trigger] r[i]).0 <= (#[trigger] r[j]).0
}

/// A valid pool: the lists name servers of the pool, the weighted algorithm has a
/// list, the ring is sorted, and every breaker is valid.
pub open spec fn pool_wf(p: PoolView) -> bool {
    &&& forall|i: int| 0 <= i < p.wrr_index.len() ==> (#[trigger] p.wrr_index[i]) < p.servers.len()
    &&& p.algorithm == Algorithm::WeightedRoundRobin && p.servers.len() > 0 ==> p.wrr_index.len()
        > 0
    &&& forall|i: int| 0 <= i < p.ring.len() ==> (#[trigger] p.ring[i]).1 < p.servers.len()
    &&& ring_sorted(p.ring)
    &&& forall|i: int| 0 <= i < p.servers.len() ==> (#[trigger] p.servers[i]).breaker.wf()
}

// ---------------------------------------------------------------------------
// Selection
// ---------------------------------------------------------------------------

/// The first serving server, counted from `start` around the pool, of those at a
/// distance of at least `k`.
pub open spec fn around(s: Seq<ServerView>, start: int, k: int) -> Option<int>
    decreases s.len() - k,
{
    if k < 0 || k >= s.len() {
        None
    } else {
        let i: int = (start + k) % (s.len() as int);
        if serving(s[i]) {
            Some(i)
        } else {
            around(s, start, k + 1)
        }
    }
}

/// What a load-aware algorithm compares: requests in flight, or response time.
pub open spec fn load(s: ServerView, by_time: bool) -> int {
    if by_time {
        s.ewma_us as int
    } else {
        s.inflight as int
    }
}

/// Of the first `n` servers, the serving one with the lowest load; of equals the
/// first.
pub open spec fn lightest(s: Seq<ServerView>, by_time: bool, n: int) -> Option<int>
    decreases n,
{
    if n <= 0 {
        None
    } else {
        match lightest(s, by_time, n - 1) {
            None => if serving(s[n - 1]) {
                Some(n - 1)
            } else {
                None
            },
            Some(i) => if serving(s[n - 1]) && load(s[n - 1], by_time) < load(s[i], by_time) {
                Some(n - 1)
            } else {
                Some(i)
            },
        }
    }
}

/// Where a hash falls on the ring: the first node at or behind it.
pub open spec fn ring_start(r: Seq<(u64, usize)>, h: u64) -> int
    decreases r.len(),
{
    if r.len() == 0 || r[0].0 >= h {
        0
    } else {
        1 + ring_start(r.drop_first(), h)
    }
}

/// The first serving server clockwise from a place on the ring, of those at a
/// distance of at least `k`.
pub open spec fn clockwise(r: Seq<(u64, usize)>, s: Seq<ServerView>, start: int, k: int) -> Option<
    int,
>
    decreases r.len() - k,
{
    if k < 0 || k >= r.len() {
        None
    } else {
        let i = r[(start + k) % (r.len() as int)].1 as int;
        if serving(s[i]) {
            Some(i)
        } else {
            clockwise(r, s, start, k + 1)
        }
    }
}

/// The server that a pool chooses for a client; `roll` is the random number where
/// chance decides.
pub open spec fn chosen(p: PoolView, ip: IpAddr, roll: u64) -> Option<int> {
    let n = p.servers.len() as int;
    if n == 0 {
        None
    } else {
        match p.algorithm {
            Algorithm::RoundRobin => around(p.servers, p.cursor as int % n, 0),
            Algorithm::WeightedRoundRobin => around(
                p.servers,
                p.wrr_index[p.cursor as int % (p.wrr_index.len() as int)] as int,
                0,
            ),
            Algorithm::Random => around(p.servers, roll as int % n, 0),
            Algorithm::LeastConnections => lightest(p.servers, false, n),
            Algorithm::LeastResponseTime => lightest(p.servers, true, n),
            Algorithm::IpHash => around(p.servers, ip_hash(ip) as int % n, 0),
            Algorithm::ConsistentHash => clockwise(
                p.ring,
                p.servers,
                ring_start(p.ring, ip_hash(ip)),
                0,
            ),
        }
    }
}

/// The counter of picks after one more; it wraps around.
pub open spec fn counted(n: usize) -> usize {
    if n == usize::MAX {
        0
    } else {
        (n + 1) as usize
    }
}

/// A pool after a choice: the round-robin algorithms move on.
pub open spec fn moved_on(p: PoolView) -> PoolView {
    if p.servers.len() > 0 && (p.algorithm == Algorithm::RoundRobin || p.algorithm
        == Algorithm::WeightedRoundRobin) {
        PoolView { cursor: counted(p.cursor), ..p }
    } else {
        p
    }
}

/// One round at most.
pub proof fn lemma_wrap(a: int, n: int)
    requires
        0 <= a < 2 * n,
    ensures
        a % n == if a < n {
            a
        } else {
            a - n
        },
{
    if a < n {
        vstd::arithmetic::div_mod::lemma_small_mod(a as nat, n as nat);
    } else {
        vstd::arithmetic::div_mod::lemma_small_mod((a - n) as nat, n as nat);
        vstd::arithmetic::div_mod::lemma_mod_sub_multiples_vanish(a, n);
    }
}

impl Upstream {
    /// The pool is valid.
    pub open spec fn wf(&self) -> bool {
        pool_wf(self@)
    }

    /// The pool's name.
    pub fn name(&self) -> (r: &str)
        ensures
            r@ == self@.name,
    {
        self.name.as_str()
    }

    /// The pool's algorithm.
    pub fn algorithm(&self) -> (r: Algorithm)
        ensures
            r == self.algorithm,
    {
        self.algorithm
    }

    /// The pool's health tunables.
    pub fn health(&self) -> (r: &HealthConfig)
        ensures
            r@ == self@.health,
    {
        &self.health
    }

    /// The pool's servers.
    pub fn servers_slice(&self) -> (r: &[Server])
        ensures
            r@ == self.servers@,
    {
        self.servers.as_slice()
    }

    fn first_available_from(&self, start: usize) -> (r: Option<usize>)
        requires
            start < self.servers@.len(),
        ensures
            match r {
                Some(i) => around(self@.servers, start as int, 0) == Some(i as int) && i
                    < self.servers@.len(),
                None => around(self@.servers, start as int, 0) is None,
            },
    {
        let n: usize = self.servers.len();
        let mut i: usize = start;
        let mut k: usize = 0;
        proof {
            lemma_wrap(start as int, n as int);
        }
        while k < n
            invariant
                k <= n == self.servers@.len(),
                i < n,
                start < n,
                k < n ==> i == (start + k) % (n as int),
                around(self@.servers, start as int, 0) == around(
                    self@.servers,
                    start as int,
                    k as int,
                ),
            decreases n - k,
        {
            assert(self@.servers[i as int] == self.servers@[i as int]@);
            if self.servers[i].available() {
                return Some(i);
            }
            k = k + 1;
            proof {
                lemma_wrap(start + k - 1, n as int);
                if k < n {
                    lemma_wrap(start + k, n as int);
                }
            }
            i = if i + 1 == n {
                0
            } else {
                i + 1
            };
        }
        None
    }

    fn lightest_server(&self, by_time: bool) -> (r: Option<usize>)
        ensures
            match r {
                Some(i) => lightest(self@.servers, by_time, self.servers@.len() as int) == Some(
                    i as int,
                ) && i < self.servers@.len(),
                None => lightest(self@.servers, by_time, self.servers@.len() as int) is None,
            },
    {
        let mut best: Option<usize> = None;
        let mut i: usize = 0;
        while i < self.servers.len()
            invariant
                i <= self.servers@.len(),
                match best {
                    Some(b) => lightest(self@.servers, by_time, i as int) == Some(b as int) && b < i,
                    None => lightest(self@.servers, by_time, i as int) is None,
                },
            decreases self.servers.len() - i,
        {
            assert(self@.servers[i as int] == self.servers@[i as int]@);
            if self.servers[i].available() {
                match best {
                    None => {
                        best = Some(i);
                    },
                    Some(b) => {
                        assert(self@.servers[b as int] == self.servers@[b as int]@);
                        let lighter = if by_time {
                            self.servers[i].ewma_us < self.servers[b].ewma_us
                        } else {
                            self.servers[i].inflight < self.servers[b].inflight
                        };
                        if lighter {
                            best = Some(i);
                        }
                    },
                }
            }
            i = i + 1;
        }
        best
    }

    fn ring_place(&self, h: u64) -> (r: usize)
        ensures
            r == ring_start(self.ring@, h),
            r <= self.ring@.len(),
    {
        let mut i: usize = 0;
        assert(self.ring@.skip(0) =~= self.ring@);
        while i < self.ring.len() && self.ring[i].0 < h
            invariant
                i <= self.ring@.len(),
                ring_start(self.ring@, h) == i + ring_start(self.ring@.skip(i as int), h),
            decreases self.ring.len() - i,
        {
            assert(self.ring@.skip(i as int).drop_first() =~= self.ring@.skip(i + 1));
            i = i + 1;
        }
        i
    }

    fn walk_ring(&self, h: u64) -> (r: Option<usize>)
        requires
            self.wf(),
        ensures
            match r {
                Some(i) => clockwise(self.ring@, self@.servers, ring_start(self.ring@, h), 0)
                    == Some(i as int) && i < self.servers@.len(),
                None => clockwise(self.ring@, self@.servers, ring_start(self.ring@, h), 0) is None,
            },
    {
        let n: usize = self.ring.len();
        let start: usize = self.ring_place(h);
        if n == 0 {
            return None;
        }
        let mut at: usize = if start == n {
            0
        } else {
            start
        };
        let mut k: usize = 0;
        proof {
            lemma_wrap(start as int, n as int);
        }
        while k < n
            invariant
                self.wf(),
                k <= n == self.ring@.len(),
                start <= n,
                start == ring_start(self.ring@, h),
                at < n,
                k < n ==> at == (start + k) % (n as int),
                clockwise(self.ring@, self@.servers, start as int, 0) == clockwise(
                    self.ring@,
                    self@.servers,
                    start as int,
                    k as int,
                ),
            decreases n - k,
        {
            let s: usize = self.ring[at].1;
            assert(self@.ring[at as int].1 < self@.servers.len());
            assert(self@.servers[s as int] == self.servers@[s as int]@);
            if self.servers[s].available() {
                return Some(s);
            }
            k = k + 1;
            proof {
                lemma_wrap(start + k - 1, n as int);
                if k < n {
                    lemma_wrap(start + k, n as int);
                }
            }
            at = if at + 1 == n {
                0
            } else {
                at + 1
            };
        }
        None
    }

    fn advance(&mut self) -> (was: usize)
        ensures
            was == old(self).cursor,
            final(self)@ == (PoolView { cursor: counted(old(self).cursor), ..old(self)@ }),
    {
        let was: usize = self.cursor;
        self.cursor = if was == usize::MAX {
            0
        } else {
            was + 1
        };
        was
    }

    /// Chooses a server for a client, or none where no server is available. `roll`
    /// is a random number, for the algorithm that wants one.
    pub fn select(&mut self, client_ip: IpAddr, roll: u64) -> (r: Option<usize>)
        requires
            old(self).wf(),
        ensures
            final(self).wf(),
            final(self).servers@.len() == old(self).servers@.len(),
            final(self)@ == moved_on(old(self)@),
            match r {
                Some(i) => {
                    &&& chosen(old(self)@, client_ip, roll) == Some(i as int)
                    &&& i < final(self).servers@.len()
                },
                None => chosen(old(self)@, client_ip, roll) is None,
            },
    {
        let n: usize = self.servers.len();
        if n == 0 {
            return None;
        }
        match self.algorithm {
            Algorithm::RoundRobin => {
                let start: usize = self.advance() % n;
                self.first_available_from(start)
            },
            Algorithm::WeightedRoundRobin => {
                let len: usize = self.wrr_index.len();
                let slot: usize = self.advance() % len;
                let start: usize = self.wrr_index[slot];
                assert(old(self)@.wrr_index[slot as int] < old(self)@.servers.len());
                self.first_available_from(start)
            },
            Algorithm::Random => {
                let start: usize = (roll % (n as u64)) as usize;
                self.first_available_from(start)
            },
            Algorithm::LeastConnections => self.lightest_server(false),
            Algorithm::LeastResponseTime => self.lightest_server(true),
            Algorithm::IpHash => {
                let start: usize = (hash_ip(client_ip) % (n as u64)) as usize;
                self.first_available_from(start)
            },
            Algorithm::ConsistentHash => self.walk_ring(hash_ip(client_ip)),
        }
    }
}

// ---------------------------------------------------------------------------
// Leases
// ---------------------------------------------------------------------------

/// A picked server, until it is released: one request in flight.
#[derive(Debug)]
pub struct Lease {
    /// The server's index in its pool.
    pub server: usize,
    pub started: Instant,
    /// The exchange took place. A failed connect must not count as a fast response.
    pub served: bool,
    /// The judgement on the exchange; none where it was never judged, as with a
    /// task that was cancelled.
    pub outcome: Option<bool>,
}

/// A lease whose exchange took place.
pub open spec fn took_place(l: Lease) -> Lease {
    Lease { served: true, ..l }
}

/// A lease whose exchange was healthy, or failed.
pub open spec fn turned_out(l: Lease, well: bool) -> Lease {
    Lease { outcome: Some(well), ..l }
}

impl Lease {
    /// Notes that the exchange took place.
    pub fn mark_served(&mut self)
        ensures
            *final(self) == took_place(*old(self)),
    {
        self.served = true;
    }

    /// Notes a healthy exchange. A 4xx is one: the client was wrong, not the server.
    pub fn mark_success(&mut self)
        ensures
            *final(self) == turned_out(*old(self), true),
    {
        self.outcome = Some(true);
    }

    /// Notes a failed exchange: no connection, a broken one, or a 5xx.
    pub fn mark_failure(&mut self)
        ensures
            *final(self) == turned_out(*old(self), false),
    {
        self.outcome = Some(false);
    }

    /// The picked server's address.
    pub fn addr<'a>(&self, up: &'a Upstream) -> (r: &'a str)
        requires
            self.server < up.servers@.len(),
        ensures
            r@ == up@.servers[self.server as int].addr,
    {
        up.servers[self.server].addr.as_str()
    }

    /// The picked server's requests in flight, this one among them.
    pub fn inflight(&self, up: &Upstream) -> (r: usize)
        requires
            self.server < up.servers@.len(),
        ensures
            r == up@.servers[self.server as int].inflight,
    {
        up.servers[self.server].inflight
    }
}

/// The count of requests in flight after one less.
pub open spec fn uncounted(n: usize) -> usize {
    if n == 0 {
        usize::MAX
    } else {
        (n - 1) as usize
    }
}

/// A pool with one more request in flight at a server.
pub open spec fn taken(p: PoolView, i: int) -> PoolView {
    PoolView {
        servers: p.servers.update(
            i,
            ServerView { inflight: counted(p.servers[i].inflight), ..p.servers[i] },
        ),
        ..p
    }
}

/// A server after a lease on it is released at `now`: one request less in flight;
/// an exchange that took place counts for the response time; a judged one is
/// reported to the breaker.
pub open spec fn returned(s: ServerView, lease: Lease, now: Instant) -> ServerView {
    ServerView {
        inflight: uncounted(s.inflight),
        ewma_us: if lease.served {
            timed(s.ewma_us, elapsed(now, lease.started))
        } else {
            s.ewma_us
        },
        breaker: match lease.outcome {
            Some(true) => succeeded(s.breaker),
            Some(false) => failed(s.breaker, now),
            None => s.breaker,
        },
        ..s
    }
}

/// A pool after a lease is released.
pub open spec fn released(p: PoolView, lease: Lease, now: Instant) -> PoolView {
    PoolView {
        servers: p.servers.update(
            lease.server as int,
            returned(p.servers[lease.server as int], lease, now),
        ),
        ..p
    }
}

impl Upstream {
    /// Picks a server for a client, and counts the request as in flight.
    pub fn pick(&mut self, client_ip: IpAddr, roll: u64, now: Instant) -> (r: Option<Lease>)
        requires
            old(self).wf(),
        ensures
            final(self).wf(),
            final(self).servers@.len() == old(self).servers@.len(),
            match r {
                Some(l) => {
                    &&& chosen(old(self)@, client_ip, roll) == Some(l.server as int)
                    &&& l.server < final(self).servers@.len()
                    &&& l == (Lease { server: l.server, started: now, served: false, outcome: None })
                    &&& final(self)@ == taken(moved_on(old(self)@), l.server as int)
                },
                None => {
                    &&& chosen(old(self)@, client_ip, roll) is None
                    &&& final(self)@ == moved_on(old(self)@)
                },
            },
    {
        match self.select(client_ip, roll) {
            None => None,
            Some(i) => {
                let ghost was = self@;
                assert(was.servers[i as int].breaker.wf());
                assert(was.servers[i as int] == self.servers@[i as int]@);
                let n: usize = self.servers[i].inflight;
                self.servers[i].inflight = if n == usize::MAX {
                    0
                } else {
                    n + 1
                };
                assert(self@.servers =~= taken(was, i as int).servers);
                assert forall|k: int| 0 <= k < self@.servers.len() implies (
                #[trigger] self@.servers[k]).breaker.wf() by {
                    assert(was.servers[k].breaker.wf());
                }
                Some(Lease { server: i, started: now, served: false, outcome: None })
            },
        }
    }

    /// Releases a lease, and returns the change of the server's breaker.
    pub fn release(&mut self, lease: Lease, now: Instant) -> (r: Option<
        (BreakerState, BreakerState),
    >)
        requires
            old(self).wf(),
            lease.server < old(self).servers@.len(),
        ensures
            final(self).wf(),
            final(self)@ == released(old(self)@, lease, now),
            r == change(
                old(self)@.servers[lease.server as int].breaker,
                final(self)@.servers[lease.server as int].breaker,
            ),
    {
        let i: usize = lease.server;
        let ghost was = self@;
        assert(was.servers[i as int] == self.servers@[i as int]@);
        assert(was.servers[i as int].breaker.wf());
        let n: usize = self.servers[i].inflight;
        self.servers[i].inflight = if n == 0 {
            usize::MAX
        } else {
            n - 1
        };
        if lease.served {
            let rtt = now.since(lease.started);
            self.servers[i].record_rtt(rtt);
        }
        let r = match lease.outcome {
            Some(ok) => if ok {
                self.servers[i].record_success(now)
            } else {
                self.servers[i].record_failure(now)
            },
            None => None,
        };
        assert(self@.servers =~= released(was, lease, now).servers);
        assert forall|k: int| 0 <= k < self@.servers.len() implies (
        #[trigger] self@.servers[k]).breaker.wf() by {
            assert(was.servers[k].breaker.wf());
        }
        r
    }

    /// Asks the breaker of a server for a probe.
    pub fn probe_due(&mut self, i: usize, now: Instant) -> (r: Option<ProbeAction>)
        requires
            old(self).wf(),
            i < old(self).servers@.len(),
        ensures
            final(self).wf(),
            r == breaker::due(old(self)@.servers[i as int].breaker, now),
            final(self)@ == (PoolView {
                servers: old(self)@.servers.update(
                    i as int,
                    ServerView {
                        breaker: asked(old(self)@.servers[i as int].breaker, now),
                        ..old(self)@.servers[i as int]
                    },
                ),
                ..old(self)@
            }),
    {
        let ghost was = self@;
        assert(was.servers[i as int] == self.servers@[i as int]@);
        assert(was.servers[i as int].breaker.wf());
        let r = self.servers[i].breaker.probe_due(now);
        assert(self@.servers =~= was.servers.update(
            i as int,
            ServerView { breaker: asked(was.servers[i as int].breaker, now), ..was.servers[i as int] },
        ));
        assert forall|k: int| 0 <= k < self@.servers.len() implies (
        #[trigger] self@.servers[k]).breaker.wf() by {
            assert(was.servers[k].breaker.wf());
        }
        r
    }
}

// ---------------------------------------------------------------------------
// Laws
// ---------------------------------------------------------------------------

/// Around the pool a serving server is found where there is one.
pub proof fn lemma_around(s: Seq<ServerView>, start: int, k: int)
    requires
        s.len() > 0,
        0 <= start,
        0 <= k,
    ensures
        match around(s, start, k) {
            Some(i) => 0 <= i < s.len() && serving(s[i]),
            None => forall|j: int|
                k <= j < s.len() ==> !serving(s[#[trigger] ((start + j) % (s.len() as int))]),
        },
    decreases s.len() - k,
{
    if k < s.len() {
        let i: int = (start + k) % (s.len() as int);
        assert(0 <= i < s.len()) by {
            vstd::arithmetic::div_mod::lemma_mod_bound(start + k, s.len() as int);
        }
        if !serving(s[i]) {
            lemma_around(s, start, k + 1);
        }
    }
}

/// What is lightest is no heavier than any other.
pub proof fn lemma_lightest(s: Seq<ServerView>, by_time: bool, n: int)
    requires
        0 <= n <= s.len(),
    ensures
        match lightest(s, by_time, n) {
            Some(i) => 0 <= i < n && serving(s[i]) && forall|j: int|
                0 <= j < n && serving(#[trigger] s[j]) ==> load(s[i], by_time) <= load(s[j], by_time)
                    && (load(s[i], by_time) == load(s[j], by_time) ==> i <= j),
            None => forall|j: int| 0 <= j < n ==> !serving(#[trigger] s[j]),
        },
    decreases n,
{
    if n > 0 {
        lemma_lightest(s, by_time, n - 1);
    }
}

proof fn lemma_clockwise(r: Seq<(u64, usize)>, s: Seq<ServerView>, start: int, k: int)
    requires
        r.len() > 0,
        0 <= start,
        0 <= k,
        forall|i: int| 0 <= i < r.len() ==> (#[trigger] r[i]).1 < s.len(),
    ensures
        match clockwise(r, s, start, k) {
            Some(i) => 0 <= i < s.len() && serving(s[i]),
            None => forall|j: int|
                k <= j < r.len() ==> !serving(
                    s[r[#[trigger] ((start + j) % (r.len() as int))].1 as int],
                ),
        },
    decreases r.len() - k,
{
    if k < r.len() {
        let at: int = (start + k) % (r.len() as int);
        assert(0 <= at < r.len()) by {
            vstd::arithmetic::div_mod::lemma_mod_bound(start + k, r.len() as int);
        }
        assert(r[at].1 < s.len());
        if !serving(s[r[at].1 as int]) {
            lemma_clockwise(r, s, start, k + 1);
        }
    }
}

/// A place on the ring.
pub proof fn lemma_ring_start(r: Seq<(u64, usize)>, h: u64)
    ensures
        0 <= ring_start(r, h) <= r.len(),
    decreases r.len(),
{
    if r.len() > 0 && r[0].0 < h {
        lemma_ring_start(r.drop_first(), h);
    }
}

/// A server that is chosen is one of the pool, and it may get traffic.
pub proof fn law_only_serving_servers_are_chosen(p: PoolView, ip: IpAddr, roll: u64)
    requires
        pool_wf(p),
        chosen(p, ip, roll) is Some,
    ensures
        0 <= chosen(p, ip, roll)->Some_0 < p.servers.len(),
        serving(p.servers[chosen(p, ip, roll)->Some_0]),
{
    let n = p.servers.len() as int;
    match p.algorithm {
        Algorithm::RoundRobin => {
            vstd::arithmetic::div_mod::lemma_mod_bound(p.cursor as int, n);
            lemma_around(p.servers, p.cursor as int % n, 0);
        },
        Algorithm::WeightedRoundRobin => {
            let slot: int = p.cursor as int % (p.wrr_index.len() as int);
            vstd::arithmetic::div_mod::lemma_mod_bound(p.cursor as int, p.wrr_index.len() as int);
            lemma_around(p.servers, p.wrr_index[slot] as int, 0);
        },
        Algorithm::Random => {
            vstd::arithmetic::div_mod::lemma_mod_bound(roll as int, n);
            lemma_around(p.servers, roll as int % n, 0);
        },
        Algorithm::LeastConnections => {
            lemma_lightest(p.servers, false, n);
        },
        Algorithm::LeastResponseTime => {
            lemma_lightest(p.servers, true, n);
        },
        Algorithm::IpHash => {
            vstd::arithmetic::div_mod::lemma_mod_bound(ip_hash(ip) as int, n);
            lemma_around(p.servers, ip_hash(ip) as int % n, 0);
        },
        Algorithm::ConsistentHash => {
            lemma_ring_start(p.ring, ip_hash(ip));
            lemma_clockwise(p.ring, p.servers, ring_start(p.ring, ip_hash(ip)), 0);
        },
    }
}

/// A server has a node on the ring.
pub open spec fn on_ring(r: Seq<(u64, usize)>, i: int) -> bool {
    exists|k: int| 0 <= k < r.len() && (#[trigger] r[k]).1 == i
}

/// Every server of the pool has a node on the ring.
pub open spec fn ring_covers(p: PoolView) -> bool {
    forall|i: int| 0 <= i < p.servers.len() ==> #[trigger] on_ring(p.ring, i)
}

/// Any place around a circle of `n` is at some distance below `n` from `start`.
proof fn lemma_distance(start: int, i: int, n: int) -> (j: int)
    requires
        0 <= start <= n,
        0 <= i < n,
    ensures
        0 <= j < n,
        (start + j) % n == i,
{
    let j: int = if i >= start {
        i - start
    } else if start == n {
        i
    } else {
        i + n - start
    };
    lemma_wrap(start + j, n);
    j
}

/// Where a server can serve, one is chosen: a request is turned away only when
/// every server of its pool is out.
pub proof fn law_a_serving_server_is_found(p: PoolView, ip: IpAddr, roll: u64, i: int)
    requires
        pool_wf(p),
        p.algorithm == Algorithm::ConsistentHash ==> ring_covers(p),
        0 <= i < p.servers.len(),
        serving(p.servers[i]),
    ensures
        chosen(p, ip, roll) is Some,
{
    let n = p.servers.len() as int;
    match p.algorithm {
        Algorithm::RoundRobin => {
            vstd::arithmetic::div_mod::lemma_mod_bound(p.cursor as int, n);
            let start: int = p.cursor as int % n;
            lemma_around(p.servers, start, 0);
            let j = lemma_distance(start, i, n);
            assert(serving(p.servers[(start + j) % n]));
        },
        Algorithm::WeightedRoundRobin => {
            let slot: int = p.cursor as int % (p.wrr_index.len() as int);
            vstd::arithmetic::div_mod::lemma_mod_bound(p.cursor as int, p.wrr_index.len() as int);
            let start = p.wrr_index[slot] as int;
            lemma_around(p.servers, start, 0);
            let j = lemma_distance(start, i, n);
            assert(serving(p.servers[(start + j) % n]));
        },
        Algorithm::Random => {
            vstd::arithmetic::div_mod::lemma_mod_bound(roll as int, n);
            let start: int = roll as int % n;
            lemma_around(p.servers, start, 0);
            let j = lemma_distance(start, i, n);
            assert(serving(p.servers[(start + j) % n]));
        },
        Algorithm::LeastConnections => {
            lemma_lightest(p.servers, false, n);
        },
        Algorithm::LeastResponseTime => {
            lemma_lightest(p.servers, true, n);
        },
        Algorithm::IpHash => {
            vstd::arithmetic::div_mod::lemma_mod_bound(ip_hash(ip) as int, n);
            let start: int = ip_hash(ip) as int % n;
            lemma_around(p.servers, start, 0);
            let j = lemma_distance(start, i, n);
            assert(serving(p.servers[(start + j) % n]));
        },
        Algorithm::ConsistentHash => {
            let start: int = ring_start(p.ring, ip_hash(ip));
            lemma_ring_start(p.ring, ip_hash(ip));
            assert(on_ring(p.ring, i));
            let k = choose|k: int| 0 <= k < p.ring.len() && (#[trigger] p.ring[k]).1 == i;
            assert(0 <= k < p.ring.len() && p.ring[k].1 == i);
            lemma_clockwise(p.ring, p.servers, start, 0);
            let j = lemma_distance(start, k, p.ring.len() as int);
            assert(serving(p.servers[p.ring[(start + j) % (p.ring.len() as int)].1 as int]));
        },
    }
}

/// With all servers serving, round robin takes them in order and starts again: the
/// pick after the one of server `c mod n` is that of server `c + 1 mod n`.
pub proof fn law_round_robin_cycles(p: PoolView, ip: IpAddr, roll: u64)
    requires
        pool_wf(p),
        p.algorithm == Algorithm::RoundRobin,
        p.servers.len() > 0,
        forall|i: int| 0 <= i < p.servers.len() ==> serving(#[trigger] p.servers[i]),
        p.cursor < usize::MAX,
    ensures
        chosen(p, ip, roll) == Some(p.cursor as int % (p.servers.len() as int)),
        chosen(moved_on(p), ip, roll) == Some((p.cursor + 1) % (p.servers.len() as int)),
{
    let n = p.servers.len() as int;
    vstd::arithmetic::div_mod::lemma_mod_bound(p.cursor as int, n);
    vstd::arithmetic::div_mod::lemma_mod_bound(p.cursor + 1, n);
    lemma_wrap(p.cursor as int % n, n);
    lemma_wrap((p.cursor + 1) % n, n);
    assert(serving(p.servers[p.cursor as int % n]));
    assert(serving(p.servers[(p.cursor + 1) % n]));
}

/// With all servers serving, the weighted algorithm takes the servers in the order of
/// its list and starts again.
pub proof fn law_weighted_round_robin_follows_its_list(p: PoolView, ip: IpAddr, roll: u64)
    requires
        pool_wf(p),
        p.algorithm == Algorithm::WeightedRoundRobin,
        p.servers.len() > 0,
        forall|i: int| 0 <= i < p.servers.len() ==> serving(#[trigger] p.servers[i]),
    ensures
        chosen(p, ip, roll) == Some(
            p.wrr_index[p.cursor as int % (p.wrr_index.len() as int)] as int,
        ),
{
    let n = p.servers.len() as int;
    let k = p.cursor as int % (p.wrr_index.len() as int);
    vstd::arithmetic::div_mod::lemma_mod_bound(p.cursor as int, p.wrr_index.len() as int);
    let start = p.wrr_index[k] as int;
    lemma_wrap(start, n);
    assert(serving(p.servers[start]));
}

/// The load-aware algorithms choose a serving server with the lowest load, and of
/// equals the first: an untried server, whose average is 0, comes before any other.
pub proof fn law_the_lightest_is_chosen(p: PoolView, ip: IpAddr, roll: u64, j: int)
    requires
        p.algorithm == Algorithm::LeastConnections || p.algorithm == Algorithm::LeastResponseTime,
        chosen(p, ip, roll) is Some,
        0 <= j < p.servers.len(),
        serving(p.servers[j]),
    ensures
        ({
            let i = chosen(p, ip, roll)->Some_0;
            let by_time = p.algorithm == Algorithm::LeastResponseTime;
            &&& load(p.servers[i], by_time) <= load(p.servers[j], by_time)
            &&& load(p.servers[i], by_time) == load(p.servers[j], by_time) ==> i <= j
        }),
{
    lemma_lightest(p.servers, p.algorithm == Algorithm::LeastResponseTime, p.servers.len() as int);
}

/// The hashing algorithms keep a client at its server: the choice rests on the
/// address and on which servers serve, and neither on chance nor on other picks.
pub proof fn law_hashing_keeps_a_client_at_its_server(
    p: PoolView,
    ip: IpAddr,
    rolls: (u64, u64),
    cursor: usize,
)
    requires
        p.algorithm == Algorithm::IpHash || p.algorithm == Algorithm::ConsistentHash,
    ensures
        chosen(p, ip, rolls.0) == chosen(PoolView { cursor, ..p }, ip, rolls.1),
        moved_on(p) == p,
{
}

proof fn lemma_clockwise_skips(
    r: Seq<(u64, usize)>,
    s: Seq<ServerView>,
    t: Seq<ServerView>,
    x: int,
    start: int,
    k: int,
)
    requires
        r.len() > 0,
        0 <= start,
        0 <= k,
        s.len() == t.len(),
        forall|i: int| 0 <= i < r.len() ==> (#[trigger] r[i]).1 < s.len(),
        forall|i: int| 0 <= i < s.len() && i != x ==> serving(#[trigger] s[i]) == serving(t[i]),
        0 <= x < s.len() ==> !serving(t[x]),
        clockwise(r, s, start, k) is Some,
        clockwise(r, s, start, k)->Some_0 != x,
    ensures
        clockwise(r, t, start, k) == clockwise(r, s, start, k),
    decreases r.len() - k,
{
    if k < r.len() {
        let at: int = (start + k) % (r.len() as int);
        assert(0 <= at < r.len()) by {
            vstd::arithmetic::div_mod::lemma_mod_bound(start + k, r.len() as int);
        }
        let i = r[at].1 as int;
        assert(r[at].1 < s.len());
        if i != x {
            assert(serving(s[i]) == serving(t[i]));
        }
        if !serving(s[i]) {
            lemma_clockwise_skips(r, s, t, x, start, k + 1);
        }
    }
}

/// On the hash ring, losing a server moves that server's clients alone: every other
/// client keeps the server it had.
pub proof fn law_losing_a_server_moves_its_clients_alone(
    p: PoolView,
    servers: Seq<ServerView>,
    x: int,
    ip: IpAddr,
    roll: u64,
)
    requires
        pool_wf(p),
        p.algorithm == Algorithm::ConsistentHash,
        servers.len() == p.servers.len(),
        0 <= x < servers.len(),
        !serving(servers[x]),
        forall|i: int|
            0 <= i < p.servers.len() && i != x ==> serving(#[trigger] p.servers[i]) == serving(
                servers[i],
            ),
        chosen(p, ip, roll) is Some,
        chosen(p, ip, roll)->Some_0 != x,
    ensures
        chosen(PoolView { servers, ..p }, ip, roll) == chosen(p, ip, roll),
{
    let start: int = ring_start(p.ring, ip_hash(ip));
    lemma_ring_start(p.ring, ip_hash(ip));
    lemma_clockwise_skips(p.ring, p.servers, servers, x, start, 0);
}

/// A lease that is released unjudged leaves the pool as it was before the pick, but
/// for the round-robin counter: no request in flight is ever left over.
pub proof fn law_a_release_undoes_a_pick(p: PoolView, i: int, lease: Lease, now: Instant)
    requires
        0 <= i < p.servers.len(),
        lease.server == i,
        !lease.served,
        lease.outcome is None,
    ensures
        released(taken(p, i), lease, now) == p,
{
    assert(released(taken(p, i), lease, now).servers =~= p.servers);
}

/// Whatever the outcome, a release takes back exactly the one request that the pick
/// counted, and touches no other server.
pub proof fn law_requests_in_flight_balance(
    p: PoolView,
    i: int,
    lease: Lease,
    now: Instant,
    other: int,
)
    requires
        0 <= i < p.servers.len(),
        lease.server == i,
        0 <= other < p.servers.len(),
    ensures
        released(taken(p, i), lease, now).servers[i].inflight == p.servers[i].inflight,
        other != i ==> released(taken(p, i), lease, now).servers[other] == p.servers[other],
{
}

} // verus!
