//! Pools from their specs: `[algorithm:]server[*weight][,server[*weight]...]`.

use vstd::prelude::*;
use vstd::string::{StrSliceExecFns, StringExecFns};
use vstd::utf8::encode_utf8;

use super::breaker::{default_health, fresh, limits_of, HealthConfig, HealthView};
use super::{
    default_pool, fnv, fnv1a, on_ring, ring_covers, ring_sorted, server_views, Algorithm,
    PoolConfig, PoolView, Server, ServerView, Upstream, VNODES_PER_SERVER,
};
use crate::fault::{bad_input, Fault, FaultKind, Outcome};
use crate::text::{
    alpha, chars_of, contains_char, cut, debug_text, decimal, decimal_of, has_char, is_alpha, join,
    joined, own, parse_number, parse_u32, pieces, push_text, quoted, rcut, rsplit_once, same,
    slices, split, split_once, texts, trim, trimmed, unsigned,
};

verus! {

// ---------------------------------------------------------------------------
// Building a pool
// ---------------------------------------------------------------------------

/// Addresses and weights in a specification.
pub type Members = Seq<(Seq<char>, u32)>;

/// What addresses and weights are.
pub open spec fn members(v: Seq<(String, u32)>) -> Members {
    Seq::new(v.len(), |i: int| (v[i].0@, v[i].1))
}

/// Each server's index as often as its weight.
pub open spec fn expanded(m: Members) -> Seq<usize>
    decreases m.len(),
{
    if m.len() == 0 {
        Seq::empty()
    } else {
        expanded(m.drop_last()) + Seq::new(m.last().1 as nat, |k: int| (m.len() - 1) as usize)
    }
}

/// The first `n` nodes of a server on the ring: the hashes of its address with the
/// number of the node.
pub open spec fn nodes(addr: Seq<char>, i: usize, n: nat) -> Seq<(u64, usize)>
    decreases n,
{
    if n == 0 {
        Seq::empty()
    } else {
        nodes(addr, i, (n - 1) as nat).push(
            (fnv(encode_utf8(addr + "#"@ + decimal((n - 1) as nat))), i),
        )
    }
}

/// The nodes of all servers.
pub open spec fn all_nodes(m: Members) -> Seq<(u64, usize)>
    decreases m.len(),
{
    if m.len() == 0 {
        Seq::empty()
    } else {
        all_nodes(m.drop_last()) + nodes(
            m.last().0,
            (m.len() - 1) as usize,
            VNODES_PER_SERVER as nat,
        )
    }
}

/// A ring is the nodes of all servers, sorted by hash.
pub open spec fn is_ring_of(r: Seq<(u64, usize)>, m: Members) -> bool {
    ring_sorted(r) && r.to_multiset() == all_nodes(m).to_multiset()
}

/// A pool that was just made of servers: none has a history, and the lists that
/// the algorithm needs are in place.
pub open spec fn is_built(
    p: PoolView,
    name: Seq<char>,
    algorithm: Algorithm,
    m: Members,
    health: HealthView,
    pool: PoolConfig,
) -> bool {
    &&& p.name == name
    &&& p.algorithm == algorithm
    &&& p.cursor == 0
    &&& p.health == health
    &&& p.pool == pool
    &&& p.servers == Seq::new(
        m.len(),
        |i: int|
            ServerView {
                addr: m[i].0,
                inflight: 0,
                ewma_us: 0,
                breaker: fresh(limits_of(health)),
            },
    )
    &&& p.wrr_index == if algorithm == Algorithm::WeightedRoundRobin {
        expanded(m)
    } else {
        Seq::empty()
    }
    &&& if algorithm == Algorithm::ConsistentHash {
        is_ring_of(p.ring, m)
    } else {
        p.ring == Seq::<(u64, usize)>::empty()
    }
}

/// How often a server stands in a list.
pub open spec fn turns(v: Seq<usize>, i: usize) -> nat
    decreases v.len(),
{
    if v.len() == 0 {
        0
    } else {
        turns(v.drop_last(), i) + if v.last() == i {
            1nat
        } else {
            0nat
        }
    }
}

proof fn lemma_turns_of_sum(a: Seq<usize>, b: Seq<usize>, i: usize)
    ensures
        turns(a + b, i) == turns(a, i) + turns(b, i),
    decreases b.len(),
{
    if b.len() == 0 {
        assert(a + b =~= a);
    } else {
        lemma_turns_of_sum(a, b.drop_last(), i);
        assert((a + b).drop_last() =~= a + b.drop_last());
    }
}

proof fn lemma_turns_of_same(n: nat, x: usize, i: usize)
    ensures
        turns(Seq::new(n, |k: int| x), i) == if x == i {
            n
        } else {
            0
        },
    decreases n,
{
    if n > 0 {
        let v = Seq::new(n, |k: int| x);
        assert(v.drop_last() =~= Seq::new((n - 1) as nat, |k: int| x));
        lemma_turns_of_same((n - 1) as nat, x, i);
    }
}

/// In one round of the weighted algorithm each server has as many turns as its
/// weight.
pub proof fn law_weights_are_honoured(m: Members, i: usize)
    requires
        m.len() <= usize::MAX,
    ensures
        turns(expanded(m), i) == if i < m.len() {
            m[i as int].1 as nat
        } else {
            0
        },
    decreases m.len(),
{
    if m.len() > 0 {
        let x = (m.len() - 1) as usize;
        let w = m.last().1 as nat;
        law_weights_are_honoured(m.drop_last(), i);
        lemma_turns_of_sum(expanded(m.drop_last()), Seq::new(w, |k: int| x), i);
        lemma_turns_of_same(w, x, i);
    }
}

fn expand(servers: &Vec<(String, u32)>) -> (v: Vec<usize>)
    ensures
        v@ == expanded(members(servers@)),
        forall|i: int| 0 <= i < v@.len() ==> (#[trigger] v@[i]) < servers@.len(),
{
    let mut v: Vec<usize> = Vec::new();
    let mut i: usize = 0;
    let ghost m = members(servers@);
    assert(m.take(0) =~= Seq::empty());
    while i < servers.len()
        invariant
            i <= servers@.len(),
            m == members(servers@),
            v@ == expanded(m.take(i as int)),
            forall|k: int| 0 <= k < v@.len() ==> (#[trigger] v@[k]) < servers@.len(),
        decreases servers.len() - i,
    {
        let weight: u32 = servers[i].1;
        let ghost before = v@;
        let mut k: u32 = 0;
        assert(v@ =~= before + Seq::new(0, |j: int| i));
        while k < weight
            invariant
                k <= weight,
                i < servers@.len(),
                v@ == before + Seq::new(k as nat, |j: int| i),
                forall|j: int| 0 <= j < before.len() ==> (#[trigger] before[j]) < servers@.len(),
            decreases weight - k,
        {
            v.push(i);
            k = k + 1;
            assert(v@ =~= before + Seq::new(k as nat, |j: int| i));
        }
        let ghost t = m.take(i + 1);
        assert(t.drop_last() =~= m.take(i as int));
        assert(v@ =~= expanded(t));
        assert forall|j: int| 0 <= j < v@.len() implies (#[trigger] v@[j]) < servers@.len() by {
            if j < before.len() {
                assert(v@[j] == before[j]);
            }
        }
        i = i + 1;
    }
    assert(m.take(i as int) =~= m);
    v
}

fn insert_sorted(r: &mut Vec<(u64, usize)>, e: (u64, usize))
    requires
        ring_sorted(old(r)@),
    ensures
        ring_sorted(final(r)@),
        final(r)@.to_multiset() == old(r)@.to_multiset().insert(e),
{
    let mut at: usize = r.len();
    while at > 0 && r[at - 1].0 > e.0
        invariant
            at <= r@.len(),
            r@ == old(r)@,
            ring_sorted(r@),
            forall|k: int| at <= k < r@.len() ==> (#[trigger] r@[k]).0 > e.0,
        decreases at,
    {
        at = at - 1;
    }
    let ghost was = r@;
    r.insert(at, e);
    proof {
        vstd::seq_lib::to_multiset_insert(was, at as int, e);
        assert(r@ =~= was.insert(at as int, e));
        assert forall|i: int, j: int| 0 <= i <= j < r@.len() implies (#[trigger] r@[i]).0 <= (
        #[trigger] r@[j]).0 by {
            let p: int = if i < at {
                i
            } else {
                i - 1
            };
            let q: int = if j < at {
                j
            } else {
                j - 1
            };
            if i != at && j != at {
                assert(was[p].0 <= was[q].0);
            } else if i == at && j > at {
                assert(was[q].0 > e.0);
            } else if j == at && i < at {
                assert(was[at - 1].0 <= e.0);
                assert(was[p].0 <= was[at - 1].0);
            }
        }
    }
}

fn build_ring(servers: &Vec<(String, u32)>) -> (r: Vec<(u64, usize)>)
    ensures
        is_ring_of(r@, members(servers@)),
{
    broadcast use vstd::seq_lib::to_multiset_build;

    let mut r: Vec<(u64, usize)> = Vec::new();
    let mut i: usize = 0;
    let ghost m = members(servers@);
    assert(m.take(0) =~= Seq::empty());
    assert(all_nodes(m.take(0)) =~= Seq::empty());
    assert(r@ =~= Seq::empty());
    while i < servers.len()
        invariant
            i <= servers@.len(),
            m == members(servers@),
            is_ring_of(r@, m.take(i as int)),
        decreases servers.len() - i,
    {
        let ghost before = all_nodes(m.take(i as int));
        let ghost addr = servers@[i as int].0@;
        let mut v: usize = 0;
        assert(before + nodes(addr, i, 0) =~= before);
        while v < VNODES_PER_SERVER
            invariant
                v <= VNODES_PER_SERVER,
                i < servers@.len(),
                addr == servers@[i as int].0@,
                ring_sorted(r@),
                r@.to_multiset() == (before + nodes(addr, i, v as nat)).to_multiset(),
            decreases VNODES_PER_SERVER - v,
        {
            let n = decimal_of(v as u64);
            let key = own(servers[i].0.as_str()).concat("#").concat(n.as_str());
            let e = (fnv1a(key.as_str().as_bytes()), i);
            let ghost sofar = before + nodes(addr, i, v as nat);
            insert_sorted(&mut r, e);
            proof {
                vstd::seq_lib::to_multiset_build(sofar, e);
                assert(before + nodes(addr, i, (v + 1) as nat) =~= sofar.push(e));
            }
            v = v + 1;
        }
        let ghost t = m.take(i + 1);
        assert(t.drop_last() =~= m.take(i as int));
        assert(all_nodes(t) =~= before + nodes(addr, i, VNODES_PER_SERVER as nat));
        i = i + 1;
    }
    assert(m.take(i as int) =~= m);
    r
}

proof fn lemma_nodes_name_their_server(addr: Seq<char>, i: usize, n: nat)
    ensures
        nodes(addr, i, n).len() == n,
        forall|k: int| 0 <= k < n ==> (#[trigger] nodes(addr, i, n)[k]).1 == i,
    decreases n,
{
    if n > 0 {
        lemma_nodes_name_their_server(addr, i, (n - 1) as nat);
    }
}

proof fn lemma_all_nodes(m: Members)
    requires
        m.len() <= usize::MAX,
    ensures
        forall|k: int| 0 <= k < all_nodes(m).len() ==> (#[trigger] all_nodes(m)[k]).1 < m.len(),
        forall|i: int| 0 <= i < m.len() ==> #[trigger] on_ring(all_nodes(m), i),
    decreases m.len(),
{
    if m.len() > 0 {
        let p = m.drop_last();
        let last = nodes(m.last().0, (m.len() - 1) as usize, VNODES_PER_SERVER as nat);
        let all = all_nodes(m);
        lemma_all_nodes(p);
        lemma_nodes_name_their_server(
            m.last().0,
            (m.len() - 1) as usize,
            VNODES_PER_SERVER as nat,
        );
        assert forall|k: int| 0 <= k < all.len() implies (#[trigger] all[k]).1 < m.len() by {
            if k < all_nodes(p).len() {
                assert(all[k] == all_nodes(p)[k]);
            } else {
                assert(all[k] == last[k - all_nodes(p).len()]);
            }
        }
        assert forall|i: int| 0 <= i < m.len() implies #[trigger] on_ring(all, i) by {
            if i < m.len() - 1 {
                assert(on_ring(all_nodes(p), i));
                let k = choose|k: int|
                    0 <= k < all_nodes(p).len() && (#[trigger] all_nodes(p)[k]).1 == i;
                assert(all[k].1 == i);
            } else {
                assert(all[all_nodes(p).len() as int] == last[0]);
            }
        }
    }
}

proof fn lemma_ring_of(r: Seq<(u64, usize)>, m: Members)
    requires
        is_ring_of(r, m),
        m.len() <= usize::MAX,
    ensures
        forall|k: int| 0 <= k < r.len() ==> (#[trigger] r[k]).1 < m.len(),
        forall|i: int| 0 <= i < m.len() ==> #[trigger] on_ring(r, i),
{
    lemma_all_nodes(m);
    let all = all_nodes(m);
    assert forall|k: int| 0 <= k < r.len() implies (#[trigger] r[k]).1 < m.len() by {
        vstd::seq_lib::to_multiset_contains(r, r[k]);
        vstd::seq_lib::to_multiset_contains(all, r[k]);
        assert(r.contains(r[k]));
        let j = choose|j: int| 0 <= j < all.len() && all[j] == r[k];
        assert(all[j].1 < m.len());
    }
    assert forall|i: int| 0 <= i < m.len() implies #[trigger] on_ring(r, i) by {
        assert(on_ring(all, i));
        let k = choose|k: int| 0 <= k < all.len() && (#[trigger] all[k]).1 == i;
        assert(all.contains(all[k]));
        vstd::seq_lib::to_multiset_contains(all, all[k]);
        vstd::seq_lib::to_multiset_contains(r, all[k]);
        let j = choose|j: int| 0 <= j < r.len() && r[j] == all[k];
        assert(r[j].1 == i);
    }
}

proof fn lemma_expanded_is_not_empty(m: Members)
    requires
        m.len() > 0,
        m[0].1 > 0,
    ensures
        expanded(m).len() > 0,
    decreases m.len(),
{
    if m.len() > 1 {
        lemma_expanded_is_not_empty(m.drop_last());
    }
}

impl Upstream {
    /// Builds a pool of addresses and weights.
    pub fn build(
        name: String,
        algorithm: Algorithm,
        servers: Vec<(String, u32)>,
        health: HealthConfig,
        pool: PoolConfig,
    ) -> (r: Upstream)
        requires
            forall|i: int| 0 <= i < servers@.len() ==> (#[trigger] servers@[i]).1 > 0,
        ensures
            r.wf(),
            is_built(r@, name@, algorithm, members(servers@), health@, pool),
            algorithm == Algorithm::ConsistentHash ==> ring_covers(r@),
    {
        let ghost m = members(servers@);
        let wrr_index: Vec<usize> = if algorithm.uses_weight() {
            expand(&servers)
        } else {
            Vec::new()
        };
        let ring: Vec<(u64, usize)> = if algorithm == Algorithm::ConsistentHash {
            build_ring(&servers)
        } else {
            Vec::new()
        };
        let mut list: Vec<Server> = Vec::new();
        let mut i: usize = 0;
        let n: usize = servers.len();
        let ghost want = Seq::new(
            m.len(),
            |i: int|
                ServerView {
                    addr: m[i].0,
                    inflight: 0,
                    ewma_us: 0,
                    breaker: fresh(limits_of(health@)),
                },
        );
        while i < n
            invariant
                i <= n == servers@.len(),
                m == members(servers@),
                want == Seq::new(
                    m.len(),
                    |i: int|
                        ServerView {
                            addr: m[i].0,
                            inflight: 0,
                            ewma_us: 0,
                            breaker: fresh(limits_of(health@)),
                        },
                ),
                server_views(list@) == want.take(i as int),
            decreases n - i,
        {
            let s = Server::new(own(servers[i].0.as_str()), &health);
            let ghost sofar = list@;
            list.push(s);
            assert(server_views(list@) =~= server_views(sofar).push(s@));
            assert(want.take(i + 1) =~= want.take(i as int).push(s@));
            i = i + 1;
        }
        assert(want.take(i as int) =~= want);
        proof {
            if algorithm == Algorithm::ConsistentHash {
                lemma_ring_of(ring@, m);
            }
            if algorithm == Algorithm::WeightedRoundRobin && m.len() > 0 {
                lemma_expanded_is_not_empty(m);
            }
        }
        let r = Upstream { name, algorithm, servers: list, cursor: 0, wrr_index, ring, health, pool };
        assert(r@.servers == want);
        assert forall|k: int| 0 <= k < r@.servers.len() implies (
        #[trigger] r@.servers[k]).breaker.wf() by {
            assert(r@.servers[k] == want[k]);
        }
        r
    }

    /// A pool of one server, as a bare address stands for.
    pub fn single(addr: &str) -> (r: Upstream)
        ensures
            r.wf(),
            is_built(
                r@,
                addr@,
                Algorithm::RoundRobin,
                seq![(addr@, 1u32)],
                default_health(),
                default_pool(),
            ),
    {
        let mut servers: Vec<(String, u32)> = Vec::new();
        servers.push((own(addr), 1));
        assert(members(servers@) =~= seq![(addr@, 1u32)]);
        let health = HealthConfig::default();
        let pool = PoolConfig::default();
        Upstream::build(own(addr), Algorithm::RoundRobin, servers, health, pool)
    }

    /// A pool of addresses, each with the weight 1.
    pub fn for_test(name: &str, algorithm: Algorithm, addrs: &[&str], health: HealthConfig) -> (r:
        Upstream)
        ensures
            r.wf(),
            is_built(
                r@,
                name@,
                algorithm,
                Seq::new(addrs@.len(), |i: int| (addrs@[i]@, 1u32)),
                health@,
                default_pool(),
            ),
    {
        let mut servers: Vec<(String, u32)> = Vec::new();
        let ghost want = Seq::new(addrs@.len(), |i: int| (addrs@[i]@, 1u32));
        let mut i: usize = 0;
        while i < addrs.len()
            invariant
                i <= addrs@.len(),
                want == Seq::new(addrs@.len(), |i: int| (addrs@[i]@, 1u32)),
                members(servers@) == want.take(i as int),
                forall|k: int| 0 <= k < servers@.len() ==> (#[trigger] servers@[k]).1 > 0,
            decreases addrs.len() - i,
        {
            let ghost sofar = servers@;
            servers.push((own(addrs[i]), 1));
            assert(members(servers@) =~= members(sofar).push((addrs@[i as int]@, 1u32)));
            assert(want.take(i + 1) =~= want.take(i as int).push((addrs@[i as int]@, 1u32)));
            i = i + 1;
        }
        assert(want.take(i as int) =~= want);
        let pool = PoolConfig::default();
        Upstream::build(own(name), algorithm, servers, health, pool)
    }

    /// A summary for the startup banner.
    pub fn describe(&self) -> (r: String)
        ensures
            r@ == "["@ + self.algorithm.tag_text() + "] "@ + joined(
                Seq::new(self@.servers.len(), |i: int| self@.servers[i].addr),
                ", "@,
            ),
    {
        let mut addrs: Vec<String> = Vec::new();
        let ghost want = Seq::new(self@.servers.len(), |i: int| self@.servers[i].addr);
        let mut i: usize = 0;
        assert(texts(addrs@) =~= want.take(0));
        while i < self.servers.len()
            invariant
                i <= self.servers@.len(),
                want == Seq::new(self@.servers.len(), |i: int| self@.servers[i].addr),
                texts(addrs@) == want.take(i as int),
            decreases self.servers.len() - i,
        {
            push_text(&mut addrs, own(self.servers[i].addr.as_str()));
            assert(want.take(i + 1) =~= want.take(i as int).push(self@.servers[i as int].addr));
            i = i + 1;
        }
        assert(want.take(i as int) =~= want);
        let list = join(&addrs, ", ");
        own("[").concat(self.algorithm.tag()).concat("] ").concat(list.as_str())
    }
}

// ---------------------------------------------------------------------------
// Parsing
// ---------------------------------------------------------------------------

/// The algorithm that a tag names.
pub open spec fn algorithm_of(tag: Seq<char>) -> Option<Algorithm> {
    if tag == "rr"@ {
        Some(Algorithm::RoundRobin)
    } else if tag == "wrr"@ {
        Some(Algorithm::WeightedRoundRobin)
    } else if tag == "rand"@ {
        Some(Algorithm::Random)
    } else if tag == "lc"@ {
        Some(Algorithm::LeastConnections)
    } else if tag == "lrt"@ {
        Some(Algorithm::LeastResponseTime)
    } else if tag == "iphash"@ {
        Some(Algorithm::IpHash)
    } else if tag == "chash"@ {
        Some(Algorithm::ConsistentHash)
    } else {
        None
    }
}

impl Algorithm {
    /// The algorithm that a tag names, if it is one.
    pub fn from_tag(tag: &str) -> (r: Option<Algorithm>)
        ensures
            r == algorithm_of(tag@),
    {
        if same(tag, "rr") {
            Some(Algorithm::RoundRobin)
        } else if same(tag, "wrr") {
            Some(Algorithm::WeightedRoundRobin)
        } else if same(tag, "rand") {
            Some(Algorithm::Random)
        } else if same(tag, "lc") {
            Some(Algorithm::LeastConnections)
        } else if same(tag, "lrt") {
            Some(Algorithm::LeastResponseTime)
        } else if same(tag, "iphash") {
            Some(Algorithm::IpHash)
        } else if same(tag, "chash") {
            Some(Algorithm::ConsistentHash)
        } else {
            None
        }
    }
}

/// `host:port`, with a host and a port from 1 to 65535. The port is cut off at the
/// right, as an IPv6 host holds colons too.
pub open spec fn host_port(addr: Seq<char>) -> bool {
    match rcut(addr, ':') {
        Some((host, port)) => host.len() > 0 && (unsigned(port, 10, u16::MAX as int) matches Some(
            p,
        ) && p >= 1),
        None => false,
    }
}

/// Does `addr` look like `host:port`? It is not resolved here.
pub fn is_host_port(addr: &str) -> (r: bool)
    ensures
        r == host_port(addr@),
{
    match rsplit_once(addr, ':') {
        Some((host, port)) => {
            if host.unicode_len() == 0 {
                return false;
            }
            match parse_number(port, 10, 65535) {
                Some(p) => p >= 1,
                None => false,
            }
        },
        None => false,
    }
}

/// A refusal of a pool's spec.
pub open spec fn refused(name: Seq<char>, m: Seq<char>) -> Seq<char> {
    "upstream "@ + debug_text(name) + ": "@ + m
}

fn err(name: &str, m: &str) -> (e: Fault)
    ensures
        e.kind == FaultKind::InvalidInput,
        e.message@ == refused(name@, m@),
{
    let q = quoted(name);
    bad_input(own("upstream ").concat(q.as_str()).concat(": ").concat(m))
}

/// One server: `addr`, or `addr*weight` with a weight of at least 1. A server of
/// weight 0 could never be picked.
pub open spec fn member_of(name: Seq<char>, token: Seq<char>) -> Outcome<(Seq<char>, u32)> {
    let parts = match rcut(token, '*') {
        Some((addr, w)) => match unsigned(w, 10, u32::MAX as int) {
            None => Err(refused(name, "bad weight "@ + debug_text(w))),
            Some(n) => if n == 0 {
                Err(refused(name, "weight must be >= 1"@))
            } else {
                Ok((addr, n as u32))
            },
        },
        None => Ok((token, 1u32)),
    };
    match parts {
        Err(e) => Err(e),
        Ok((addr, weight)) => if host_port(addr) {
            Ok((addr, weight))
        } else {
            Err(refused(name, "server address must be host:port, got "@ + debug_text(addr)))
        },
    }
}

fn parse_server(name: &str, token: &str) -> (r: Result<(String, u32), Fault>)
    ensures
        match r {
            Ok(p) => member_of(name@, token@) == Ok::<(Seq<char>, u32), Seq<char>>((p.0@, p.1))
                && p.1 > 0,
            Err(e) => e.kind == FaultKind::InvalidInput && member_of(name@, token@) == Err::<
                (Seq<char>, u32),
                Seq<char>,
            >(e.message@),
        },
{
    let (addr, weight): (&str, u32) = match rsplit_once(token, '*') {
        Some((addr, w)) => match parse_u32(w) {
            None => {
                let q = quoted(w);
                let m = own("bad weight ").concat(q.as_str());
                return Err(err(name, m.as_str()));
            },
            Some(n) => {
                if n == 0 {
                    return Err(err(name, "weight must be >= 1"));
                }
                (addr, n)
            },
        },
        None => (token, 1),
    };
    if !is_host_port(addr) {
        let q = quoted(addr);
        let m = own("server address must be host:port, got ").concat(q.as_str());
        return Err(err(name, m.as_str()));
    }
    Ok((own(addr), weight))
}

/// The servers of a list; blank items are skipped.
pub open spec fn members_of(name: Seq<char>, tokens: Seq<Seq<char>>) -> Outcome<Members>
    decreases tokens.len(),
{
    if tokens.len() == 0 {
        Ok(Seq::empty())
    } else if trimmed(tokens[0]).len() == 0 {
        members_of(name, tokens.drop_first())
    } else {
        match member_of(name, trimmed(tokens[0])) {
            Err(e) => Err(e),
            Ok(p) => match members_of(name, tokens.drop_first()) {
                Err(e) => Err(e),
                Ok(rest) => Ok(seq![p] + rest),
            },
        }
    }
}

/// Members put before those of an outcome.
pub open spec fn led_by(a: Members, r: Outcome<Members>) -> Outcome<Members> {
    match r {
        Ok(b) => Ok(a + b),
        Err(e) => Err(e),
    }
}

fn parse_servers(name: &str, list: &str) -> (r: Result<Vec<(String, u32)>, Fault>)
    ensures
        match r {
            Ok(v) => members_of(name@, pieces(list@, ',')) == Ok::<Members, Seq<char>>(members(v@))
                && forall|i: int| 0 <= i < v@.len() ==> (#[trigger] v@[i]).1 > 0,
            Err(e) => e.kind == FaultKind::InvalidInput && members_of(name@, pieces(list@, ','))
                == Err::<Members, Seq<char>>(e.message@),
        },
{
    let tokens = split(list, ',');
    let mut v: Vec<(String, u32)> = Vec::new();
    let mut i: usize = 0;
    let ghost all = members_of(name@, pieces(list@, ','));
    assert(slices(tokens@).skip(0) =~= slices(tokens@));
    assert(all == led_by(members(v@), all)) by {
        if all is Ok {
            assert(members(v@) + all->Ok_0 =~= all->Ok_0);
        }
    }
    while i < tokens.len()
        invariant
            i <= tokens@.len(),
            all == members_of(name@, pieces(list@, ',')),
            all == led_by(members(v@), members_of(name@, slices(tokens@).skip(i as int))),
            forall|k: int| 0 <= k < v@.len() ==> (#[trigger] v@[k]).1 > 0,
        decreases tokens.len() - i,
    {
        let ghost rest = slices(tokens@).skip(i as int);
        let ghost sofar = members(v@);
        assert(rest[0] == tokens@[i as int]@);
        assert(rest.drop_first() =~= slices(tokens@).skip(i + 1));
        let token = trim(tokens[i]);
        if token.unicode_len() != 0 {
            match parse_server(name, token) {
                Err(e) => {
                    return Err(e);
                },
                Ok(p) => {
                    let ghost x = (p.0@, p.1);
                    let ghost tail = members_of(name@, rest.drop_first());
                    v.push(p);
                    assert(members(v@) =~= sofar.push(x));
                    assert(tail is Ok ==> sofar + (seq![x] + tail->Ok_0) =~= members(v@)
                        + tail->Ok_0);
                },
            }
        }
        i = i + 1;
    }
    assert(slices(tokens@).skip(i as int) =~= Seq::<Seq<char>>::empty());
    assert(members(v@) + Seq::empty() =~= members(v@));
    Ok(v)
}

/// Every character is an ASCII letter, and there is one.
pub open spec fn is_word(s: Seq<char>) -> bool {
    s.len() > 0 && forall|i: int| 0 <= i < s.len() ==> is_alpha(#[trigger] s[i])
}

fn word(s: &str) -> (r: bool)
    ensures
        r == is_word(s@),
{
    let v = chars_of(s);
    let mut i: usize = 0;
    while i < v.len()
        invariant
            i <= v@.len(),
            v@ == s@,
            forall|k: int| 0 <= k < i ==> is_alpha(#[trigger] v@[k]),
        decreases v.len() - i,
    {
        if !alpha(v[i]) {
            assert(!is_alpha(s@[i as int]));
            return false;
        }
        i = i + 1;
    }
    v.len() > 0
}

/// The algorithm and the server list of a spec. A leading word is an algorithm's
/// tag only where a colon follows in the rest: `localhost:9001` is an address.
pub open spec fn tagged(name: Seq<char>, spec_text: Seq<char>) -> Outcome<(Algorithm, Seq<char>)> {
    match cut(spec_text, ':') {
        Some((lead, rest)) => if is_word(lead) && has_char(rest, ':') {
            match algorithm_of(lead) {
                Some(a) => Ok((a, rest)),
                None => Err(refused(name, "unknown algorithm "@ + debug_text(lead))),
            }
        } else {
            Ok((Algorithm::RoundRobin, spec_text))
        },
        None => Ok((Algorithm::RoundRobin, spec_text)),
    }
}

fn parse_tag<'a>(name: &str, spec_text: &'a str) -> (r: Result<(Algorithm, &'a str), Fault>)
    ensures
        match r {
            Ok(p) => tagged(name@, spec_text@) == Ok::<(Algorithm, Seq<char>), Seq<char>>(
                (p.0, p.1@),
            ),
            Err(e) => e.kind == FaultKind::InvalidInput && tagged(name@, spec_text@) == Err::<
                (Algorithm, Seq<char>),
                Seq<char>,
            >(e.message@),
        },
{
    match split_once(spec_text, ':') {
        Some((lead, rest)) => if word(lead) && contains_char(rest, ':') {
            match Algorithm::from_tag(lead) {
                Some(a) => Ok((a, rest)),
                None => {
                    let q = quoted(lead);
                    let m = own("unknown algorithm ").concat(q.as_str());
                    Err(err(name, m.as_str()))
                },
            }
        } else {
            Ok((Algorithm::RoundRobin, spec_text))
        },
        None => Ok((Algorithm::RoundRobin, spec_text)),
    }
}

/// The algorithm and the servers of a spec: at least one server.
pub open spec fn parsed(name: Seq<char>, spec_text: Seq<char>) -> Outcome<(Algorithm, Members)> {
    match tagged(name, spec_text) {
        Err(e) => Err(e),
        Ok((algorithm, list)) => match members_of(name, pieces(list, ',')) {
            Err(e) => Err(e),
            Ok(m) => if m.len() == 0 {
                Err(refused(name, "empty pool (no servers)"@))
            } else {
                Ok((algorithm, m))
            },
        },
    }
}

fn parse_spec(name: &str, spec_text: &str) -> (r: Result<(Algorithm, Vec<(String, u32)>), Fault>)
    ensures
        match r {
            Ok(p) => parsed(name@, spec_text@) == Ok::<(Algorithm, Members), Seq<char>>(
                (p.0, members(p.1@)),
            ) && forall|i: int| 0 <= i < p.1@.len() ==> (#[trigger] p.1@[i]).1 > 0,
            Err(e) => e.kind == FaultKind::InvalidInput && parsed(name@, spec_text@) == Err::<
                (Algorithm, Members),
                Seq<char>,
            >(e.message@),
        },
{
    let (algorithm, list): (Algorithm, &str) = match parse_tag(name, spec_text) {
        Err(e) => {
            return Err(e);
        },
        Ok(p) => p,
    };
    match parse_servers(name, list) {
        Err(e) => Err(e),
        Ok(v) => {
            assert(members(v@).len() == v@.len());
            if v.len() == 0 {
                return Err(err(name, "empty pool (no servers)"));
            }
            Ok((algorithm, v))
        },
    }
}

/// The probe path that a spec's options set, and the spec without its options.
pub open spec fn probe_path(name: Seq<char>, spec_text: Seq<char>, default_path: Seq<char>) -> Outcome<
    (Seq<char>, Seq<char>),
> {
    match cut(spec_text, ';') {
        None => Ok((spec_text, default_path)),
        Some((list, opts)) => match cut(trimmed(opts), '=') {
            Some((k, v)) => if trimmed(k) == "health"@ && trimmed(v).len() > 0 {
                Ok((list, trimmed(v)))
            } else {
                Err(refused(name, "expected ;health=PATH, got "@ + debug_text(opts)))
            },
            None => Err(refused(name, "expected ;health=PATH, got "@ + debug_text(opts))),
        },
    }
}

impl Upstream {
    /// Parses a pool's spec; the health tunables are the default ones.
    pub fn from_spec(name: &str, spec_text: &str) -> (r: Result<Upstream, Fault>)
        ensures
            match parsed(name@, spec_text@) {
                Err(m) => r matches Err(e) && e.kind == FaultKind::InvalidInput && e.message@ == m,
                Ok((algorithm, m)) => r matches Ok(u) && u.wf() && is_built(
                    u@,
                    name@,
                    algorithm,
                    m,
                    default_health(),
                    default_pool(),
                ) && (algorithm == Algorithm::ConsistentHash ==> ring_covers(u@)),
            },
    {
        match parse_spec(name, spec_text) {
            Err(e) => Err(e),
            Ok((algorithm, servers)) => {
                let health = HealthConfig::default();
                let pool = PoolConfig::default();
                Ok(Upstream::build(own(name), algorithm, servers, health, pool))
            },
        }
    }

    /// Parses a pool's spec with given tunables; a `;health=PATH` behind the servers
    /// sets the probe path.
    pub fn from_spec_with_health(
        name: &str,
        spec_text: &str,
        hc: &HealthConfig,
        pool: PoolConfig,
    ) -> (r: Result<Upstream, Fault>)
        ensures
            match probe_path(name@, spec_text@, hc.path@) {
                Err(m) => r matches Err(e) && e.kind == FaultKind::InvalidInput && e.message@ == m,
                Ok((list, path)) => match parsed(name@, list) {
                    Err(m) => r matches Err(e) && e.kind == FaultKind::InvalidInput && e.message@
                        == m,
                    Ok((algorithm, m)) => r matches Ok(u) && u.wf() && is_built(
                        u@,
                        name@,
                        algorithm,
                        m,
                        HealthView { path, ..hc@ },
                        pool,
                    ) && (algorithm == Algorithm::ConsistentHash ==> ring_covers(u@)),
                },
            },
    {
        let mut health = hc.copied();
        let list: &str = match split_once(spec_text, ';') {
            None => spec_text,
            Some((list, opts)) => {
                let ok: Option<&str> = match split_once(trim(opts), '=') {
                    Some((k, v)) => {
                        let value = trim(v);
                        if same(trim(k), "health") && value.unicode_len() > 0 {
                            Some(value)
                        } else {
                            None
                        }
                    },
                    None => None,
                };
                match ok {
                    Some(path) => {
                        health.path = own(path);
                        list
                    },
                    None => {
                        let q = quoted(opts);
                        let m = own("expected ;health=PATH, got ").concat(q.as_str());
                        return Err(err(name, m.as_str()));
                    },
                }
            },
        };
        match parse_spec(name, list) {
            Err(e) => Err(e),
            Ok((algorithm, servers)) => Ok(
                Upstream::build(own(name), algorithm, servers, health, pool),
            ),
        }
    }
}

/// The remark on a weight that an algorithm does not read.
pub open spec fn weight_remark(algorithm: Algorithm, addr: Seq<char>) -> Seq<char> {
    "weight on "@ + debug_text(addr) + " ignored (algorithm "@ + algorithm.tag_text()
        + " is not weighted)"@
}

/// A remark for each server of a list that carries a weight, in order.
pub open spec fn weight_remarks(algorithm: Algorithm, tokens: Seq<Seq<char>>) -> Seq<Seq<char>>
    decreases tokens.len(),
{
    if tokens.len() == 0 {
        Seq::empty()
    } else {
        let before = weight_remarks(algorithm, tokens.drop_last());
        match rcut(trimmed(tokens.last()), '*') {
            Some((addr, _)) => before.push(weight_remark(algorithm, addr)),
            None => before,
        }
    }
}

/// The remarks on a pool's spec. Only weighted round robin reads weights; what comes
/// behind a `;` holds no servers, and a spec that is refused gets no remarks.
pub open spec fn spec_remarks(spec_text: Seq<char>) -> Seq<Seq<char>> {
    let list = match cut(spec_text, ';') {
        Some((list, _)) => list,
        None => spec_text,
    };
    match parsed(""@, list) {
        Ok((algorithm, _)) => if algorithm == Algorithm::WeightedRoundRobin {
            Seq::empty()
        } else {
            weight_remarks(algorithm, pieces(tagged(""@, list)->Ok_0.1, ','))
        },
        Err(_) => Seq::empty(),
    }
}

/// Remarks on the weights in a pool's spec that its algorithm does not read. Such a
/// weight is an oversight, but no reason to refuse the pool.
pub fn ignored_weights(spec_text: &str) -> (r: Vec<String>)
    ensures
        texts(r@) == spec_remarks(spec_text@),
{
    let list: &str = match split_once(spec_text, ';') {
        Some((list, _)) => list,
        None => spec_text,
    };
    let mut v: Vec<String> = Vec::new();
    assert(texts(v@) =~= Seq::empty());
    let (algorithm, servers): (Algorithm, &str) = match parse_tag("", list) {
        Err(_) => {
            return v;
        },
        Ok(p) => p,
    };
    let ok = parse_spec("", list).is_ok();
    if !ok || algorithm.uses_weight() {
        return v;
    }
    let tokens = split(servers, ',');
    let mut i: usize = 0;
    assert(slices(tokens@).take(0) =~= Seq::empty());
    while i < tokens.len()
        invariant
            i <= tokens@.len(),
            texts(v@) == weight_remarks(algorithm, slices(tokens@).take(i as int)),
        decreases tokens.len() - i,
    {
        let ghost before = texts(v@);
        assert(slices(tokens@).take(i + 1).drop_last() =~= slices(tokens@).take(i as int));
        assert(slices(tokens@).take(i + 1).last() == tokens@[i as int]@);
        if let Some((addr, _)) = rsplit_once(trim(tokens[i]), '*') {
            let q = quoted(addr);
            let t = own("weight on ").concat(q.as_str()).concat(" ignored (algorithm ").concat(
                algorithm.tag(),
            ).concat(" is not weighted)");
            assert(t@ == weight_remark(algorithm, addr@));
            v.push(t);
            assert(texts(v@) =~= before.push(t@));
        }
        i = i + 1;
    }
    assert(slices(tokens@).take(i as int) =~= slices(tokens@));
    v
}

} // verus!
