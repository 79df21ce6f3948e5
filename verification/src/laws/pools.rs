//! How pools and routes are declared.

use vstd::prelude::*;
use vstd::utf8::encode_utf8;

use super::{lemma_nothing_to_trim, lemma_trimmed_ends};
use crate::balancer::breaker::HealthView;
use crate::balancer::spec::{
    algorithm_of, all_nodes, host_port, is_built, is_word, member_of, members_of, nodes, parsed,
    probe_path, spec_remarks, weight_remark, weight_remarks, Members,
};
use crate::balancer::{fnv, Algorithm, PoolConfig, PoolView};
use crate::cli::{declaration, routes_plan, RoutesPlan};
use crate::middleware::options::is_l6_key;
use crate::middleware::Number;
use crate::rewrite::is_l5_key;
use crate::router::{bound, families, pool_at, sorted_out, with_pool, Bound, TableView, TargetView};
use crate::text::{
    cut, debug_text, decimal, first_index, has_char, is_alpha, is_digit, is_space, joined,
    last_index, lemma_decimal, lemma_decimal_reads_back, lemma_first_index, lemma_first_index_is,
    lemma_joined_lead, lemma_joined_pieces, lemma_last_index_is, pieces, rcut, trimmed,
};

verus! {

proof fn lemma_cut_at(a: Seq<char>, b: Seq<char>, c: char)
    requires
        !has_char(a, c),
    ensures
        cut(a + seq![c] + b, c) == Some((a, b)),
{
    let s = a + seq![c] + b;
    lemma_first_index(a, c);
    assert forall|k: int| 0 <= k < a.len() implies s[k] != c by {
        assert(s[k] == a[k]);
    }
    lemma_first_index_is(s, c, a.len() as int);
    assert(s.take(a.len() as int) =~= a);
    assert(s.skip(a.len() as int + 1) =~= b);
}

proof fn lemma_rcut_at(a: Seq<char>, b: Seq<char>, c: char)
    requires
        !has_char(b, c),
    ensures
        rcut(a + seq![c] + b, c) == Some((a, b)),
{
    let s = a + seq![c] + b;
    lemma_first_index(b, c);
    assert forall|k: int| a.len() < k < s.len() implies s[k] != c by {
        assert(s[k] == b[k - a.len() - 1]);
    }
    assert(s[a.len() as int] == c);
    lemma_last_index_is(s, c, a.len() as int);
    assert(s.take(a.len() as int) =~= a);
    assert(s.skip(a.len() as int + 1) =~= b);
}

/// The digits of a number hold nothing but digits.
pub proof fn lemma_digits_hold(n: nat, c: char)
    requires
        !is_digit(c),
    ensures
        !has_char(decimal(n), c),
{
    lemma_decimal(n);
    let d = decimal(n);
    assert forall|k: int| 0 <= k < d.len() implies d[k] != c by {
        assert(is_digit(d[k]));
    }
    lemma_first_index_is(d, c, d.len() as int);
}

// ---------------------------------------------------------------------------
// Servers
// ---------------------------------------------------------------------------

/// An address is a host, a colon and a port from 1 to 65535; the host may hold colons.
pub proof fn law_addresses_have_a_port(host: Seq<char>, port: nat)
    ensures
        host_port(host + seq![':'] + decimal(port)) <==> host.len() > 0 && 1 <= port <= 65_535,
        !has_char(host, ':') ==> !host_port(host),
{
    lemma_digits_hold(port, ':');
    lemma_rcut_at(host, decimal(port), ':');
    lemma_decimal(port);
    if port <= 65_535 {
        lemma_decimal_reads_back(port, 65_535);
    }
    if !has_char(host, ':') {
        lemma_first_index(host, ':');
        crate::text::lemma_last_index(host, ':');
    }
}

/// A server is an address, with a weight behind a star or with the weight 1; a weight of
/// 0 is refused.
pub proof fn law_servers_have_a_weight(name: Seq<char>, addr: Seq<char>, w: u32)
    requires
        host_port(addr),
        !has_char(addr, '*'),
    ensures
        member_of(name, addr) == Ok::<(Seq<char>, u32), Seq<char>>((addr, 1u32)),
        w > 0 ==> member_of(name, addr + seq!['*'] + decimal(w as nat)) == Ok::<
            (Seq<char>, u32),
            Seq<char>,
        >((addr, w)),
        w == 0 ==> member_of(name, addr + seq!['*'] + decimal(w as nat)) is Err,
{
    lemma_digits_hold(w as nat, '*');
    lemma_rcut_at(addr, decimal(w as nat), '*');
    lemma_decimal_reads_back(w as nat, u32::MAX as int);
    lemma_first_index(addr, '*');
    crate::text::lemma_last_index(addr, '*');
}

/// What a list of servers is written as.
pub open spec fn written(m: Members) -> Seq<Seq<char>> {
    Seq::new(m.len(), |i: int| m[i].0 + seq!['*'] + decimal(m[i].1 as nat))
}

/// A server that can be written: an address without a comma, a star or white space.
pub open spec fn writable(addr: Seq<char>) -> bool {
    &&& host_port(addr)
    &&& !has_char(addr, '*')
    &&& !has_char(addr, ',')
    &&& addr.len() > 0
    &&& !is_space(addr[0])
}

proof fn lemma_written_token(addr: Seq<char>, w: u32)
    requires
        writable(addr),
    ensures
        ({
            let t = addr + seq!['*'] + decimal(w as nat);
            trimmed(t) == t && t.len() > 0 && !has_char(t, ',')
        }),
{
    let d = decimal(w as nat);
    let t = addr + seq!['*'] + d;
    lemma_decimal(w as nat);
    assert(t[0] == addr[0]);
    assert(is_digit(d[d.len() - 1]));
    assert(t.last() == d[d.len() - 1]);
    lemma_nothing_to_trim(t);
    lemma_first_index(addr, ',');
    assert forall|k: int| 0 <= k < t.len() implies t[k] != ',' by {
        if k < addr.len() {
            assert(t[k] == addr[k]);
        } else if k > addr.len() {
            assert(is_digit(d[k - addr.len() - 1]));
            assert(t[k] == d[k - addr.len() - 1]);
        }
    }
    lemma_first_index_is(t, ',', t.len() as int);
}

proof fn lemma_members_read_back(name: Seq<char>, m: Members)
    requires
        forall|i: int| 0 <= i < m.len() ==> writable((#[trigger] m[i]).0) && m[i].1 > 0,
    ensures
        members_of(name, written(m)) == Ok::<Members, Seq<char>>(m),
    decreases m.len(),
{
    let w = written(m);
    if m.len() == 0 {
        assert(m =~= Seq::empty());
    } else {
        let t = m.drop_first();
        assert(w.drop_first() =~= written(t));
        assert forall|i: int| 0 <= i < t.len() implies writable((#[trigger] t[i]).0) && t[i].1 > 0 by {
            assert(t[i] == m[i + 1]);
        }
        lemma_members_read_back(name, t);
        assert(writable(m[0].0) && m[0].1 > 0);
        lemma_written_token(m[0].0, m[0].1);
        law_servers_have_a_weight(name, m[0].0, m[0].1);
        assert(seq![m[0]] + t =~= m);
    }
}

/// The tags of the algorithms.
pub open spec fn tag_of(a: Algorithm) -> Seq<char> {
    match a {
        Algorithm::RoundRobin => seq!['r', 'r'],
        Algorithm::WeightedRoundRobin => seq!['w', 'r', 'r'],
        Algorithm::Random => seq!['r', 'a', 'n', 'd'],
        Algorithm::LeastConnections => seq!['l', 'c'],
        Algorithm::LeastResponseTime => seq!['l', 'r', 't'],
        Algorithm::IpHash => seq!['i', 'p', 'h', 'a', 's', 'h'],
        Algorithm::ConsistentHash => seq!['c', 'h', 'a', 's', 'h'],
    }
}

/// A tag names its algorithm.
pub proof fn law_tags_name_algorithms(a: Algorithm)
    ensures
        algorithm_of(tag_of(a)) == Some(a),
        is_word(tag_of(a)),
{
    reveal_strlit("rr");
    reveal_strlit("wrr");
    reveal_strlit("rand");
    reveal_strlit("lc");
    reveal_strlit("lrt");
    reveal_strlit("iphash");
    reveal_strlit("chash");
    assert("rr"@ =~= seq!['r', 'r']);
    assert("wrr"@ =~= seq!['w', 'r', 'r']);
    assert("rand"@ =~= seq!['r', 'a', 'n', 'd']);
    assert("lc"@ =~= seq!['l', 'c']);
    assert("lrt"@ =~= seq!['l', 'r', 't']);
    assert("iphash"@ =~= seq!['i', 'p', 'h', 'a', 's', 'h']);
    assert("chash"@ =~= seq!['c', 'h', 'a', 's', 'h']);
    assert("rr"@[0] != "lc"@[0]);
    assert("wrr"@[0] != "lrt"@[0]);
}

proof fn lemma_led_by_the_first(v: Seq<Seq<char>>)
    requires
        v.len() > 0,
    ensures
        joined(v, seq![',']).len() >= v[0].len(),
        forall|k: int| 0 <= k < v[0].len() ==> #[trigger] joined(v, seq![','])[k] == v[0][k],
{
    let j = joined(v, seq![',']);
    if v.len() > 1 {
        lemma_joined_lead(v, seq![',']);
    }
    assert(j.take(v[0].len() as int) =~= v[0]);
    assert forall|k: int| 0 <= k < v[0].len() implies j[k] == v[0][k] by {
        assert(j.take(v[0].len() as int)[k] == v[0][k]);
    }
}

proof fn lemma_colon_of(addr: Seq<char>)
    requires
        host_port(addr),
    ensures
        0 <= last_index(addr, ':') < addr.len(),
        addr[last_index(addr, ':')] == ':',
{
    crate::text::lemma_last_index(addr, ':');
}

/// A pool that is written with its algorithm and its servers is read back as it was
/// written.
pub proof fn law_pools_are_read_back(name: Seq<char>, a: Algorithm, m: Members)
    requires
        m.len() > 0,
        forall|i: int| 0 <= i < m.len() ==> writable((#[trigger] m[i]).0) && m[i].1 > 0,
    ensures
        parsed(name, tag_of(a) + seq![':'] + joined(written(m), seq![','])) == Ok::<
            (Algorithm, Members),
            Seq<char>,
        >((a, m)),
{
    let tag = tag_of(a);
    let list = joined(written(m), seq![',']);
    law_tags_name_algorithms(a);
    assert forall|k: int| 0 <= k < tag.len() implies tag[k] != ':' by {
        assert(is_alpha(tag[k]));
    }
    lemma_first_index_is(tag, ':', tag.len() as int);
    lemma_cut_at(tag, list, ':');
    assert forall|i: int| 0 <= i < written(m).len() implies !has_char(
        #[trigger] written(m)[i],
        ',',
    ) by {
        assert(writable(m[i].0));
        lemma_written_token(m[i].0, m[i].1);
    }
    lemma_joined_pieces(written(m), ',');
    lemma_members_read_back(name, m);
    lemma_has_a_colon(m);
}

/// A pool without a tag is served in turn: an address is no tag.
pub proof fn law_round_robin_is_the_default(name: Seq<char>, host: Seq<char>, port: nat)
    requires
        !has_char(host, ':'),
        !has_char(host, ','),
        !has_char(host, '*'),
        host.len() > 0,
        !is_space(host[0]),
        1 <= port <= 65_535,
    ensures
        parsed(name, host + seq![':'] + decimal(port)) == Ok::<(Algorithm, Members), Seq<char>>(
            (Algorithm::RoundRobin, seq![(host + seq![':'] + decimal(port), 1u32)]),
        ),
{
    let d = decimal(port);
    let s = host + seq![':'] + d;
    lemma_cut_at(host, d, ':');
    lemma_digits_hold(port, ':');
    law_addresses_have_a_port(host, port);
    lemma_first_index(host, ',');
    lemma_first_index(host, '*');
    lemma_digits_hold(port, ',');
    lemma_digits_hold(port, '*');
    lemma_first_index(d, ',');
    lemma_first_index(d, '*');
    assert forall|k: int| 0 <= k < s.len() implies s[k] != ',' && s[k] != '*' by {
        if k < host.len() {
            assert(s[k] == host[k]);
        } else if k > host.len() {
            assert(s[k] == d[k - host.len() - 1]);
        }
    }
    lemma_first_index_is(s, ',', s.len() as int);
    lemma_first_index_is(s, '*', s.len() as int);
    let p = pieces(s, ',');
    assert(p =~= seq![s]);
    assert(p.drop_first() =~= Seq::empty());
    assert(members_of(name, p.drop_first()) == Ok::<Members, Seq<char>>(Seq::empty()));
    lemma_decimal(port);
    assert(s[0] == host[0]);
    assert(is_digit(d[d.len() - 1]));
    assert(s.last() == d[d.len() - 1]);
    lemma_nothing_to_trim(s);
    law_servers_have_a_weight(name, s, 1);
    assert(seq![(s, 1u32)] + Seq::<(Seq<char>, u32)>::empty() =~= seq![(s, 1u32)]);
}

/// `;health=PATH` behind the servers is the path of the pool's probes; without it the
/// default stays.
pub proof fn law_probe_paths_are_set(name: Seq<char>, list: Seq<char>, path: Seq<char>, default_path: Seq<char>)
    requires
        !has_char(list, ';'),
        path.len() > 0,
        trimmed(path) == path,
    ensures
        probe_path(name, list, default_path) == Ok::<(Seq<char>, Seq<char>), Seq<char>>(
            (list, default_path),
        ),
        probe_path(
            name,
            list + seq![';'] + ("health"@ + seq!['='] + path),
            default_path,
        ) == Ok::<(Seq<char>, Seq<char>), Seq<char>>((list, path)),
{
    lemma_first_index(list, ';');
    reveal_strlit("health");
    let opts = "health"@ + seq!['='] + path;
    lemma_cut_at(list, opts, ';');
    lemma_trimmed_ends(path);
    assert(opts[0] == 'h');
    assert(opts.last() == path.last());
    lemma_nothing_to_trim(opts);
    lemma_first_index_is("health"@, '=', 6);
    lemma_cut_at("health"@, path, '=');
    lemma_nothing_to_trim("health"@);
}

proof fn lemma_remarks(a: Algorithm, m: Members)
    requires
        forall|i: int| 0 <= i < m.len() ==> writable((#[trigger] m[i]).0) && m[i].1 > 0,
    ensures
        weight_remarks(a, written(m)) == Seq::new(m.len(), |i: int| weight_remark(a, m[i].0)),
    decreases m.len(),
{
    let w = written(m);
    if m.len() > 0 {
        let t = m.drop_last();
        let x = m.last();
        assert(w.drop_last() =~= written(t));
        assert forall|i: int| 0 <= i < t.len() implies writable((#[trigger] t[i]).0) && t[i].1 > 0 by {
            assert(t[i] == m[i]);
        }
        lemma_remarks(a, t);
        assert(writable(m[m.len() - 1].0));
        lemma_written_token(x.0, x.1);
        lemma_digits_hold(x.1 as nat, '*');
        lemma_rcut_at(x.0, decimal(x.1 as nat), '*');
        assert(w.last() == x.0 + seq!['*'] + decimal(x.1 as nat));
    }
    assert(weight_remarks(a, w) =~= Seq::new(m.len(), |i: int| weight_remark(a, m[i].0)));
}

/// Of every weight that its algorithm does not read there is a remark with the address
/// and the algorithm; only weighted round robin reads weights.
pub proof fn law_unread_weights_are_remarked_on(a: Algorithm, m: Members, i: int)
    requires
        0 <= i < m.len(),
        forall|k: int| 0 <= k < m.len() ==> writable((#[trigger] m[k]).0) && m[k].1 > 0,
        !has_char(tag_of(a) + seq![':'] + joined(written(m), seq![',']), ';'),
    ensures
        ({
            let r = spec_remarks(tag_of(a) + seq![':'] + joined(written(m), seq![',']));
            &&& a == Algorithm::WeightedRoundRobin ==> r.len() == 0
            &&& a != Algorithm::WeightedRoundRobin ==> r.len() == m.len() && r[i] == "weight on "@
                + debug_text(m[i].0) + " ignored (algorithm "@ + tag_of(a) + " is not weighted)"@
        }),
{
    let list = joined(written(m), seq![',']);
    let s = tag_of(a) + seq![':'] + list;
    lemma_first_index(s, ';');
    law_pools_are_read_back(""@, a, m);
    law_tags_name_algorithms(a);
    lemma_tags(a);
    let tag = tag_of(a);
    assert forall|k: int| 0 <= k < tag.len() implies tag[k] != ':' by {
        assert(is_alpha(tag[k]));
    }
    lemma_first_index_is(tag, ':', tag.len() as int);
    lemma_cut_at(tag, list, ':');
    lemma_has_a_colon(m);
    assert forall|k: int| 0 <= k < written(m).len() implies !has_char(
        #[trigger] written(m)[k],
        ',',
    ) by {
        assert(writable(m[k].0));
        lemma_written_token(m[k].0, m[k].1);
    }
    lemma_joined_pieces(written(m), ',');
    lemma_remarks(a, m);
}

proof fn lemma_has_a_colon(m: Members)
    requires
        m.len() > 0,
        forall|i: int| 0 <= i < m.len() ==> writable((#[trigger] m[i]).0) && m[i].1 > 0,
    ensures
        has_char(joined(written(m), seq![',']), ':'),
{
    let list = joined(written(m), seq![',']);
    assert(writable(m[0].0));
    lemma_led_by_the_first(written(m));
    lemma_colon_of(m[0].0);
    lemma_first_index(list, ':');
    let at = last_index(m[0].0, ':');
    assert(list[at] == written(m)[0][at] == m[0].0[at]);
}

proof fn lemma_tags(a: Algorithm)
    ensures
        a.tag_text() == tag_of(a),
{
    reveal_strlit("rr");
    reveal_strlit("wrr");
    reveal_strlit("rand");
    reveal_strlit("lc");
    reveal_strlit("lrt");
    reveal_strlit("iphash");
    reveal_strlit("chash");
    assert(a.tag_text() =~= tag_of(a));
}

/// An algorithm is shown by the tag that names it.
pub proof fn law_shown_tags_name_the_algorithm(a: Algorithm)
    ensures
        algorithm_of(a.tag_text()) == Some(a),
        a.tag_text() == tag_of(a),
{
    lemma_tags(a);
    law_tags_name_algorithms(a);
}

// ---------------------------------------------------------------------------
// The ring
// ---------------------------------------------------------------------------

/// The node with a number: the hash of the address with the number behind a hash sign.
#[verifier::opaque]
pub open spec fn node(addr: Seq<char>, k: int, i: usize) -> (u64, usize) {
    (fnv(encode_utf8(addr + "#"@ + decimal(k as nat))), i)
}

proof fn lemma_one_more_node(addr: Seq<char>, i: usize, n: nat)
    requires
        n > 0,
    ensures
        nodes(addr, i, n) == nodes(addr, i, (n - 1) as nat).push(node(addr, n - 1, i)),
{
    reveal(node);
}

proof fn lemma_nodes(addr: Seq<char>, i: usize, n: nat, k: int)
    requires
        0 <= k < n,
    ensures
        nodes(addr, i, n).len() == n,
        nodes(addr, i, n)[k] == node(addr, k, i),
    decreases n,
{
    lemma_one_more_node(addr, i, n);
    if k < n - 1 {
        lemma_nodes(addr, i, (n - 1) as nat, k);
    } else if n > 1 {
        lemma_nodes(addr, i, (n - 1) as nat, 0);
    } else {
        assert(nodes(addr, i, 0).len() == 0);
    }
}

proof fn lemma_all_nodes(m: Members, i: int, k: int)
    requires
        m.len() <= usize::MAX,
        0 <= i < m.len(),
        0 <= k < 160,
    ensures
        all_nodes(m).len() == 160 * m.len(),
        all_nodes(m).contains(node(m[i].0, k, i as usize)),
    decreases m.len(),
{
    let t = m.drop_last();
    let last = (m.len() - 1) as usize;
    let own = nodes(m.last().0, last, 160);
    lemma_nodes(m.last().0, last, 160, k);
    let all = all_nodes(m);
    assert(all == all_nodes(t) + own);
    if t.len() > 0 {
        lemma_all_nodes(t, 0, 0);
    }
    assert(all_nodes(t).len() == 160 * t.len());
    let x = node(m[i].0, k, i as usize);
    if i < t.len() {
        lemma_all_nodes(t, i, k);
        let j = choose|j: int| 0 <= j < all_nodes(t).len() && all_nodes(t)[j] == x;
        assert(all[j] == x);
    } else {
        assert(all[all_nodes(t).len() + k] == own[k]);
    }
}

/// Every server has 160 nodes on the ring, each at the hash of its address with the
/// number of the node behind a hash sign; and there are no other nodes.
pub proof fn law_servers_have_their_nodes(
    p: PoolView,
    name: Seq<char>,
    m: Members,
    health: HealthView,
    pool: PoolConfig,
    i: int,
    k: int,
)
    requires
        is_built(p, name, Algorithm::ConsistentHash, m, health, pool),
        m.len() <= usize::MAX,
        0 <= i < m.len(),
        0 <= k < 160,
    ensures
        p.ring.contains((fnv(encode_utf8(m[i].0 + "#"@ + decimal(k as nat))), i as usize)),
        p.ring.len() == 160 * m.len(),
        p.servers[i].addr == m[i].0,
        p.servers.len() == m.len(),
{
    broadcast use vstd::seq_lib::group_to_multiset_ensures;

    lemma_all_nodes(m, i, k);
    reveal(node);
    let x = node(m[i].0, k, i as usize);
    assert(all_nodes(m).to_multiset().count(x) > 0);
    assert(p.ring.to_multiset().count(x) > 0);
    assert(p.ring.len() == p.ring.to_multiset().len());
    assert(all_nodes(m).len() == all_nodes(m).to_multiset().len());
}

/// A pool that was just made has the servers that were declared, none of them used, and
/// each serving.
pub proof fn law_new_pools_are_unused(
    p: PoolView,
    name: Seq<char>,
    a: Algorithm,
    m: Members,
    health: HealthView,
    pool: PoolConfig,
    i: int,
)
    requires
        is_built(p, name, a, m, health, pool),
        0 <= i < m.len(),
    ensures
        p.name == name && p.algorithm == a && p.cursor == 0 && p.health == health && p.pool == pool,
        p.servers.len() == m.len(),
        p.servers[i].addr == m[i].0,
        p.servers[i].inflight == 0,
        p.servers[i].ewma_us == 0,
        crate::balancer::serving(p.servers[i]),
        p.servers[i].breaker.limits.fail_threshold == health.fail_threshold,
        p.servers[i].breaker.limits.success_threshold == health.success_threshold,
{
}

// ---------------------------------------------------------------------------
// Routes
// ---------------------------------------------------------------------------

/// `NAME=SPEC` declares a pool; a name is not empty and not used twice.
pub proof fn law_pools_are_declared_by_name(name: Seq<char>, spec: Seq<char>, names: Seq<Seq<char>>)
    requires
        !has_char(name, '='),
    ensures
        declaration(name + seq!['='] + spec, names) is Ok <==> name.len() > 0 && !names.contains(
            name,
        ),
        declaration(name + seq!['='] + spec, names) matches Ok(d) ==> d == (name, spec),
        declaration(name, names) is Err,
{
    lemma_cut_at(name, spec, '=');
    lemma_first_index(name, '=');
}

/// The target of a route is the declared pool of that name, or else a server at that
/// address; anything else is refused.
pub proof fn law_targets_are_bound(target: Seq<char>, names: Seq<Seq<char>>, i: int)
    ensures
        0 <= i < names.len() && names[i] == target && (forall|k: int| 0 <= k < i ==> names[k] != target)
            ==> bound(target, names) == Ok::<Bound, Seq<char>>(Bound::Pool(i)),
        !names.contains(target) && host_port(target) ==> bound(target, names) == Ok::<
            Bound,
            Seq<char>,
        >(Bound::Server(target)),
        !names.contains(target) && !host_port(target) ==> bound(target, names) is Err,
{
    lemma_first_index(names, target);
    if 0 <= i < names.len() && names[i] == target && (forall|k: int|
        0 <= k < i ==> names[k] != target) {
        lemma_first_index_is(names, target, i);
    }
    if first_index(names, target) < names.len() {
        assert(names.contains(target));
    }
}

/// Without routes everything goes to the default server, and a single bare address takes
/// everything.
pub proof fn law_a_bare_address_takes_everything(
    addr: Seq<char>,
    names: Seq<Seq<char>>,
    forwarded: bool,
    request_id: bool,
    access_log: bool,
    t: Seq<(Seq<char>, Option<Number>)>,
)
    requires
        !has_char(addr, '='),
    ensures
        routes_plan(seq![addr], names, forwarded, request_id, access_log, t) == Ok::<
            RoutesPlan,
            Seq<char>,
        >(RoutesPlan::All(addr)),
        routes_plan(Seq::empty(), names, forwarded, request_id, access_log, t) == Ok::<
            RoutesPlan,
            Seq<char>,
        >(RoutesPlan::All("127.0.0.1:9000"@)),
{
}

/// The options of a route that rewrite, and those of its layers; there are no others.
pub proof fn law_options_have_their_family(k: Seq<char>)
    ensures
        is_l5_key(k) <==> k == "strip"@ || k == "prefix"@ || k == "host"@ || k == "set-header"@ || k
            == "set-resp-header"@ || k == "remove-header"@ || k == "remove-resp-header"@,
        is_l6_key(k) <==> k == "auth"@ || k == "realm"@ || k == "require-user"@ || k == "rate"@ || k
            == "burst"@ || k == "waf"@ || k == "waf-threshold"@,
{
}

/// An option goes to its family as it stands, and an unknown one is refused.
pub proof fn law_options_are_sorted_out(key: Seq<char>, value: Seq<char>)
    requires
        key.len() > 0,
        !has_char(key, '='),
        !has_char(key + seq!['='] + value, ';'),
        trimmed(key) == key,
        value.len() > 0,
        trimmed(value) == value,
    ensures
        ({
            let opt = key + seq!['='] + value;
            &&& is_l5_key(key) ==> families(opt) == Ok::<(Seq<char>, Seq<char>), Seq<char>>(
                (opt, Seq::empty()),
            )
            &&& is_l6_key(key) && !is_l5_key(key) ==> families(opt) == Ok::<
                (Seq<char>, Seq<char>),
                Seq<char>,
            >((Seq::empty(), opt))
            &&& !is_l5_key(key) && !is_l6_key(key) ==> families(opt) is Err
        }),
{
    let opt = key + seq!['='] + value;
    lemma_trimmed_ends(key);
    lemma_trimmed_ends(value);
    assert(opt[0] == key[0]);
    assert(opt.last() == value.last());
    lemma_nothing_to_trim(opt);
    lemma_first_index(opt, ';');
    let p = pieces(opt, ';');
    assert(p =~= seq![opt]);
    assert(p.drop_first() =~= Seq::empty());
    lemma_cut_at(key, value, '=');
    let none = Seq::<Seq<char>>::empty();
    assert(none.push(opt) =~= seq![opt]);
    assert(sorted_out(p.drop_first(), none.push(opt), none) == Ok::<
        (Seq<Seq<char>>, Seq<Seq<char>>),
        Seq<char>,
    >((none.push(opt), none)));
    assert(sorted_out(p.drop_first(), none, none.push(opt)) == Ok::<
        (Seq<Seq<char>>, Seq<Seq<char>>),
        Seq<char>,
    >((none, none.push(opt))));
}

/// Routes that name one pool share it: what one of them does to it, the other sees; a
/// route with a server of its own shares it with none.
pub proof fn law_routes_share_declared_pools(t: TableView, i: int, j: int, p: PoolView)
    requires
        0 <= i < t.routes.len(),
        0 <= j < t.routes.len(),
        t.routes[i].upstream matches TargetView::Declared(k) ==> k < t.pools.len(),
        t.routes[j].upstream matches TargetView::Declared(k) ==> k < t.pools.len(),
    ensures
        pool_at(with_pool(t, i, p), i) == p,
        t.routes[i].upstream is Declared && t.routes[i].upstream == t.routes[j].upstream ==> pool_at(
            with_pool(t, i, p),
            j,
        ) == p,
        i != j && (t.routes[i].upstream is Own || t.routes[j].upstream is Own
            || t.routes[i].upstream != t.routes[j].upstream) ==> pool_at(with_pool(t, i, p), j)
            == pool_at(t, j),
{
}

} // verus!
