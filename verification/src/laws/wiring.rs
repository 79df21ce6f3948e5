//! How the parts are put together.

use vstd::prelude::*;
use vstd::utf8::encode_utf8;

use super::pools::{law_pools_are_read_back, lemma_digits_hold, tag_of, writable, written};
use super::{first_named, lemma_nothing_to_trim, lemma_trimmed_ends};
use crate::admin::{answer_to, page_bytes, page_for, PageView};
use crate::balancer::breaker::{change, due, failed, Breaker, BreakerState, HealthView};
use crate::balancer::spec::Members;
use crate::balancer::{shifted, Algorithm, Lease, PoolConfig, ServerView, Upstream};
use crate::cache::store::{at, restamped_in, CacheView};
use crate::cache::KeyView;
use crate::cli::{address_parts, are_planned, declarations, firsts_of, is_declared, RoutesPlan};
use crate::config::{blank_draft, lowered, read_from, step, ConfigView, DraftView};
use crate::health::asked_among;
use crate::http::{
    fields_text, law_removed_field_is_gone, law_written_response_reads_back, lemma_lookup_push,
    lookup, plain_field, request_of, response_framing, response_of, response_text, without,
    BodyFraming, RequestView, ResponseView, Version,
};
use crate::ip::IpAddr;
use crate::middleware::options::{number_in, numbers_in};
use crate::middleware::ratelimit::{bucket_in, with_bucket, Bucket};
use crate::middleware::{Passage, Rejection};
use crate::proxy::exchange::{
    admits, indicted, is_gate, reading_of, Admission, Asked, Client, Gate, GateView,
};
use crate::proxy::{rejection_head, repeatable};
use crate::rewrite::RewriteRules;
use crate::router::{accepts, pool_at, Route, TableView, TargetView};
use crate::security::{address_part, why_refused, Refusal};
use crate::text::{
    cut, decimal, has_char, is_digit, joined, lemma_decimal, lemma_first_index,
    lemma_first_index_is, lemma_joined_pieces, lines, lower, same_fold, trimmed,
};
use crate::time::{Duration, Instant};

verus! {

// ---------------------------------------------------------------------------
// The admin plane
// ---------------------------------------------------------------------------

/// A page is a response that says how long its body is and that the connection closes,
/// and then the body.
pub proof fn law_pages_are_responses(p: PageView)
    requires
        100 <= p.status <= 599,
        !has_char(p.reason, '\n'),
        !has_char(p.content_type, '\n'),
        trimmed(p.content_type) == p.content_type,
    ensures
        ({
            let h = ResponseView {
                version: Version::Http11,
                status: p.status as u16,
                reason: p.reason,
                headers: seq![
                    ("Content-Type"@, p.content_type),
                    ("Content-Length"@, decimal(encode_utf8(p.body).len())),
                    ("Connection"@, "close"@),
                ],
            };
            let head = encode_utf8(response_text(h));
            &&& page_bytes(p) == head + encode_utf8(p.body)
            &&& response_of(head) == Ok::<ResponseView, Seq<char>>(h)
        }),
{
    let n = decimal(encode_utf8(p.body).len());
    lemma_digits_hold(encode_utf8(p.body).len(), '\n');
    lemma_decimal(encode_utf8(p.body).len());
    assert(is_digit(n[0]) && is_digit(n.last()));
    lemma_nothing_to_trim(n);
    let a = ("Content-Type"@, p.content_type);
    let b = ("Content-Length"@, n);
    let c = ("Connection"@, "close"@);
    let h = ResponseView {
        version: Version::Http11,
        status: p.status as u16,
        reason: p.reason,
        headers: seq![a, b, c],
    };
    reveal_strlit("Content-Type");
    reveal_strlit("Content-Length");
    reveal_strlit("Connection");
    reveal_strlit("close");
    reveal_strlit(": ");
    reveal_strlit(" ");
    reveal_strlit("\r\n");
    reveal_strlit("HTTP/1.1");
    reveal_strlit("HTTP/1.1 ");
    reveal_strlit("\r\nContent-Type: ");
    reveal_strlit("\r\nContent-Length: ");
    reveal_strlit("\r\nConnection: close\r\n\r\n");
    lemma_first_index_is("Content-Type"@, ' ', 12);
    lemma_first_index_is("Content-Type"@, ':', 12);
    lemma_first_index_is("Content-Type"@, '\n', 12);
    lemma_first_index_is("Content-Length"@, ' ', 14);
    lemma_first_index_is("Content-Length"@, ':', 14);
    lemma_first_index_is("Content-Length"@, '\n', 14);
    lemma_first_index_is("Connection"@, ' ', 10);
    lemma_first_index_is("Connection"@, ':', 10);
    lemma_first_index_is("Connection"@, '\n', 10);
    lemma_first_index_is("close"@, '\n', 5);
    lemma_nothing_to_trim("close"@);
    assert(plain_field(a) && plain_field(b) && plain_field(c));
    assert forall|i: int| 0 <= i < h.headers.len() implies plain_field(#[trigger] h.headers[i]) by {
        assert(i == 0 || i == 1 || i == 2);
    }
    law_written_response_reads_back(h);
    assert(h.headers.drop_last() =~= seq![a, b]);
    assert(seq![a, b].drop_last() =~= seq![a]);
    assert(seq![a].drop_last() =~= Seq::empty());
    let one = "Content-Type"@ + ": "@ + p.content_type + "\r\n"@;
    let two = "Content-Length"@ + ": "@ + n + "\r\n"@;
    let three = "Connection"@ + ": "@ + "close"@ + "\r\n"@;
    assert(fields_text(Seq::empty()) =~= Seq::empty());
    assert(fields_text(seq![a]) =~= one);
    assert(fields_text(seq![a, b]) =~= one + two);
    assert(fields_text(h.headers) =~= one + two + three);
    assert("HTTP/1.1 "@ =~= "HTTP/1.1"@ + " "@);
    assert("\r\nContent-Type: "@ =~= "\r\n"@ + "Content-Type"@ + ": "@);
    assert("\r\nContent-Length: "@ =~= "\r\n"@ + "Content-Length"@ + ": "@);
    assert("\r\nConnection: close\r\n\r\n"@ =~= "\r\n"@ + three + "\r\n"@);
    let text = "HTTP/1.1 "@ + decimal(p.status) + " "@ + p.reason + "\r\nContent-Type: "@
        + p.content_type + "\r\nContent-Length: "@ + n + "\r\nConnection: close\r\n\r\n"@;
    assert(response_text(h) =~= text);
}

/// A request is answered with its page, and what is no request is not answered.
pub proof fn law_requests_get_their_page(
    head: Seq<u8>,
    req: RequestView,
    metrics: Seq<char>,
    health: Seq<char>,
)
    ensures
        request_of(head) == Ok::<RequestView, Seq<char>>(req) ==> answer_to(head, metrics, health)
            == Ok::<Seq<u8>, Seq<char>>(page_bytes(page_for(req, metrics, health))),
        request_of(head) is Err ==> answer_to(head, metrics, health) is Err,
{
}

// ---------------------------------------------------------------------------
// Breakers and probes
// ---------------------------------------------------------------------------

/// A change of a breaker is told with both states, and only where they differ.
pub proof fn law_changes_are_told(was: Breaker, now: Breaker)
    ensures
        change(was, now) is Some <==> was.state != now.state,
        change(was, now) matches Some((a, b)) ==> a == was.state && b == now.state,
{
}

/// To ask which servers are due changes nothing but the breakers of those that get a
/// trial, which is then under way.
pub proof fn law_asking_starts_trials(v: Seq<ServerView>, n: int, now: Instant, i: int)
    requires
        0 <= i < n <= v.len(),
    ensures
        asked_among(v, n, now).len() == v.len(),
        asked_among(v, n, now)[i].addr == v[i].addr,
        asked_among(v, n, now)[i].inflight == v[i].inflight,
        asked_among(v, n, now)[i].ewma_us == v[i].ewma_us,
        v[i].breaker.state == BreakerState::Closed ==> asked_among(v, n, now)[i] == v[i],
        v[i].breaker.state == BreakerState::Open && now.nanos < v[i].breaker.open_until
            ==> asked_among(v, n, now)[i] == v[i],
        v[i].breaker.state == BreakerState::Open && now.nanos >= v[i].breaker.open_until ==> ({
            let b = asked_among(v, n, now)[i].breaker;
            b.state == BreakerState::HalfOpen && b.trial && b.successes == 0
        }),
        v[i].breaker.state == BreakerState::HalfOpen ==> asked_among(v, n, now)[i].breaker.trial,
{
}

/// The random numbers come of shifts by 13, 7 and 17 bits: two roots mix into the mixture
/// of their numbers, and a small root shows every shift.
pub proof fn law_chance_is_mixed(x: u64, y: u64)
    ensures
        shifted(x ^ y) == shifted(x) ^ shifted(y),
        x < 128 ==> shifted(x) == x ^ (x << 6) ^ (x << 13) ^ (x << 17) ^ (x << 23) ^ (x << 30),
{
    assert({
        let z = x ^ y;
        let az = z ^ (z << 13);
        let bz = az ^ (az >> 7);
        let ax = x ^ (x << 13);
        let bx = ax ^ (ax >> 7);
        let ay = y ^ (y << 13);
        let by = ay ^ (ay >> 7);
        (bz ^ (bz << 17)) == (bx ^ (bx << 17)) ^ (by ^ (by << 17))
    }) by (bit_vector);
    assert(x < 128 ==> ({
        let a = x ^ (x << 13);
        let b = a ^ (a >> 7);
        (b ^ (b << 17)) == x ^ (x << 6) ^ (x << 13) ^ (x << 17) ^ (x << 23) ^ (x << 30)
    })) by (bit_vector);
}

// ---------------------------------------------------------------------------
// Exchanges
// ---------------------------------------------------------------------------

/// A server that is released as a failure has one request less in flight, and its
/// breaker has one failure more; every other server stays as it is.
pub proof fn law_failures_are_blamed(t: TableView, route: usize, lease: Lease, now: Instant, i: int)
    requires
        route < t.routes.len(),
        t.routes[route as int].upstream matches TargetView::Declared(k) ==> k < t.pools.len(),
        lease.server < pool_at(t, route as int).servers.len(),
        0 <= i < pool_at(t, route as int).servers.len(),
    ensures
        ({
            let was = pool_at(t, route as int).servers;
            let is = pool_at(indicted(t, route, lease, now), route as int).servers;
            &&& is.len() == was.len()
            &&& i != lease.server ==> is[i] == was[i]
            &&& is[lease.server as int].breaker == failed(was[lease.server as int].breaker, now)
            &&& was[lease.server as int].inflight > 0 ==> is[lease.server as int].inflight
                == was[lease.server as int].inflight - 1
        }),
{
}

/// A response is read exactly where its head parses and its framing is clear.
pub proof fn law_responses_are_read(method: Seq<char>, bytes: Seq<u8>, r: ResponseView, f: BodyFraming)
    ensures
        reading_of(method, bytes) == Ok::<(ResponseView, BodyFraming), Seq<char>>((r, f)) <==> (
        response_of(bytes) == Ok::<ResponseView, Seq<char>>(r) && response_framing(
            method,
            r.status,
            r.headers,
        ) == Ok::<BodyFraming, Seq<char>>(f)),
{
}

/// A request that goes on keeps its head, and its host is that of the first Host field.
pub proof fn law_the_host_is_read(
    a: Asked,
    req: RequestView,
    framing: BodyFraming,
    keep: bool,
    route: int,
    i: int,
)
    requires
        is_gate(Gate::Pass(a), GateView::Pass { req, framing, keep, route }),
        first_named(req.headers, "Host"@, i),
    ensures
        crate::text::maybe(a.host) == Some(req.headers[i].1),
        a.req@ == req && a.framing == framing && a.keep == keep && a.route == route,
{
    reveal_strlit("Host");
    reveal_strlit("host");
    assert(lower("Host"@) =~= lower("host"@));
    assert(first_named(req.headers, "host"@, i));
    super::law_a_lookup_gives_the_first_field(req.headers, "host"@, i);
}

/// A request that the layers let through is sent on, and has not been tried yet; one that
/// a layer refused is not sent, and gets the answer of that layer.
pub proof fn law_layers_decide<M>(
    client: Client,
    a: Asked,
    rules: RewriteRules,
    now: Passage<M>,
    res: Result<(), (usize, Rejection)>,
    r: Admission,
)
    requires
        admits(client, a, rules, now, res, r),
    ensures
        res is Ok <==> r is Forward,
        r matches Admission::Forward(f) ==> f.tries == 0 && f.route == a.route && f.method@
            == a.req@.method && f.framing == a.framing && f.keep == a.keep && (f.retryable
            <==> repeatable(f.method@)) && f.ctx == now.ctx,
        r matches Admission::Drain(t) ==> res == Err::<(), (usize, Rejection)>(
            (t.entered, t.rejection),
        ) && t.route == a.route && t.framing == a.framing && t.keep == a.keep && t.ctx == now.ctx,
{
}

/// A refusal keeps its status and its other fields, and is plain text.
pub proof fn law_refusals_keep_their_fields(
    resp: ResponseView,
    body: Seq<char>,
    keep: bool,
    name: Seq<char>,
)
    requires
        !same_fold(name, "Content-Length"@),
        !same_fold(name, "Transfer-Encoding"@),
        !same_fold(name, "Connection"@),
    ensures
        rejection_head(resp, body, keep).status == resp.status,
        rejection_head(resp, body, keep).reason == resp.reason,
        rejection_head(resp, body, keep).version == Version::Http11,
        !same_fold(name, "Content-Type"@) ==> lookup(
            rejection_head(resp, body, keep).headers,
            name,
        ) == lookup(resp.headers, name),
        same_fold(name, "Content-Type"@) && lookup(resp.headers, name) is None ==> lookup(
            rejection_head(resp, body, keep).headers,
            name,
        ) == Some("text/plain"@),
{
    reveal_strlit("Content-Length");
    reveal_strlit("content-length");
    reveal_strlit("Transfer-Encoding");
    reveal_strlit("transfer-encoding");
    reveal_strlit("Connection");
    reveal_strlit("connection");
    assert(lower("Content-Length"@) =~= lower("content-length"@));
    assert(lower("Transfer-Encoding"@) =~= lower("transfer-encoding"@));
    assert(lower("Connection"@) =~= lower("connection"@));
    let a = without(resp.headers, "content-length"@);
    let b = without(a, "transfer-encoding"@);
    let c = without(b, "connection"@);
    law_removed_field_is_gone(resp.headers, "content-length"@, name);
    law_removed_field_is_gone(a, "transfer-encoding"@, name);
    law_removed_field_is_gone(b, "connection"@, name);
    let x = ("Content-Type"@, "text/plain"@);
    let y = ("Content-Length"@, decimal(encode_utf8(body).len()));
    let z = ("Connection"@, crate::proxy::persistence(keep));
    lemma_lookup_push(c, x, name);
    lemma_lookup_push(c.push(x), y, name);
    lemma_lookup_push(c.push(x).push(y), z, name);
}

/// The two limits on connections have their own words.
pub proof fn law_limits_have_their_words()
    ensures
        why_refused(Refusal::GlobalLimit) == "global connection limit"@,
        why_refused(Refusal::PerIpLimit) == "per-IP connection limit"@,
{
}

// ---------------------------------------------------------------------------
// Tables
// ---------------------------------------------------------------------------

/// A bucket that is put into a part is found there again, and every other stays.
pub proof fn law_buckets_are_found_again(
    v: Seq<(IpAddr, Bucket)>,
    ip: IpAddr,
    b: Bucket,
    other: IpAddr,
)
    ensures
        bucket_in(with_bucket(v, ip, b), ip) == Some(b),
        other != ip ==> bucket_in(with_bucket(v, ip, b), other) == bucket_in(v, other),
{
    if bucket_in(v, ip) is Some {
        lemma_bucket_replaced(v, ip, b, other);
    } else {
        lemma_bucket_added(v, ip, b, ip);
        lemma_bucket_added(v, ip, b, other);
    }
}

spec fn replaced_in(v: Seq<(IpAddr, Bucket)>, ip: IpAddr, b: Bucket) -> Seq<(IpAddr, Bucket)> {
    Seq::new(
        v.len(),
        |i: int|
            if v[i].0 == ip {
                (ip, b)
            } else {
                v[i]
            },
    )
}

proof fn lemma_bucket_replaced(v: Seq<(IpAddr, Bucket)>, ip: IpAddr, b: Bucket, other: IpAddr)
    ensures
        bucket_in(v, ip) is Some ==> bucket_in(replaced_in(v, ip, b), ip) == Some(b),
        other != ip ==> bucket_in(replaced_in(v, ip, b), other) == bucket_in(v, other),
        bucket_in(v, ip) is Some ==> with_bucket(v, ip, b) == replaced_in(v, ip, b),
    decreases v.len(),
{
    let w = replaced_in(v, ip, b);
    if v.len() > 0 {
        lemma_bucket_replaced(v.drop_first(), ip, b, other);
        assert(w.drop_first() =~= replaced_in(v.drop_first(), ip, b));
        assert(w[0] == if v[0].0 == ip { (ip, b) } else { v[0] });
    }
    if bucket_in(v, ip) is Some {
        assert(with_bucket(v, ip, b) =~= w);
    }
}

proof fn lemma_bucket_added(v: Seq<(IpAddr, Bucket)>, ip: IpAddr, b: Bucket, other: IpAddr)
    ensures
        bucket_in(v.push((ip, b)), other) == match bucket_in(v, other) {
            Some(x) => Some(x),
            None => if other == ip {
                Some(b)
            } else {
                None
            },
        },
    decreases v.len(),
{
    let w = v.push((ip, b));
    if v.len() > 0 {
        lemma_bucket_added(v.drop_first(), ip, b, other);
        assert(w.drop_first() =~= v.drop_first().push((ip, b)));
        assert(w[0] == v[0]);
    } else {
        assert(w[0] == (ip, b));
        assert(w.drop_first() =~= Seq::empty());
        assert(bucket_in(w.drop_first(), other) is None);
    }
}

/// A revalidation is counted once, where there was something to revalidate, and nothing
/// else is.
pub proof fn law_revalidations_are_counted(c: CacheView, k: KeyView, ttl: Duration, now: Instant)
    ensures
        at(c, k) is None ==> restamped_in(c, k, ttl, now) == c,
        at(c, k) is Some ==> ({
            let s = restamped_in(c, k, ttl, now).stats;
            &&& c.stats.revalidated < u64::MAX ==> s.revalidated == c.stats.revalidated + 1
            &&& s.hits == c.stats.hits && s.misses == c.stats.misses && s.stored == c.stats.stored
            &&& s.evicted == c.stats.evicted && s.invalidated == c.stats.invalidated
        }),
{
}

// ---------------------------------------------------------------------------
// Settings
// ---------------------------------------------------------------------------

/// A list of blocks names its addresses, each before its slash.
pub proof fn law_lists_name_their_addresses(args: Seq<Seq<char>>, v: Seq<Seq<char>>)
    requires
        v.len() > 0,
        forall|i: int| 0 <= i < v.len() ==> !has_char(#[trigger] v[i], ','),
    ensures
        address_parts(Seq::empty()).len() == 0,
        address_parts(args.push(joined(v, seq![',']))) == address_parts(args) + Seq::new(
            v.len(),
            |i: int| address_part(v[i]),
        ),
{
    lemma_joined_pieces(v, ',');
    let a = args.push(joined(v, seq![',']));
    assert(a.drop_last() =~= args);
    assert(a.last() == joined(v, seq![',']));
}

/// The numbers of a route's options are those of its rate, before the slash, and of its
/// burst.
pub proof fn law_rates_and_bursts_hold_numbers(key: Seq<char>, n: Seq<char>, unit: Seq<char>)
    requires
        n.len() > 0,
        trimmed(n) == n,
        !has_char(n, '/'),
        unit.len() > 0,
        trimmed(unit) == unit,
        key.len() > 0,
        trimmed(key) == key,
        !has_char(key, '='),
    ensures
        key == "rate"@ ==> number_in(key + seq!['='] + (n + seq!['/'] + unit)) == Some(n),
        key == "rate"@ ==> number_in(key + seq!['='] + n) is None,
        key == "burst"@ ==> number_in(key + seq!['='] + n) == Some(n),
        key != "rate"@ && key != "burst"@ ==> number_in(key + seq!['='] + n) is None,
{
    reveal_strlit("rate");
    reveal_strlit("burst");
    assert("rate"@.len() == 4 && "burst"@.len() == 5);
    lemma_trimmed_ends(n);
    lemma_trimmed_ends(unit);
    lemma_trimmed_ends(key);
    let both = n + seq!['/'] + unit;
    lemma_option_cut(key, n);
    assert(both[0] == n[0]);
    assert(both.last() == unit.last());
    lemma_nothing_to_trim(both);
    lemma_option_cut(key, both);
    lemma_first_index(n, '/');
    assert forall|k: int| 0 <= k < n.len() implies both[k] != '/' by {
        assert(both[k] == n[k]);
    }
    lemma_first_index_is(both, '/', n.len() as int);
    assert(both.take(n.len() as int) =~= n);
}

proof fn lemma_option_cut(key: Seq<char>, v: Seq<char>)
    requires
        key.len() > 0,
        trimmed(key) == key,
        !has_char(key, '='),
        v.len() > 0,
        trimmed(v) == v,
    ensures
        cut(trimmed(key + seq!['='] + v), '=') == Some((key, v)),
{
    let s = key + seq!['='] + v;
    lemma_trimmed_ends(key);
    lemma_trimmed_ends(v);
    assert(s[0] == key[0]);
    assert(s.last() == v.last());
    lemma_nothing_to_trim(s);
    lemma_first_index(key, '=');
    assert forall|k: int| 0 <= k < key.len() implies s[k] != '=' by {
        assert(s[k] == key[k]);
    }
    lemma_first_index_is(s, '=', key.len() as int);
    assert(s.take(key.len() as int) =~= key);
    assert(s.skip(key.len() as int + 1) =~= v);
}

/// Options are searched for numbers in order.
pub proof fn law_numbers_are_listed_in_order(segs: Seq<Seq<char>>, rest: Seq<Seq<char>>)
    ensures
        numbers_in(segs + rest) == numbers_in(segs) + numbers_in(rest),
        segs.len() == 1 && number_in(segs[0]) is Some ==> numbers_in(segs) == seq![
            number_in(segs[0])->0,
        ],
        segs.len() == 1 && number_in(segs[0]) is None ==> numbers_in(segs).len() == 0,
    decreases segs.len(),
{
    let all = segs + rest;
    if segs.len() > 0 {
        law_numbers_are_listed_in_order(segs.drop_first(), rest);
        assert(all.drop_first() =~= segs.drop_first() + rest);
        assert(all[0] == segs[0]);
        assert(numbers_in(all) =~= numbers_in(segs) + numbers_in(rest));
        if segs.len() == 1 {
            assert(segs.drop_first() =~= Seq::empty());
            assert(numbers_in(segs.drop_first()) =~= Seq::empty());
        }
    } else {
        assert(all =~= rest);
        assert(numbers_in(all) =~= numbers_in(segs) + numbers_in(rest));
    }
}

/// Every accepted declaration is one pool, in order: what stands before its first equals
/// sign is the name, and what follows is how it is made.
pub proof fn law_each_declaration_is_a_pool(
    decls: Seq<Seq<char>>,
    had: Seq<(Seq<char>, Seq<char>)>,
    hc: HealthView,
    v: Seq<(Seq<char>, Seq<char>)>,
    i: int,
)
    requires
        declarations(decls, had, hc) == Ok::<Seq<(Seq<char>, Seq<char>)>, Seq<char>>(v),
    ensures
        v.len() == had.len() + decls.len(),
        v.take(had.len() as int) == had,
        0 <= i < decls.len() ==> decls[i] == v[had.len() + i].0 + seq!['='] + v[had.len() + i].1,
        0 <= i < decls.len() ==> !has_char(v[had.len() + i].0, '='),
    decreases decls.len(),
{
    if decls.len() > 0 {
        let d = decls[0];
        let x = crate::cli::declaration(d, firsts_of(had))->Ok_0;
        let had2 = had.push(x);
        law_each_declaration_is_a_pool(decls.drop_first(), had2, hc, v, i - 1);
        assert(v.take(had2.len() as int)[had.len() as int] == x);
        assert(v[had.len() as int] == x);
        assert(v.take(had.len() as int) =~= had) by {
            assert forall|k: int| 0 <= k < had.len() implies v[k] == had[k] by {
                assert(v.take(had2.len() as int)[k] == had2[k]);
            }
        }
        lemma_first_index(d, '=');
        let at = crate::text::first_index(d, '=');
        assert(d =~= d.take(at) + seq!['='] + d.skip(at + 1));
        if i == 0 {
            assert forall|k: int| 0 <= k < x.0.len() implies x.0[k] != '=' by {
                assert(x.0[k] == d[k]);
            }
            lemma_first_index_is(x.0, '=', x.0.len() as int);
        } else if 0 < i < decls.len() {
            assert(decls.drop_first()[i - 1] == decls[i]);
        }
    } else {
        assert(v.take(had.len() as int) =~= had);
    }
}

/// A declared pool has the algorithm, the servers and the weights that were written, and
/// the settings of the proxy; only the path of its probes can be its own.
pub proof fn law_declared_pools_are_as_written(
    u: Upstream,
    name: Seq<char>,
    a: Algorithm,
    m: Members,
    hc: HealthView,
    pool: PoolConfig,
    i: int,
)
    requires
        0 <= i < m.len(),
        forall|k: int| 0 <= k < m.len() ==> writable((#[trigger] m[k]).0) && m[k].1 > 0,
        !has_char(tag_of(a) + seq![':'] + joined(written(m), seq![',']), ';'),
        is_declared(u, name, tag_of(a) + seq![':'] + joined(written(m), seq![',']), hc, pool),
    ensures
        u@.name == name,
        u@.algorithm == a,
        u@.servers.len() == m.len(),
        u@.servers[i].addr == m[i].0,
        u@.health == hc,
        u@.pool == pool,
{
    let list = tag_of(a) + seq![':'] + joined(written(m), seq![',']);
    law_pools_are_read_back(name, a, m);
    lemma_first_index(list, ';');
}

/// A bare address takes every request, in whatever method, to whatever host and path, to
/// one server at that address.
pub proof fn law_a_catch_all_takes_everything(
    routes: Seq<Route>,
    addr: Seq<char>,
    forwarded: bool,
    request_id: bool,
    access_log: bool,
    method: Seq<char>,
    host: Option<Seq<char>>,
    path: Seq<char>,
)
    requires
        are_planned(routes, RoutesPlan::All(addr), forwarded, request_id, access_log),
    ensures
        routes.len() == 1,
        accepts(routes[0]@, method, host, path),
        routes[0].upstream is Own,
        routes[0].upstream->Own_0@.servers.len() == 1,
        routes[0].upstream->Own_0@.servers[0].addr == addr,
        routes[0]@.rules.forwarded == forwarded,
        routes[0]@.chain.request_id == request_id,
        routes[0]@.chain.access_log == access_log,
{
}

/// A file is read line by line, each line on top of those before it; then its flags come
/// first, its pools next and its routes last. A list of routes has to end.
pub proof fn law_files_are_read_line_by_line(text: Seq<char>, ds: Seq<DraftView>)
    requires
        ds.len() == lines(text).len() + 1,
        ds[0] == blank_draft(),
        forall|i: int|
            0 <= i < lines(text).len() ==> #[trigger] step(ds[i], i + 1, lines(text)[i]) == Ok::<
                DraftView,
                Seq<char>,
            >(ds[i + 1]),
    ensures
        ds.last().in_array ==> lowered(text) is Err,
        !ds.last().in_array ==> lowered(text) == Ok::<ConfigView, Seq<char>>(
            ConfigView {
                listen: ds.last().listen,
                args: ds.last().flags + ds.last().upstreams + ds.last().routes,
            },
        ),
{
    lemma_read_to_the_end(lines(text), ds, 0);
}

proof fn lemma_read_to_the_end(ls: Seq<Seq<char>>, ds: Seq<DraftView>, at: int)
    requires
        0 <= at <= ls.len(),
        ds.len() == ls.len() + 1,
        forall|i: int|
            0 <= i < ls.len() ==> #[trigger] step(ds[i], i + 1, ls[i]) == Ok::<
                DraftView,
                Seq<char>,
            >(ds[i + 1]),
    ensures
        read_from(ds[at], ls, at) == Ok::<DraftView, Seq<char>>(ds.last()),
    decreases ls.len() - at,
{
    if at < ls.len() {
        lemma_read_to_the_end(ls, ds, at + 1);
        assert(step(ds[at], at + 1, ls[at]) == Ok::<DraftView, Seq<char>>(ds[at + 1]));
    }
}

/// A line that is refused refuses the file.
pub proof fn law_a_refused_line_refuses_the_file(text: Seq<char>, e: Seq<char>)
    requires
        lines(text).len() > 0,
        step(blank_draft(), 1, lines(text)[0]) == Err::<DraftView, Seq<char>>(e),
    ensures
        lowered(text) == Err::<ConfigView, Seq<char>>(e),
{
}

} // verus!
