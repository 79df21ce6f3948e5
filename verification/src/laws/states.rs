//! How things start, what is noted of them, and what is shown.

use vstd::prelude::*;

use super::{
    absent, first_named, law_a_lookup_gives_the_first_field, law_a_lookup_of_nothing_gives_nothing,
};
use crate::balancer::{took_place, turned_out, Lease};
use crate::cache::semantics::validators_of;
use crate::cache::store::{
    at, empty_cache, invalidated, law_invalidation_reaches_every_variant, part, sound, CacheView,
};
use crate::cache::{
    age_of, handed_out, is_fresh_at, restamped, validated, EntryView, InputView, KeyView,
};
use crate::http::Fields;
use crate::logging::{first_level, shown, Level};
use crate::metrics::nothing_counted;
use crate::proxy::conn::{head_in, HeadIn};
use crate::router::{firsts, refers, RouteView, TargetView};
use crate::security::{access_text, address_part, block_text, blocks_text, Cidr};
use crate::text::{
    cut, decimal, has_char, lemma_first_index, lemma_first_index_is, lemma_first_match_is, starts,
    trimmed,
};
use crate::time::{Duration, Instant};

verus! {

// ---------------------------------------------------------------------------
// Exchanges
// ---------------------------------------------------------------------------

/// What is noted on a lease says how the exchange went, and leaves the server.
pub proof fn law_a_lease_says_how_it_went(l: Lease, well: bool)
    ensures
        took_place(l).served,
        took_place(l).outcome == l.outcome,
        turned_out(l, well).outcome == Some(well),
        turned_out(l, well).served == l.served,
        took_place(l).server == l.server && turned_out(l, well).server == l.server,
{
}

/// A head ends at the first blank line, within 16384 bytes; what follows is left. Bytes
/// that hold no end of a head are the start of one as long as one may still come.
pub proof fn law_heads_end_at_the_first_blank_line(x: Seq<u8>, i: int)
    requires
        0 <= i <= x.len(),
        forall|k: int| 0 <= k < i ==> !starts(#[trigger] x.skip(k), seq![13u8, 10, 13, 10]),
        i < x.len() ==> starts(x.skip(i), seq![13u8, 10, 13, 10]),
    ensures
        i < x.len() && i + 4 <= 16_384 ==> head_in(x) == HeadIn::Whole(x.take(i + 4), x.skip(i + 4)),
        i < x.len() && i + 4 > 16_384 ==> head_in(x) is TooLong,
        i == x.len() && x.len() >= 16_384 ==> head_in(x) is TooLong,
        i == x.len() && x.len() < 16_384 ==> head_in(x) is Partial,
{
    lemma_first_match_is(x, seq![13u8, 10, 13, 10], i);
}

/// In the list of pools every pool stands once: with the first route that leads there.
pub proof fn law_every_pool_is_listed_once(v: Seq<RouteView>, n: int, j: int)
    requires
        0 <= n <= v.len() <= usize::MAX,
        0 <= j < n,
    ensures
        firsts(v, n).contains(j as usize) <==> v[j].upstream is Own || !(exists|i: int|
            0 <= i < j && (#[trigger] v[i]).upstream == v[j].upstream),
    decreases n,
{
    let r = firsts(v, n - 1);
    let last = (n - 1) as usize;
    lemma_firsts_are_below(v, n - 1);
    if firsts(v, n) != r {
        assert(firsts(v, n) == r.push(last));
        assert(r.push(last)[r.len() as int] == last);
        assert forall|x: usize| r.contains(x) implies r.push(last).contains(x) by {
            let k = choose|k: int| 0 <= k < r.len() && r[k] == x;
            assert(r.push(last)[k] == x);
        }
        assert forall|x: usize| r.push(last).contains(x) && x != last implies r.contains(x) by {
            let k = choose|k: int| 0 <= k < r.push(last).len() && r.push(last)[k] == x;
            assert(r[k] == x);
        }
    }
    if j < n - 1 {
        law_every_pool_is_listed_once(v, n - 1, j);
    } else {
        match v[j].upstream {
            TargetView::Declared(p) => {
                assert(v[j].upstream == TargetView::Declared(p));
                if firsts(v, n) == r {
                    assert(!r.contains(last));
                }
                assert(refers(v, n - 1, p) <==> exists|i: int|
                    0 <= i < j && (#[trigger] v[i]).upstream == v[j].upstream);
                if !refers(v, n - 1, p) {
                    assert(firsts(v, n) == r.push(last));
                    assert(r.push(last)[r.len() as int] == last);
                    assert(r.push(last).contains(last));
                }
            },
            TargetView::Own(_) => {
                assert(firsts(v, n) == r.push(last));
                assert(r.push(last)[r.len() as int] == last);
                assert(r.push(last).contains(last));
            },
        }
    }
}

proof fn lemma_firsts_are_below(v: Seq<RouteView>, n: int)
    requires
        n <= v.len() <= usize::MAX,
    ensures
        forall|k: int| 0 <= k < firsts(v, n).len() ==> (#[trigger] firsts(v, n)[k]) < n,
    decreases n,
{
    if n > 0 {
        lemma_firsts_are_below(v, n - 1);
        let r = firsts(v, n - 1);
        let all = firsts(v, n);
        assert(all == r || all == r.push((n - 1) as usize));
        assert forall|k: int| 0 <= k < all.len() implies (#[trigger] all[k]) < n by {
            if k < r.len() {
                assert(all[k] == r[k]);
                assert(r[k] < n - 1);
            }
        }
    }
}

// ---------------------------------------------------------------------------
// The cache
// ---------------------------------------------------------------------------

/// The age of an entry is in whole seconds, and 0 where the clock stands before it.
pub proof fn law_ages_are_whole_seconds(e: EntryView, now: Instant)
    ensures
        now.nanos >= e.stored_at.nanos ==> age_of(e, now) * 1_000_000_000 <= now.nanos
            - e.stored_at.nanos < (age_of(e, now) + 1) * 1_000_000_000,
        now.nanos < e.stored_at.nanos ==> age_of(e, now) == 0,
{
}

/// The validators of a response are its first ETag and its first Last-Modified, whatever
/// the case of their names.
pub proof fn law_validators_are_found(h: Fields, i: int, j: int)
    ensures
        first_named(h, "ETag"@, i) ==> validators_of(h).0 == Some(h[i].1),
        absent(h, "ETag"@) ==> validators_of(h).0 is None,
        first_named(h, "Last-Modified"@, j) ==> validators_of(h).1 == Some(h[j].1),
        absent(h, "Last-Modified"@) ==> validators_of(h).1 is None,
{
    reveal_strlit("ETag");
    reveal_strlit("etag");
    reveal_strlit("Last-Modified");
    reveal_strlit("last-modified");
    assert(crate::text::lower("ETag"@) =~= crate::text::lower("etag"@));
    assert(crate::text::lower("Last-Modified"@) =~= crate::text::lower("last-modified"@));
    lemma_other_case(h, "ETag"@, "etag"@, i);
    lemma_other_case(h, "Last-Modified"@, "last-modified"@, j);
}

proof fn lemma_other_case(h: Fields, a: Seq<char>, b: Seq<char>, i: int)
    requires
        crate::text::same_fold(a, b),
    ensures
        first_named(h, a, i) ==> crate::http::lookup(h, b) == Some(h[i].1),
        absent(h, a) ==> crate::http::lookup(h, b) is None,
{
    if first_named(h, a, i) {
        assert(first_named(h, b, i));
        law_a_lookup_gives_the_first_field(h, b, i);
    }
    if absent(h, a) {
        assert(absent(h, b));
        law_a_lookup_of_nothing_gives_nothing(h, b);
    }
}

/// A new cache holds nothing, and counted nothing.
pub proof fn law_a_cache_starts_empty(
    max_bytes: u64,
    max_entries: usize,
    max_body: u64,
    k: KeyView,
)
    requires
        0 <= part(k) < 16,
    ensures
        ({
            let c = empty_cache(max_bytes, max_entries, max_body);
            &&& at(c, k) is None
            &&& c.shards.len() == 16
            &&& c.max_body == max_body
            &&& c.stats.hits == 0 && c.stats.misses == 0 && c.stats.stored == 0
            &&& c.stats.evicted == 0 && c.stats.revalidated == 0 && c.stats.invalidated == 0
        }),
{
}

/// The bounds of a cache are shared out evenly among its sixteen parts, rounded down; no
/// part goes without.
pub proof fn law_bounds_are_shared_out(max_bytes: u64, max_entries: usize, max_body: u64)
    ensures
        ({
            let c = empty_cache(max_bytes, max_entries, max_body);
            &&& max_bytes >= 16 ==> 16 * c.max_bytes <= max_bytes < 16 * (c.max_bytes + 1)
            &&& max_bytes < 16 ==> c.max_bytes == 1
            &&& max_entries >= 16 ==> 16 * c.max_entries <= max_entries < 16 * (c.max_entries + 1)
            &&& max_entries < 16 ==> c.max_entries == 1
        }),
{
}

/// Invalidation reaches the responses to a GET of that target, at that host, by that
/// route, and spares every other.
pub proof fn law_invalidation_spares_the_rest(
    c: CacheView,
    route: usize,
    host: Seq<char>,
    target: Seq<char>,
    k: KeyView,
)
    requires
        sound(c),
    ensures
        k.route != route || k.host != host || k.target != target ==> at(
            invalidated(c, route, host, target),
            k,
        ) == at(c, k),
        k.route == route && k.host == host && k.target == target && k.method == "GET"@ ==> at(
            invalidated(c, route, host, target),
            k,
        ) is None,
{
    let input = InputView {
        route: k.route,
        method: k.method,
        host: k.host,
        target: k.target,
        headers: Seq::empty(),
    };
    law_invalidation_reaches_every_variant(
        c,
        route,
        host,
        target,
        input,
        k,
        Instant { nanos: 0 },
    );
}

/// An entry that was found unchanged keeps what it holds, and lives from now on for the
/// new span.
pub proof fn law_an_unchanged_entry_lives_on(
    e: EntryView,
    ttl: Duration,
    now: Instant,
    later: Instant,
)
    requires
        now.nanos <= later.nanos,
    ensures
        ({
            let r = restamped(e, ttl, now);
            &&& r.status == e.status && r.reason == e.reason && r.headers == e.headers && r.body
                == e.body && r.etag == e.etag && r.last_modified == e.last_modified && r.vary_names
                == e.vary_names
            &&& is_fresh_at(r, later) <==> later.nanos - now.nanos < ttl.nanos
            &&& age_of(r, now) == 0
            &&& r.last_used == now
        }),
{
}

/// A response out of the cache is what was stored, with its age.
pub proof fn law_stored_responses_are_handed_out(e: EntryView, age: u64)
    ensures
        handed_out(e, age).status == e.status,
        handed_out(e, age).reason == e.reason,
        handed_out(e, age).headers == e.headers,
        handed_out(e, age).body == e.body,
        handed_out(e, age).age_secs == age,
{
}

/// An entry can be checked with the origin exactly where it has a validator.
pub proof fn law_entries_with_a_validator_can_be_checked(e: EntryView)
    ensures
        validated(e) <==> e.etag is Some || e.last_modified is Some,
{
}

// ---------------------------------------------------------------------------
// Counters and logs
// ---------------------------------------------------------------------------

/// A new registry has a slot for each name, in order, and every count is 0.
pub proof fn law_nothing_is_counted_at_first(names: Seq<Seq<char>>, i: int, class: int)
    requires
        0 <= i < names.len(),
        0 <= class < 5,
    ensures
        ({
            let m = nothing_counted(names);
            &&& m.upstreams.len() == names.len()
            &&& m.upstreams[i].name == names[i]
            &&& m.upstreams[i].by_class[class] == 0
            &&& m.upstreams[i].connect_errors == 0
            &&& m.upstreams[i].duration.count == 0
            &&& m.upstreams[i].duration.sum_micros == 0
            &&& m.rejected[class] == 0
            &&& m.active_connections == 0
            &&& m.duration_all.count == 0
            &&& m.duration_all.sum_micros == 0
        }),
{
}

/// At first operational events are written, and diagnostics are not.
pub proof fn law_events_are_written_at_first()
    ensures
        shown(first_level(), Level::Error),
        shown(first_level(), Level::Warn),
        shown(first_level(), Level::Info),
        !shown(first_level(), Level::Debug),
{
}

// ---------------------------------------------------------------------------
// Blocks of addresses
// ---------------------------------------------------------------------------

proof fn lemma_cut_at_slash(a: Seq<char>, b: Seq<char>)
    requires
        !has_char(a, '/'),
    ensures
        cut(a + seq!['/'] + b, '/') == Some((a, b)),
{
    let s = a + seq!['/'] + b;
    lemma_first_index(a, '/');
    assert forall|k: int| 0 <= k < a.len() implies s[k] != '/' by {
        assert(s[k] == a[k]);
    }
    lemma_first_index_is(s, '/', a.len() as int);
    assert(s.take(a.len() as int) =~= a);
    assert(s.skip(a.len() as int + 1) =~= b);
}

/// The address of a block stands before the slash, or alone; a block that is shown has
/// its address there, and its bits behind.
pub proof fn law_addresses_stand_before_the_slash(net: Seq<char>, rest: Seq<char>, bits: u8)
    requires
        !has_char(net, '/'),
        trimmed(net) == net,
    ensures
        address_part(net) == net,
        address_part(net + seq!['/'] + rest) == net,
        address_part(block_text(net, bits)) == net,
        cut(block_text(net, bits), '/') == Some((net, decimal(bits as nat))),
{
    lemma_first_index(net, '/');
    lemma_cut_at_slash(net, rest);
    lemma_cut_at_slash(net, decimal(bits as nat));
    reveal_strlit("/");
    assert("/"@ =~= seq!['/']);
}

/// What is shown of the rules of access says what is denied, then what is allowed, and
/// that the rest is denied wherever something is allowed.
pub proof fn law_rules_of_access_are_shown(
    allow: Seq<Cidr>,
    deny: Seq<Cidr>,
    allowed: Seq<Seq<char>>,
    denied: Seq<Seq<char>>,
)
    ensures
        ({
            let t = access_text(allow, deny, allowed, denied);
            &&& allow.len() == 0 && deny.len() == 0 ==> t == "none"@
            &&& deny.len() > 0 ==> starts(t, "deny "@ + blocks_text(deny, denied))
            &&& deny.len() == 0 && allow.len() > 0 ==> starts(
                t,
                "allow "@ + blocks_text(allow, allowed),
            )
            &&& allow.len() > 0 ==> crate::text::ends(
                t,
                "allow "@ + blocks_text(allow, allowed) + " (default-deny)"@,
            )
            &&& allow.len() == 0 && deny.len() > 0 ==> t == "deny "@ + blocks_text(deny, denied)
        }),
{
    let t = access_text(allow, deny, allowed, denied);
    let d = "deny "@ + blocks_text(deny, denied);
    let a = "allow "@ + blocks_text(allow, allowed);
    let tail = " (default-deny)"@;
    assert(t.len() >= 0);
    if deny.len() > 0 {
        assert(t.take(d.len() as int) =~= d);
    } else if allow.len() > 0 {
        assert(t.take(a.len() as int) =~= a);
    }
    if allow.len() > 0 {
        let e = a + tail;
        if deny.len() > 0 {
            reveal_strlit(" then allow ");
            reveal_strlit("allow ");
            assert(t.skip(t.len() - e.len()) =~= e);
        } else {
            assert(t.skip(0) =~= e);
        }
    }
}

} // verus!
