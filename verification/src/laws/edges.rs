//! Where one thing ends and the next begins: lines, quotes, words and terms.

use vstd::prelude::*;

use super::{
    absent, first_named, law_a_lookup_gives_the_first_field, law_a_lookup_of_nothing_gives_nothing,
    lemma_first_or_absent, lemma_nothing_to_trim, lemma_trimmed_ends,
};
use crate::balancer::breaker::HealthView;
use crate::balancer::spec::{is_built, law_weights_are_honoured, turns, Members};
use crate::balancer::{Algorithm, PoolConfig, PoolView};
use crate::cache::store::{index_entry, part, stored_in, CacheView};
use crate::cache::{
    cost_of, dropped, evicted, fits, looked, oldest, place_of, variant, EntryView, Items, KeyView,
};
use crate::cache::semantics::{directed, directives_of, freshness, renewed_ttl};
use crate::config::{
    comment_start, items_from, routes_line, setting_line, step, uncommented, upstream_line,
    DraftView,
};
use crate::http::{lookup, request_line, Fields};
use crate::metrics::seconds_text;
use crate::middleware::auth::{decoded, group, groups, identity_of, sextet, CredentialView};
use crate::middleware::options::burst_of;
use crate::middleware::Number;
use crate::proxy::conn::{at_eof, Phase, Relay};
use crate::proxy::exchange::{gate_of, GateView, HeadEvent};
use crate::rewrite::{rewritten, RulesView};
use crate::router::RouteView;
use crate::security::Limits;
use crate::text::{
    cut, decimal, dropped_end, has_char, joined, lemma_decimal, lemma_first_index,
    lemma_first_index_is, lemma_joined_pieces, lower, number, pieces, same_fold, trimmed,
    zero_padded,
};
use crate::time::{Duration, Instant};
use crate::waf::{decay_of, settled, Offender};

verus! {

// ---------------------------------------------------------------------------
// Requests
// ---------------------------------------------------------------------------

/// A request line is three words with one space between each two, of which the first two
/// are not empty.
pub proof fn law_request_lines_are_three_words(words: Seq<Seq<char>>)
    requires
        words.len() > 0,
        forall|i: int| 0 <= i < words.len() ==> !has_char(#[trigger] words[i], ' '),
    ensures
        ({
            let r = request_line(joined(words, seq![' ']));
            &&& r is Ok <==> words.len() == 3 && words[0].len() > 0 && words[1].len() > 0
            &&& r matches Ok(x) ==> x == (words[0], words[1], words[2])
        }),
{
    lemma_joined_pieces(words, ' ');
}

// ---------------------------------------------------------------------------
// Revalidation
// ---------------------------------------------------------------------------

proof fn lemma_found(h: Fields, name: Seq<char>)
    ensures
        absent(h, name) <==> lookup(h, name) is None,
{
    let i = lemma_first_or_absent(h, name);
    if absent(h, name) {
        law_a_lookup_of_nothing_gives_nothing(h, name);
    } else {
        law_a_lookup_gives_the_first_field(h, name, i);
    }
}

/// A response that says no-cache is checked each time where it has a validator; without
/// one it is not kept, and a renewed entry lives for the default time.
pub proof fn law_no_cache_means_to_check(status: u16, h: Fields, cc: int, default_ttl: Duration)
    requires
        first_named(h, "cache-control"@, cc),
        same_fold(h[cc].1, "no-cache"@),
    ensures
        !absent(h, "etag"@) || !absent(h, "last-modified"@) ==> renewed_ttl(h, default_ttl).nanos
            == 0,
        absent(h, "etag"@) && absent(h, "last-modified"@) ==> renewed_ttl(h, default_ttl)
            == default_ttl,
        absent(h, "etag"@) && absent(h, "last-modified"@) ==> freshness(
            status,
            h,
            default_ttl,
        ).ttl is None,
        (!absent(h, "etag"@) || !absent(h, "last-modified"@)) && (status == 200 || status == 301
            || status == 404) && absent(h, "set-cookie"@) && absent(h, "vary"@) ==> (freshness(
            status,
            h,
            default_ttl,
        ).ttl matches Some(d) && d.nanos == 0),
{
    let v = h[cc].1;
    law_a_lookup_gives_the_first_field(h, "cache-control"@, cc);
    lemma_found(h, "etag"@);
    lemma_found(h, "last-modified"@);
    lemma_found(h, "set-cookie"@);
    lemma_found(h, "vary"@);
    reveal_strlit("no-cache");
    reveal_strlit("no-store");
    reveal_strlit("private");
    reveal_strlit("max-age");
    reveal_strlit("s-maxage");
    let w = "no-cache"@;
    assert(lower(v).len() == 8 && lower(w).len() == 8);
    assert forall|k: int| 0 <= k < 8 implies v[k] != ',' && v[k] != '=' && !crate::text::is_space(
        v[k],
    ) by {
        assert(lower(v)[k] == lower(w)[k]);
        assert(lower(w)[k] == w[k]);
    }
    lemma_first_index_is(v, ',', 8);
    lemma_first_index_is(v, '=', 8);
    assert(pieces(v, ',') =~= seq![v]);
    lemma_nothing_to_trim(v);
    assert(lower("no-store"@)[3] == 's');
    assert(lower(w)[3] == 'c');
    assert(!same_fold(v, "no-store"@));
    assert(lower("private"@).len() == 7);
    assert(!same_fold(v, "private"@));
    let toks = pieces(v, ',');
    assert(directives_of(toks, 0).no_cache == false);
    assert(directives_of(toks, 1) == directed(directives_of(toks, 0), v));
}

// ---------------------------------------------------------------------------
// Strikes
// ---------------------------------------------------------------------------

/// A ban that is over leaves no strikes, and strikes last for ten times the base; a ban
/// that lasts changes nothing.
pub proof fn law_strikes_last_their_time(o: Offender, now: Instant, base: int)
    requires
        0 <= base,
        base * 10 <= crate::time::MAX_NANOS,
        o.last_strike.nanos <= now.nanos,
    ensures
        o.banned_until matches Some(until) ==> (now.nanos < until ==> settled(
            o,
            now,
            decay_of(base),
        ) == o),
        o.banned_until matches Some(until) ==> (now.nanos >= until ==> settled(
            o,
            now,
            decay_of(base),
        ).strikes == 0 && settled(o, now, decay_of(base)).banned_until is None),
        o.banned_until is None ==> settled(o, now, decay_of(base)).strikes == if now.nanos
            - o.last_strike.nanos > 10 * base {
            0
        } else {
            o.strikes
        },
        settled(o, now, decay_of(base)).bans == o.bans,
{
}

// ---------------------------------------------------------------------------
// The file
// ---------------------------------------------------------------------------

proof fn lemma_quoted_hash(inner: Seq<char>, rest: Seq<char>)
    requires
        forall|k: int| 0 <= k < inner.len() ==> #[trigger] inner[k] != '"',
    ensures
        comment_start(inner + seq!['"'] + rest, true) == inner.len() + 1 + comment_start(
            rest,
            false,
        ),
    decreases inner.len(),
{
    let s = inner + seq!['"'] + rest;
    if inner.len() == 0 {
        assert(s[0] == '"');
        assert(s.drop_first() =~= rest);
    } else {
        let t = inner.drop_first();
        assert forall|k: int| 0 <= k < t.len() implies #[trigger] t[k] != '"' by {
            assert(t[k] == inner[k + 1]);
        }
        lemma_quoted_hash(t, rest);
        assert(s[0] == inner[0]);
        assert(s.drop_first() =~= t + seq!['"'] + rest);
    }
}

proof fn lemma_before_a_quote(a: Seq<char>, inner: Seq<char>, rest: Seq<char>)
    requires
        forall|k: int| 0 <= k < a.len() ==> #[trigger] a[k] != '"' && a[k] != '#',
        forall|k: int| 0 <= k < inner.len() ==> #[trigger] inner[k] != '"',
    ensures
        comment_start(a + seq!['"'] + inner + seq!['"'] + rest, false) == a.len() + inner.len() + 2
            + comment_start(rest, false),
    decreases a.len(),
{
    let s = a + seq!['"'] + inner + seq!['"'] + rest;
    if a.len() == 0 {
        assert(s[0] == '"');
        assert(s.drop_first() =~= inner + seq!['"'] + rest);
        lemma_quoted_hash(inner, rest);
    } else {
        let t = a.drop_first();
        assert forall|k: int| 0 <= k < t.len() implies #[trigger] t[k] != '"' && t[k] != '#' by {
            assert(t[k] == a[k + 1]);
        }
        lemma_before_a_quote(t, inner, rest);
        assert(s[0] == a[0]);
        assert(s.drop_first() =~= t + seq!['"'] + inner + seq!['"'] + rest);
    }
}

proof fn lemma_comment_within(s: Seq<char>, in_str: bool)
    ensures
        0 <= comment_start(s, in_str) <= s.len(),
    decreases s.len(),
{
    if s.len() > 0 {
        lemma_comment_within(s.drop_first(), in_str);
        lemma_comment_within(s.drop_first(), !in_str);
    }
}

/// A hash between quotes starts no comment.
pub proof fn law_quotes_protect_hashes(a: Seq<char>, inner: Seq<char>, rest: Seq<char>)
    requires
        forall|k: int| 0 <= k < a.len() ==> #[trigger] a[k] != '"' && a[k] != '#',
        forall|k: int| 0 <= k < inner.len() ==> #[trigger] inner[k] != '"',
    ensures
        uncommented(a + seq!['"'] + inner + seq!['"'] + rest) == a + seq!['"'] + inner + seq!['"']
            + uncommented(rest),
{
    let lead = a + seq!['"'] + inner + seq!['"'];
    lemma_before_a_quote(a, inner, rest);
    lemma_comment_within(rest, false);
    let n = comment_start(rest, false);
    assert((lead + rest).take(lead.len() + n) =~= lead + rest.take(n));
}

proof fn lemma_item_ends(inner: Seq<char>, cur: Seq<char>, rest: Seq<char>)
    requires
        forall|k: int| 0 <= k < inner.len() ==> #[trigger] inner[k] != '"',
    ensures
        items_from(inner + seq!['"'] + rest, cur, true) == items_from(
            rest,
            cur + inner + seq!['"'],
            false,
        ),
    decreases inner.len(),
{
    let s = inner + seq!['"'] + rest;
    if inner.len() == 0 {
        assert(s[0] == '"');
        assert(s.drop_first() =~= rest);
        assert(cur.push('"') =~= cur + inner + seq!['"']);
    } else {
        let t = inner.drop_first();
        assert forall|k: int| 0 <= k < t.len() implies #[trigger] t[k] != '"' by {
            assert(t[k] == inner[k + 1]);
        }
        lemma_item_ends(t, cur.push(inner[0]), rest);
        assert(s[0] == inner[0]);
        assert(s.drop_first() =~= t + seq!['"'] + rest);
        assert(cur.push(inner[0]) + t + seq!['"'] =~= cur + inner + seq!['"']);
    }
}

/// A list goes on behind a comma, but a comma between quotes belongs to its item; the last
/// item needs none.
pub proof fn law_lists_go_on_behind_a_comma(inner: Seq<char>, rest: Seq<char>)
    requires
        forall|k: int| 0 <= k < inner.len() ==> #[trigger] inner[k] != '"',
    ensures
        ({
            let item = seq!['"'] + inner + seq!['"'];
            let none = Seq::<char>::empty();
            &&& items_from(item + seq![','] + rest, none, false) == seq![item] + items_from(
                rest,
                none,
                false,
            )
            &&& items_from(item, none, false) == seq![item]
            &&& items_from(none, none, false).len() == 0
        }),
{
    let item = seq!['"'] + inner + seq!['"'];
    let none = Seq::<char>::empty();
    let s = item + seq![','] + rest;
    let more = seq![','] + rest;
    assert(s[0] == '"');
    assert(s.drop_first() =~= inner + seq!['"'] + more);
    assert(none.push('"') =~= seq!['"']);
    lemma_item_ends(inner, seq!['"'], more);
    assert(more[0] == ',');
    assert(more.drop_first() =~= rest);
    assert(item[0] == '"');
    assert(item.drop_first() =~= inner + seq!['"'] + none);
    lemma_item_ends(inner, seq!['"'], none);
    assert(item.last() == '"');
    lemma_nothing_to_trim(item);
    assert(trimmed(none) =~= none);
}

proof fn lemma_no_comment(s: Seq<char>)
    requires
        forall|k: int| 0 <= k < s.len() ==> #[trigger] s[k] != '#',
    ensures
        comment_start(s, false) == s.len(),
        comment_start(s, true) == s.len(),
    decreases s.len(),
{
    if s.len() > 0 {
        let t = s.drop_first();
        assert forall|k: int| 0 <= k < t.len() implies #[trigger] t[k] != '#' by {
            assert(t[k] == s[k + 1]);
        }
        lemma_no_comment(t);
    }
}

/// A line of a key and a value sets what the key names: the routes, in the section of the
/// pools a pool, and else a setting.
pub proof fn law_lines_set_what_they_name(
    d: DraftView,
    line: int,
    key: Seq<char>,
    value: Seq<char>,
)
    requires
        !d.in_array,
        key.len() > 0,
        key[0] != '[',
        trimmed(key) == key,
        !has_char(key, '='),
        value.len() > 0,
        trimmed(value) == value,
        forall|k: int|
            0 <= k < (key + seq!['='] + value).len() ==> #[trigger] (key + seq!['='] + value)[k]
                != '#',
    ensures
        step(d, line, key + seq!['='] + value) == if key == "routes"@ {
            routes_line(d, line, value)
        } else if d.in_upstreams {
            upstream_line(d, line, key, value)
        } else {
            setting_line(d, line, key, value)
        },
{
    let s = key + seq!['='] + value;
    lemma_no_comment(s);
    assert(s.take(s.len() as int) =~= s);
    lemma_trimmed_ends(key);
    lemma_trimmed_ends(value);
    assert(s[0] == key[0]);
    assert(s.last() == value.last());
    lemma_nothing_to_trim(s);
    reveal_strlit("[");
    assert(s.take(1)[0] == s[0]);
    lemma_first_index(key, '=');
    assert forall|k: int| 0 <= k < key.len() implies s[k] != '=' by {
        assert(s[k] == key[k]);
    }
    lemma_first_index_is(s, '=', key.len() as int);
    assert(s.take(key.len() as int) =~= key);
    assert(s.skip(key.len() as int + 1) =~= value);
}

/// An open list of routes takes a quoted route from each line, with or without a comma,
/// until its bracket.
pub proof fn law_open_lists_take_a_route_from_each_line(d: DraftView, line: int, r: Seq<char>)
    requires
        d.in_array,
        forall|k: int| 0 <= k < r.len() ==> #[trigger] r[k] != '"' && r[k] != '#',
    ensures
        step(d, line, seq!['"'] + r + seq!['"']) == Ok::<DraftView, Seq<char>>(
            DraftView { routes: d.routes.push(r), ..d },
        ),
        step(d, line, seq!['"'] + r + seq!['"', ',']) == Ok::<DraftView, Seq<char>>(
            DraftView { routes: d.routes.push(r), ..d },
        ),
        step(d, line, "]"@) == Ok::<DraftView, Seq<char>>(DraftView { in_array: false, ..d }),
{
    reveal_strlit("]");
    reveal_strlit(",");
    reveal_strlit("\"");
    let q = seq!['"'] + r + seq!['"'];
    let s = seq!['"'] + r + seq!['"', ','];
    assert forall|k: int| 0 <= k < q.len() implies #[trigger] q[k] != '#' by {
        if 0 < k < q.len() - 1 {
            assert(q[k] == r[k - 1]);
        }
    }
    assert forall|k: int| 0 <= k < s.len() implies #[trigger] s[k] != '#' by {
        if 0 < k <= r.len() {
            assert(s[k] == r[k - 1]);
        }
    }
    lemma_no_comment(q);
    lemma_no_comment(s);
    lemma_no_comment("]"@);
    assert(q.take(q.len() as int) =~= q);
    assert(s.take(s.len() as int) =~= s);
    assert("]"@.take(1) =~= "]"@);
    lemma_nothing_to_trim("]"@);
    assert(q[0] == '"' && q.last() == '"');
    assert(s[0] == '"' && s.last() == ',');
    lemma_nothing_to_trim(q);
    lemma_nothing_to_trim(s);
    assert(q != "]"@ && s != "]"@) by {
        assert("]"@[0] == ']');
    }
    assert(s.skip(s.len() - 1) =~= ","@);
    assert(s.take(s.len() - 1) =~= q);
    assert(q.skip(q.len() - 1)[0] == '"');
    assert(q.skip(q.len() - 1) != ","@) by {
        assert(","@[0] == ',');
    }
    lemma_first_index_is(r, '"', r.len() as int);
    super::settings::law_values_are_read(r, 0, line);
}

/// `[upstreams]` starts the section of the pools, an empty line changes nothing, and a
/// line without an equals sign is refused.
pub proof fn law_sections_and_other_lines(d: DraftView, line: int, s: Seq<char>)
    requires
        !d.in_array,
    ensures
        step(d, line, "[upstreams]"@) == Ok::<DraftView, Seq<char>>(
            DraftView { in_upstreams: true, ..d },
        ),
        step(d, line, Seq::empty()) == Ok::<DraftView, Seq<char>>(d),
        s.len() > 0 && trimmed(s) == s && s[0] != '[' && !has_char(s, '=') && !has_char(s, '#')
            ==> step(d, line, s) is Err,
{
    reveal_strlit("[upstreams]");
    reveal_strlit("upstreams");
    reveal_strlit("[");
    reveal_strlit("]");
    let u = "[upstreams]"@;
    lemma_no_comment(u);
    assert(u.take(u.len() as int) =~= u);
    lemma_nothing_to_trim(u);
    assert(u.take(1) =~= "["@);
    assert(u.skip(1).skip(9) =~= "]"@);
    assert(u.skip(1).take(9) =~= "upstreams"@);
    lemma_nothing_to_trim("upstreams"@);
    let none = Seq::<char>::empty();
    assert(uncommented(none) =~= none);
    assert(trimmed(none) =~= none);
    if s.len() > 0 && trimmed(s) == s && s[0] != '[' && !has_char(s, '=') && !has_char(s, '#') {
        lemma_first_index(s, '#');
        lemma_first_index(s, '=');
        lemma_no_comment(s);
        assert(s.take(s.len() as int) =~= s);
        assert(s.take(1)[0] == s[0]);
    }
}

// ---------------------------------------------------------------------------
// The cache
// ---------------------------------------------------------------------------

/// A variant is told by the values of its names as they stand; a missing field is an
/// empty value.
pub proof fn law_variants_have_the_values_of_their_names(
    h: Fields,
    names: Seq<Seq<char>>,
    i: int,
    j: int,
)
    requires
        0 <= i < names.len(),
    ensures
        variant(h, names).len() == names.len(),
        variant(h, names)[i].0 == lower(names[i]),
        first_named(h, names[i], j) ==> variant(h, names)[i].1 == h[j].1,
        absent(h, names[i]) ==> variant(h, names)[i].1.len() == 0,
{
    lemma_found(h, names[i]);
    if first_named(h, names[i], j) {
        law_a_lookup_gives_the_first_field(h, names[i], j);
    }
}

/// A look keeps what can still be used, and notes when; a stale entry that cannot be
/// checked is dropped.
pub proof fn law_a_look_keeps_what_is_of_use(v: Items, k: KeyView, now: Instant, i: int)
    requires
        place_of(v, k, 0) == Some(i),
        0 <= i < v.len(),
        v[i].1.vary_names.len() == 0,
    ensures
        ({
            let e = v[i].1;
            let fresh = now.nanos < e.stored_at.nanos || now.nanos - e.stored_at.nanos
                < e.ttl.nanos;
            let r = looked(v, k, now);
            &&& (fresh && e.ttl.nanos > 0) || e.etag is Some || e.last_modified is Some ==> r.len()
                == v.len() && r[i].0 == k && r[i].1 == (EntryView { last_used: now, ..e })
            &&& !fresh && e.etag is None && e.last_modified is None ==> r == v.remove(i)
        }),
{
}

proof fn lemma_evictions(v: Items, cost: int, max_bytes: u64, max_entries: usize)
    ensures
        evicted(v, cost, max_bytes, max_entries).0.len() + evicted(
            v,
            cost,
            max_bytes,
            max_entries,
        ).1 == v.len(),
    decreases v.len(),
{
    if v.len() > 0 && !fits(v, cost, max_bytes, max_entries) {
        let i = oldest(v, v.len() as int);
        if 0 <= i < v.len() {
            lemma_evictions(v.remove(i), cost, max_bytes, max_entries);
        }
    }
}

/// Every response that goes for another is counted: those that were there, without the
/// one of the same key, are those that are left and those that were counted.
pub proof fn law_evictions_are_counted(c: CacheView, k: KeyView, e: EntryView)
    requires
        k.vary.len() == 0,
        e.body.len() <= c.max_body,
        c.shards.len() == 16,
        0 <= part(k) < 16,
        c.stats.evicted + c.shards[part(k)].len() <= u64::MAX,
    ensures
        ({
            let r = stored_in(c, k, e);
            let was = dropped(c.shards[part(k)], k).len();
            let left = r.shards[part(k)].len() - if cost_of(e) <= c.max_bytes {
                1int
            } else {
                0
            };
            left + (r.stats.evicted - c.stats.evicted) == was
        }),
{
    let v = dropped(c.shards[part(k)], k);
    lemma_evictions(v, cost_of(e), c.max_bytes, c.max_entries);
    lemma_dropped_is_shorter(c.shards[part(k)], k);
}

proof fn lemma_dropped_is_shorter(v: Items, k: KeyView)
    ensures
        dropped(v, k).len() <= v.len(),
{
    lemma_place_within(v, k, 0);
}

proof fn lemma_place_within(v: Items, k: KeyView, i: int)
    ensures
        place_of(v, k, i) matches Some(j) ==> 0 <= j < v.len(),
    decreases v.len() - i,
{
    if 0 <= i < v.len() && v[i].0 != k {
        lemma_place_within(v, k, i + 1);
    }
}

/// What says by which headers a response varies lives as long as the response, and a
/// minute at least.
pub proof fn law_an_index_lives_a_minute(e: EntryView)
    ensures
        index_entry(e).ttl.nanos >= 60_000_000_000,
        index_entry(e).ttl.nanos >= e.ttl.nanos,
        index_entry(e).ttl.nanos == 60_000_000_000 || index_entry(e).ttl == e.ttl,
        index_entry(e).vary_names == e.vary_names,
        index_entry(e).stored_at == e.stored_at,
        index_entry(e).body.len() == 0,
        index_entry(e).headers.len() == 0,
{
}

// ---------------------------------------------------------------------------
// Credentials and heads
// ---------------------------------------------------------------------------

/// White space around what is given for a scheme does not matter.
pub proof fn law_space_around_credentials_does_not_matter(
    creds: Seq<CredentialView>,
    a: Fields,
    b: Fields,
    i: int,
    j: int,
    scheme: Seq<char>,
    x: Seq<char>,
    y: Seq<char>,
)
    requires
        first_named(a, "authorization"@, i),
        first_named(b, "authorization"@, j),
        !has_char(scheme, ' '),
        a[i].1 == scheme + seq![' '] + x,
        b[j].1 == scheme + seq![' '] + y,
        trimmed(x) == trimmed(y),
    ensures
        identity_of(creds, a) == identity_of(creds, b),
{
    law_a_lookup_gives_the_first_field(a, "authorization"@, i);
    law_a_lookup_gives_the_first_field(b, "authorization"@, j);
    lemma_cut_at_space(scheme, x);
    lemma_cut_at_space(scheme, y);
}

proof fn lemma_cut_at_space(a: Seq<char>, b: Seq<char>)
    requires
        !has_char(a, ' '),
    ensures
        cut(a + seq![' '] + b, ' ') == Some((a, b)),
{
    let s = a + seq![' '] + b;
    lemma_first_index(a, ' ');
    assert forall|k: int| 0 <= k < a.len() implies s[k] != ' ' by {
        assert(s[k] == a[k]);
    }
    lemma_first_index_is(s, ' ', a.len() as int);
    assert(s.take(a.len() as int) =~= a);
    assert(s.skip(a.len() as int + 1) =~= b);
}

/// A client that sends no head in time is told so if it still listens; one that closes
/// before its head gets no answer.
pub proof fn law_slow_clients_are_told(limits: Limits, routes: Seq<RouteView>)
    ensures
        gate_of(HeadEvent::TimedOut, limits, routes) matches GateView::Refuse(r) && r.status == 408
            && r.reason == "Request Timeout"@ && !r.must_send,
        gate_of(HeadEvent::Closed, limits, routes) is Close,
{
}

// ---------------------------------------------------------------------------
// Fractions
// ---------------------------------------------------------------------------

/// Ten to the power of `k`.
pub open spec fn ten_to(k: nat) -> int
    decreases k,
{
    if k == 0 {
        1
    } else {
        10 * ten_to((k - 1) as nat)
    }
}

proof fn lemma_leading_zero(s: Seq<char>)
    ensures
        number(seq!['0'] + s, 10) == number(s, 10),
    decreases s.len(),
{
    let z = seq!['0'] + s;
    if s.len() == 0 {
        assert(z.drop_last() =~= Seq::empty());
        assert(number(z.drop_last(), 10) == 0);
    } else {
        lemma_leading_zero(s.drop_last());
        assert(z.drop_last() =~= seq!['0'] + s.drop_last());
        assert(z.last() == s.last());
    }
}

proof fn lemma_padded_number(s: Seq<char>, width: nat)
    ensures
        number(zero_padded(s, width), 10) == number(s, 10),
        zero_padded(s, width).len() == if s.len() >= width {
            s.len()
        } else {
            width
        },
    decreases width - s.len(),
{
    if s.len() < width {
        lemma_leading_zero(s);
        lemma_padded_number(seq!['0'] + s, width);
    }
}

proof fn lemma_trailing_zeros(s: Seq<char>)
    ensures
        dropped_end(s, '0').len() <= s.len(),
        number(s, 10) == number(dropped_end(s, '0'), 10) * ten_to(
            (s.len() - dropped_end(s, '0').len()) as nat,
        ),
        dropped_end(s, '0').len() > 0 ==> dropped_end(s, '0').last() != '0',
    decreases s.len(),
{
    if s.len() > 0 && s.last() == '0' {
        let t = s.drop_last();
        lemma_trailing_zeros(t);
        let d = dropped_end(s, '0');
        let k = (t.len() - d.len()) as nat;
        assert(number(s, 10) == number(t, 10) * 10);
        assert(ten_to(k + 1) == 10 * ten_to(k));
        assert(number(d, 10) * ten_to(k) * 10 == number(d, 10) * (10 * ten_to(k)))
            by (nonlinear_arith);
    } else {
        assert(ten_to(0) == 1);
    }
}

proof fn lemma_six_digits(n: nat, k: nat)
    requires
        n < ten_to(k),
        k > 0,
    ensures
        decimal(n).len() <= k,
    decreases k,
{
    if n >= 10 {
        assert(ten_to(k) == 10 * ten_to((k - 1) as nat));
        if k == 1 {
            assert(ten_to(0) == 1);
        } else {
            lemma_six_digits(n / 10, (k - 1) as nat);
        }
    }
}

/// A fraction of a second stands behind a point, without zeros at its end, and counts
/// millionths.
pub proof fn law_fractions_of_seconds_are_shown(micros: nat)
    requires
        micros % 1_000_000 != 0,
    ensures
        ({
            let f = dropped_end(zero_padded(decimal(micros % 1_000_000), 6), '0');
            &&& seconds_text(micros) == decimal(micros / 1_000_000) + seq!['.'] + f
            &&& 0 < f.len() <= 6
            &&& f.last() != '0'
            &&& number(f, 10) * ten_to((6 - f.len()) as nat) == micros % 1_000_000
        }),
{
    let n = micros % 1_000_000;
    let z = zero_padded(decimal(n), 6);
    reveal_strlit(".");
    assert("."@ =~= seq!['.']);
    reveal_with_fuel(ten_to, 7);
    assert(ten_to(6) == 1_000_000);
    lemma_six_digits(n, 6);
    lemma_padded_number(decimal(n), 6);
    lemma_decimal(n);
    lemma_trailing_zeros(z);
    let f = dropped_end(z, '0');
    if f.len() == 0 {
        assert(number(f, 10) == 0);
        assert(0 * ten_to(6) == 0);
    }
}

// ---------------------------------------------------------------------------
// Targets, credentials and bodies
// ---------------------------------------------------------------------------

/// A target that is no path is not rewritten.
pub proof fn law_other_targets_stay(r: RulesView, target: Seq<char>)
    ensures
        target.len() == 0 || target[0] != '/' ==> rewritten(r, target) == target,
{
}

proof fn lemma_no_stray_byte(s: Seq<u8>, i: int)
    requires
        s.len() % 4 == 0,
        0 <= i < s.len() - 2,
        sextet(s[i]) == 64,
    ensures
        groups(s) is None,
    decreases s.len(),
{
    let g = s.take(4);
    if i < 4 {
        assert(g[i] == s[i]);
        if i >= 2 {
            assert(s.len() > 4);
            assert(sextet(g[2]) == 64 || sextet(g[3]) == 64);
        } else {
            assert(sextet(g[0]) == 64 || sextet(g[1]) == 64);
        }
        reveal(group);
        assert(group(g, s.len() == 4) is None);
        assert(s.len() >= 4);
    } else {
        let t = s.skip(4);
        assert(t.len() % 4 == 0);
        assert(t[i - 4] == s[i]);
        lemma_no_stray_byte(t, i - 4);
    }
}

/// What is no letter, digit, plus or slash may stand in an encoded text as one of its last
/// two bytes alone, where it is an equals sign; the bytes come in fours.
pub proof fn law_padding_stands_at_the_end(s: Seq<u8>, i: int)
    ensures
        s.len() % 4 != 0 ==> decoded(s) is None,
        s.len() == 0 ==> decoded(s) is None,
        0 <= i < s.len() - 2 && !(65 <= s[i] <= 90) && !(97 <= s[i] <= 122) && !(48 <= s[i] <= 57)
            && s[i] != 43 && s[i] != 47 ==> decoded(s) is None,
{
    if s.len() > 0 && s.len() % 4 == 0 && 0 <= i < s.len() - 2 && sextet(s[i]) == 64 {
        lemma_no_stray_byte(s, i);
    }
}

/// A body that ends before its end is refused: before its length, and in a chunked body
/// anywhere before the last line.
pub proof fn law_bodies_that_break_off_are_refused(n: u64, phase: Phase, seen: u64, max: Option<u64>)
    ensures
        at_eof(Relay::Length(n)) is Err,
        at_eof(Relay::Chunked { phase, seen, max }) is Err,
        at_eof(Relay::Failed) is Err,
{
}

/// A burst is a number of at least one.
pub proof fn law_bursts_are_at_least_one(value: Seq<char>, n: Number, t: Seq<(Seq<char>, Option<Number>)>)
    ensures
        n.at_least_one ==> burst_of(value, seq![(value, Some(n))] + t) == Ok::<Number, Seq<char>>(n),
        !n.at_least_one ==> burst_of(value, seq![(value, Some(n))] + t) is Err,
        burst_of(value, seq![(value, None::<Number>)] + t) is Err,
{
    let a = seq![(value, Some(n))] + t;
    let b = seq![(value, None::<Number>)] + t;
    assert(a[0] == (value, Some(n)));
    assert(b[0] == (value, None::<Number>));
}

/// Only a pool in weighted turns has a list of turns, and there every server has as many
/// as its weight.
pub proof fn law_turns_follow_the_weights(
    p: PoolView,
    name: Seq<char>,
    a: Algorithm,
    m: Members,
    health: HealthView,
    pool: PoolConfig,
    i: usize,
)
    requires
        is_built(p, name, a, m, health, pool),
        i < m.len() <= usize::MAX,
    ensures
        a == Algorithm::WeightedRoundRobin ==> turns(p.wrr_index, i) == m[i as int].1,
        a != Algorithm::WeightedRoundRobin ==> p.wrr_index.len() == 0,
        a != Algorithm::ConsistentHash ==> p.ring.len() == 0,
{
    law_weights_are_honoured(m, i);
}

} // verus!
