//! What may be kept, for how long, and what is handed out of it.

use vstd::prelude::*;

use super::{
    absent, first_named, law_a_lookup_gives_the_first_field, law_a_lookup_of_nothing_gives_nothing,
    lemma_nothing_to_trim, lemma_trimmed_ends,
};
use crate::cache::semantics::{
    cacheable_request, client_wishes, directive, directive_number, directives_of, freshness,
    guiding, names_directive, not_modified, renewed_ttl, tag_listed, vary_of, weak,
};
use crate::cache::store::{
    at, inserted, lemma_inserted, looked_up, sound, stored_in, CacheView, LookupView,
};
use crate::cache::{
    cost_of, fields_cost, input_of, key_of, EntryView, InputView, KeyView,
};
use crate::http::{lookup, Fields, RequestView};
use crate::text::{
    before, decimal, dropped_end, dropped_start, first_index, has_char, is_digit, is_space,
    lemma_decimal, lemma_decimal_reads_back, lemma_first_index, lemma_first_index_is, lower, pieces,
    same_fold, trimmed,
};
use crate::time::{Duration, Instant};

verus! {

// ---------------------------------------------------------------------------
// Lifetimes
// ---------------------------------------------------------------------------

/// The name of a directive: what stands before its equals sign, without white space.
pub open spec fn directive_name(tok: Seq<char>) -> Seq<char> {
    trimmed(before(trimmed(tok), '='))
}

/// A directive of that name stands at `i`, and no other of them has the name.
pub open spec fn alone(toks: Seq<Seq<char>>, i: int, name: Seq<char>) -> bool {
    forall|k: int| 0 <= k < toks.len() && k != i ==> !same_fold(directive_name(#[trigger] toks[k]), name)
}

/// No directive has the name.
pub open spec fn unsaid(toks: Seq<Seq<char>>, name: Seq<char>) -> bool {
    forall|k: int| 0 <= k < toks.len() ==> !same_fold(directive_name(#[trigger] toks[k]), name)
}

/// A directive gives a number of seconds.
pub open spec fn gives(tok: Seq<char>, name: Seq<char>, n: u64) -> bool {
    trimmed(tok) == name + seq!['='] + decimal(n as nat)
}

proof fn lemma_directive_name(tok: Seq<char>)
    ensures
        directive(tok).0 == directive_name(tok),
{
    let t = trimmed(tok);
    lemma_first_index(t, '=');
    if first_index(t, '=') >= t.len() {
        assert(t.take(first_index(t, '=')) =~= t);
        lemma_trimmed_ends(tok);
        lemma_nothing_to_trim(t);
    }
}

proof fn lemma_gives(tok: Seq<char>, name: Seq<char>, n: u64)
    requires
        gives(tok, name, n),
        !has_char(name, '='),
        name.len() > 0,
        !is_space(name[0]),
        !is_space(name.last()),
    ensures
        directive(tok).0 == name,
        directive_number(directive(tok).1) == Some(n),
{
    let t = trimmed(tok);
    let d = decimal(n as nat);
    lemma_decimal(n as nat);
    lemma_decimal_reads_back(n as nat, u64::MAX as int);
    lemma_first_index(name, '=');
    assert forall|k: int| 0 <= k < name.len() implies t[k] != '=' by {
        assert(t[k] == name[k]);
    }
    assert(t[name.len() as int] == '=');
    lemma_first_index_is(t, '=', name.len() as int);
    assert(t.take(name.len() as int) =~= name);
    assert(t.skip(name.len() as int + 1) =~= d);
    lemma_nothing_to_trim(name);
    assert(is_digit(d[0]) && is_digit(d[d.len() - 1]));
    lemma_nothing_to_trim(d);
    assert(dropped_start(d, '"') == d);
    assert(dropped_end(d, '"') == d);
}

proof fn lemma_directive_words()
    ensures
        !has_char("max-age"@, '='),
        !has_char("s-maxage"@, '='),
        "max-age"@.len() == 7,
        "s-maxage"@.len() == 8,
        !is_space("max-age"@[0]),
        !is_space("max-age"@.last()),
        !is_space("s-maxage"@[0]),
        !is_space("s-maxage"@.last()),
        !same_fold("max-age"@, "s-maxage"@),
        !same_fold("s-maxage"@, "max-age"@),
        !same_fold("max-age"@, "no-store"@),
        !same_fold("max-age"@, "private"@),
        !same_fold("max-age"@, "no-cache"@),
        !same_fold("s-maxage"@, "no-store"@),
        !same_fold("s-maxage"@, "private"@),
        !same_fold("s-maxage"@, "no-cache"@),
        !same_fold("no-cache"@, "no-store"@),
        !same_fold("no-cache"@, "private"@),
{
    reveal_strlit("max-age");
    reveal_strlit("s-maxage");
    reveal_strlit("no-store");
    reveal_strlit("private");
    reveal_strlit("no-cache");
    lemma_first_index_is("max-age"@, '=', 7);
    lemma_first_index_is("s-maxage"@, '=', 8);
    assert(lower("max-age"@).len() == 7 && lower("private"@).len() == 7);
    assert(lower("s-maxage"@).len() == 8 && lower("no-store"@).len() == 8 && lower(
        "no-cache"@,
    ).len() == 8);
    assert(lower("max-age"@)[0] != lower("private"@)[0]);
    assert(lower("s-maxage"@)[0] != lower("no-store"@)[0]);
    assert(lower("s-maxage"@)[0] != lower("no-cache"@)[0]);
    assert(lower("no-cache"@)[3] != lower("no-store"@)[3]);
}

proof fn lemma_directives(toks: Seq<Seq<char>>, n: int)
    requires
        0 <= n <= toks.len(),
    ensures
        ({
            let d = directives_of(toks, n);
            &&& d.forbidden <==> exists|k: int|
                0 <= k < n && (same_fold(directive_name(#[trigger] toks[k]), "no-store"@)
                    || same_fold(directive_name(toks[k]), "private"@))
            &&& d.no_cache <==> exists|k: int|
                0 <= k < n && same_fold(directive_name(#[trigger] toks[k]), "no-cache"@)
        }),
    decreases n,
{
    if n > 0 {
        lemma_directives(toks, n - 1);
        lemma_directive_name(toks[n - 1]);
        lemma_directive_words();
        let name = directive_name(toks[n - 1]);
        let bad = same_fold(name, "no-store"@) || same_fold(name, "private"@);
        let was = directives_of(toks, n - 1);
        let d = directives_of(toks, n);
        assert(d.forbidden == (was.forbidden || bad));
        assert(d.no_cache == (was.no_cache || same_fold(name, "no-cache"@)));
        if was.forbidden {
            let k = choose|k: int|
                0 <= k < n - 1 && (same_fold(directive_name(#[trigger] toks[k]), "no-store"@)
                    || same_fold(directive_name(toks[k]), "private"@));
            assert(0 <= k < n);
        }
        if was.no_cache {
            let k = choose|k: int|
                0 <= k < n - 1 && same_fold(directive_name(#[trigger] toks[k]), "no-cache"@);
            assert(0 <= k < n);
        }
        if bad || same_fold(name, "no-cache"@) {
            assert(directive_name(toks[n - 1]) == name);
        }
    }
}

/// A lifetime that a directive gives is kept, where no other directive has its name.
proof fn lemma_lifetimes(toks: Seq<Seq<char>>, i: int, secs: u64, n: int)
    requires
        0 <= n <= toks.len(),
    ensures
        unsaid(toks, "max-age"@) ==> directives_of(toks, n).max_age is None,
        unsaid(toks, "s-maxage"@) ==> directives_of(toks, n).s_maxage is None,
        0 <= i < n && gives(toks[i], "max-age"@, secs) && alone(toks, i, "max-age"@)
            ==> directives_of(toks, n).max_age == Some(secs),
        0 <= i < n && gives(toks[i], "s-maxage"@, secs) && alone(toks, i, "s-maxage"@)
            ==> directives_of(toks, n).s_maxage == Some(secs),
    decreases n,
{
    if n > 0 {
        lemma_lifetimes(toks, i, secs, n - 1);
        lemma_directive_name(toks[n - 1]);
        lemma_directive_words();
        if gives(toks[n - 1], "max-age"@, secs) {
            lemma_gives(toks[n - 1], "max-age"@, secs);
        }
        if gives(toks[n - 1], "s-maxage"@, secs) {
            lemma_gives(toks[n - 1], "s-maxage"@, secs);
        }
    }
}

/// A response that the cache may keep: of status 200, 301 or 404, without a cookie, not
/// forbidden, and varying by nothing.
pub open spec fn keepable(status: u16, h: Fields, toks: Seq<Seq<char>>) -> bool {
    &&& status == 200 || status == 301 || status == 404
    &&& absent(h, "set-cookie"@)
    &&& absent(h, "vary"@)
    &&& unsaid(toks, "no-store"@)
    &&& unsaid(toks, "private"@)
}

/// `max-age=N` keeps a response for N seconds, whatever the default is; and
/// `s-maxage=N`, which is meant for a shared cache, does so also beside a `max-age`.
pub proof fn law_a_lifetime_is_in_seconds(
    status: u16,
    h: Fields,
    cc: int,
    i: int,
    secs: u64,
    default_ttl: Duration,
)
    requires
        first_named(h, "cache-control"@, cc),
        ({
            let toks = pieces(h[cc].1, ',');
            &&& keepable(status, h, toks)
            &&& unsaid(toks, "no-cache"@)
            &&& 0 <= i < toks.len()
            &&& (gives(toks[i], "s-maxage"@, secs) && alone(toks, i, "s-maxage"@)) || (gives(
                toks[i],
                "max-age"@,
                secs,
            ) && alone(toks, i, "max-age"@) && unsaid(toks, "s-maxage"@))
        }),
    ensures
        freshness(status, h, default_ttl).ttl == Some(
            Duration { nanos: (secs * 1_000_000_000) as u128 },
        ),
        freshness(status, h, default_ttl).vary_names.len() == 0,
        renewed_ttl(h, default_ttl) == (Duration { nanos: (secs * 1_000_000_000) as u128 }),
{
    let toks = pieces(h[cc].1, ',');
    law_a_lookup_gives_the_first_field(h, "cache-control"@, cc);
    law_a_lookup_of_nothing_gives_nothing(h, "set-cookie"@);
    law_a_lookup_of_nothing_gives_nothing(h, "vary"@);
    lemma_directives(toks, toks.len() as int);
    lemma_lifetimes(toks, i, secs, toks.len() as int);
}

/// A single directive is the only one of its header.
pub proof fn law_a_single_lifetime(status: u16, h: Fields, cc: int, secs: u64, default_ttl: Duration)
    requires
        first_named(h, "cache-control"@, cc),
        h[cc].1 == "max-age="@ + decimal(secs as nat) || h[cc].1 == "s-maxage="@ + decimal(
            secs as nat,
        ),
        status == 200 || status == 301 || status == 404,
        absent(h, "set-cookie"@),
        absent(h, "vary"@),
    ensures
        freshness(status, h, default_ttl).ttl == Some(
            Duration { nanos: (secs * 1_000_000_000) as u128 },
        ),
        renewed_ttl(h, default_ttl) == (Duration { nanos: (secs * 1_000_000_000) as u128 }),
{
    let v = h[cc].1;
    let d = decimal(secs as nat);
    reveal_strlit("max-age=");
    reveal_strlit("s-maxage=");
    reveal_strlit("max-age");
    reveal_strlit("s-maxage");
    lemma_directive_words();
    lemma_decimal(secs as nat);
    assert("max-age="@ =~= "max-age"@ + seq!['=']);
    assert("s-maxage="@ =~= "s-maxage"@ + seq!['=']);
    let name = if v == "max-age="@ + d {
        "max-age"@
    } else {
        "s-maxage"@
    };
    assert(v =~= name + seq!['='] + d);
    assert forall|k: int| 0 <= k < v.len() implies v[k] != ',' by {
        if k > name.len() {
            assert(is_digit(d[k - name.len() - 1]));
            assert(v[k] == d[k - name.len() - 1]);
        } else if k < name.len() {
            assert(v[k] == name[k]);
        }
    }
    lemma_first_index_is(v, ',', v.len() as int);
    let toks = pieces(v, ',');
    assert(toks =~= seq![v]);
    assert(v[0] == name[0]);
    assert(is_digit(d[d.len() - 1]));
    assert(v.last() == d[d.len() - 1]);
    lemma_nothing_to_trim(v);
    assert(gives(toks[0], name, secs));
    lemma_gives(toks[0], name, secs);
    lemma_directive_name(toks[0]);
    assert(directive_name(toks[0]) == name);
    law_a_lifetime_is_in_seconds(status, h, cc, 0, secs, default_ttl);
}

/// A response that says no-store or private is never kept; one that says no-cache is
/// kept to be asked for at every use, where the origin can be asked, and else is not.
pub proof fn law_forbidden_responses_are_not_kept(
    status: u16,
    h: Fields,
    cc: int,
    i: int,
    default_ttl: Duration,
)
    requires
        first_named(h, "cache-control"@, cc),
        0 <= i < pieces(h[cc].1, ',').len(),
    ensures
        ({
            let name = directive_name(pieces(h[cc].1, ',')[i]);
            let toks = pieces(h[cc].1, ',');
            &&& same_fold(name, "no-store"@) || same_fold(name, "private"@) ==> freshness(
                status,
                h,
                default_ttl,
            ).ttl is None
            &&& same_fold(name, "no-cache"@) && absent(h, "etag"@) && absent(h, "last-modified"@)
                ==> freshness(status, h, default_ttl).ttl is None
            &&& same_fold(name, "no-cache"@) && !absent(h, "etag"@) && keepable(status, h, toks)
                ==> freshness(status, h, default_ttl).ttl == Some(Duration { nanos: 0 })
            &&& same_fold(name, "no-cache"@) && !absent(h, "last-modified"@) && keepable(
                status,
                h,
                toks,
            ) ==> freshness(status, h, default_ttl).ttl == Some(Duration { nanos: 0 })
        }),
{
    let toks = pieces(h[cc].1, ',');
    law_a_lookup_gives_the_first_field(h, "cache-control"@, cc);
    lemma_directives(toks, toks.len() as int);
    if absent(h, "set-cookie"@) {
        law_a_lookup_of_nothing_gives_nothing(h, "set-cookie"@);
    }
    if absent(h, "vary"@) {
        law_a_lookup_of_nothing_gives_nothing(h, "vary"@);
    }
    lemma_present(h, "etag"@);
    lemma_present(h, "last-modified"@);
}

proof fn lemma_present(h: Fields, name: Seq<char>)
    ensures
        absent(h, name) <==> lookup(h, name) is None,
{
    let i = super::lemma_first_or_absent(h, name);
    if absent(h, name) {
        law_a_lookup_of_nothing_gives_nothing(h, name);
    } else {
        law_a_lookup_gives_the_first_field(h, name, i);
    }
}

/// Without a lifetime of its own a response is kept for the default time where it can
/// be revalidated, and else is not kept; and only responses of status 200, 301 and 404
/// without a cookie are kept at all.
pub proof fn law_the_default_is_for_the_checkable(status: u16, h: Fields, default_ttl: Duration)
    ensures
        absent(h, "cache-control"@) && keepable(status, h, Seq::empty()) ==> freshness(
            status,
            h,
            default_ttl,
        ).ttl == if absent(h, "etag"@) && absent(h, "last-modified"@) {
            None
        } else {
            Some(default_ttl)
        },
        absent(h, "cache-control"@) ==> renewed_ttl(h, default_ttl) == default_ttl,
        status != 200 && status != 301 && status != 404 ==> freshness(
            status,
            h,
            default_ttl,
        ).ttl is None,
        !absent(h, "set-cookie"@) ==> freshness(status, h, default_ttl).ttl is None,
{
    lemma_present(h, "cache-control"@);
    lemma_present(h, "etag"@);
    lemma_present(h, "last-modified"@);
    lemma_present(h, "set-cookie"@);
    lemma_present(h, "vary"@);
    let e = Seq::<char>::empty();
    lemma_first_index(e, ',');
    assert(pieces(e, ',') =~= seq![e]);
    let toks = pieces(e, ',');
    reveal_strlit("no-store");
    reveal_strlit("private");
    reveal_strlit("no-cache");
    reveal_strlit("max-age");
    reveal_strlit("s-maxage");
    assert(trimmed(e) == e);
    lemma_first_index(e, '=');
    assert(before(e, '=') =~= e);
    assert(directive_name(toks[0]) =~= e);
    assert(lower(e).len() == 0);
    assert(lower("no-store"@).len() == 8 && lower("private"@).len() == 7 && lower("no-cache"@).len()
        == 8 && lower("max-age"@).len() == 7 && lower("s-maxage"@).len() == 8);
    lemma_directives(toks, 1);
    lemma_lifetimes(toks, 0, 0, 1);
}

// ---------------------------------------------------------------------------
// Variants
// ---------------------------------------------------------------------------

proof fn lemma_vary_names(items: Seq<Seq<char>>, n: int, k: int)
    requires
        0 <= n <= items.len(),
        0 <= k < n,
        vary_of(items, n) is Some,
    ensures
        lower(trimmed(items[k])) != "*"@,
        trimmed(items[k]).len() > 0 ==> vary_of(items, n)->0.contains(lower(trimmed(items[k]))),
    decreases n,
{
    let before = vary_of(items, n - 1)->0;
    let now = vary_of(items, n)->0;
    let name = lower(trimmed(items[n - 1]));
    if k < n - 1 {
        lemma_vary_names(items, n - 1, k);
        let x = lower(trimmed(items[k]));
        if trimmed(items[k]).len() > 0 {
            let j = choose|j: int| 0 <= j < before.len() && before[j] == x;
            assert(now[j] == x);
        }
    } else if trimmed(items[k]).len() > 0 {
        assert(name.len() > 0);
        if !before.contains(name) {
            assert(now[now.len() - 1] == name);
        }
    }
}

/// A response varies by every header that its `Vary` names, in lower case; one that
/// varies by everything is not kept.
pub proof fn law_a_response_varies_by_what_it_names(
    status: u16,
    h: Fields,
    v: int,
    k: int,
    default_ttl: Duration,
)
    requires
        first_named(h, "vary"@, v),
        0 <= k < pieces(h[v].1, ',').len(),
    ensures
        ({
            let name = trimmed(pieces(h[v].1, ',')[k]);
            let f = freshness(status, h, default_ttl);
            &&& name == "*"@ ==> f.ttl is None
            &&& f.ttl is Some && name.len() > 0 ==> f.vary_names.contains(lower(name))
        }),
{
    broadcast use vstd::seq_lib::group_to_multiset_ensures;

    let items = pieces(h[v].1, ',');
    law_a_lookup_gives_the_first_field(h, "vary"@, v);
    let name = trimmed(items[k]);
    if vary_of(items, items.len() as int) is Some {
        lemma_vary_names(items, items.len() as int, k);
        let names = vary_of(items, items.len() as int)->0;
        crate::order::lemma_texts_are_ordered();
        crate::order::law_sorting_keeps_the_items(names, crate::order::by_text());
        let s = crate::order::sorted(names, crate::order::by_text());
        if name.len() > 0 {
            assert(names.to_multiset().count(lower(name)) > 0);
            assert(s.to_multiset().count(lower(name)) > 0);
            assert(s.contains(lower(name)));
        }
        reveal_strlit("*");
        assert(name == "*"@ ==> lower(name) =~= "*"@);
    }
}

// ---------------------------------------------------------------------------
// Requests
// ---------------------------------------------------------------------------

/// Only a GET without credentials is answered from the cache.
pub proof fn law_only_plain_gets_are_cached(method: Seq<char>, h: Fields)
    ensures
        cacheable_request(method, h) <==> method == "GET"@ && absent(h, "authorization"@),
{
    lemma_present(h, "authorization"@);
}

proof fn lemma_names_directive(toks: Seq<Seq<char>>, d: Seq<char>, i: int)
    requires
        0 <= i <= toks.len(),
    ensures
        names_directive(toks, d, i) <==> exists|k: int|
            i <= k < toks.len() && same_fold(trimmed(#[trigger] toks[k]), d),
    decreases toks.len() - i,
{
    if i < toks.len() {
        lemma_names_directive(toks, d, i + 1);
        if same_fold(trimmed(toks[i]), d) {
            assert(i <= i < toks.len());
        } else if names_directive(toks, d, i + 1) {
            let k = choose|k: int|
                i + 1 <= k < toks.len() && same_fold(trimmed(#[trigger] toks[k]), d);
            assert(i <= k < toks.len());
        }
    }
}

/// A client that says no-store has nothing stored, one that says no-cache gets nothing
/// from the cache, and one that says neither leaves the cache alone.
pub proof fn law_the_client_is_heard(h: Fields, cc: int)
    ensures
        absent(h, "cache-control"@) ==> client_wishes(h) == (false, false),
        first_named(h, "cache-control"@, cc) ==> client_wishes(h) == (
            exists|k: int|
                0 <= k < pieces(h[cc].1, ',').len() && same_fold(
                    trimmed(#[trigger] pieces(h[cc].1, ',')[k]),
                    "no-store"@,
                ),
            exists|k: int|
                0 <= k < pieces(h[cc].1, ',').len() && same_fold(
                    trimmed(#[trigger] pieces(h[cc].1, ',')[k]),
                    "no-cache"@,
                ),
        ),
{
    lemma_present(h, "cache-control"@);
    if first_named(h, "cache-control"@, cc) {
        law_a_lookup_gives_the_first_field(h, "cache-control"@, cc);
        lemma_names_directive(pieces(h[cc].1, ','), "no-store"@, 0);
        lemma_names_directive(pieces(h[cc].1, ','), "no-cache"@, 0);
    }
}

// ---------------------------------------------------------------------------
// Validators
// ---------------------------------------------------------------------------

proof fn lemma_tag_listed(list: Seq<Seq<char>>, tag: Seq<char>, i: int)
    requires
        0 <= i <= list.len(),
    ensures
        tag_listed(list, tag, i) <==> exists|k: int|
            i <= k < list.len() && (trimmed(#[trigger] list[k]) == "*"@ || weak(trimmed(list[k]))
                == weak(tag)),
    decreases list.len() - i,
{
    if i < list.len() {
        lemma_tag_listed(list, tag, i + 1);
        if trimmed(list[i]) == "*"@ || weak(trimmed(list[i])) == weak(tag) {
            assert(i <= i < list.len());
        } else if tag_listed(list, tag, i + 1) {
            let k = choose|k: int|
                i + 1 <= k < list.len() && (trimmed(#[trigger] list[k]) == "*"@ || weak(
                    trimmed(list[k]),
                ) == weak(tag));
            assert(i <= k < list.len());
        }
    }
}

/// A tag in double quotes.
pub open spec fn strong_tag(t: Seq<char>) -> bool {
    t.len() >= 2 && t[0] == '"' && t.last() == '"'
}

proof fn lemma_weak(t: Seq<char>)
    requires
        strong_tag(t),
    ensures
        weak(t) == t,
        weak("W/"@ + t) == t,
        trimmed(t) == t,
        trimmed("W/"@ + t) == "W/"@ + t,
        t != "*"@,
        "W/"@ + t != "*"@,
{
    reveal_strlit("W/");
    reveal_strlit("*");
    lemma_nothing_to_trim(t);
    let w = "W/"@ + t;
    assert(w[0] == 'W');
    assert(w.last() == t.last());
    lemma_nothing_to_trim(w);
    assert(w.take(2) =~= "W/"@);
    assert(w.skip(2) =~= t);
    assert(t.take(2)[0] != "W/"@[0]);
}

/// A client that holds the entity is told so: its tag is found in the list, weak or
/// not on either side, and a star names every entity. A list of other tags does not
/// name it.
pub proof fn law_tags_are_compared_weakly(
    list: Seq<Seq<char>>,
    tag: Seq<char>,
    k: int,
)
    requires
        strong_tag(tag),
        0 <= k < list.len(),
    ensures
        trimmed(list[k]) == tag || trimmed(list[k]) == "W/"@ + tag ==> tag_listed(list, tag, 0)
            && tag_listed(list, "W/"@ + tag, 0),
        trimmed(list[k]) == "*"@ ==> tag_listed(list, tag, 0),
        (forall|j: int|
            0 <= j < list.len() ==> strong_tag(trimmed(#[trigger] list[j])) && trimmed(list[j])
                != tag) ==> !tag_listed(list, tag, 0) && !tag_listed(list, "W/"@ + tag, 0),
{
    lemma_weak(tag);
    lemma_tag_listed(list, tag, 0);
    lemma_tag_listed(list, "W/"@ + tag, 0);
    let x = trimmed(list[k]);
    lemma_trimmed_ends(list[k]);
    if forall|j: int|
        0 <= j < list.len() ==> strong_tag(trimmed(#[trigger] list[j])) && trimmed(list[j]) != tag {
        assert forall|j: int| 0 <= j < list.len() implies !(trimmed(#[trigger] list[j]) == "*"@
            || weak(trimmed(list[j])) == tag) by {
            lemma_weak(trimmed(list[j]));
        }
    }
}

/// A 304 is a 304, and of the stored fields it carries the tag, the date, the lifetime
/// and the variants, but neither a length nor a type.
pub proof fn law_a_304_carries_what_guides_caching(h: Fields, i: int)
    requires
        0 <= i < h.len(),
    ensures
        not_modified(h).status == 304,
        same_fold(h[i].0, "etag"@) || same_fold(h[i].0, "cache-control"@) || same_fold(
            h[i].0,
            "vary"@,
        ) || same_fold(h[i].0, "last-modified"@) || same_fold(h[i].0, "expires"@)
            ==> not_modified(h).headers.contains(h[i]),
        same_fold(h[i].0, "content-length"@) || same_fold(h[i].0, "content-type"@)
            ==> !not_modified(h).headers.contains(h[i]),
    decreases h.len(),
{
    reveal_strlit("etag");
    reveal_strlit("cache-control");
    reveal_strlit("vary");
    reveal_strlit("last-modified");
    reveal_strlit("expires");
    reveal_strlit("content-length");
    reveal_strlit("content-type");
    assert(lower("etag"@) =~= "etag"@);
    assert(lower("cache-control"@) =~= "cache-control"@);
    assert(lower("vary"@) =~= "vary"@);
    assert(lower("last-modified"@) =~= "last-modified"@);
    assert(lower("expires"@) =~= "expires"@);
    assert(lower("content-length"@) =~= "content-length"@);
    assert(lower("content-type"@) =~= "content-type"@);
    lemma_guiding(h, h[i]);
}

proof fn lemma_guiding(h: Fields, f: (Seq<char>, Seq<char>))
    ensures
        guiding(h).contains(f) <==> h.contains(f) && crate::cache::semantics::guides_caching(f.0),
    decreases h.len(),
{
    if h.len() > 0 {
        let t = h.drop_last();
        lemma_guiding(t, f);
        assert(h.contains(f) <==> t.contains(f) || h.last() == f) by {
            if h.contains(f) {
                let k = choose|k: int| 0 <= k < h.len() && h[k] == f;
                if k < t.len() {
                    assert(t[k] == f);
                }
            }
            if t.contains(f) {
                let k = choose|k: int| 0 <= k < t.len() && t[k] == f;
                assert(h[k] == f);
            }
            if h.last() == f {
                assert(h[h.len() - 1] == f);
            }
        }
        let g = guiding(t);
        let p = g.push(h.last());
        assert(p.contains(f) <==> g.contains(f) || h.last() == f) by {
            if p.contains(f) {
                let k = choose|k: int| 0 <= k < p.len() && p[k] == f;
                if k < g.len() {
                    assert(g[k] == f);
                }
            }
            if g.contains(f) {
                let k = choose|k: int| 0 <= k < g.len() && g[k] == f;
                assert(p[k] == f);
            }
            if h.last() == f {
                assert(p[p.len() - 1] == f);
            }
        }
    }
}

// ---------------------------------------------------------------------------
// The store
// ---------------------------------------------------------------------------

/// A response that was stored and fits is answered with for as long as its time lasts,
/// with its status, its fields, its body and its tag, and with its age in whole
/// seconds. From then on the origin is asked with its validators, where it has any,
/// and else it is as if nothing were stored.
pub proof fn law_a_stored_response_lives_its_time(
    c: CacheView,
    input: InputView,
    e: EntryView,
    now: Instant,
)
    requires
        sound(c),
        e.vary_names.len() == 0,
        e.body.len() <= c.max_body,
        cost_of(e) <= c.max_bytes,
        e.stored_at.nanos <= now.nanos,
    ensures
        ({
            let k = key_of(input, Seq::empty());
            let r = looked_up(stored_in(c, k, e), input, now).1;
            if now.nanos < e.stored_at.nanos + e.ttl.nanos {
                &&& r is Hit
                &&& r->Hit_0.status == e.status
                &&& r->Hit_0.reason == e.reason
                &&& r->Hit_0.headers == e.headers
                &&& r->Hit_0.body == e.body
                &&& r->Hit_0.etag == e.etag
                &&& r->Hit_0.age_secs * 1_000_000_000 <= now.nanos - e.stored_at.nanos
                &&& now.nanos - e.stored_at.nanos < r->Hit_0.age_secs * 1_000_000_000 + 1_000_000_000
            } else if e.etag is Some || e.last_modified is Some {
                r == LookupView::Stale(k, e.etag, e.last_modified)
            } else {
                r is Miss
            }
        }),
{
    let k = key_of(input, Seq::empty());
    lemma_inserted(c, k, e);
    assert(at(stored_in(c, k, e), k) == Some(e));
}

/// An entry takes at least the bytes of its body, so that bodies never take more than
/// the bound.
pub proof fn law_an_entry_costs_its_body(e: EntryView)
    requires
        e.body.len() + 256 <= u64::MAX,
    ensures
        cost_of(e) >= e.body.len() + 256,
{
    lemma_fields_cost(e.headers);
}

proof fn lemma_fields_cost(h: Fields)
    ensures
        fields_cost(h) >= 0,
    decreases h.len(),
{
    if h.len() > 0 {
        lemma_fields_cost(h.drop_last());
    }
}

/// Hosts are equal up to case: a request is found by whichever spelling; but methods,
/// targets and routes are told apart.
pub proof fn law_keys_tell_requests_apart(
    a: (usize, RequestView, Seq<char>),
    b: (usize, RequestView, Seq<char>),
    names: Seq<Seq<char>>,
)
    ensures
        ({
            let ka = key_of(input_of(a.0, a.1, a.2), names);
            let kb = key_of(input_of(b.0, b.1, b.2), names);
            &&& ka == kb ==> a.0 == b.0 && a.1.method == b.1.method && a.1.target == b.1.target
                && same_fold(a.2, b.2)
            &&& a.0 == b.0 && a.1.method == b.1.method && a.1.target == b.1.target && a.1.headers
                == b.1.headers && same_fold(a.2, b.2) ==> ka == kb
        }),
{
}

/// A lookup is counted as what it was: a hit, a miss, or nothing where the origin is
/// asked; and nothing else is counted with it.
pub proof fn law_lookups_are_counted(c: CacheView, input: InputView, now: Instant)
    requires
        c.stats.hits < u64::MAX,
        c.stats.misses < u64::MAX,
    ensures
        ({
            let (after, r) = looked_up(c, input, now);
            &&& after.stats.hits == c.stats.hits + if r is Hit {
                1int
            } else {
                0
            }
            &&& after.stats.misses == c.stats.misses + if r is Miss {
                1int
            } else {
                0
            }
            &&& after.stats.stored == c.stats.stored
            &&& after.stats.evicted == c.stats.evicted
            &&& after.stats.revalidated == c.stats.revalidated
            &&& after.stats.invalidated == c.stats.invalidated
        }),
{
}

/// A response with a body over the limit changes nothing, and one that alone is over
/// the bound of its part is not found.
pub proof fn law_what_is_too_large_is_not_stored(c: CacheView, k: KeyView, e: EntryView)
    requires
        sound(c),
        k.vary.len() == 0,
    ensures
        e.body.len() > c.max_body ==> stored_in(c, k, e) == c,
        cost_of(e) > c.max_bytes && e.body.len() <= c.max_body ==> at(stored_in(c, k, e), k) is None
            && stored_in(c, k, e).stats.stored == c.stats.stored,
        cost_of(e) <= c.max_bytes && e.body.len() <= c.max_body && c.stats.stored < u64::MAX
            ==> stored_in(c, k, e).stats.stored == c.stats.stored + 1,
{
    lemma_inserted(c, k, e);
    if e.body.len() <= c.max_body {
        assert(at(stored_in(c, k, e), k) == at(inserted(c, k, e).0, k));
    }
}

} // verus!
