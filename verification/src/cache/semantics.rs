//! HTTP caching semantics: pure functions over heads.

use vstd::prelude::*;
use vstd::string::StrSliceExecFns;

use crate::http::{header, lookup, Fields, RequestHead, ResponseHead, ResponseView, Version};
use crate::order::{by_text, sort_texts, sorted};
use crate::text::{
    cut, dropped_end, dropped_start, list_has, lower, lowercase, maybe, own, pairs, parse_u64,
    pieces, push_text, same, same_fold, same_ignoring_case, slices, split, split_once, strip_prefix,
    texts, trim, trim_end_char, trim_start_char, trimmed, unsigned, without_prefix,
};
use crate::time::Duration;

verus! {

// ---------------------------------------------------------------------------
// Requests
// ---------------------------------------------------------------------------

/// A request that the cache may look at: a GET, and not one with credentials, whose
/// answer belongs to one user.
pub open spec fn cacheable_request(method: Seq<char>, h: Fields) -> bool {
    method == "GET"@ && lookup(h, "authorization"@) is None
}

/// Is this request one that the cache may look at?
pub fn request_is_cacheable(req: &RequestHead) -> (r: bool)
    ensures
        r == cacheable_request(req@.method, req@.headers),
{
    same(req.method.as_str(), "GET") && header(req.headers.as_slice(), "authorization").is_none()
}

/// A list of directives names one, from the `i`th on.
pub open spec fn names_directive(toks: Seq<Seq<char>>, d: Seq<char>, i: int) -> bool
    decreases toks.len() - i,
{
    if i < 0 || i >= toks.len() {
        false
    } else {
        same_fold(trimmed(toks[i]), d) || names_directive(toks, d, i + 1)
    }
}

fn has_directive(value: &str, d: &str) -> (r: bool)
    ensures
        r == names_directive(pieces(value@, ','), d@, 0),
{
    let toks = split(value, ',');
    let mut i: usize = 0;
    assert(slices(toks@).len() == toks@.len());
    while i < toks.len()
        invariant
            i <= toks@.len(),
            slices(toks@) == pieces(value@, ','),
            names_directive(pieces(value@, ','), d@, 0) == names_directive(
                pieces(value@, ','),
                d@,
                i as int,
            ),
        decreases toks.len() - i,
    {
        assert(pieces(value@, ',')[i as int] == toks@[i as int]@);
        assert(slices(toks@).len() == toks@.len());
        if same_ignoring_case(trim(toks[i]), d) {
            return true;
        }
        i = i + 1;
    }
    assert(slices(toks@).len() == toks@.len());
    false
}

/// What a client asks of the cache: not to store the exchange, and not to answer
/// without asking the origin.
pub open spec fn client_wishes(h: Fields) -> (bool, bool) {
    match lookup(h, "cache-control"@) {
        Some(v) => (
            names_directive(pieces(v, ','), "no-store"@, 0),
            names_directive(pieces(v, ','), "no-cache"@, 0),
        ),
        None => (false, false),
    }
}

/// The request directives that are honoured: (no-store, no-cache).
pub fn request_cache_control(req: &RequestHead) -> (r: (bool, bool))
    ensures
        r == client_wishes(req@.headers),
{
    match header(req.headers.as_slice(), "cache-control") {
        Some(v) => (has_directive(v, "no-store"), has_directive(v, "no-cache")),
        None => (false, false),
    }
}

// ---------------------------------------------------------------------------
// Freshness
// ---------------------------------------------------------------------------

/// Whether and how long a response may be kept.
pub struct Freshness {
    /// No time where it must not be stored.
    pub ttl: Option<Duration>,
    /// The names that the response varies by: lower case, sorted, each once.
    pub vary_names: Vec<String>,
}

/// What the freshness of a response is.
pub struct FreshnessView {
    pub ttl: Option<Duration>,
    pub vary_names: Seq<Seq<char>>,
}

impl View for Freshness {
    type V = FreshnessView;

    open spec fn view(&self) -> FreshnessView {
        FreshnessView { ttl: self.ttl, vary_names: texts(self.vary_names@) }
    }
}

/// A response that must not be stored.
pub open spec fn never() -> FreshnessView {
    FreshnessView { ttl: None, vary_names: Seq::empty() }
}

/// What the directives of a response say.
#[derive(Debug, Clone, Copy, PartialEq, Eq, Structural)]
pub struct Directives {
    /// `no-store`, or `private`: this is a shared cache.
    pub forbidden: bool,
    pub no_cache: bool,
    pub max_age: Option<u64>,
    pub s_maxage: Option<u64>,
}

/// One directive: its name, and its value without quotes.
pub open spec fn directive(tok: Seq<char>) -> (Seq<char>, Option<Seq<char>>) {
    match cut(trimmed(tok), '=') {
        Some((n, v)) => (trimmed(n), Some(dropped_end(dropped_start(trimmed(v), '"'), '"'))),
        None => (trimmed(tok), None),
    }
}

/// The number of a directive's value.
pub open spec fn directive_number(v: Option<Seq<char>>) -> Option<u64> {
    match v {
        Some(s) => match unsigned(s, 10, u64::MAX as int) {
            Some(n) => Some(n as u64),
            None => None,
        },
        None => None,
    }
}

/// Directives with one more.
pub open spec fn directed(d: Directives, tok: Seq<char>) -> Directives {
    let (name, v) = directive(tok);
    if same_fold(name, "no-store"@) || same_fold(name, "private"@) {
        Directives { forbidden: true, ..d }
    } else if same_fold(name, "no-cache"@) {
        Directives { no_cache: true, ..d }
    } else if same_fold(name, "max-age"@) {
        Directives { max_age: directive_number(v), ..d }
    } else if same_fold(name, "s-maxage"@) {
        Directives { s_maxage: directive_number(v), ..d }
    } else {
        d
    }
}

/// The directives of the first `n` tokens.
pub open spec fn directives_of(toks: Seq<Seq<char>>, n: int) -> Directives
    decreases n,
{
    if n <= 0 {
        Directives { forbidden: false, no_cache: false, max_age: None, s_maxage: None }
    } else {
        directed(directives_of(toks, n - 1), toks[n - 1])
    }
}

fn take_directive(d: Directives, tok: &str) -> (r: Directives)
    ensures
        r == directed(d, tok@),
{
    let t = trim(tok);
    let (name, value): (&str, Option<u64>) = match split_once(t, '=') {
        Some((n, v)) => {
            let bare = trim_end_char(trim_start_char(trim(v), '"'), '"');
            (trim(n), parse_u64(bare))
        },
        None => (t, None),
    };
    assert(name@ == directive(tok@).0);
    assert(value == directive_number(directive(tok@).1));
    if same_ignoring_case(name, "no-store") || same_ignoring_case(name, "private") {
        Directives { forbidden: true, ..d }
    } else if same_ignoring_case(name, "no-cache") {
        Directives { no_cache: true, ..d }
    } else if same_ignoring_case(name, "max-age") {
        Directives { max_age: value, ..d }
    } else if same_ignoring_case(name, "s-maxage") {
        Directives { s_maxage: value, ..d }
    } else {
        d
    }
}

fn read_directives(value: &str) -> (d: Directives)
    ensures
        d == directives_of(pieces(value@, ','), pieces(value@, ',').len() as int),
{
    let toks = split(value, ',');
    let mut d = Directives { forbidden: false, no_cache: false, max_age: None, s_maxage: None };
    let mut i: usize = 0;
    assert(slices(toks@).len() == toks@.len());
    while i < toks.len()
        invariant
            i <= toks@.len(),
            slices(toks@) == pieces(value@, ','),
            d == directives_of(pieces(value@, ','), i as int),
        decreases toks.len() - i,
    {
        assert(pieces(value@, ',')[i as int] == toks@[i as int]@);
        d = take_directive(d, toks[i]);
        i = i + 1;
    }
    assert(slices(toks@).len() == toks@.len());
    d
}

/// The names of a `Vary` value's first `n` items, in lower case and each once, in
/// the order in which they stand; nothing where one of them is `*`.
pub open spec fn vary_of(items: Seq<Seq<char>>, n: int) -> Option<Seq<Seq<char>>>
    decreases n,
{
    if n <= 0 {
        Some(Seq::empty())
    } else {
        match vary_of(items, n - 1) {
            None => None,
            Some(names) => {
                let name = lower(trimmed(items[n - 1]));
                if name == "*"@ {
                    None
                } else if name.len() > 0 && !names.contains(name) {
                    Some(names.push(name))
                } else {
                    Some(names)
                }
            },
        }
    }
}

/// The names that a response varies by, sorted; nothing where it varies by
/// everything.
pub open spec fn varies_by(vary: Option<Seq<char>>) -> Option<Seq<Seq<char>>> {
    match vary {
        None => Some(Seq::empty()),
        Some(v) => match vary_of(pieces(v, ','), pieces(v, ',').len() as int) {
            None => None,
            Some(names) => Some(sorted(names, by_text())),
        },
    }
}

proof fn lemma_vary_stops(items: Seq<Seq<char>>, i: int, n: int)
    requires
        0 <= i <= n,
        vary_of(items, i) is None,
    ensures
        vary_of(items, n) is None,
    decreases n,
{
    if i < n {
        lemma_vary_stops(items, i, n - 1);
    }
}

fn read_vary(value: &str) -> (r: Option<Vec<String>>)
    ensures
        match r {
            Some(v) => varies_by(Some(value@)) == Some(texts(v@)),
            None => varies_by(Some(value@)) is None,
        },
{
    let items = split(value, ',');
    let mut names: Vec<String> = Vec::new();
    let mut i: usize = 0;
    assert(slices(items@).len() == items@.len());
    assert(texts(names@) =~= Seq::empty());
    while i < items.len()
        invariant
            i <= items@.len(),
            slices(items@) == pieces(value@, ','),
            slices(items@).len() == items@.len(),
            vary_of(pieces(value@, ','), i as int) == Some(texts(names@)),
        decreases items.len() - i,
    {
        assert(pieces(value@, ',')[i as int] == items@[i as int]@);
        let name = lowercase(trim(items[i]));
        if same(name.as_str(), "*") {
            proof {
                lemma_vary_stops(pieces(value@, ','), i + 1, items@.len() as int);
            }
            return None;
        }
        if name.as_str().unicode_len() > 0 && !list_has(&names, name.as_str()) {
            push_text(&mut names, name);
        }
        i = i + 1;
    }
    Some(sort_texts(names))
}

/// Whether and how long a response may be kept. Only 200, 301 and 404 are; never one
/// that sets a cookie, nor one that says no-store or private, nor one that varies by
/// everything. `no-cache` keeps it for revalidation alone. The time is that of
/// s-maxage, else of max-age; where the response gives none, the route's default
/// applies to a response that can be revalidated.
pub open spec fn freshness(status: u16, h: Fields, default_ttl: Duration) -> FreshnessView {
    let cc = match lookup(h, "cache-control"@) {
        Some(v) => v,
        None => Seq::empty(),
    };
    let d = directives_of(pieces(cc, ','), pieces(cc, ',').len() as int);
    let validated = lookup(h, "etag"@) is Some || lookup(h, "last-modified"@) is Some;
    if status != 200 && status != 301 && status != 404 {
        never()
    } else if lookup(h, "set-cookie"@) is Some {
        never()
    } else if d.forbidden {
        never()
    } else {
        match varies_by(lookup(h, "vary"@)) {
            None => never(),
            Some(vary_names) => FreshnessView {
                ttl: if d.no_cache {
                    if validated {
                        Some(Duration { nanos: 0 })
                    } else {
                        None
                    }
                } else if d.s_maxage is Some {
                    Some(Duration { nanos: (d.s_maxage->Some_0 * 1_000_000_000) as u128 })
                } else if d.max_age is Some {
                    Some(Duration { nanos: (d.max_age->Some_0 * 1_000_000_000) as u128 })
                } else if validated {
                    Some(default_ttl)
                } else {
                    None
                },
                vary_names,
            },
        }
    }
}

fn no_store() -> (f: Freshness)
    ensures
        f@ == never(),
{
    let f = Freshness { ttl: None, vary_names: Vec::new() };
    assert(f@.vary_names =~= Seq::empty());
    f
}

/// Decides from a response whether and how long it may be kept.
pub fn freshness_from_headers(
    status: u16,
    headers: &[(String, String)],
    default_ttl: Duration,
) -> (f: Freshness)
    ensures
        f@ == freshness(status, pairs(headers@), default_ttl),
{
    if status != 200 && status != 301 && status != 404 {
        return no_store();
    }
    if header(headers, "set-cookie").is_some() {
        return no_store();
    }
    let none = String::new();
    let cc: &str = match header(headers, "cache-control") {
        Some(v) => v,
        None => none.as_str(),
    };
    assert(none@ =~= Seq::empty());
    let d = read_directives(cc);
    if d.forbidden {
        return no_store();
    }
    let vary_names: Vec<String> = match header(headers, "vary") {
        Some(v) => match read_vary(v) {
            Some(names) => names,
            None => {
                return no_store();
            },
        },
        None => Vec::new(),
    };
    assert(varies_by(lookup(pairs(headers@), "vary"@)) == Some(texts(vary_names@))) by {
        if lookup(pairs(headers@), "vary"@) is None {
            assert(texts(vary_names@) =~= Seq::empty());
        }
    }
    let validated = header(headers, "etag").is_some() || header(headers, "last-modified").is_some();
    let ttl: Option<Duration> = if d.no_cache {
        if validated {
            Some(Duration { nanos: 0 })
        } else {
            None
        }
    } else {
        match d.s_maxage {
            Some(secs) => Some(Duration::from_secs(secs)),
            None => match d.max_age {
                Some(secs) => Some(Duration::from_secs(secs)),
                None => if validated {
                    Some(default_ttl)
                } else {
                    None
                },
            },
        }
    };
    Freshness { ttl, vary_names }
}

/// The time to keep an entry that the origin said is unchanged. Of the answer only
/// the lifetimes count: s-maxage, else max-age, else the route's default. Whether a
/// response may be kept was settled when the entry was stored, so no-store, private,
/// cookies and `Vary` are not asked here. An answer that says no-cache and can be
/// revalidated leaves no time at all.
pub open spec fn renewed_ttl(h: Fields, default_ttl: Duration) -> Duration {
    let cc = match lookup(h, "cache-control"@) {
        Some(v) => v,
        None => Seq::empty(),
    };
    let d = directives_of(pieces(cc, ','), pieces(cc, ',').len() as int);
    let validated = lookup(h, "etag"@) is Some || lookup(h, "last-modified"@) is Some;
    if d.no_cache && validated {
        Duration { nanos: 0 }
    } else {
        match d.s_maxage {
            Some(secs) => Duration { nanos: (secs * 1_000_000_000) as u128 },
            None => match d.max_age {
                Some(secs) => Duration { nanos: (secs * 1_000_000_000) as u128 },
                None => default_ttl,
            },
        }
    }
}

/// The time to keep an entry that the origin said is unchanged.
pub fn ttl_from_304(headers: &[(String, String)], default_ttl: Duration) -> (d: Duration)
    ensures
        d == renewed_ttl(pairs(headers@), default_ttl),
{
    let none = String::new();
    let cc: &str = match header(headers, "cache-control") {
        Some(v) => v,
        None => none.as_str(),
    };
    assert(none@ =~= Seq::empty());
    let d = read_directives(cc);
    let validated = header(headers, "etag").is_some() || header(headers, "last-modified").is_some();
    if d.no_cache && validated {
        return Duration { nanos: 0 };
    }
    match d.s_maxage {
        Some(secs) => Duration::from_secs(secs),
        None => match d.max_age {
            Some(secs) => Duration::from_secs(secs),
            None => default_ttl,
        },
    }
}

// ---------------------------------------------------------------------------
// Validators
// ---------------------------------------------------------------------------

/// An entity tag for weak comparison.
pub open spec fn weak(tag: Seq<char>) -> Seq<char> {
    match without_prefix(trimmed(tag), "W/"@) {
        Some(t) => t,
        None => trimmed(tag),
    }
}

fn weak_tag<'a>(tag: &'a str) -> (r: &'a str)
    ensures
        r@ == weak(tag@),
{
    let t = trim(tag);
    match strip_prefix(t, "W/") {
        Some(x) => x,
        None => t,
    }
}

/// One of the candidates from the `i`th on is `*`, or is the tag up to weakness.
pub open spec fn tag_listed(list: Seq<Seq<char>>, tag: Seq<char>, i: int) -> bool
    decreases list.len() - i,
{
    if i < 0 || i >= list.len() {
        false
    } else {
        trimmed(list[i]) == "*"@ || weak(trimmed(list[i])) == weak(tag) || tag_listed(
            list,
            tag,
            i + 1,
        )
    }
}

/// Does `If-None-Match` name the entity?
pub fn etag_matches(if_none_match: &str, entity_etag: &str) -> (r: bool)
    ensures
        r == tag_listed(pieces(if_none_match@, ','), entity_etag@, 0),
{
    let list = split(if_none_match, ',');
    let entity = weak_tag(entity_etag);
    let mut i: usize = 0;
    assert(slices(list@).len() == list@.len());
    while i < list.len()
        invariant
            i <= list@.len(),
            entity@ == weak(entity_etag@),
            slices(list@) == pieces(if_none_match@, ','),
            tag_listed(pieces(if_none_match@, ','), entity_etag@, 0) == tag_listed(
                pieces(if_none_match@, ','),
                entity_etag@,
                i as int,
            ),
        decreases list.len() - i,
    {
        assert(pieces(if_none_match@, ',')[i as int] == list@[i as int]@);
        assert(slices(list@).len() == list@.len());
        let c = trim(list[i]);
        if same(c, "*") || same(weak_tag(c), entity) {
            return true;
        }
        i = i + 1;
    }
    assert(slices(list@).len() == list@.len());
    false
}

/// The validators of a response: its tag, and when it was last modified.
pub open spec fn validators_of(h: Fields) -> (Option<Seq<char>>, Option<Seq<char>>) {
    (lookup(h, "etag"@), lookup(h, "last-modified"@))
}

/// The validators of a response.
pub fn validators(headers: &[(String, String)]) -> (r: (Option<String>, Option<String>))
    ensures
        (maybe(r.0), maybe(r.1)) == validators_of(pairs(headers@)),
{
    let etag = match header(headers, "etag") {
        Some(v) => Some(own(v)),
        None => None,
    };
    let modified = match header(headers, "last-modified") {
        Some(v) => Some(own(v)),
        None => None,
    };
    (etag, modified)
}

/// A header that a 304 carries.
pub open spec fn guides_caching(name: Seq<char>) -> bool {
    ||| lower(name) == "etag"@
    ||| lower(name) == "cache-control"@
    ||| lower(name) == "vary"@
    ||| lower(name) == "last-modified"@
    ||| lower(name) == "expires"@
}

/// The fields that guide caching.
pub open spec fn guiding(h: Fields) -> Fields
    decreases h.len(),
{
    if h.len() == 0 {
        h
    } else if guides_caching(h.last().0) {
        guiding(h.drop_last()).push(h.last())
    } else {
        guiding(h.drop_last())
    }
}

/// The 304 for a client that has the entity already.
pub open spec fn not_modified(h: Fields) -> ResponseView {
    ResponseView {
        version: Version::Http11,
        status: 304,
        reason: "Not Modified"@,
        headers: guiding(h),
    }
}

/// The head of a 304, with the fields of the stored response that guide caching.
pub fn not_modified_fields(headers: &Vec<(String, String)>) -> (r: ResponseHead)
    ensures
        r@ == not_modified(pairs(headers@)),
{
    let mut kept: Vec<(String, String)> = Vec::new();
    let mut i: usize = 0;
    assert(pairs(headers@).take(0) =~= Seq::empty());
    assert(pairs(kept@) =~= Seq::empty());
    while i < headers.len()
        invariant
            i <= headers@.len(),
            pairs(kept@) == guiding(pairs(headers@).take(i as int)),
        decreases headers.len() - i,
    {
        let ghost t = pairs(headers@).take(i + 1);
        assert(t.drop_last() =~= pairs(headers@).take(i as int));
        assert(t.last() == (headers@[i as int].0@, headers@[i as int].1@));
        let n = lowercase(headers[i].0.as_str());
        if same(n.as_str(), "etag") || same(n.as_str(), "cache-control") || same(n.as_str(), "vary")
            || same(n.as_str(), "last-modified") || same(n.as_str(), "expires") {
            let ghost sofar = pairs(kept@);
            let a = own(headers[i].0.as_str());
            let b = own(headers[i].1.as_str());
            kept.push((a, b));
            assert(pairs(kept@) =~= sofar.push((a@, b@)));
        }
        i = i + 1;
    }
    assert(pairs(headers@).take(i as int) =~= pairs(headers@));
    ResponseHead {
        version: Version::Http11,
        status: 304,
        reason: own("Not Modified"),
        headers: kept,
    }
}

// ---------------------------------------------------------------------------
// Laws
// ---------------------------------------------------------------------------

/// A response that belongs to one user is never stored: not one that sets a cookie,
/// whatever else it says.
pub proof fn law_cookies_are_never_stored(status: u16, h: Fields, default_ttl: Duration)
    requires
        lookup(h, "set-cookie"@) is Some,
    ensures
        freshness(status, h, default_ttl).ttl is None,
{
}

proof fn lemma_forbidden_stays(toks: Seq<Seq<char>>, i: int, n: int)
    requires
        0 <= i < n,
        same_fold(directive(toks[i]).0, "no-store"@) || same_fold(directive(toks[i]).0, "private"@),
    ensures
        directives_of(toks, n).forbidden,
    decreases n,
{
    if i < n - 1 {
        lemma_forbidden_stays(toks, i, n - 1);
    }
}

/// A response that says no-store or private, wherever in its directives and in
/// whatever case, is never stored.
pub proof fn law_private_responses_are_never_stored(
    status: u16,
    h: Fields,
    default_ttl: Duration,
    cc: Seq<char>,
    i: int,
)
    requires
        lookup(h, "cache-control"@) == Some(cc),
        0 <= i < pieces(cc, ',').len(),
        same_fold(directive(pieces(cc, ',')[i]).0, "no-store"@) || same_fold(
            directive(pieces(cc, ',')[i]).0,
            "private"@,
        ),
    ensures
        freshness(status, h, default_ttl).ttl is None,
{
    lemma_forbidden_stays(pieces(cc, ','), i, pieces(cc, ',').len() as int);
}

/// A time that the proxy makes up is given only to a response that can be
/// revalidated.
pub proof fn law_made_up_freshness_is_checkable(status: u16, h: Fields, ttls: (Duration, Duration))
    requires
        lookup(h, "etag"@) is None,
        lookup(h, "last-modified"@) is None,
    ensures
        freshness(status, h, ttls.0).ttl == freshness(status, h, ttls.1).ttl,
{
}

} // verus!
