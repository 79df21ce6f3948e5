//! The response cache: a bounded store, and HTTP's rules for what goes into it.
//!
//! The store is split into parts by a hash of the key. Each part is bounded in bytes
//! and in entries, and evicts what was used longest ago. An expired entry with a
//! validator is kept: the origin may say that it is unchanged. The key is compared
//! in full on every lookup, so that a collision of hashes costs a miss and never
//! hands out another entry.

pub mod semantics;
pub mod store;

use vstd::prelude::*;

use vstd::utf8::encode_utf8;

pub use semantics::{
    etag_matches, freshness_from_headers, request_cache_control, request_is_cacheable,
    ttl_from_304, validators, Freshness,
};
pub use store::{
    Cache, CacheStats, Lookup, DEFAULT_MAX_BODY, DEFAULT_MAX_BYTES, DEFAULT_MAX_ENTRIES,
};

use crate::http::{header, lookup, Fields, RequestHead, RequestView, ResponseHead};
use crate::middleware::options::clone_texts;
use crate::order::{by_pair, sort_pairs, sorted};
use crate::text::{
    lower, lowercase, maybe, own, pairs, same, texts,
};
use crate::time::{elapsed, Duration, Instant};
use semantics::{not_modified, not_modified_fields};

verus! {

// ---------------------------------------------------------------------------
// Keys
// ---------------------------------------------------------------------------

/// What an entry is found by.
#[derive(Debug)]
pub struct Key {
    /// The route that matched: two routes may send one target to two backends.
    pub route: usize,
    pub method: String,
    /// The host that the client asked for, in lower case and without a port.
    pub host: String,
    /// The target that the client asked for, before any rewriting.
    pub target: String,
    /// For each header that the response varies by, its name and this request's
    /// value (none is the empty value), sorted.
    pub vary: Vec<(String, String)>,
}

/// What a key says.
pub struct KeyView {
    pub route: usize,
    pub method: Seq<char>,
    pub host: Seq<char>,
    pub target: Seq<char>,
    pub vary: Fields,
}

impl View for Key {
    type V = KeyView;

    open spec fn view(&self) -> KeyView {
        KeyView {
            route: self.route,
            method: self.method@,
            host: self.host@,
            target: self.target@,
            vary: pairs(self.vary@),
        }
    }
}

/// The parts of a key, taken from the request before it is rewritten: the cache is
/// asked before the rewrite and written after the response.
pub struct KeyInput {
    pub route: usize,
    pub method: String,
    pub host: String,
    pub target: String,
    pub headers: Vec<(String, String)>,
}

/// What the parts of a key say.
pub struct InputView {
    pub route: usize,
    pub method: Seq<char>,
    pub host: Seq<char>,
    pub target: Seq<char>,
    pub headers: Fields,
}

impl View for KeyInput {
    type V = InputView;

    open spec fn view(&self) -> InputView {
        InputView {
            route: self.route,
            method: self.method@,
            host: self.host@,
            target: self.target@,
            headers: pairs(self.headers@),
        }
    }
}

/// A copy of header fields.
pub fn copy_fields(v: &Vec<(String, String)>) -> (r: Vec<(String, String)>)
    ensures
        pairs(r@) == pairs(v@),
{
    let mut r: Vec<(String, String)> = Vec::new();
    let mut i: usize = 0;
    assert(pairs(r@) =~= pairs(v@).take(0));
    while i < v.len()
        invariant
            i <= v@.len(),
            pairs(r@) == pairs(v@).take(i as int),
        decreases v.len() - i,
    {
        let ghost sofar = pairs(r@);
        let a = own(v[i].0.as_str());
        let b = own(v[i].1.as_str());
        r.push((a, b));
        assert(pairs(r@) =~= sofar.push((a@, b@)));
        assert(pairs(v@).take(i + 1) =~= pairs(v@).take(i as int).push((a@, b@)));
        i = i + 1;
    }
    assert(pairs(v@).take(i as int) =~= pairs(v@));
    r
}

/// A copy of bytes.
pub fn copy_bytes(v: &Vec<u8>) -> (r: Vec<u8>)
    ensures
        r@ == v@,
{
    vstd::slice::slice_to_vec(v.as_slice())
}

/// A copy of an optional text.
pub fn copy_text(t: &Option<String>) -> (r: Option<String>)
    ensures
        maybe(r) == maybe(*t),
{
    match t {
        Some(s) => Some(own(s.as_str())),
        None => None,
    }
}

/// The parts of a request's key: the host in lower case, all else as the client sent it.
pub open spec fn input_of(route: usize, req: RequestView, host: Seq<char>) -> InputView {
    InputView {
        route,
        method: req.method,
        host: lower(host),
        target: req.target,
        headers: req.headers,
    }
}

impl KeyInput {
    /// The parts of a request's key.
    pub fn from_request(route: usize, req: &RequestHead, host: &str) -> (r: KeyInput)
        ensures
            r@ == input_of(route, req@, host@),
    {
        KeyInput {
            route,
            method: own(req.method.as_str()),
            host: lowercase(host),
            target: own(req.target.as_str()),
            headers: copy_fields(&req.headers),
        }
    }
}

/// The value of a header, or the empty text.
pub open spec fn value_or_empty(h: Fields, name: Seq<char>) -> Seq<char> {
    match lookup(h, name) {
        Some(v) => v,
        None => Seq::empty(),
    }
}

/// The names in lower case, each with the request's value.
pub open spec fn variant(h: Fields, names: Seq<Seq<char>>) -> Fields {
    Seq::new(names.len(), |i: int| (lower(names[i]), value_or_empty(h, names[i])))
}

/// The key of a request for a response that varies by those names.
pub open spec fn key_of(input: InputView, names: Seq<Seq<char>>) -> KeyView {
    KeyView {
        route: input.route,
        method: input.method,
        host: input.host,
        target: input.target,
        vary: sorted(variant(input.headers, names), by_pair()),
    }
}

impl Key {
    /// The key of a request for a response that varies by those names; without names
    /// it is the key of the first look.
    pub fn build(input: &KeyInput, vary_names: &[String]) -> (k: Key)
        ensures
            k@ == key_of(input@, texts(vary_names@)),
            k.vary@.len() == vary_names@.len(),
    {
        let mut vary: Vec<(String, String)> = Vec::new();
        let ghost want = variant(input@.headers, texts(vary_names@));
        let mut i: usize = 0;
        assert(pairs(vary@) =~= want.take(0));
        while i < vary_names.len()
            invariant
                i <= vary_names@.len(),
                want == variant(input@.headers, texts(vary_names@)),
                want.len() == vary_names@.len(),
                vary@.len() == i,
                pairs(vary@) == want.take(i as int),
            decreases vary_names.len() - i,
        {
            let name = vary_names[i].as_str();
            let value = match header(input.headers.as_slice(), name) {
                Some(v) => own(v),
                None => {
                    let none = String::new();
                    assert(none@ =~= Seq::empty());
                    none
                },
            };
            let ghost sofar = pairs(vary@);
            let low = lowercase(name);
            let ghost item = (low@, value@);
            assert(texts(vary_names@)[i as int] == name@);
            vary.push((low, value));
            assert(pairs(vary@) =~= sofar.push(item));
            assert(want.take(i + 1) =~= want.take(i as int).push(item));
            i = i + 1;
        }
        assert(want.take(i as int) =~= want);
        Key {
            route: input.route,
            method: own(input.method.as_str()),
            host: own(input.host.as_str()),
            target: own(input.target.as_str()),
            vary: sort_pairs(vary),
        }
    }

    /// A copy of the key.
    pub fn copied(&self) -> (k: Key)
        ensures
            k@ == self@,
    {
        Key {
            route: self.route,
            method: own(self.method.as_str()),
            host: own(self.host.as_str()),
            target: own(self.target.as_str()),
            vary: copy_fields(&self.vary),
        }
    }
}

fn same_fields(a: &Vec<(String, String)>, b: &Vec<(String, String)>) -> (r: bool)
    ensures
        r == (pairs(a@) == pairs(b@)),
{
    assert(pairs(a@).len() == a@.len());
    assert(pairs(b@).len() == b@.len());
    if a.len() != b.len() {
        return false;
    }
    let mut i: usize = 0;
    while i < a.len()
        invariant
            i <= a@.len() == b@.len(),
            forall|k: int| 0 <= k < i ==> #[trigger] pairs(a@)[k] == pairs(b@)[k],
        decreases a.len() - i,
    {
        if !same(a[i].0.as_str(), b[i].0.as_str()) || !same(a[i].1.as_str(), b[i].1.as_str()) {
            assert(pairs(a@)[i as int] != pairs(b@)[i as int]);
            return false;
        }
        assert(pairs(a@)[i as int] == pairs(b@)[i as int]);
        i = i + 1;
    }
    assert(pairs(a@) =~= pairs(b@));
    true
}

fn same_key(a: &Key, b: &Key) -> (r: bool)
    ensures
        r == (a@ == b@),
{
    a.route == b.route && same(a.method.as_str(), b.method.as_str()) && same(
        a.host.as_str(),
        b.host.as_str(),
    ) && same(a.target.as_str(), b.target.as_str()) && same_fields(&a.vary, &b.vary)
}

// ---------------------------------------------------------------------------
// Entries
// ---------------------------------------------------------------------------

/// One cached response.
#[derive(Debug)]
pub struct Entry {
    pub status: u16,
    pub reason: String,
    /// End-to-end headers alone.
    pub headers: Vec<(String, String)>,
    pub body: Vec<u8>,
    /// When the entry was stored, or last found unchanged.
    pub stored_at: Instant,
    /// How long the entry is fresh from then on; zero means that it is always asked
    /// for again.
    pub ttl: Duration,
    pub etag: Option<String>,
    pub last_modified: Option<String>,
    /// The names of the headers that the response varies by.
    pub vary_names: Vec<String>,
    pub last_used: Instant,
}

/// What an entry says.
pub struct EntryView {
    pub status: u16,
    pub reason: Seq<char>,
    pub headers: Fields,
    pub body: Seq<u8>,
    pub stored_at: Instant,
    pub ttl: Duration,
    pub etag: Option<Seq<char>>,
    pub last_modified: Option<Seq<char>>,
    pub vary_names: Seq<Seq<char>>,
    pub last_used: Instant,
}

impl View for Entry {
    type V = EntryView;

    open spec fn view(&self) -> EntryView {
        EntryView {
            status: self.status,
            reason: self.reason@,
            headers: pairs(self.headers@),
            body: self.body@,
            stored_at: self.stored_at,
            ttl: self.ttl,
            etag: maybe(self.etag),
            last_modified: maybe(self.last_modified),
            vary_names: texts(self.vary_names@),
            last_used: self.last_used,
        }
    }
}

/// The entry is fresh.
pub open spec fn is_fresh_at(e: EntryView, now: Instant) -> bool {
    elapsed(now, e.stored_at) < e.ttl.nanos
}

/// The origin can be asked whether the entry is unchanged.
pub open spec fn validated(e: EntryView) -> bool {
    e.etag is Some || e.last_modified is Some
}

/// The bytes of a text on the wire.
pub open spec fn byte_len(s: Seq<char>) -> int {
    encode_utf8(s).len() as int
}

/// The bytes of header fields, with their separators.
pub open spec fn fields_cost(h: Fields) -> int
    decreases h.len(),
{
    if h.len() == 0 {
        0
    } else {
        fields_cost(h.drop_last()) + byte_len(h.last().0) + byte_len(h.last().1) + 4
    }
}

/// A number, and at most the largest that 64 bits hold.
pub open spec fn clipped(n: int) -> int {
    if n > u64::MAX {
        u64::MAX as int
    } else {
        n
    }
}

/// About what an entry takes of memory: body, headers, and 256 for the rest.
pub open spec fn cost_of(e: EntryView) -> int {
    clipped(e.body.len() + fields_cost(e.headers) + 256)
}

impl Entry {
    /// Is the entry fresh?
    pub fn is_fresh(&self, now: Instant) -> (r: bool)
        ensures
            r == is_fresh_at(self@, now),
    {
        now.since(self.stored_at).nanos < self.ttl.nanos
    }

    /// The entry's age in whole seconds.
    pub fn age_secs(&self, now: Instant) -> (r: u64)
        ensures
            r == age_of(self@, now),
    {
        (now.since(self.stored_at).nanos / 1_000_000_000) as u64
    }

    /// Can the origin be asked whether the entry is unchanged?
    pub fn has_validator(&self) -> (r: bool)
        ensures
            r == validated(self@),
    {
        self.etag.is_some() || self.last_modified.is_some()
    }

    fn cost(&self) -> (r: u64)
        ensures
            r == cost_of(self@),
    {
        let mut acc: u64 = 256u64.saturating_add(self.body.len() as u64);
        let ghost start = self.body@.len() + 256;
        let mut i: usize = 0;
        let ghost h = pairs(self.headers@);
        assert(h.take(0) =~= Seq::empty());
        while i < self.headers.len()
            invariant
                i <= self.headers@.len(),
                h == pairs(self.headers@),
                start == self.body@.len() + 256,
                acc == clipped(start + fields_cost(h.take(i as int))),
                0 <= fields_cost(h.take(i as int)),
            decreases self.headers.len() - i,
        {
            let ghost t = h.take(i + 1);
            assert(t.drop_last() =~= h.take(i as int));
            assert(t.last() == (self.headers@[i as int].0@, self.headers@[i as int].1@));
            let a: usize = self.headers[i].0.as_str().as_bytes().len();
            let b: usize = self.headers[i].1.as_str().as_bytes().len();
            acc = acc.saturating_add(a as u64).saturating_add(b as u64).saturating_add(4);
            i = i + 1;
        }
        assert(h.take(i as int) =~= h);
        acc
    }
}

/// What is handed out of an entry.
#[derive(Debug)]
pub struct CachedResponse {
    pub status: u16,
    pub reason: String,
    pub headers: Vec<(String, String)>,
    pub body: Vec<u8>,
    pub age_secs: u64,
    /// The entity tag, to answer a client's `If-None-Match`.
    pub etag: Option<String>,
}

/// What is handed out says.
pub struct CachedView {
    pub status: u16,
    pub reason: Seq<char>,
    pub headers: Fields,
    pub body: Seq<u8>,
    pub age_secs: u64,
    pub etag: Option<Seq<char>>,
}

impl View for CachedResponse {
    type V = CachedView;

    open spec fn view(&self) -> CachedView {
        CachedView {
            status: self.status,
            reason: self.reason@,
            headers: pairs(self.headers@),
            body: self.body@,
            age_secs: self.age_secs,
            etag: maybe(self.etag),
        }
    }
}

/// What an entry hands out, with that age.
pub open spec fn handed_out(e: EntryView, age_secs: u64) -> CachedView {
    CachedView {
        status: e.status,
        reason: e.reason,
        headers: e.headers,
        body: e.body,
        age_secs,
        etag: e.etag,
    }
}

fn hand_out(e: &Entry, age_secs: u64) -> (r: CachedResponse)
    ensures
        r@ == handed_out(e@, age_secs),
{
    CachedResponse {
        status: e.status,
        reason: own(e.reason.as_str()),
        headers: copy_fields(&e.headers),
        body: copy_bytes(&e.body),
        age_secs,
        etag: copy_text(&e.etag),
    }
}

/// The head of a 304 for a client that has the cached entity already.
pub fn not_modified_head(cached: &CachedResponse) -> (r: ResponseHead)
    ensures
        r@ == not_modified(cached@.headers),
{
    not_modified_fields(&cached.headers)
}

// ---------------------------------------------------------------------------
// One part of the store
// ---------------------------------------------------------------------------

/// The items of a part.
pub type Items = Seq<(KeyView, EntryView)>;

/// One part of the store.
#[derive(Debug)]
pub struct Shard {
    pub map: Vec<(Key, Entry)>,
    pub bytes: u64,
}

/// The cost of all items.
pub open spec fn total(v: Items) -> int
    decreases v.len(),
{
    if v.len() == 0 {
        0
    } else {
        total(v.drop_last()) + cost_of(v.last().1)
    }
}

/// No key stands twice.
pub open spec fn distinct(v: Items) -> bool {
    forall|i: int, j: int| 0 <= i < j < v.len() ==> (#[trigger] v[i]).0 != (#[trigger] v[j]).0
}

/// Where a key stands, from the `i`th item on.
pub open spec fn place_of(v: Items, k: KeyView, i: int) -> Option<int>
    decreases v.len() - i,
{
    if i < 0 || i >= v.len() {
        None
    } else if v[i].0 == k {
        Some(i)
    } else {
        place_of(v, k, i + 1)
    }
}

/// The entry of a key.
pub open spec fn entry_of(v: Items, k: KeyView) -> Option<EntryView> {
    match place_of(v, k, 0) {
        Some(i) => Some(v[i].1),
        None => None,
    }
}

/// Items without that of a key.
pub open spec fn dropped(v: Items, k: KeyView) -> Items {
    match place_of(v, k, 0) {
        Some(i) => v.remove(i),
        None => v,
    }
}

/// Of the first `n` items, the one that was used longest ago; of equals the first.
pub open spec fn oldest(v: Items, n: int) -> int
    decreases n,
{
    if n <= 1 {
        0
    } else {
        let b = oldest(v, n - 1);
        if v[n - 1].1.last_used.nanos < v[b].1.last_used.nanos {
            n - 1
        } else {
            b
        }
    }
}

/// A newcomer of that cost fits both bounds.
pub open spec fn fits(v: Items, cost: int, max_bytes: u64, max_entries: usize) -> bool {
    total(v) + cost <= max_bytes && v.len() + 1 <= max_entries
}

/// Items after as many as needed were evicted, those that were used longest ago
/// first, until a newcomer fits or nothing is left; and how many went.
pub open spec fn evicted(v: Items, cost: int, max_bytes: u64, max_entries: usize) -> (Items, nat)
    decreases v.len(),
{
    if v.len() == 0 || fits(v, cost, max_bytes, max_entries) {
        (v, 0)
    } else {
        let i = oldest(v, v.len() as int);
        if 0 <= i < v.len() {
            let (rest, n) = evicted(v.remove(i), cost, max_bytes, max_entries);
            (rest, n + 1)
        } else {
            (v, 0)
        }
    }
}

/// Items after an entry was put in, how many others went for it, and whether it is
/// in. An entry that alone is over the bound of bytes is not put in.
pub open spec fn put(v: Items, k: KeyView, e: EntryView, max_bytes: u64, max_entries: usize) -> (
    Items,
    nat,
    bool,
) {
    let (rest, n) = evicted(dropped(v, k), cost_of(e), max_bytes, max_entries);
    if cost_of(e) > max_bytes {
        (rest, n, false)
    } else {
        (rest.push((k, e)), n, true)
    }
}

/// What a look into a part finds.
pub enum Found {
    Nothing,
    Fresh(CachedView),
    Stale(Option<Seq<char>>, Option<Seq<char>>),
    /// The names of the headers that matter: another look is needed.
    VaryIndex(Seq<Seq<char>>),
}

/// What a look for a key finds. The entry of the key without variant only says by
/// which headers the response varies. An expired entry is stale where the origin
/// can be asked, and else it is nothing.
pub open spec fn found(v: Items, k: KeyView, now: Instant) -> Found {
    match entry_of(v, k) {
        None => Found::Nothing,
        Some(e) => if k.vary.len() == 0 && e.vary_names.len() > 0 {
            Found::VaryIndex(e.vary_names)
        } else if is_fresh_at(e, now) {
            Found::Fresh(
                handed_out(e, (elapsed(now, e.stored_at) / 1_000_000_000) as u64),
            )
        } else if validated(e) {
            Found::Stale(e.etag, e.last_modified)
        } else {
            Found::Nothing
        },
    }
}

/// A part after a look: an entry that is handed out, or that is to be asked for, was
/// used now; an expired one without validators is dropped.
pub open spec fn looked(v: Items, k: KeyView, now: Instant) -> Items {
    match place_of(v, k, 0) {
        None => v,
        Some(i) => {
            let e = v[i].1;
            if k.vary.len() == 0 && e.vary_names.len() > 0 {
                v
            } else if is_fresh_at(e, now) || validated(e) {
                v.update(i, (k, EntryView { last_used: now, ..e }))
            } else {
                v.remove(i)
            }
        },
    }
}

proof fn lemma_place_of(v: Items, k: KeyView, i: int)
    requires
        0 <= i,
    ensures
        match place_of(v, k, i) {
            Some(p) => i <= p < v.len() && v[p].0 == k,
            None => forall|j: int| i <= j < v.len() ==> (#[trigger] v[j]).0 != k,
        },
    decreases v.len() - i,
{
    if i < v.len() && v[i].0 != k {
        lemma_place_of(v, k, i + 1);
    }
}

proof fn lemma_place_is(v: Items, k: KeyView, i: int, p: int)
    requires
        distinct(v),
        0 <= i <= p < v.len(),
        v[p].0 == k,
    ensures
        place_of(v, k, i) == Some(p),
    decreases v.len() - i,
{
    if i < p {
        assert(v[i].0 != v[p].0);
        lemma_place_is(v, k, i + 1, p);
    }
}

proof fn lemma_no_place(v: Items, k: KeyView, i: int)
    requires
        0 <= i,
        forall|j: int| i <= j < v.len() ==> (#[trigger] v[j]).0 != k,
    ensures
        place_of(v, k, i) is None,
    decreases v.len() - i,
{
    if i < v.len() {
        lemma_no_place(v, k, i + 1);
    }
}

proof fn lemma_fields_cost(h: Fields)
    ensures
        0 <= fields_cost(h),
    decreases h.len(),
{
    if h.len() > 0 {
        lemma_fields_cost(h.drop_last());
    }
}

proof fn lemma_cost(e: EntryView)
    ensures
        256 <= cost_of(e) <= u64::MAX,
{
    lemma_fields_cost(e.headers);
}

proof fn lemma_total(v: Items)
    ensures
        0 <= total(v),
    decreases v.len(),
{
    if v.len() > 0 {
        lemma_total(v.drop_last());
        lemma_cost(v.last().1);
    }
}

proof fn lemma_total_remove(v: Items, i: int)
    requires
        0 <= i < v.len(),
    ensures
        total(v.remove(i)) == total(v) - cost_of(v[i].1),
        cost_of(v[i].1) <= total(v),
    decreases v.len(),
{
    let p = v.drop_last();
    lemma_total(p);
    lemma_cost(v.last().1);
    if i == v.len() - 1 {
        assert(v.remove(i) =~= p);
    } else {
        lemma_total_remove(p, i);
        let r = v.remove(i);
        assert(r.drop_last() =~= p.remove(i));
        assert(r.last() == v.last());
    }
}

proof fn lemma_total_update(v: Items, i: int, x: (KeyView, EntryView))
    requires
        0 <= i < v.len(),
        cost_of(x.1) == cost_of(v[i].1),
    ensures
        total(v.update(i, x)) == total(v),
    decreases v.len(),
{
    let p = v.drop_last();
    let u = v.update(i, x);
    if i == v.len() - 1 {
        assert(u.drop_last() =~= p);
    } else {
        lemma_total_update(p, i, x);
        assert(u.drop_last() =~= p.update(i, x));
        assert(u.last() == v.last());
    }
}

proof fn lemma_distinct_remove(v: Items, i: int)
    requires
        distinct(v),
        0 <= i < v.len(),
    ensures
        distinct(v.remove(i)),
        forall|j: int| 0 <= j < v.len() - 1 ==> (#[trigger] v.remove(i)[j]).0 != v[i].0,
{
    let r = v.remove(i);
    assert forall|a: int, b: int| 0 <= a < b < r.len() implies (#[trigger] r[a]).0 != (
    #[trigger] r[b]).0 by {
        let p: int = if a < i {
            a
        } else {
            a + 1
        };
        let q: int = if b < i {
            b
        } else {
            b + 1
        };
        assert(v[p].0 != v[q].0);
    }
    assert forall|j: int| 0 <= j < v.len() - 1 implies (#[trigger] r[j]).0 != v[i].0 by {
        let p: int = if j < i {
            j
        } else {
            j + 1
        };
        if p < i {
            assert(v[p].0 != v[i].0);
        } else {
            assert(v[i].0 != v[p].0);
        }
    }
}

proof fn lemma_oldest(v: Items, n: int)
    requires
        1 <= n <= v.len(),
    ensures
        0 <= oldest(v, n) < n,
        forall|j: int|
            0 <= j < n ==> v[oldest(v, n)].1.last_used.nanos <= (#[trigger] v[j]).1.last_used.nanos,
    decreases n,
{
    if n > 1 {
        lemma_oldest(v, n - 1);
    }
}

/// Every item of the one list stands in the other.
pub open spec fn within(v: Items, w: Items) -> bool {
    forall|i: int| 0 <= i < v.len() ==> #[trigger] w.contains(v[i])
}

proof fn lemma_remove_within(v: Items, i: int)
    requires
        0 <= i < v.len(),
    ensures
        within(v.remove(i), v),
{
    let r = v.remove(i);
    assert forall|j: int| 0 <= j < r.len() implies #[trigger] v.contains(r[j]) by {
        if j < i {
            assert(v[j] == r[j]);
        } else {
            assert(v[j + 1] == r[j]);
        }
    }
}

proof fn lemma_within_trans(a: Items, b: Items, c: Items)
    requires
        within(a, b),
        within(b, c),
    ensures
        within(a, c),
{
    assert forall|i: int| 0 <= i < a.len() implies #[trigger] c.contains(a[i]) by {
        assert(b.contains(a[i]));
        let j = choose|j: int| 0 <= j < b.len() && b[j] == a[i];
        assert(c.contains(b[j]));
    }
}

proof fn lemma_evicted(v: Items, cost: int, max_bytes: u64, max_entries: usize)
    requires
        distinct(v),
    ensures
        ({
            let (rest, n) = evicted(v, cost, max_bytes, max_entries);
            &&& distinct(rest)
            &&& within(rest, v)
            &&& rest.len() + n == v.len()
            &&& rest.len() == 0 || fits(rest, cost, max_bytes, max_entries)
            &&& total(rest) <= total(v)
        }),
    decreases v.len(),
{
    if v.len() == 0 || fits(v, cost, max_bytes, max_entries) {
        assert(within(v, v));
    } else {
        let i = oldest(v, v.len() as int);
        lemma_oldest(v, v.len() as int);
        lemma_distinct_remove(v, i);
        lemma_total_remove(v, i);
        lemma_cost(v[i].1);
        lemma_remove_within(v, i);
        lemma_evicted(v.remove(i), cost, max_bytes, max_entries);
        let (rest, n) = evicted(v.remove(i), cost, max_bytes, max_entries);
        lemma_within_trans(rest, v.remove(i), v);
    }
}

impl Shard {
    /// The items.
    pub open spec fn items(&self) -> Items {
        Seq::new(self.map@.len(), |i: int| (self.map@[i].0@, self.map@[i].1@))
    }

    /// No key twice, the bytes are those of the items, and both bounds hold.
    pub open spec fn wf(&self, max_bytes: u64, max_entries: usize) -> bool {
        &&& distinct(self.items())
        &&& self.bytes == total(self.items())
        &&& self.bytes <= max_bytes
        &&& self.items().len() <= max_entries
    }

    fn find(&self, key: &Key) -> (r: Option<usize>)
        ensures
            match r {
                Some(i) => place_of(self.items(), key@, 0) == Some(i as int) && i
                    < self.map@.len(),
                None => place_of(self.items(), key@, 0) is None,
            },
    {
        let mut i: usize = 0;
        while i < self.map.len()
            invariant
                i <= self.map@.len(),
                place_of(self.items(), key@, 0) == place_of(self.items(), key@, i as int),
            decreases self.map.len() - i,
        {
            assert(self.items()[i as int].0 == self.map@[i as int].0@);
            if same_key(&self.map[i].0, key) {
                return Some(i);
            }
            i = i + 1;
        }
        None
    }

    fn take_out(&mut self, i: usize)
        requires
            i < old(self).map@.len(),
            distinct(old(self).items()),
            old(self).bytes == total(old(self).items()),
        ensures
            final(self).items() == old(self).items().remove(i as int),
            distinct(final(self).items()),
            final(self).bytes == total(final(self).items()),
            final(self).bytes <= old(self).bytes,
            final(self).map@.len() == old(self).map@.len() - 1,
    {
        let ghost was = self.items();
        proof {
            lemma_total_remove(was, i as int);
            lemma_distinct_remove(was, i as int);
            lemma_cost(was[i as int].1);
        }
        let cost: u64 = self.map[i].1.cost();
        let gone = self.map.remove(i);
        self.bytes = self.bytes - cost;
        assert(self.items() =~= was.remove(i as int));
    }

    fn oldest_item(&self) -> (r: usize)
        requires
            self.map@.len() > 0,
        ensures
            r == oldest(self.items(), self.items().len() as int),
            r < self.map@.len(),
    {
        let mut best: usize = 0;
        let mut i: usize = 1;
        while i < self.map.len()
            invariant
                1 <= i <= self.map@.len(),
                best == oldest(self.items(), i as int),
                best < i,
            decreases self.map.len() - i,
        {
            assert(self.items()[i as int].1 == self.map@[i as int].1@);
            assert(self.items()[best as int].1 == self.map@[best as int].1@);
            if self.map[i].1.last_used.nanos < self.map[best].1.last_used.nanos {
                best = i;
            }
            i = i + 1;
        }
        best
    }

    fn insert(&mut self, key: Key, entry: Entry, max_bytes: u64, max_entries: usize) -> (r: (
        u64,
        bool,
    ))
        requires
            old(self).wf(max_bytes, max_entries),
            max_entries >= 1,
        ensures
            final(self).wf(max_bytes, max_entries),
            ({
                let (items, n, stored) = put(
                    old(self).items(),
                    key@,
                    entry@,
                    max_bytes,
                    max_entries,
                );
                final(self).items() == items && r.0 == n && r.1 == stored
            }),
    {
        let cost: u64 = entry.cost();
        let ghost e = entry@;
        let ghost start = self.items();
        proof {
            lemma_place_of(start, key@, 0);
            lemma_cost(e);
        }
        if let Some(i) = self.find(&key) {
            proof {
                lemma_distinct_remove(start, i as int);
            }
            self.take_out(i);
        }
        let ghost base = self.items();
        assert(base == dropped(start, key@));
        assert(forall|j: int| 0 <= j < base.len() ==> (#[trigger] base[j]).0 != key@);
        proof {
            lemma_evicted(base, cost as int, max_bytes, max_entries);
        }
        let mut gone: u64 = 0;
        while self.map.len() > 0 && (cost > max_bytes || self.bytes > max_bytes - cost
            || self.map.len() >= max_entries)
            invariant
                max_entries >= 1,
                distinct(self.items()),
                self.bytes == total(self.items()),
                self.bytes <= max_bytes,
                self.items().len() <= max_entries,
                gone + self.map@.len() == base.len(),
                base.len() <= usize::MAX,
                evicted(base, cost as int, max_bytes, max_entries).0 == evicted(
                    self.items(),
                    cost as int,
                    max_bytes,
                    max_entries,
                ).0,
                evicted(base, cost as int, max_bytes, max_entries).1 == evicted(
                    self.items(),
                    cost as int,
                    max_bytes,
                    max_entries,
                ).1 + gone,
            decreases self.map.len(),
        {
            let i: usize = self.oldest_item();
            self.take_out(i);
            gone = gone + 1;
        }
        assert(self.map@.len() == self.items().len());
        let ghost rest = self.items();
        assert(rest == evicted(base, cost as int, max_bytes, max_entries).0);
        assert forall|j: int| 0 <= j < rest.len() implies (#[trigger] rest[j]).0 != key@ by {
            assert(base.contains(rest[j]));
            let b = choose|b: int| 0 <= b < base.len() && base[b] == rest[j];
            assert(base[b].0 != key@);
        }
        if cost > max_bytes {
            return (gone, false);
        }
        let ghost k = key@;
        self.bytes = self.bytes + cost;
        self.map.push((key, entry));
        assert(self.items() =~= rest.push((k, e)));
        assert(self.items().drop_last() =~= rest);
        assert(distinct(self.items())) by {
            let v = self.items();
            assert forall|a: int, b: int| 0 <= a < b < v.len() implies (#[trigger] v[a]).0 != (
            #[trigger] v[b]).0 by {
                if b < rest.len() {
                    assert(rest[a].0 != rest[b].0);
                } else {
                    assert(rest[a].0 != k);
                }
            }
        }
        (gone, true)
    }
}


/// What a look into a part finds.
#[derive(Debug)]
pub enum Probe {
    Nothing,
    Fresh(CachedResponse),
    Stale(Option<String>, Option<String>),
    VaryIndex(Vec<String>),
}

impl View for Probe {
    type V = Found;

    open spec fn view(&self) -> Found {
        match *self {
            Probe::Nothing => Found::Nothing,
            Probe::Fresh(r) => Found::Fresh(r@),
            Probe::Stale(e, m) => Found::Stale(maybe(e), maybe(m)),
            Probe::VaryIndex(names) => Found::VaryIndex(texts(names@)),
        }
    }
}

/// A key of this route, host and target, in any variant.
pub open spec fn targets(k: KeyView, route: usize, host: Seq<char>, target: Seq<char>) -> bool {
    k.route == route && k.host == host && k.target == target && k.method == "GET"@
}

/// Items without those of a route, host and target.
pub open spec fn spared(v: Items, route: usize, host: Seq<char>, target: Seq<char>) -> Items
    decreases v.len(),
{
    if v.len() == 0 {
        v
    } else {
        let r = spared(v.drop_last(), route, host, target);
        if targets(v.last().0, route, host, target) {
            r
        } else {
            r.push(v.last())
        }
    }
}

/// The age of an entry in whole seconds.
pub open spec fn age_of(e: EntryView, now: Instant) -> int {
    elapsed(now, e.stored_at) / 1_000_000_000
}

/// An entry that was found unchanged: fresh again from now on.
pub open spec fn restamped(e: EntryView, ttl: Duration, now: Instant) -> EntryView {
    EntryView { stored_at: now, ttl, last_used: now, ..e }
}

impl Shard {
    proof fn lemma_touched(v: Items, i: int, x: (KeyView, EntryView))
        requires
            0 <= i < v.len(),
            distinct(v),
            x.0 == v[i].0,
            x.1.headers == v[i].1.headers,
            x.1.body == v[i].1.body,
        ensures
            distinct(v.update(i, x)),
            total(v.update(i, x)) == total(v),
    {
        lemma_total_update(v, i, x);
        let u = v.update(i, x);
        assert forall|a: int, b: int| 0 <= a < b < u.len() implies (#[trigger] u[a]).0 != (
        #[trigger] u[b]).0 by {
            assert(v[a].0 != v[b].0);
        }
    }

    fn probe(&mut self, key: &Key, now: Instant) -> (r: Probe)
        requires
            distinct(old(self).items()),
            old(self).bytes == total(old(self).items()),
        ensures
            r@ == found(old(self).items(), key@, now),
            final(self).items() == looked(old(self).items(), key@, now),
            distinct(final(self).items()),
            final(self).bytes == total(final(self).items()),
            final(self).bytes <= old(self).bytes,
            final(self).items().len() <= old(self).items().len(),
    {
        let ghost was = self.items();
        proof {
            lemma_place_of(was, key@, 0);
        }
        match self.find(key) {
            None => Probe::Nothing,
            Some(i) => {
                assert(was[i as int].1 == self.map@[i as int].1@);
                assert(was[i as int].0 == key@);
                assert(pairs(key.vary@).len() == key.vary@.len());
                assert(texts(self.map@[i as int].1.vary_names@).len()
                    == self.map@[i as int].1.vary_names@.len());
                if key.vary.len() == 0 && self.map[i].1.vary_names.len() > 0 {
                    return Probe::VaryIndex(clone_texts(&self.map[i].1.vary_names));
                }
                let fresh = self.map[i].1.is_fresh(now);
                if fresh || self.map[i].1.has_validator() {
                    let age: u64 = self.map[i].1.age_secs(now);
                    let r = if fresh {
                        Probe::Fresh(hand_out(&self.map[i].1, age))
                    } else {
                        Probe::Stale(
                            copy_text(&self.map[i].1.etag),
                            copy_text(&self.map[i].1.last_modified),
                        )
                    };
                    self.map[i].1.last_used = now;
                    proof {
                        let e = was[i as int].1;
                        let x = (key@, EntryView { last_used: now, ..e });
                        assert(self.items() =~= was.update(i as int, x));
                        Self::lemma_touched(was, i as int, x);
                    }
                    r
                } else {
                    self.take_out(i);
                    Probe::Nothing
                }
            },
        }
    }

    fn restamp(&mut self, key: &Key, ttl: Duration, now: Instant) -> (r: Option<CachedResponse>)
        requires
            distinct(old(self).items()),
            old(self).bytes == total(old(self).items()),
        ensures
            match place_of(old(self).items(), key@, 0) {
                None => r is None && final(self).items() == old(self).items(),
                Some(i) => {
                    let e = old(self).items()[i].1;
                    &&& r is Some
                    &&& r->0@ == handed_out(e, 0)
                    &&& final(self).items() == old(self).items().update(
                        i,
                        (key@, restamped(e, ttl, now)),
                    )
                },
            },
            distinct(final(self).items()),
            final(self).bytes == total(final(self).items()),
            final(self).bytes == old(self).bytes,
            final(self).items().len() == old(self).items().len(),
    {
        let ghost was = self.items();
        proof {
            lemma_place_of(was, key@, 0);
        }
        match self.find(key) {
            None => None,
            Some(i) => {
                let r = hand_out(&self.map[i].1, 0);
                assert(was[i as int].1 == self.map@[i as int].1@);
                self.map[i].1.stored_at = now;
                self.map[i].1.ttl = ttl;
                self.map[i].1.last_used = now;
                proof {
                    let x = (key@, restamped(was[i as int].1, ttl, now));
                    assert(self.items() =~= was.update(i as int, x));
                    Self::lemma_touched(was, i as int, x);
                }
                Some(r)
            },
        }
    }

    fn forget(&mut self, route: usize, host: &str, target: &str) -> (n: u64)
        requires
            distinct(old(self).items()),
            old(self).bytes == total(old(self).items()),
        ensures
            final(self).items() == spared(old(self).items(), route, host@, target@),
            n == old(self).items().len() - final(self).items().len(),
            distinct(final(self).items()),
            final(self).bytes == total(final(self).items()),
            final(self).bytes <= old(self).bytes,
            final(self).items().len() <= old(self).items().len(),
    {
        let ghost was = self.items();
        let len: usize = self.map.len();
        let ghost mut j: int = 0;
        let mut n: u64 = 0;
        let mut i: usize = 0;
        assert(was.take(0) =~= Seq::empty());
        assert(self.items() =~= spared(was.take(0), route, host@, target@) + was.skip(0));
        while i < self.map.len()
            invariant
                0 <= j <= was.len() == len,
                i + n == j,
                i == spared(was.take(j), route, host@, target@).len(),
                self.items() == spared(was.take(j), route, host@, target@) + was.skip(j),
                distinct(self.items()),
                self.bytes == total(self.items()),
                self.bytes <= old(self).bytes,
            decreases self.map.len() - i,
        {
            let ghost front = spared(was.take(j), route, host@, target@);
            assert(self.items().len() == front.len() + was.len() - j);
            assert(self.items()[i as int] == was[j]);
            assert(was.take(j + 1).drop_last() =~= was.take(j));
            assert(was.take(j + 1).last() == was[j]);
            let k = &self.map[i].0;
            assert(k@ == was[j].0);
            if k.route == route && same(k.host.as_str(), host) && same(k.target.as_str(), target)
                && same(k.method.as_str(), "GET") {
                self.take_out(i);
                assert(self.items() =~= front + was.skip(j + 1));
                n = n + 1;
            } else {
                assert(self.items() =~= front.push(was[j]) + was.skip(j + 1));
                i = i + 1;
            }
            proof {
                j = j + 1;
            }
        }
        assert(was.take(j) =~= was) by {
            assert(self.items().len() == i + was.len() - j);
        }
        assert(self.items() =~= spared(was, route, host@, target@));
        n
    }
}

} // verus!
