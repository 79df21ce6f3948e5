//! The store as a whole.

use std::collections::hash_map::DefaultHasher;
use std::hash::Hasher;

use vstd::prelude::*;
use vstd::std_specs::hash::DefaultHasherAdditionalSpecFns;
use vstd::string::StringExecFns;
use vstd::utf8::encode_utf8;

use super::{
    cost_of, distinct, dropped, entry_of, evicted, fits, found, handed_out, is_fresh_at, key_of,
    lemma_cost, lemma_distinct_remove, lemma_evicted, lemma_no_place, lemma_oldest, lemma_place_is, lemma_place_of,
    lemma_remove_within, lemma_total_remove, lemma_within_trans, looked, oldest, place_of, put,
    restamped, spared, targets, total, value_or_empty, variant, within, CachedResponse, CachedView,
    Entry, EntryView, Found, InputView, Items, Key, KeyInput, KeyView, Probe, Shard,
};
use crate::count::{bump, bump_by, bumped, bumped_by};
use crate::http::{lookup, Fields};
use crate::middleware::options::clone_texts;
use crate::middleware::ratelimit::{bytes_of, low_bytes};
use crate::order::{
    by_pair, law_sorting_forgets_the_order, law_sorting_keeps_the_items, lemma_pairs_are_ordered,
    sorted,
};
use crate::text::{decimal, decimal_of, lower, maybe, own, pairs, texts};
use crate::time::{elapsed, Duration, Instant};

verus! {

/// The parts of the store.
pub const SHARDS: usize = 16;

/// The bytes that are cached at most, if nothing else is said.
pub const DEFAULT_MAX_BYTES: u64 = 67_108_864;

/// The entries that are cached at most, if nothing else is said.
pub const DEFAULT_MAX_ENTRIES: usize = 4096;

/// The largest body that is cached, if nothing else is said.
pub const DEFAULT_MAX_BODY: u64 = 1_048_576;

/// Counters of the cache's events.
#[derive(Debug, Clone, Copy, PartialEq, Eq, Structural)]
pub struct CacheStats {
    pub hits: u64,
    pub misses: u64,
    pub revalidated: u64,
    pub stored: u64,
    pub evicted: u64,
    pub invalidated: u64,
}

/// The response cache.
#[derive(Debug)]
pub struct Cache {
    pub shards: Vec<Shard>,
    pub max_bytes_per_shard: u64,
    pub max_entries_per_shard: usize,
    /// The largest body that is stored.
    pub max_body: u64,
    pub stats: CacheStats,
}

/// What the cache holds.
pub struct CacheView {
    pub shards: Seq<Items>,
    pub max_bytes: u64,
    pub max_entries: usize,
    pub max_body: u64,
    pub stats: CacheStats,
}

/// The cache's answer.
#[derive(Debug)]
pub enum Lookup {
    /// Nothing usable.
    Miss,
    /// A fresh response.
    Hit(CachedResponse),
    /// An expired response that the origin may find unchanged. The key is handed out
    /// because the request is rewritten before it is needed again.
    Stale { key: Key, etag: Option<String>, last_modified: Option<String> },
}

/// What the cache answers.
pub enum LookupView {
    Miss,
    Hit(CachedView),
    Stale(KeyView, Option<Seq<char>>, Option<Seq<char>>),
}

impl View for Lookup {
    type V = LookupView;

    open spec fn view(&self) -> LookupView {
        match *self {
            Lookup::Miss => LookupView::Miss,
            Lookup::Hit(r) => LookupView::Hit(r@),
            Lookup::Stale { key, etag, last_modified } => LookupView::Stale(
                key@,
                maybe(etag),
                maybe(last_modified),
            ),
        }
    }
}

/// A text with its end marked.
pub open spec fn marked(s: Seq<char>) -> Seq<u8> {
    encode_utf8(s).push(255u8)
}

/// Pairs of texts, each with its end marked.
pub open spec fn marked_pairs(v: Fields) -> Seq<u8>
    decreases v.len(),
{
    if v.len() == 0 {
        Seq::empty()
    } else {
        marked_pairs(v.drop_last()) + marked(v.last().0) + marked(v.last().1)
    }
}

/// The bytes of a key that are hashed.
pub open spec fn key_bytes(k: KeyView) -> Seq<u8> {
    low_bytes(k.route as nat, 8) + marked(k.method) + marked(k.host) + marked(k.target)
        + low_bytes(k.vary.len(), 8) + marked_pairs(k.vary)
}

/// The part that a key belongs to: std's default hash of its bytes.
pub open spec fn part(k: KeyView) -> int {
    DefaultHasher::spec_finish(seq![key_bytes(k)]) as int % 16
}

fn append_marked(out: Vec<u8>, s: &str) -> (r: Vec<u8>)
    ensures
        r@ == out@ + marked(s@),
{
    let mut r = out;
    let mut bytes = vstd::slice::slice_to_vec(s.as_bytes());
    r.append(&mut bytes);
    r.push(255u8);
    assert(r@ =~= out@ + marked(s@));
    r
}

fn shard_index(key: &Key) -> (i: usize)
    ensures
        i == part(key@),
        i < SHARDS,
{
    let a = bytes_of(key.route as u128, 8);
    let b = append_marked(a, key.method.as_str());
    let c = append_marked(b, key.host.as_str());
    let mut out = append_marked(c, key.target.as_str());
    let mut count = bytes_of(key.vary.len() as u128, 8);
    out.append(&mut count);
    let ghost front = low_bytes(key.route as nat, 8) + marked(key@.method) + marked(key@.host)
        + marked(key@.target) + low_bytes(key@.vary.len(), 8);
    assert(key@.vary.len() == key.vary@.len());
    assert(out@ =~= front);
    let mut i: usize = 0;
    let ghost v = key@.vary;
    assert(out@ =~= front + marked_pairs(v.take(0)));
    while i < key.vary.len()
        invariant
            i <= key.vary@.len(),
            v == pairs(key.vary@),
            out@ == front + marked_pairs(v.take(i as int)),
        decreases key.vary.len() - i,
    {
        let ghost t = v.take(i + 1);
        assert(t.drop_last() =~= v.take(i as int));
        assert(t.last() == (key.vary@[i as int].0@, key.vary@[i as int].1@));
        let one = append_marked(out, key.vary[i].0.as_str());
        out = append_marked(one, key.vary[i].1.as_str());
        assert(out@ =~= front + marked_pairs(t));
        i = i + 1;
    }
    assert(v.take(i as int) =~= v);
    let mut h = DefaultHasher::new();
    h.write(out.as_slice());
    assert(h@ =~= seq![key_bytes(key@)]);
    (h.finish() % 16) as usize
}

/// The entry of a key.
pub open spec fn at(c: CacheView, k: KeyView) -> Option<EntryView> {
    entry_of(c.shards[part(k)], k)
}

/// The cache with one part changed.
pub open spec fn with_part(c: CacheView, i: int, items: Items) -> CacheView {
    CacheView { shards: c.shards.update(i, items), ..c }
}

/// The cache after a look for a key.
pub open spec fn probed(c: CacheView, k: KeyView, now: Instant) -> CacheView {
    with_part(c, part(k), looked(c.shards[part(k)], k, now))
}

/// What a look for a key finds.
pub open spec fn finds(c: CacheView, k: KeyView, now: Instant) -> Found {
    found(c.shards[part(k)], k, now)
}

/// The answer to what the deciding look found, and the cache with that event
/// counted.
pub open spec fn answered(c: CacheView, k: KeyView, f: Found) -> (CacheView, LookupView) {
    match f {
        Found::Fresh(r) => (
            CacheView { stats: CacheStats { hits: bumped(c.stats.hits), ..c.stats }, ..c },
            LookupView::Hit(r),
        ),
        Found::Stale(etag, last_modified) => (c, LookupView::Stale(k, etag, last_modified)),
        _ => (
            CacheView { stats: CacheStats { misses: bumped(c.stats.misses), ..c.stats }, ..c },
            LookupView::Miss,
        ),
    }
}

/// The cache after a lookup, and its answer. The first look is for the key without
/// variant; where that says by which headers the response varies, a second look is
/// for the key with this request's values of them.
pub open spec fn looked_up(c: CacheView, input: InputView, now: Instant) -> (
    CacheView,
    LookupView,
) {
    let base = key_of(input, Seq::empty());
    let c1 = probed(c, base, now);
    match finds(c, base, now) {
        Found::VaryIndex(names) => {
            let varied = key_of(input, names);
            answered(probed(c1, varied, now), varied, finds(c1, varied, now))
        },
        f => answered(c1, base, f),
    }
}

/// The cache after an entry was put in, how many others went for it, and whether it
/// is in.
pub open spec fn inserted(c: CacheView, k: KeyView, e: EntryView) -> (CacheView, nat, bool) {
    let (items, n, stored) = put(c.shards[part(k)], k, e, c.max_bytes, c.max_entries);
    (with_part(c, part(k), items), n, stored)
}

/// The key without variant.
pub open spec fn index_key(k: KeyView) -> KeyView {
    KeyView { vary: Seq::empty(), ..k }
}

/// The longer of two spans.
pub open spec fn longer(a: Duration, b: Duration) -> Duration {
    if b.nanos > a.nanos {
        b
    } else {
        a
    }
}

/// The entry that says by which headers a response varies. It lives for a minute at
/// least.
pub open spec fn index_entry(e: EntryView) -> EntryView {
    EntryView {
        status: 0,
        reason: Seq::empty(),
        headers: Seq::empty(),
        body: Seq::empty(),
        stored_at: e.stored_at,
        ttl: longer(e.ttl, Duration { nanos: 60_000_000_000 }),
        etag: None,
        last_modified: None,
        vary_names: e.vary_names,
        last_used: e.stored_at,
    }
}

/// The cache with the index of a varying response put in.
pub open spec fn indexed(c: CacheView, k: KeyView, e: EntryView) -> CacheView {
    if e.vary_names.len() > 0 && k.vary.len() > 0 {
        inserted(c, index_key(k), index_entry(e)).0
    } else {
        c
    }
}

/// The cache after a response was handed to it. One with a body over the limit
/// changes nothing. What went for the response is counted, what went for its index
/// is not, and `stored` counts the responses that are in.
pub open spec fn stored_in(c: CacheView, k: KeyView, e: EntryView) -> CacheView {
    if e.body.len() > c.max_body {
        c
    } else {
        let (c2, n, stored) = inserted(indexed(c, k, e), k, e);
        CacheView {
            stats: CacheStats {
                evicted: bumped_by(c.stats.evicted, n),
                stored: if stored {
                    bumped(c.stats.stored)
                } else {
                    c.stats.stored
                },
                ..c.stats
            },
            ..c2
        }
    }
}

/// The cache after an entry was found unchanged.
pub open spec fn restamped_in(c: CacheView, k: KeyView, ttl: Duration, now: Instant) -> CacheView {
    let items = c.shards[part(k)];
    match place_of(items, k, 0) {
        None => c,
        Some(i) => CacheView {
            stats: CacheStats { revalidated: bumped(c.stats.revalidated), ..c.stats },
            ..with_part(c, part(k), items.update(i, (k, restamped(items[i].1, ttl, now))))
        },
    }
}

/// The items of the first `n` parts.
pub open spec fn count_items(parts: Seq<Items>) -> nat
    decreases parts.len(),
{
    if parts.len() == 0 {
        0
    } else {
        count_items(parts.drop_last()) + parts.last().len()
    }
}

/// Every part without the items of a route, host and target.
pub open spec fn spared_parts(
    parts: Seq<Items>,
    route: usize,
    host: Seq<char>,
    target: Seq<char>,
) -> Seq<Items> {
    Seq::new(parts.len(), |i: int| spared(parts[i], route, host, target))
}

/// The cache after the entries of a route, host and target were dropped.
pub open spec fn invalidated(
    c: CacheView,
    route: usize,
    host: Seq<char>,
    target: Seq<char>,
) -> CacheView {
    let parts = spared_parts(c.shards, route, host, target);
    CacheView {
        shards: parts,
        stats: CacheStats {
            invalidated: bumped_by(
                c.stats.invalidated,
                (count_items(c.shards) - count_items(parts)) as nat,
            ),
            ..c.stats
        },
        ..c
    }
}

/// A line of the cache's counters; one of zero has no line.
pub open spec fn event_line(label: Seq<char>, n: u64) -> Seq<char> {
    if n > 0 {
        "ferrum_cache_events_total{result=\""@ + label + "\"} "@ + decimal(n as nat) + "\n"@
    } else {
        Seq::empty()
    }
}

/// The counters as Prometheus text.
pub open spec fn stats_text(s: CacheStats) -> Seq<char> {
    "# HELP ferrum_cache_events_total Cache activity by outcome.\n# TYPE ferrum_cache_events_total counter\n"@
        + event_line("hit"@, s.hits) + event_line("miss"@, s.misses) + event_line(
        "revalidated"@,
        s.revalidated,
    ) + event_line("stored"@, s.stored) + event_line("evicted"@, s.evicted) + event_line(
        "invalidated"@,
        s.invalidated,
    )
}

fn append_event(out: String, label: &str, n: u64) -> (r: String)
    ensures
        r@ == out@ + event_line(label@, n),
{
    if n > 0 {
        let d = decimal_of(n);
        let line = own("ferrum_cache_events_total{result=\"").concat(label).concat("\"} ").concat(
            d.as_str(),
        ).concat("\n");
        out.concat(line.as_str())
    } else {
        assert(out@ + event_line(label@, n) =~= out@);
        out
    }
}

impl View for Cache {
    type V = CacheView;

    open spec fn view(&self) -> CacheView {
        CacheView {
            shards: Seq::new(self.shards@.len(), |i: int| self.shards@[i].items()),
            max_bytes: self.max_bytes_per_shard,
            max_entries: self.max_entries_per_shard,
            max_body: self.max_body,
            stats: self.stats,
        }
    }
}

/// A bound for one part.
pub open spec fn share(n: int) -> int {
    if n / 16 >= 1 {
        n / 16
    } else {
        1
    }
}

/// An empty cache of those bounds, which are shared out among the parts.
pub open spec fn empty_cache(max_bytes: u64, max_entries: usize, max_body: u64) -> CacheView {
    CacheView {
        shards: Seq::new(16, |i: int| Seq::empty()),
        max_bytes: share(max_bytes as int) as u64,
        max_entries: share(max_entries as int) as usize,
        max_body,
        stats: CacheStats {
            hits: 0,
            misses: 0,
            revalidated: 0,
            stored: 0,
            evicted: 0,
            invalidated: 0,
        },
    }
}

impl Cache {
    /// Every part holds no key twice, knows its bytes, and keeps both bounds.
    pub open spec fn wf(&self) -> bool {
        &&& self.shards@.len() == 16
        &&& self.max_entries_per_shard >= 1
        &&& forall|i: int|
            0 <= i < 16 ==> (#[trigger] self.shards@[i]).wf(
                self.max_bytes_per_shard,
                self.max_entries_per_shard,
            )
    }

    /// An empty cache of those bounds, which are shared out among the parts.
    pub fn new(max_bytes: u64, max_entries: usize, max_body: u64) -> (c: Cache)
        ensures
            c.wf(),
            c@ == empty_cache(max_bytes, max_entries, max_body),
    {
        let mut shards: Vec<Shard> = Vec::new();
        let mut i: usize = 0;
        while i < 16
            invariant
                i <= 16,
                shards@.len() == i,
                forall|k: int|
                    0 <= k < i ==> (#[trigger] shards@[k]).map@.len() == 0 && shards@[k].bytes == 0,
            decreases 16 - i,
        {
            shards.push(Shard { map: Vec::new(), bytes: 0 });
            i = i + 1;
        }
        let b: u64 = max_bytes / 16;
        let n: usize = max_entries / 16;
        let c = Cache {
            shards,
            max_bytes_per_shard: if b >= 1 {
                b
            } else {
                1
            },
            max_entries_per_shard: if n >= 1 {
                n
            } else {
                1
            },
            max_body,
            stats: CacheStats {
                hits: 0,
                misses: 0,
                revalidated: 0,
                stored: 0,
                evicted: 0,
                invalidated: 0,
            },
        };
        assert forall|k: int| 0 <= k < 16 implies #[trigger] c@.shards[k] == Seq::<
            (KeyView, EntryView),
        >::empty() by {
            assert(c.shards@[k].map@.len() == 0);
            assert(c.shards@[k].items() =~= Seq::empty());
        }
        assert forall|k: int| 0 <= k < 16 implies (#[trigger] c.shards@[k]).wf(
            c.max_bytes_per_shard,
            c.max_entries_per_shard,
        ) by {
            assert(c.shards@[k].map@.len() == 0);
        }
        assert(c@.shards =~= empty_cache(max_bytes, max_entries, max_body).shards);
        c
    }

    fn probe(&mut self, key: &Key, now: Instant) -> (r: Probe)
        requires
            old(self).wf(),
        ensures
            final(self).wf(),
            final(self)@ == probed(old(self)@, key@, now),
            r@ == finds(old(self)@, key@, now),
    {
        let i: usize = shard_index(key);
        let r = self.shards[i].probe(key, now);
        assert(self@.shards =~= probed(old(self)@, key@, now).shards);
        r
    }

    /// Looks up the response to a request.
    pub fn lookup(&mut self, input: &KeyInput, now: Instant) -> (r: Lookup)
        requires
            old(self).wf(),
        ensures
            final(self).wf(),
            (final(self)@, r@) == looked_up(old(self)@, input@, now),
    {
        let none: Vec<String> = Vec::new();
        assert(texts(none@) =~= Seq::empty());
        let base = Key::build(input, none.as_slice());
        match self.probe(&base, now) {
            Probe::VaryIndex(names) => {
                let varied = Key::build(input, names.as_slice());
                let p = self.probe(&varied, now);
                self.answer(varied, p)
            },
            p => self.answer(base, p),
        }
    }

    fn answer(&mut self, key: Key, p: Probe) -> (r: Lookup)
        requires
            old(self).wf(),
        ensures
            final(self).wf(),
            (final(self)@, r@) == answered(old(self)@, key@, p@),
    {
        let r = match p {
            Probe::Fresh(r) => {
                self.stats.hits = bump(self.stats.hits);
                Lookup::Hit(r)
            },
            Probe::Stale(etag, last_modified) => Lookup::Stale { key, etag, last_modified },
            _ => {
                self.stats.misses = bump(self.stats.misses);
                Lookup::Miss
            },
        };
        assert(self@.shards =~= old(self)@.shards);
        r
    }

    fn insert(&mut self, key: Key, entry: Entry) -> (r: (u64, bool))
        requires
            old(self).wf(),
        ensures
            final(self).wf(),
            final(self)@ == inserted(old(self)@, key@, entry@).0,
            r.0 == inserted(old(self)@, key@, entry@).1,
            r.1 == inserted(old(self)@, key@, entry@).2,
    {
        let i: usize = shard_index(&key);
        let ghost want = inserted(self@, key@, entry@).0;
        let bytes: u64 = self.max_bytes_per_shard;
        let entries: usize = self.max_entries_per_shard;
        let r = self.shards[i].insert(key, entry, bytes, entries);
        assert(self@.shards =~= want.shards);
        r
    }

    /// Stores a response under its key, whose variant is that of the response's own
    /// names. A body over the limit is not stored, which is no error.
    pub fn store(&mut self, key: Key, entry: Entry)
        requires
            old(self).wf(),
        ensures
            final(self).wf(),
            final(self)@ == stored_in(old(self)@, key@, entry@),
    {
        if entry.body.len() as u64 > self.max_body {
            return;
        }
        let ghost k = key@;
        let ghost e = entry@;
        assert(e.vary_names.len() == entry.vary_names@.len());
        assert(k.vary.len() == key.vary@.len());
        if entry.vary_names.len() > 0 && key.vary.len() > 0 {
            let ik = Key {
                route: key.route,
                method: own(key.method.as_str()),
                host: own(key.host.as_str()),
                target: own(key.target.as_str()),
                vary: Vec::new(),
            };
            assert(pairs(ik.vary@) =~= Seq::empty());
            let ttl = if entry.ttl.nanos < 60_000_000_000 {
                Duration { nanos: 60_000_000_000 }
            } else {
                entry.ttl
            };
            let ie = Entry {
                status: 0,
                reason: String::new(),
                headers: Vec::new(),
                body: Vec::new(),
                stored_at: entry.stored_at,
                ttl,
                etag: None,
                last_modified: None,
                vary_names: clone_texts(&entry.vary_names),
                last_used: entry.stored_at,
            };
            assert(ie@.reason =~= Seq::empty());
            assert(ie@.headers =~= Seq::empty());
            assert(ie@.body =~= Seq::empty());
            assert(ik@ == index_key(k));
            assert(ie@ == index_entry(e));
            let _ = self.insert(ik, ie);
        }
        assert(self@ == indexed(old(self)@, k, e));
        let (gone, stored) = self.insert(key, entry);
        let ghost mid = self@;
        self.stats.evicted = bump_by(self.stats.evicted, gone);
        if stored {
            self.stats.stored = bump(self.stats.stored);
        }
        assert(self@.shards =~= mid.shards);
    }

    /// Makes a stale entry fresh again from now on, after the origin has found it
    /// unchanged, and hands it out. Nothing, if the entry has gone meanwhile.
    pub fn restamp(&mut self, key: &Key, new_ttl: Duration, now: Instant) -> (r: Option<
        CachedResponse,
    >)
        requires
            old(self).wf(),
        ensures
            final(self).wf(),
            final(self)@ == restamped_in(old(self)@, key@, new_ttl, now),
            match at(old(self)@, key@) {
                None => r is None,
                Some(e) => r is Some && r->0@ == handed_out(e, 0),
            },
    {
        let i: usize = shard_index(key);
        let r = self.shards[i].restamp(key, new_ttl, now);
        if r.is_some() {
            self.stats.revalidated = bump(self.stats.revalidated);
        }
        assert(self@.shards =~= restamped_in(old(self)@, key@, new_ttl, now).shards);
        r
    }

    /// Drops every variant of a target, and its index: for the answer without error
    /// to a request that may have changed it.
    pub fn invalidate(&mut self, route: usize, host: &str, target: &str)
        requires
            old(self).wf(),
        ensures
            final(self).wf(),
            final(self)@ == invalidated(old(self)@, route, host@, target@),
    {
        let ghost was = self@.shards;
        let ghost want = spared_parts(was, route, host@, target@);
        let mut removed: u64 = 0;
        let mut i: usize = 0;
        assert(was.take(0) =~= want.take(0));
        assert(want.take(0) + was.skip(0) =~= was);
        while i < 16
            invariant
                i <= 16,
                self.wf(),
                was == old(self)@.shards,
                was.len() == 16,
                want == spared_parts(was, route, host@, target@),
                self@ == (CacheView { shards: want.take(i as int) + was.skip(i as int), ..old(self)@
                }),
                removed == (count_items(was.take(i as int)) - count_items(want.take(i as int)))
                    % 0x1_0000_0000_0000_0000,
                count_items(was.take(i as int)) >= count_items(want.take(i as int)),
            decreases 16 - i,
        {
            assert(was.take(i + 1).drop_last() =~= was.take(i as int));
            assert(want.take(i + 1).drop_last() =~= want.take(i as int));
            assert(self@.shards[i as int] == was[i as int]);
            let ghost before = self@.shards;
            let n: u64 = self.shards[i].forget(route, host, target);
            assert(self@.shards =~= before.update(i as int, want[i as int]));
            removed = bump_by(removed, n);
            assert(self@.shards =~= want.take(i + 1) + was.skip(i + 1));
            i = i + 1;
        }
        assert(want.take(16) =~= want);
        assert(was.take(16) =~= was);
        assert(want.take(16) + was.skip(16) =~= want);
        self.stats.invalidated = bump_by(self.stats.invalidated, removed);
        assert(self@.shards =~= want);
    }

    /// The counters as Prometheus text.
    pub fn render_prometheus(&self) -> (r: String)
        ensures
            r@ == stats_text(self.stats),
    {
        let a = own(
            "# HELP ferrum_cache_events_total Cache activity by outcome.\n# TYPE ferrum_cache_events_total counter\n",
        );
        let b = append_event(a, "hit", self.stats.hits);
        let c = append_event(b, "miss", self.stats.misses);
        let d = append_event(c, "revalidated", self.stats.revalidated);
        let e = append_event(d, "stored", self.stats.stored);
        let f = append_event(e, "evicted", self.stats.evicted);
        append_event(f, "invalidated", self.stats.invalidated)
    }
}

// ---------------------------------------------------------------------------
// What holds of the store
// ---------------------------------------------------------------------------

/// No part holds a key twice, and each keeps both bounds.
pub open spec fn sound(c: CacheView) -> bool {
    &&& c.shards.len() == 16
    &&& c.max_entries >= 1
    &&& forall|i: int|
        0 <= i < 16 ==> distinct(#[trigger] c.shards[i]) && total(c.shards[i]) <= c.max_bytes
            && c.shards[i].len() <= c.max_entries
}

/// A cache never holds more than its bounds, nor one key twice.
pub proof fn law_the_cache_is_bounded(c: Cache)
    requires
        c.wf(),
    ensures
        sound(c@),
{
    assert forall|i: int| 0 <= i < 16 implies distinct(#[trigger] c@.shards[i]) && total(
        c@.shards[i],
    ) <= c@.max_bytes && c@.shards[i].len() <= c@.max_entries by {
        assert(c.shards@[i].wf(c.max_bytes_per_shard, c.max_entries_per_shard));
    }
}

proof fn lemma_kept_entry(v: Items, w: Items, k: KeyView)
    requires
        distinct(v),
        within(w, v),
        entry_of(w, k) is Some,
    ensures
        entry_of(v, k) == entry_of(w, k),
{
    lemma_place_of(w, k, 0);
    let p = place_of(w, k, 0)->0;
    assert(v.contains(w[p]));
    let q = choose|q: int| 0 <= q < v.len() && v[q] == w[p];
    lemma_place_is(v, k, 0, q);
}

proof fn lemma_dropped(v: Items, k: KeyView)
    requires
        distinct(v),
    ensures
        distinct(dropped(v, k)),
        within(dropped(v, k), v),
        forall|j: int| 0 <= j < dropped(v, k).len() ==> (#[trigger] dropped(v, k)[j]).0 != k,
{
    lemma_place_of(v, k, 0);
    match place_of(v, k, 0) {
        Some(i) => {
            lemma_distinct_remove(v, i);
            lemma_remove_within(v, i);
        },
        None => {
            assert(within(v, v));
        },
    }
}

proof fn lemma_put(v: Items, k: KeyView, e: EntryView, max_bytes: u64, max_entries: usize)
    requires
        distinct(v),
    ensures
        ({
            let (items, n, stored) = put(v, k, e, max_bytes, max_entries);
            &&& distinct(items)
            &&& stored == (cost_of(e) <= max_bytes)
            &&& entry_of(items, k) == if stored {
                Some(e)
            } else {
                None
            }
            &&& forall|k2: KeyView|
                k2 != k && #[trigger] entry_of(items, k2) is Some ==> entry_of(v, k2) == entry_of(
                    items,
                    k2,
                )
        }),
{
    let base = dropped(v, k);
    lemma_dropped(v, k);
    lemma_evicted(base, cost_of(e), max_bytes, max_entries);
    let (rest, n) = evicted(base, cost_of(e), max_bytes, max_entries);
    lemma_within_trans(rest, base, v);
    assert forall|j: int| 0 <= j < rest.len() implies (#[trigger] rest[j]).0 != k by {
        assert(base.contains(rest[j]));
        let b = choose|b: int| 0 <= b < base.len() && base[b] == rest[j];
        assert(base[b].0 != k);
    }
    let (items, m, stored) = put(v, k, e, max_bytes, max_entries);
    if stored {
        assert forall|a: int, b: int| 0 <= a < b < items.len() implies (#[trigger] items[a]).0 != (
        #[trigger] items[b]).0 by {
            if b < rest.len() {
                assert(rest[a].0 != rest[b].0);
            } else {
                assert(rest[a].0 != k);
            }
        }
        lemma_place_is(items, k, 0, items.len() - 1);
    } else {
        lemma_no_place(items, k, 0);
    }
    assert forall|k2: KeyView| k2 != k && #[trigger] entry_of(items, k2) is Some implies entry_of(
        v,
        k2,
    ) == entry_of(items, k2) by {
        lemma_place_of(items, k2, 0);
        let p = place_of(items, k2, 0)->0;
        assert(items[p] == rest[p]);
        lemma_place_is(rest, k2, 0, p);
        lemma_kept_entry(v, rest, k2);
    }
}

/// What is put in is found under its key.
pub proof fn lemma_inserted(c: CacheView, k: KeyView, e: EntryView)
    requires
        sound(c),
    ensures
        ({
            let (c2, n, stored) = inserted(c, k, e);
            &&& c2.shards.len() == 16
            &&& forall|i: int| 0 <= i < 16 ==> distinct(#[trigger] c2.shards[i])
            &&& stored == (cost_of(e) <= c.max_bytes)
            &&& at(c2, k) == if stored {
                Some(e)
            } else {
                None
            }
            &&& forall|k2: KeyView|
                k2 != k && #[trigger] at(c2, k2) is Some ==> at(c, k2) == at(c2, k2)
        }),
{
    assert(distinct(c.shards[part(k)]));
    lemma_put(c.shards[part(k)], k, e, c.max_bytes, c.max_entries);
    let c2 = inserted(c, k, e).0;
    assert forall|i: int| 0 <= i < 16 implies distinct(#[trigger] c2.shards[i]) by {
        assert(distinct(c.shards[i]));
    }
    assert forall|k2: KeyView| k2 != k && #[trigger] at(c2, k2) is Some implies at(c, k2) == at(
        c2,
        k2,
    ) by {
        if part(k2) == part(k) {
            assert(entry_of(c2.shards[part(k)], k2) is Some);
        }
    }
}

/// What is stored is what is found: a fresh response that does not vary, and that
/// fits, answers every request with its key.
pub proof fn law_a_stored_response_is_found(
    c: CacheView,
    input: InputView,
    e: EntryView,
    now: Instant,
)
    requires
        sound(c),
        e.vary_names.len() == 0,
        e.body.len() <= c.max_body,
        cost_of(e) <= c.max_bytes,
        is_fresh_at(e, now),
    ensures
        looked_up(stored_in(c, key_of(input, Seq::empty()), e), input, now).1 == LookupView::Hit(
            handed_out(e, (elapsed(now, e.stored_at) / 1_000_000_000) as u64),
        ),
{
    let k = key_of(input, Seq::empty());
    lemma_inserted(c, k, e);
    assert(at(stored_in(c, k, e), k) == Some(e));
}

/// A fresh response that varies answers every request with the same values of the
/// headers that it varies by, as long as its index was not evicted.
pub proof fn law_a_stored_variant_is_found(
    c: CacheView,
    input: InputView,
    e: EntryView,
    now: Instant,
)
    requires
        sound(c),
        e.vary_names.len() > 0,
        e.body.len() <= c.max_body,
        cost_of(e) <= c.max_bytes,
        is_fresh_at(e, now),
        at(
            stored_in(c, key_of(input, e.vary_names), e),
            key_of(input, Seq::empty()),
        ) is Some,
    ensures
        looked_up(stored_in(c, key_of(input, e.vary_names), e), input, now).1 == LookupView::Hit(
            handed_out(e, (elapsed(now, e.stored_at) / 1_000_000_000) as u64),
        ),
{
    let k = key_of(input, e.vary_names);
    let base = key_of(input, Seq::empty());
    lemma_sorted_pairs(variant(input.headers, e.vary_names));
    lemma_sorted_pairs(variant(input.headers, Seq::empty()));
    assert(base.vary =~= Seq::empty());
    assert(base == index_key(k));
    lemma_inserted(c, base, index_entry(e));
    let c1 = indexed(c, k, e);
    lemma_index_keeps(c, k, e);
    lemma_inserted(c1, k, e);
    let c2 = stored_in(c, k, e);
    assert(at(c2, k) == at(inserted(c1, k, e).0, k));
    assert(at(c2, base) == at(inserted(c1, k, e).0, base));
    assert(at(c2, base) == Some(index_entry(e)));
    assert(probed(c2, base, now).shards =~= c2.shards);
}

/// Storing keeps the cache sound.
proof fn lemma_index_keeps(c: CacheView, k: KeyView, e: EntryView)
    requires
        sound(c),
    ensures
        sound(indexed(c, k, e)),
{
    if e.vary_names.len() > 0 && k.vary.len() > 0 {
        let ik = index_key(k);
        let ie = index_entry(e);
        lemma_inserted(c, ik, ie);
        let c1 = inserted(c, ik, ie).0;
        let v = c.shards[part(ik)];
        assert(distinct(v) && total(v) <= c.max_bytes && v.len() <= c.max_entries);
        let base = dropped(v, ik);
        lemma_dropped(v, ik);
        lemma_place_of(v, ik, 0);
        if let Some(i) = place_of(v, ik, 0) {
            lemma_total_remove(v, i);
            lemma_cost(v[i].1);
        }
        lemma_evicted(base, cost_of(ie), c.max_bytes, c.max_entries);
        let rest = evicted(base, cost_of(ie), c.max_bytes, c.max_entries).0;
        assert(rest.push((ik, ie)).drop_last() =~= rest);
        assert forall|i: int| 0 <= i < 16 implies distinct(#[trigger] c1.shards[i]) && total(
            c1.shards[i],
        ) <= c1.max_bytes && c1.shards[i].len() <= c1.max_entries by {
            assert(distinct(c.shards[i]));
        }
    }
}

/// A response from the cache is one that was stored under the request's own route,
/// method, host and target, and with the request's own values of the headers that
/// the response varies by.
pub proof fn law_a_hit_has_the_key_of_its_request(c: CacheView, input: InputView, now: Instant)
    requires
        sound(c),
        looked_up(c, input, now).1 is Hit,
    ensures
        exists|names: Seq<Seq<char>>|
            match at(c, #[trigger] key_of(input, names)) {
                Some(e) => is_fresh_at(e, now) && looked_up(c, input, now).1->Hit_0 == handed_out(
                    e,
                    (elapsed(now, e.stored_at) / 1_000_000_000) as u64,
                ),
                None => false,
            },
{
    let base = key_of(input, Seq::empty());
    match finds(c, base, now) {
        Found::VaryIndex(names) => {
            assert(probed(c, base, now).shards =~= c.shards);
            assert(at(c, key_of(input, names)) is Some);
        },
        f => {
            assert(at(c, base) is Some);
        },
    }
}

proof fn lemma_sorted_pairs(s: Fields)
    ensures
        sorted(s, by_pair()).len() == s.len(),
        forall|x: (Seq<char>, Seq<char>)| #[trigger]
            sorted(s, by_pair()).contains(x) <==> s.contains(x),
{
    broadcast use vstd::seq_lib::group_to_multiset_ensures;

    lemma_pairs_are_ordered();
    law_sorting_keeps_the_items(s, by_pair());
    let r = sorted(s, by_pair());
    assert forall|x: (Seq<char>, Seq<char>)| #[trigger] r.contains(x) <==> s.contains(x) by {
        assert(r.to_multiset().count(x) == s.to_multiset().count(x));
    }
}

proof fn lemma_lookup_folds(h: Fields, a: Seq<char>, b: Seq<char>)
    requires
        lower(a) == lower(b),
    ensures
        lookup(h, a) == lookup(h, b),
    decreases h.len(),
{
    if h.len() > 0 {
        lemma_lookup_folds(h.drop_first(), a, b);
    }
}

/// Two requests that differ in a header that the response varies by have different
/// keys: neither is ever answered with the other's variant.
pub proof fn law_variants_never_meet(a: InputView, b: InputView, names: Seq<Seq<char>>, i: int)
    requires
        0 <= i < names.len(),
        value_or_empty(a.headers, names[i]) != value_or_empty(b.headers, names[i]),
    ensures
        key_of(a, names) != key_of(b, names),
{
    let va = variant(a.headers, names);
    let vb = variant(b.headers, names);
    lemma_sorted_pairs(va);
    lemma_sorted_pairs(vb);
    let x = va[i];
    assert(va.contains(x));
    assert(sorted(va, by_pair()).contains(x));
    if vb.contains(x) {
        let j = choose|j: int| 0 <= j < vb.len() && vb[j] == x;
        assert(lower(names[j]) == lower(names[i]));
        lemma_lookup_folds(b.headers, names[i], names[j]);
        assert(false);
    }
    assert(!sorted(vb, by_pair()).contains(x));
}

proof fn lemma_variants_of_same_names(h: Fields, a: Seq<Seq<char>>, b: Seq<Seq<char>>)
    requires
        a.to_multiset() == b.to_multiset(),
    ensures
        variant(h, a).to_multiset() == variant(h, b).to_multiset(),
    decreases a.len(),
{
    broadcast use vstd::multiset::group_multiset_axioms, vstd::seq_lib::group_to_multiset_ensures;

    assert(a.len() == a.to_multiset().len() && b.len() == b.to_multiset().len());
    if a.len() == 0 {
        assert(variant(h, a) =~= variant(h, b));
    } else {
        let x = a.last();
        let p = a.drop_last();
        let item = (lower(x), value_or_empty(h, x));
        assert(a.contains(x)) by {
            assert(a[a.len() - 1] == x);
        }
        assert(a.to_multiset().count(x) > 0);
        assert(b.contains(x));
        let i = choose|i: int| 0 <= i < b.len() && b[i] == x;
        let q = b.remove(i);
        assert(p =~= a.remove(a.len() - 1));
        assert(p.to_multiset() =~= q.to_multiset());
        lemma_variants_of_same_names(h, p, q);
        assert(variant(h, a) =~= variant(h, p).push(item));
        assert(variant(h, b).remove(i) =~= variant(h, q));
        assert(variant(h, b)[i] == item);
        assert(variant(h, b).to_multiset() =~= variant(h, q).to_multiset().insert(item)) by {
            assert(variant(h, b).contains(item));
            assert(variant(h, b).to_multiset().count(item) > 0);
        }
        assert(variant(h, a).to_multiset() =~= variant(h, p).to_multiset().insert(item));
    }
}

/// The order in which a response names the headers that it varies by does not split
/// its variants: the key is the same.
pub proof fn law_the_order_of_names_does_not_matter(
    input: InputView,
    a: Seq<Seq<char>>,
    b: Seq<Seq<char>>,
)
    requires
        a.to_multiset() == b.to_multiset(),
    ensures
        key_of(input, a) == key_of(input, b),
{
    lemma_variants_of_same_names(input.headers, a, b);
    lemma_pairs_are_ordered();
    law_sorting_forgets_the_order(
        variant(input.headers, a),
        variant(input.headers, b),
        by_pair(),
    );
}

/// An entry that was found stale, and that the origin then calls unchanged, answers
/// the same request again until its new time is over.
pub proof fn law_a_restamped_entry_is_served(
    c: CacheView,
    input: InputView,
    found_at: Instant,
    ttl: Duration,
    now: Instant,
    later: Instant,
)
    requires
        sound(c),
        looked_up(c, input, found_at).1 is Stale,
        elapsed(later, now) < ttl.nanos,
    ensures
        ({
            let (c1, stale) = looked_up(c, input, found_at);
            let k = stale->Stale_0;
            &&& at(c1, k) is Some
            &&& looked_up(restamped_in(c1, k, ttl, now), input, later).1 == LookupView::Hit(
                handed_out(at(c1, k)->0, (elapsed(later, now) / 1_000_000_000) as u64),
            )
        }),
{
    let base = key_of(input, Seq::empty());
    let (c1, stale) = looked_up(c, input, found_at);
    let k = stale->Stale_0;
    let i = part(k);
    assert(distinct(c.shards[i]));
    lemma_sorted_pairs(variant(input.headers, Seq::empty()));
    assert(base.vary =~= Seq::empty());
    assert(c.shards[part(base)].len() >= 0 && distinct(c.shards[part(base)]));
    if finds(c, base, found_at) is VaryIndex {
        let names = finds(c, base, found_at)->VaryIndex_0;
        assert(k == key_of(input, names));
        lemma_sorted_pairs(variant(input.headers, names));
        assert(k.vary.len() == names.len() && names.len() > 0);
        assert(probed(c, base, found_at).shards =~= c.shards);
    } else {
        assert(k == base);
    }
    let v = c.shards[i];
    let v1 = c1.shards[i];
    lemma_place_of(v, k, 0);
    let p = place_of(v, k, 0)->0;
    let e = v[p].1;
    assert(v1 == v.update(p, (k, EntryView { last_used: found_at, ..e })));
    Shard::lemma_touched(v, p, (k, EntryView { last_used: found_at, ..e }));
    lemma_place_is(v1, k, 0, p);
    let e1 = v1[p].1;
    let c2 = restamped_in(c1, k, ttl, now);
    let x = (k, restamped(e1, ttl, now));
    let v2 = c2.shards[i];
    assert(v2 == v1.update(p, x));
    Shard::lemma_touched(v1, p, x);
    lemma_place_is(v2, k, 0, p);
    assert(at(c2, k) == Some(x.1));
    if k != base {
        lemma_place_of(c.shards[part(base)], base, 0);
        let b = place_of(c.shards[part(base)], base, 0)->0;
        assert(c2.shards[part(base)][b] == c.shards[part(base)][b]) by {
            if part(base) == i {
                assert(b != p);
            }
        }
        lemma_place_is(c2.shards[part(base)], base, 0, b);
        assert(at(c2, base) == at(c, base));
        assert(probed(c2, base, later).shards =~= c2.shards);
    }
}

proof fn lemma_spared(v: Items, route: usize, host: Seq<char>, target: Seq<char>, k: KeyView)
    ensures
        entry_of(spared(v, route, host, target), k) == if targets(k, route, host, target) {
            None
        } else {
            entry_of(v, k)
        },
    decreases v.len(),
{
    if v.len() > 0 {
        let p = v.drop_last();
        lemma_spared(p, route, host, target, k);
        lemma_entry_last(v, k);
        let r = spared(p, route, host, target);
        if !targets(v.last().0, route, host, target) {
            assert(r.push(v.last()).drop_last() =~= r);
            lemma_entry_last(r.push(v.last()), k);
        }
    }
}

proof fn lemma_entry_last(v: Items, k: KeyView)
    requires
        v.len() > 0,
    ensures
        entry_of(v, k) == match entry_of(v.drop_last(), k) {
            Some(e) => Some(e),
            None => if v.last().0 == k {
                Some(v.last().1)
            } else {
                None
            },
        },
{
    lemma_place_last(v, k, 0);
    lemma_place_of(v.drop_last(), k, 0);
}

proof fn lemma_place_last(v: Items, k: KeyView, i: int)
    requires
        0 <= i < v.len(),
    ensures
        place_of(v, k, i) == match place_of(v.drop_last(), k, i) {
            Some(p) => Some(p),
            None => if v.last().0 == k {
                Some(v.len() - 1)
            } else {
                None
            },
        },
    decreases v.len() - i,
{
    if i < v.len() - 1 && v[i].0 != k {
        lemma_place_last(v, k, i + 1);
    } else if i == v.len() - 1 {
        assert(place_of(v, k, i + 1) is None);
    }
}

/// After a target was invalidated no request for it is answered from the cache, in
/// any variant; every other entry stays.
pub proof fn law_invalidation_reaches_every_variant(
    c: CacheView,
    route: usize,
    host: Seq<char>,
    target: Seq<char>,
    input: InputView,
    k: KeyView,
    now: Instant,
)
    requires
        sound(c),
    ensures
        targets(k, route, host, target) ==> at(invalidated(c, route, host, target), k) is None,
        !targets(k, route, host, target) ==> at(invalidated(c, route, host, target), k) == at(c, k),
        input.route == route && input.host == host && input.target == target && input.method
            == "GET"@ ==> looked_up(invalidated(c, route, host, target), input, now).1 is Miss,
{
    let i = part(k);
    lemma_spared(c.shards[i], route, host, target, k);
    let base = key_of(input, Seq::empty());
    lemma_spared(c.shards[part(base)], route, host, target, base);
}

/// What makes room for a newcomer is what was used longest ago: whatever goes was
/// used no later than anything that stays.
pub proof fn law_the_longest_unused_go_first(
    v: Items,
    cost: int,
    max_bytes: u64,
    max_entries: usize,
    i: int,
    j: int,
)
    requires
        0 <= i < v.len(),
        0 <= j < evicted(v, cost, max_bytes, max_entries).0.len(),
        !evicted(v, cost, max_bytes, max_entries).0.contains(v[i]),
    ensures
        v[i].1.last_used.nanos <= evicted(
            v,
            cost,
            max_bytes,
            max_entries,
        ).0[j].1.last_used.nanos,
    decreases v.len(),
{
    if v.len() == 0 || fits(v, cost, max_bytes, max_entries) {
        assert(v.contains(v[i]));
    } else {
        let o = oldest(v, v.len() as int);
        lemma_oldest(v, v.len() as int);
        let r = v.remove(o);
        let rest = evicted(r, cost, max_bytes, max_entries).0;
        if i == o {
            lemma_evicted_within(r, cost, max_bytes, max_entries);
            lemma_remove_within(v, o);
            lemma_within_trans(rest, r, v);
            assert(v.contains(rest[j]));
            let b = choose|b: int| 0 <= b < v.len() && v[b] == rest[j];
            assert(v[o].1.last_used.nanos <= v[b].1.last_used.nanos);
        } else {
            let q: int = if i < o {
                i
            } else {
                i - 1
            };
            assert(r[q] == v[i]);
            law_the_longest_unused_go_first(r, cost, max_bytes, max_entries, q, j);
        }
    }
}

proof fn lemma_evicted_within(v: Items, cost: int, max_bytes: u64, max_entries: usize)
    ensures
        within(evicted(v, cost, max_bytes, max_entries).0, v),
    decreases v.len(),
{
    if v.len() == 0 || fits(v, cost, max_bytes, max_entries) {
        assert(within(v, v));
    } else {
        let i = oldest(v, v.len() as int);
        lemma_oldest(v, v.len() as int);
        lemma_evicted_within(v.remove(i), cost, max_bytes, max_entries);
        lemma_remove_within(v, i);
        lemma_within_trans(
            evicted(v.remove(i), cost, max_bytes, max_entries).0,
            v.remove(i),
            v,
        );
    }
}

} // verus!
