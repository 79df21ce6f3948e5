//! The metrics registry: counters, gauges, histograms, and the Prometheus text.
//!
//! Labels come from the configuration, never from a request: a label that a client
//! could choose would be a series for each of its requests.

use vstd::prelude::*;
use vstd::string::StringExecFns;

use crate::balancer::breaker::low64;
use crate::count::{bump, bumped};
use crate::text::{
    chars_of, decimal, decimal_of, dropped_end, own, padded, same, texts, trim_end_char,
    zero_padded,
};
use crate::time::Duration;

verus! {

/// The upper bounds of the histogram's buckets, in nanoseconds: from 1 millisecond
/// to 5 seconds. They are part of the schema.
pub const BUCKET_BOUNDS: [u64; 8] = [
    1_000_000,
    5_000_000,
    10_000_000,
    50_000_000,
    100_000_000,
    500_000_000,
    1_000_000_000,
    5_000_000_000,
];

/// The number of finite buckets.
pub const BUCKETS: usize = 8;

/// The upper bound of a bucket in nanoseconds.
pub open spec fn bound(i: int) -> int {
    if i == 0 {
        1_000_000
    } else if i == 1 {
        5_000_000
    } else if i == 2 {
        10_000_000
    } else if i == 3 {
        50_000_000
    } else if i == 4 {
        100_000_000
    } else if i == 5 {
        500_000_000
    } else if i == 6 {
        1_000_000_000
    } else {
        5_000_000_000
    }
}

/// The upper bound of a bucket in seconds, as text.
pub open spec fn bound_text(i: int) -> Seq<char> {
    if i == 0 {
        "0.001"@
    } else if i == 1 {
        "0.005"@
    } else if i == 2 {
        "0.01"@
    } else if i == 3 {
        "0.05"@
    } else if i == 4 {
        "0.1"@
    } else if i == 5 {
        "0.5"@
    } else if i == 6 {
        "1"@
    } else {
        "5"@
    }
}

fn shown_bound(i: usize) -> (r: &'static str)
    ensures
        r@ == bound_text(i as int),
{
    if i == 0 {
        "0.001"
    } else if i == 1 {
        "0.005"
    } else if i == 2 {
        "0.01"
    } else if i == 3 {
        "0.05"
    } else if i == 4 {
        "0.1"
    } else if i == 5 {
        "0.5"
    } else if i == 6 {
        "1"
    } else {
        "5"
    }
}

/// The first bucket from `i` on that a duration fits, or the number of buckets.
pub open spec fn bucket_from(nanos: int, i: int) -> int
    decreases BUCKETS - i,
{
    if i >= BUCKETS || nanos <= bound(i) {
        i
    } else {
        bucket_from(nanos, i + 1)
    }
}

// ---------------------------------------------------------------------------
// Histograms
// ---------------------------------------------------------------------------

/// One histogram: eight finite buckets, one for everything longer, a sum and a
/// count. Each observation counts in one bucket; the cumulative counts are made
/// when the text is rendered.
#[derive(Debug)]
pub struct Histogram {
    pub buckets: Vec<u64>,
    pub inf: u64,
    pub sum_micros: u64,
    pub count: u64,
}

/// What a histogram holds.
pub struct HistView {
    pub buckets: Seq<u64>,
    pub inf: u64,
    pub sum_micros: u64,
    pub count: u64,
}

impl View for Histogram {
    type V = HistView;

    open spec fn view(&self) -> HistView {
        HistView {
            buckets: self.buckets@,
            inf: self.inf,
            sum_micros: self.sum_micros,
            count: self.count,
        }
    }
}

/// The count of the first `n` buckets together; it wraps around.
pub open spec fn running(b: Seq<u64>, n: int) -> u64
    decreases n,
{
    if n <= 0 {
        0
    } else {
        running(b, n - 1).wrapping_add(b[n - 1])
    }
}

/// The count of all buckets together.
pub open spec fn running_all(h: HistView) -> u64 {
    running(h.buckets, BUCKETS as int).wrapping_add(h.inf)
}

/// A valid histogram: eight buckets, and the count is that of all buckets.
pub open spec fn hist_wf(h: HistView) -> bool {
    h.buckets.len() == BUCKETS && h.count == running_all(h)
}

/// A histogram without observations.
pub open spec fn empty_hist() -> HistView {
    HistView { buckets: Seq::new(8, |i: int| 0u64), inf: 0, sum_micros: 0, count: 0 }
}

/// A histogram after one more observation: exactly one bucket counts it.
pub open spec fn observed(h: HistView, d: Duration) -> HistView {
    let i: int = bucket_from(d.nanos as int, 0);
    HistView {
        buckets: if i < BUCKETS {
            h.buckets.update(i, bumped(h.buckets[i]))
        } else {
            h.buckets
        },
        inf: if i < BUCKETS {
            h.inf
        } else {
            bumped(h.inf)
        },
        sum_micros: h.sum_micros.wrapping_add(low64((d.nanos / 1000) as u128)),
        count: bumped(h.count),
    }
}

proof fn lemma_bucket_from(nanos: int, i: int)
    requires
        0 <= i <= BUCKETS,
    ensures
        i <= bucket_from(nanos, i) <= BUCKETS,
    decreases BUCKETS - i,
{
    if i < BUCKETS && nanos > bound(i) {
        lemma_bucket_from(nanos, i + 1);
    }
}

proof fn lemma_running_update(b: Seq<u64>, i: int, n: int)
    requires
        0 <= i < b.len(),
        0 <= n <= b.len(),
    ensures
        running(b.update(i, bumped(b[i])), n) == if i < n {
            bumped(running(b, n))
        } else {
            running(b, n)
        },
    decreases n,
{
    if n > 0 {
        lemma_running_update(b, i, n - 1);
    }
}

/// Each observation counts once: the count of all buckets together is the number
/// of observations, whichever bucket each one falls in.
pub proof fn law_each_observation_counts_once(h: HistView, d: Duration)
    requires
        hist_wf(h),
    ensures
        hist_wf(observed(h, d)),
        running_all(observed(h, d)) == bumped(running_all(h)),
{
    let i: int = bucket_from(d.nanos as int, 0);
    lemma_bucket_from(d.nanos as int, 0);
    if i < BUCKETS {
        lemma_running_update(h.buckets, i, BUCKETS as int);
    }
}

/// The observations in the first `n` buckets, as many as there are.
pub open spec fn counted(b: Seq<u64>, n: int) -> int
    decreases n,
{
    if n <= 0 {
        0
    } else {
        counted(b, n - 1) + b[n - 1]
    }
}

/// The observations in all buckets, as many as there are.
pub open spec fn counted_all(h: HistView) -> int {
    counted(h.buckets, BUCKETS as int) + h.inf
}

proof fn lemma_counted_update(b: Seq<u64>, i: int, n: int)
    requires
        0 <= i < b.len(),
        0 <= n <= b.len(),
        b[i] < u64::MAX,
    ensures
        counted(b.update(i, bumped(b[i])), n) == counted(b, n) + if i < n {
            1int
        } else {
            0
        },
    decreases n,
{
    if n > 0 {
        lemma_counted_update(b, i, n - 1);
    }
}

proof fn lemma_counted_grows(b: Seq<u64>, i: int, j: int)
    requires
        0 <= i <= j <= b.len(),
    ensures
        0 <= counted(b, i) <= counted(b, j),
        i < j ==> b[i] <= counted(b, j),
    decreases j,
{
    if i < j {
        lemma_counted_grows(b, i, j - 1);
        if i == j - 1 {
            lemma_counted_grows(b, i, i);
        }
    } else if i > 0 {
        lemma_counted_grows(b, i - 1, j - 1);
    }
}

proof fn lemma_running_counts(b: Seq<u64>, n: int)
    requires
        0 <= n <= b.len(),
        counted(b, n) <= u64::MAX,
    ensures
        running(b, n) == counted(b, n),
    decreases n,
{
    if n > 0 {
        lemma_counted_grows(b, n - 1, n);
        lemma_running_counts(b, n - 1);
    }
}

/// The buckets hold every observation: one more adds one to them together, as long as
/// their number fits the count.
pub proof fn law_the_buckets_hold_every_observation(h: HistView, d: Duration)
    requires
        hist_wf(h),
        counted_all(h) < u64::MAX,
    ensures
        counted_all(empty_hist()) == 0,
        counted_all(observed(h, d)) == counted_all(h) + 1,
        h.count == counted_all(h),
{
    let i: int = bucket_from(d.nanos as int, 0);
    lemma_bucket_from(d.nanos as int, 0);
    reveal_with_fuel(counted, 9);
    lemma_counted_grows(h.buckets, 0, BUCKETS as int);
    lemma_running_counts(h.buckets, BUCKETS as int);
    if i < BUCKETS {
        lemma_counted_grows(h.buckets, i, BUCKETS as int);
        lemma_counted_update(h.buckets, i, BUCKETS as int);
    }
}

/// What is counted up to a bound never falls as the bound rises, and what is counted
/// without a bound is the number of observations, as long as that number fits the
/// count.
pub proof fn law_counts_never_fall_as_bounds_rise(h: HistView, i: int, j: int)
    requires
        hist_wf(h),
        counted_all(h) <= u64::MAX,
        0 <= i <= j <= BUCKETS,
    ensures
        running(h.buckets, i) <= running(h.buckets, j) <= running_all(h),
        running_all(h) == h.count,
        h.count == counted_all(h),
{
    lemma_counted_grows(h.buckets, i, j);
    lemma_counted_grows(h.buckets, j, BUCKETS as int);
    lemma_running_counts(h.buckets, i);
    lemma_running_counts(h.buckets, j);
    lemma_running_counts(h.buckets, BUCKETS as int);
}

impl Histogram {
    /// A histogram without observations.
    pub fn new() -> (h: Histogram)
        ensures
            h@ == empty_hist(),
            hist_wf(h@),
    {
        let h = Histogram {
            buckets: vec![0, 0, 0, 0, 0, 0, 0, 0],
            inf: 0,
            sum_micros: 0,
            count: 0,
        };
        assert(h@.buckets =~= empty_hist().buckets);
        proof {
            reveal_with_fuel(running, 9);
        }
        h
    }

    /// Records one observation.
    pub fn observe(&mut self, d: Duration)
        requires
            hist_wf(old(self)@),
        ensures
            hist_wf(final(self)@),
            final(self)@ == observed(old(self)@, d),
    {
        let mut i: usize = 0;
        while i < BUCKETS && d.nanos > BUCKET_BOUNDS[i] as u128
            invariant
                i <= BUCKETS,
                bucket_from(d.nanos as int, 0) == bucket_from(d.nanos as int, i as int),
            decreases BUCKETS - i,
        {
            i = i + 1;
        }
        proof {
            law_each_observation_counts_once(self@, d);
        }
        if i < BUCKETS {
            let n: u64 = self.buckets[i];
            self.buckets[i] = bump(n);
        } else {
            self.inf = bump(self.inf);
        }
        let micros: u64 = (d.nanos / 1000 % 0x1_0000_0000_0000_0000) as u64;
        self.sum_micros = self.sum_micros.wrapping_add(micros);
        self.count = bump(self.count);
    }

    /// The counts up to each bound, the sum in microseconds, and the count.
    pub fn snapshot(&self) -> (r: (Vec<u64>, u64, u64))
        requires
            hist_wf(self@),
        ensures
            r.0@.len() == 9,
            forall|i: int| 0 <= i < 8 ==> #[trigger] r.0@[i] == running(self@.buckets, i + 1),
            r.0@[8] == running_all(self@),
            r.1 == self.sum_micros,
            r.2 == r.0@[8],
    {
        let mut v: Vec<u64> = Vec::new();
        let mut sum: u64 = 0;
        let mut i: usize = 0;
        while i < BUCKETS
            invariant
                i <= BUCKETS,
                hist_wf(self@),
                v@.len() == i,
                sum == running(self@.buckets, i as int),
                forall|k: int| 0 <= k < i ==> #[trigger] v@[k] == running(self@.buckets, k + 1),
            decreases BUCKETS - i,
        {
            sum = sum.wrapping_add(self.buckets[i]);
            v.push(sum);
            i = i + 1;
        }
        let all: u64 = sum.wrapping_add(self.inf);
        v.push(all);
        (v, self.sum_micros, all)
    }
}

// ---------------------------------------------------------------------------
// The registry
// ---------------------------------------------------------------------------

/// The series of one upstream.
#[derive(Debug)]
pub struct UpstreamSlot {
    pub name: String,
    /// Requests by status class, from 1xx to 5xx.
    pub by_class: Vec<u64>,
    pub connect_errors: u64,
    pub duration: Histogram,
}

/// What the series of one upstream hold.
pub struct SlotView {
    pub name: Seq<char>,
    pub by_class: Seq<u64>,
    pub connect_errors: u64,
    pub duration: HistView,
}

impl View for UpstreamSlot {
    type V = SlotView;

    open spec fn view(&self) -> SlotView {
        SlotView {
            name: self.name@,
            by_class: self.by_class@,
            connect_errors: self.connect_errors,
            duration: self.duration@,
        }
    }
}

/// What slots hold.
pub open spec fn slot_views(v: Seq<UpstreamSlot>) -> Seq<SlotView> {
    Seq::new(v.len(), |i: int| v[i]@)
}

/// Five classes and a valid histogram.
pub open spec fn slot_wf(s: SlotView) -> bool {
    s.by_class.len() == 5 && hist_wf(s.duration)
}

/// A slot without observations.
pub open spec fn empty_slot(name: Seq<char>) -> SlotView {
    SlotView {
        name,
        by_class: Seq::new(5, |i: int| 0u64),
        connect_errors: 0,
        duration: empty_hist(),
    }
}

fn new_slot(name: &str) -> (s: UpstreamSlot)
    ensures
        s@ == empty_slot(name@),
        slot_wf(s@),
{
    let s = UpstreamSlot {
        name: own(name),
        by_class: vec![0, 0, 0, 0, 0],
        connect_errors: 0,
        duration: Histogram::new(),
    };
    assert(s@.by_class =~= empty_slot(name@).by_class);
    s
}

/// The registry, one for a process.
#[derive(Debug)]
pub struct Metrics {
    pub upstreams: Vec<UpstreamSlot>,
    /// Requests that never came to an upstream.
    pub unrouted: UpstreamSlot,
    /// Refusals by the layer that refused.
    pub rejected: Vec<u64>,
    pub active_connections: i64,
    /// The duration of all requests.
    pub duration_all: Histogram,
}

/// What the registry holds.
pub struct MetricsView {
    pub upstreams: Seq<SlotView>,
    pub unrouted: SlotView,
    pub rejected: Seq<u64>,
    pub active_connections: i64,
    pub duration_all: HistView,
}

impl View for Metrics {
    type V = MetricsView;

    open spec fn view(&self) -> MetricsView {
        MetricsView {
            upstreams: slot_views(self.upstreams@),
            unrouted: self.unrouted@,
            rejected: self.rejected@,
            active_connections: self.active_connections,
            duration_all: self.duration_all@,
        }
    }
}

/// A valid registry.
pub open spec fn metrics_wf(m: MetricsView) -> bool {
    &&& forall|i: int| 0 <= i < m.upstreams.len() ==> slot_wf(#[trigger] m.upstreams[i])
    &&& slot_wf(m.unrouted)
    &&& m.rejected.len() == 5
    &&& hist_wf(m.duration_all)
}

/// A resolved upstream label: an index into the registry, or the series of the
/// requests that never came to an upstream.
#[derive(Debug, Clone, Copy, PartialEq, Eq, Structural)]
pub struct UpstreamId(pub Option<usize>);

/// The index of the first slot of a name, from `i` on.
pub open spec fn slot_named(v: Seq<SlotView>, name: Seq<char>, i: int) -> Option<usize>
    decreases v.len() - i,
{
    if i < 0 || i >= v.len() {
        None
    } else if v[i].name == name {
        Some(i as usize)
    } else {
        slot_named(v, name, i + 1)
    }
}

/// An id that belongs to the registry.
pub open spec fn known(m: MetricsView, id: UpstreamId) -> bool {
    id.0 matches Some(i) ==> i < m.upstreams.len()
}

/// The slot of an id.
pub open spec fn slot_of(m: MetricsView, id: UpstreamId) -> SlotView {
    match id.0 {
        Some(i) => m.upstreams[i as int],
        None => m.unrouted,
    }
}

/// The registry with another slot at an id.
pub open spec fn with_slot(m: MetricsView, id: UpstreamId, s: SlotView) -> MetricsView {
    match id.0 {
        Some(i) => MetricsView { upstreams: m.upstreams.update(i as int, s), ..m },
        None => MetricsView { unrouted: s, ..m },
    }
}

/// The class of a status: 0 for 1xx up to 4 for 5xx; a status outside is clamped.
pub open spec fn class_of(status: u16) -> int {
    if status < 200 {
        0
    } else if status >= 500 {
        4
    } else {
        status as int / 100 - 1
    }
}

/// The registry after a completed exchange.
pub open spec fn requested(
    m: MetricsView,
    id: UpstreamId,
    status: u16,
    d: Duration,
) -> MetricsView {
    let s = slot_of(m, id);
    let c = class_of(status);
    MetricsView {
        duration_all: observed(m.duration_all, d),
        ..with_slot(
            m,
            id,
            SlotView {
                by_class: s.by_class.update(c, bumped(s.by_class[c])),
                duration: observed(s.duration, d),
                ..s
            },
        )
    }
}

/// A registry in which nothing was counted yet, with one slot for each name.
pub open spec fn nothing_counted(names: Seq<Seq<char>>) -> MetricsView {
    MetricsView {
        upstreams: Seq::new(names.len(), |i: int| empty_slot(names[i])),
        unrouted: empty_slot("-"@),
        rejected: Seq::new(5, |i: int| 0u64),
        active_connections: 0,
        duration_all: empty_hist(),
    }
}

/// The registry with one more connection open.
pub open spec fn opened(m: MetricsView) -> MetricsView {
    MetricsView { active_connections: m.active_connections.wrapping_add(1), ..m }
}

/// The registry with one connection less open.
pub open spec fn closed_one(m: MetricsView) -> MetricsView {
    MetricsView { active_connections: m.active_connections.wrapping_sub(1), ..m }
}

/// The registry after a failed connect.
pub open spec fn unconnected(m: MetricsView, id: UpstreamId) -> MetricsView {
    with_slot(
        m,
        id,
        SlotView {
            connect_errors: bumped(slot_of(m, id).connect_errors),
            ..slot_of(m, id)
        },
    )
}

/// The registry after a refusal by a layer.
pub open spec fn turned_away(m: MetricsView, by: Seq<char>) -> MetricsView {
    MetricsView {
        rejected: m.rejected.update(rejector(by), bumped(m.rejected[rejector(by)])),
        ..m
    }
}

/// The place of a layer's refusals; a layer without one of its own counts as other.
pub open spec fn rejector(by: Seq<char>) -> int {
    if by == "ratelimit"@ {
        0
    } else if by == "auth"@ {
        1
    } else if by == "authz"@ {
        2
    } else if by == "request-id"@ {
        3
    } else {
        4
    }
}

/// The label of refusals.
pub open spec fn rejector_label(i: int) -> Seq<char> {
    if i == 0 {
        "ratelimit"@
    } else if i == 1 {
        "auth"@
    } else if i == 2 {
        "authz"@
    } else if i == 3 {
        "request-id"@
    } else {
        "other"@
    }
}

fn rejector_name(i: usize) -> (r: &'static str)
    ensures
        r@ == rejector_label(i as int),
{
    if i == 0 {
        "ratelimit"
    } else if i == 1 {
        "auth"
    } else if i == 2 {
        "authz"
    } else if i == 3 {
        "request-id"
    } else {
        "other"
    }
}

proof fn lemma_slots_stay_valid(m: MetricsView, id: UpstreamId, s: SlotView)
    requires
        metrics_wf(m),
        known(m, id),
        slot_wf(s),
    ensures
        metrics_wf(with_slot(m, id, s)),
{
    let now = with_slot(m, id, s);
    assert forall|k: int| 0 <= k < now.upstreams.len() implies slot_wf(
        #[trigger] now.upstreams[k],
    ) by {
        assert(slot_wf(m.upstreams[k]));
    }
}

fn record_in(s: &mut UpstreamSlot, class: usize, d: Duration)
    requires
        slot_wf(old(s)@),
        class < 5,
    ensures
        slot_wf(final(s)@),
        final(s)@ == (SlotView {
            by_class: old(s)@.by_class.update(
                class as int,
                bumped(old(s)@.by_class[class as int]),
            ),
            duration: observed(old(s)@.duration, d),
            ..old(s)@
        }),
{
    let n: u64 = s.by_class[class];
    s.by_class[class] = bump(n);
    s.duration.observe(d);
}

impl Metrics {
    /// The registry is valid.
    pub open spec fn wf(&self) -> bool {
        metrics_wf(self@)
    }

    /// A registry with one slot for each declared upstream.
    pub fn new(upstream_names: &[String]) -> (m: Metrics)
        ensures
            m.wf(),
            m@ == nothing_counted(texts(upstream_names@)),
    {
        let ghost want = Seq::new(
            upstream_names@.len(),
            |i: int| empty_slot(upstream_names@[i]@),
        );
        let mut upstreams: Vec<UpstreamSlot> = Vec::new();
        let mut i: usize = 0;
        assert(slot_views(upstreams@) =~= want.take(0));
        while i < upstream_names.len()
            invariant
                i <= upstream_names@.len(),
                want == Seq::new(
                    upstream_names@.len(),
                    |i: int| empty_slot(upstream_names@[i]@),
                ),
                slot_views(upstreams@) == want.take(i as int),
                forall|k: int| 0 <= k < i ==> slot_wf(#[trigger] slot_views(upstreams@)[k]),
            decreases upstream_names.len() - i,
        {
            let s = new_slot(upstream_names[i].as_str());
            let ghost sofar = upstreams@;
            upstreams.push(s);
            assert(slot_views(upstreams@) =~= slot_views(sofar).push(s@));
            assert(want.take(i + 1) =~= want.take(i as int).push(s@));
            i = i + 1;
        }
        assert(want.take(i as int) =~= want);
        let m = Metrics {
            upstreams,
            unrouted: new_slot("-"),
            rejected: vec![0, 0, 0, 0, 0],
            active_connections: 0,
            duration_all: Histogram::new(),
        };
        let ghost none = nothing_counted(texts(upstream_names@));
        assert(m@.rejected =~= none.rejected);
        assert(m@.upstreams =~= none.upstreams);
        m
    }

    /// Resolves an upstream's name.
    pub fn upstream_id(&self, name: &str) -> (id: UpstreamId)
        ensures
            id == UpstreamId(slot_named(self@.upstreams, name@, 0)),
            known(self@, id),
    {
        let mut i: usize = 0;
        while i < self.upstreams.len()
            invariant
                i <= self.upstreams@.len(),
                slot_named(self@.upstreams, name@, 0) == slot_named(
                    self@.upstreams,
                    name@,
                    i as int,
                ),
            decreases self.upstreams.len() - i,
        {
            assert(self@.upstreams[i as int] == self.upstreams@[i as int]@);
            if same(self.upstreams[i].name.as_str(), name) {
                return UpstreamId(Some(i));
            }
            i = i + 1;
        }
        UpstreamId(None)
    }

    /// The id of requests that never came to an upstream.
    pub fn unrouted_id(&self) -> (id: UpstreamId)
        ensures
            id == UpstreamId(None),
    {
        UpstreamId(None)
    }

    /// Records a completed exchange.
    pub fn record_request(&mut self, id: UpstreamId, status: u16, dur: Duration)
        requires
            old(self).wf(),
            known(old(self)@, id),
        ensures
            final(self).wf(),
            final(self)@ == requested(old(self)@, id, status, dur),
    {
        let class: usize = if status < 200 {
            0
        } else if status >= 500 {
            4
        } else {
            (status / 100) as usize - 1
        };
        let ghost was = self@;
        match id.0 {
            Some(i) => {
                assert(slot_wf(was.upstreams[i as int]));
                assert(was.upstreams[i as int] == self.upstreams@[i as int]@);
                record_in(&mut self.upstreams[i], class, dur);
                assert(self@.upstreams =~= was.upstreams.update(
                    i as int,
                    self.upstreams@[i as int]@,
                ));
            },
            None => {
                record_in(&mut self.unrouted, class, dur);
            },
        }
        self.duration_all.observe(dur);
        proof {
            lemma_slots_stay_valid(was, id, slot_of(requested(was, id, status, dur), id));
        }
        assert(self@ == requested(was, id, status, dur));
    }

    /// Records a failed connect.
    pub fn record_connect_error(&mut self, id: UpstreamId)
        requires
            old(self).wf(),
            known(old(self)@, id),
        ensures
            final(self).wf(),
            final(self)@ == unconnected(old(self)@, id),
    {
        let ghost was = self@;
        match id.0 {
            Some(i) => {
                assert(slot_wf(was.upstreams[i as int]));
                assert(was.upstreams[i as int] == self.upstreams@[i as int]@);
                let n: u64 = self.upstreams[i].connect_errors;
                self.upstreams[i].connect_errors = bump(n);
                assert(self@.upstreams =~= was.upstreams.update(
                    i as int,
                    self.upstreams@[i as int]@,
                ));
            },
            None => {
                self.unrouted.connect_errors = bump(self.unrouted.connect_errors);
            },
        }
        let ghost s = SlotView {
            connect_errors: bumped(slot_of(was, id).connect_errors),
            ..slot_of(was, id)
        };
        proof {
            lemma_slots_stay_valid(was, id, s);
        }
        assert(self@ == with_slot(was, id, s));
    }

    /// Records a refusal by a layer.
    pub fn record_rejection(&mut self, by: &str)
        requires
            old(self).wf(),
        ensures
            final(self).wf(),
            final(self)@ == turned_away(old(self)@, by@),
    {
        let i: usize = if same(by, "ratelimit") {
            0
        } else if same(by, "auth") {
            1
        } else if same(by, "authz") {
            2
        } else if same(by, "request-id") {
            3
        } else {
            4
        };
        let ghost was = self@;
        let n: u64 = self.rejected[i];
        self.rejected[i] = bump(n);
        assert(self@ == turned_away(was, by@));
    }

    /// A connection was opened.
    pub fn conn_opened(&mut self)
        ensures
            final(self)@ == opened(old(self)@),
    {
        self.active_connections = self.active_connections.wrapping_add(1);
    }

    /// A connection was closed.
    pub fn conn_closed(&mut self)
        ensures
            final(self)@ == closed_one(old(self)@),
    {
        self.active_connections = self.active_connections.wrapping_sub(1);
    }

    /// The connections that are open.
    pub fn active_connections(&self) -> (r: i64)
        ensures
            r == self.active_connections,
    {
        self.active_connections
    }
}

/// One open connection in the gauge, which is to be closed when the connection ends.
#[derive(Debug)]
pub struct ConnGauge {}

impl ConnGauge {
    /// Counts a connection as open.
    pub fn open(metrics: &mut Metrics) -> (g: ConnGauge)
        ensures
            final(metrics)@ == opened(old(metrics)@),
            old(metrics).wf() ==> final(metrics).wf(),
    {
        metrics.conn_opened();
        ConnGauge {  }
    }

    /// Counts the connection as closed.
    pub fn close(self, metrics: &mut Metrics)
        ensures
            final(metrics)@ == closed_one(old(metrics)@),
            old(metrics).wf() ==> final(metrics).wf(),
    {
        metrics.conn_closed();
    }
}

/// A connection that is opened and closed leaves the gauge as it was.
pub proof fn law_the_gauge_balances(n: i64)
    ensures
        n.wrapping_add(1).wrapping_sub(1) == n,
{
}

// ---------------------------------------------------------------------------
// The text
// ---------------------------------------------------------------------------

/// A character inside a label's value.
pub open spec fn label_char(c: char) -> Seq<char> {
    if c == '\\' {
        seq!['\\', '\\']
    } else if c == '"' {
        seq!['\\', '"']
    } else if c == '\n' {
        seq!['\\', 'n']
    } else {
        seq![c]
    }
}

/// A text inside a label's value.
pub open spec fn label_text(s: Seq<char>) -> Seq<char>
    decreases s.len(),
{
    if s.len() == 0 {
        Seq::empty()
    } else {
        label_text(s.drop_last()) + label_char(s.last())
    }
}

/// Escapes a label's value: backslash, double quote and line feed.
pub fn escape_label(s: &str) -> (out: String)
    ensures
        out@ == label_text(s@),
{
    let v = chars_of(s);
    let mut out = String::new();
    let mut i: usize = 0;
    assert(v@.take(0) =~= Seq::empty());
    while i < v.len()
        invariant
            i <= v@.len(),
            v@ == s@,
            out@ == label_text(v@.take(i as int)),
        decreases v.len() - i,
    {
        let c = v[i];
        let ghost sofar = out@;
        assert(v@.take(i + 1).drop_last() =~= v@.take(i as int));
        if c == '\\' {
            out.push('\\');
            out.push('\\');
        } else if c == '"' {
            out.push('\\');
            out.push('"');
        } else if c == '\n' {
            out.push('\\');
            out.push('n');
        } else {
            out.push(c);
        }
        assert(out@ =~= sofar + label_char(c));
        i = i + 1;
    }
    assert(v@.take(i as int) =~= s@);
    out
}

/// The value that a label's text stands for; a raw quote or line feed has no place
/// there.
pub open spec fn label_read(s: Seq<char>) -> Option<Seq<char>>
    decreases s.len(),
{
    if s.len() == 0 {
        Some(Seq::empty())
    } else if s[0] == '"' || s[0] == '\n' {
        None
    } else if s[0] != '\\' {
        match label_read(s.skip(1)) {
            None => None,
            Some(rest) => Some(seq![s[0]] + rest),
        }
    } else if s.len() < 2 {
        None
    } else {
        match label_read(s.skip(2)) {
            None => None,
            Some(rest) => Some(
                seq![
                    if s[1] == 'n' {
                        '\n'
                    } else {
                        s[1]
                    },
                ] + rest,
            ),
        }
    }
}

proof fn lemma_label_text_lead(s: Seq<char>)
    requires
        s.len() > 0,
    ensures
        label_text(s) == label_char(s[0]) + label_text(s.drop_first()),
    decreases s.len(),
{
    if s.len() == 1 {
        assert(s.drop_last() =~= Seq::empty());
        assert(s.drop_first() =~= Seq::empty());
        assert(label_text(s.drop_last()) =~= Seq::<char>::empty());
        assert(label_text(s.drop_first()) =~= Seq::<char>::empty());
        assert(label_text(s) =~= label_char(s[0]) + Seq::<char>::empty());
    } else {
        lemma_label_text_lead(s.drop_last());
        assert(s.drop_last().drop_first() =~= s.drop_first().drop_last());
        assert(label_text(s) =~= label_char(s[0]) + label_text(s.drop_first()));
    }
}

/// An escaped label, read back, is the value that was escaped: no name can end its
/// label early.
pub proof fn law_escaped_labels_read_back(s: Seq<char>)
    ensures
        label_read(label_text(s)) == Some(s),
    decreases s.len(),
{
    if s.len() == 0 {
        assert(s =~= Seq::empty());
    } else {
        let rest = s.drop_first();
        law_escaped_labels_read_back(rest);
        lemma_label_text_lead(s);
        let t = label_char(s[0]) + label_text(rest);
        assert(t[0] == label_char(s[0])[0]);
        if label_char(s[0]).len() == 2 {
            assert(t[1] == label_char(s[0])[1]);
            assert(t.skip(2) =~= label_text(rest));
        } else {
            assert(t.skip(1) =~= label_text(rest));
        }
        assert(seq![s[0]] + rest =~= s);
    }
}

/// Microseconds as seconds, without zeros at the end.
pub open spec fn seconds_text(micros: nat) -> Seq<char> {
    if micros % 1_000_000 == 0 {
        decimal(micros / 1_000_000)
    } else {
        decimal(micros / 1_000_000) + "."@ + dropped_end(
            zero_padded(decimal(micros % 1_000_000), 6),
            '0',
        )
    }
}

fn seconds_of(micros: u64) -> (r: String)
    ensures
        r@ == seconds_text(micros as nat),
{
    let whole = decimal_of(micros / 1_000_000);
    if micros % 1_000_000 == 0 {
        whole
    } else {
        let digits = padded(micros % 1_000_000, 6);
        whole.concat(".").concat(trim_end_char(digits.as_str(), '0'))
    }
}

/// A signed number as text.
pub open spec fn signed_text(n: int) -> Seq<char> {
    if n < 0 {
        "-"@ + decimal((-n) as nat)
    } else {
        decimal(n as nat)
    }
}

/// A signed number as text.
pub fn signed_of(n: i64) -> (r: String)
    ensures
        r@ == signed_text(n as int),
{
    if n < 0 {
        let m: u64 = (-(n + 1)) as u64 + 1;
        let d = decimal_of(m);
        own("-").concat(d.as_str())
    } else {
        decimal_of(n as u64)
    }
}

/// The lines of the first `n` status classes; a class without requests has none.
pub open spec fn class_lines(s: SlotView, n: int) -> Seq<char>
    decreases n,
{
    if n <= 0 {
        Seq::empty()
    } else {
        class_lines(s, n - 1) + if s.by_class[n - 1] > 0 {
            "ferrum_requests_total{upstream=\""@ + label_text(s.name) + "\",code=\""@ + decimal(
                n as nat,
            ) + "xx\"} "@ + decimal(s.by_class[n - 1] as nat) + "\n"@
        } else {
            Seq::empty()
        }
    }
}

/// The request lines of the first `n` slots.
pub open spec fn request_lines(v: Seq<SlotView>, n: int) -> Seq<char>
    decreases n,
{
    if n <= 0 {
        Seq::empty()
    } else {
        request_lines(v, n - 1) + class_lines(v[n - 1], 5)
    }
}

/// The line of a slot's failed connects, if there are any.
pub open spec fn connect_line(s: SlotView) -> Seq<char> {
    if s.connect_errors > 0 {
        "ferrum_connect_errors_total{upstream=\""@ + label_text(s.name) + "\"} "@ + decimal(
            s.connect_errors as nat,
        ) + "\n"@
    } else {
        Seq::empty()
    }
}

/// The lines of failed connects of the first `n` slots.
pub open spec fn connect_lines(v: Seq<SlotView>, n: int) -> Seq<char>
    decreases n,
{
    if n <= 0 {
        Seq::empty()
    } else {
        connect_lines(v, n - 1) + connect_line(v[n - 1])
    }
}

/// The lines of refusals by the first `n` layers.
pub open spec fn reject_lines(v: Seq<u64>, n: int) -> Seq<char>
    decreases n,
{
    if n <= 0 {
        Seq::empty()
    } else {
        reject_lines(v, n - 1) + if v[n - 1] > 0 {
            "ferrum_rejected_total{by=\""@ + rejector_label(n - 1) + "\"} "@ + decimal(
                v[n - 1] as nat,
            ) + "\n"@
        } else {
            Seq::empty()
        }
    }
}

/// One line of a histogram's buckets.
pub open spec fn bucket_line(up: Seq<char>, le: Seq<char>, n: u64) -> Seq<char> {
    "ferrum_request_duration_seconds_bucket{upstream=\""@ + label_text(up) + "\",le=\""@ + le
        + "\"} "@ + decimal(n as nat) + "\n"@
}

/// The lines of the first `n` finite buckets, counted up to each bound.
pub open spec fn bucket_lines(up: Seq<char>, h: HistView, n: int) -> Seq<char>
    decreases n,
{
    if n <= 0 {
        Seq::empty()
    } else {
        bucket_lines(up, h, n - 1) + bucket_line(up, bound_text(n - 1), running(h.buckets, n))
    }
}

/// A histogram as text. What is counted without bound equals the count.
pub open spec fn hist_text(up: Seq<char>, h: HistView) -> Seq<char> {
    bucket_lines(up, h, BUCKETS as int) + bucket_line(up, "+Inf"@, running_all(h))
        + "ferrum_request_duration_seconds_sum{upstream=\""@ + label_text(up) + "\"} "@
        + seconds_text(h.sum_micros as nat) + "\n"@
        + "ferrum_request_duration_seconds_count{upstream=\""@ + label_text(up) + "\"} "@ + decimal(
        running_all(h) as nat,
    ) + "\n"@
}

/// The histograms of the first `n` slots.
pub open spec fn hist_lines(v: Seq<SlotView>, n: int) -> Seq<char>
    decreases n,
{
    if n <= 0 {
        Seq::empty()
    } else {
        hist_lines(v, n - 1) + hist_text(v[n - 1].name, v[n - 1].duration)
    }
}

/// The registry in the Prometheus text format. Series that were never counted are
/// left out.
pub open spec fn metrics_text(m: MetricsView) -> Seq<char> {
    "# HELP ferrum_requests_total Completed exchanges by upstream and status class.\n"@
        + "# TYPE ferrum_requests_total counter\n"@ + request_lines(
        m.upstreams,
        m.upstreams.len() as int,
    ) + class_lines(m.unrouted, 5)
        + "# HELP ferrum_connect_errors_total Backend connect failures (post-retry, per attempt).\n"@
        + "# TYPE ferrum_connect_errors_total counter\n"@ + connect_lines(
        m.upstreams,
        m.upstreams.len() as int,
    ) + connect_line(m.unrouted)
        + "# HELP ferrum_rejected_total Requests rejected by middleware, by rejector.\n"@
        + "# TYPE ferrum_rejected_total counter\n"@ + reject_lines(m.rejected, 5)
        + "# HELP ferrum_active_connections Client connections currently open.\n"@
        + "# TYPE ferrum_active_connections gauge\n"@ + "ferrum_active_connections "@ + signed_text(
        m.active_connections as int,
    ) + "\n"@
        + "# HELP ferrum_request_duration_seconds Full exchange duration, client-side.\n"@
        + "# TYPE ferrum_request_duration_seconds histogram\n"@ + hist_text(
        "all"@,
        m.duration_all,
    ) + hist_lines(m.upstreams, m.upstreams.len() as int)
}

/// The histogram of an upstream, or that of all requests.
pub open spec fn duration_of(m: MetricsView, up: Option<int>) -> HistView {
    match up {
        Some(u) => m.upstreams[u].duration,
        None => m.duration_all,
    }
}

/// In the text of a registry, for all requests together and for every upstream, the
/// values of the buckets never fall from one line to the next, and the value without a
/// bound is that of the count, as long as the number of observations fits the count.
pub proof fn law_rendered_buckets_are_cumulative(m: MetricsView, up: Option<int>, i: int, j: int)
    requires
        metrics_wf(m),
        up matches Some(u) ==> 0 <= u < m.upstreams.len(),
        counted_all(duration_of(m, up)) <= u64::MAX,
        1 <= i <= j <= BUCKETS,
    ensures
        ({
            let h = duration_of(m, up);
            &&& running(h.buckets, i) <= running(h.buckets, j) <= running_all(h)
            &&& running_all(h) == h.count
        }),
{
    law_counts_never_fall_as_bounds_rise(duration_of(m, up), i, j);
}

/// A series has a line exactly where something was counted: a status class of an
/// upstream, its failed connects, and the refusals of a layer.
pub proof fn law_only_counted_series_have_a_line(s: SlotView, class: int, v: Seq<u64>, layer: int)
    requires
        1 <= class <= 5,
        1 <= layer <= 5,
    ensures
        class_lines(s, class).len() > class_lines(s, class - 1).len() <==> s.by_class[class - 1] > 0,
        connect_line(s).len() > 0 <==> s.connect_errors > 0,
        reject_lines(v, layer).len() > reject_lines(v, layer - 1).len() <==> v[layer - 1] > 0,
{
    reveal_strlit("\n");
}

fn append_classes(out: &mut String, s: &UpstreamSlot)
    requires
        slot_wf(s@),
    ensures
        final(out)@ == old(out)@ + class_lines(s@, 5),
{
    let up = escape_label(s.name.as_str());
    let mut i: usize = 0;
    assert(out@ + class_lines(s@, 0) =~= out@);
    while i < 5
        invariant
            i <= 5,
            slot_wf(s@),
            up@ == label_text(s@.name),
            out@ == old(out)@ + class_lines(s@, i as int),
        decreases 5 - i,
    {
        let n: u64 = s.by_class[i];
        let ghost sofar = out@;
        if n > 0 {
            let class = decimal_of(i as u64 + 1);
            let d = decimal_of(n);
            let line = own("ferrum_requests_total{upstream=\"").concat(up.as_str()).concat(
                "\",code=\"",
            ).concat(class.as_str()).concat("xx\"} ").concat(d.as_str()).concat("\n");
            out.append(line.as_str());
        }
        assert(out@ =~= old(out)@ + class_lines(s@, i + 1));
        i = i + 1;
    }
}

fn append_connects(out: &mut String, s: &UpstreamSlot)
    ensures
        final(out)@ == old(out)@ + connect_line(s@),
{
    if s.connect_errors > 0 {
        let up = escape_label(s.name.as_str());
        let d = decimal_of(s.connect_errors);
        let line = own("ferrum_connect_errors_total{upstream=\"").concat(up.as_str()).concat(
            "\"} ",
        ).concat(d.as_str()).concat("\n");
        out.append(line.as_str());
    } else {
        assert(out@ + connect_line(s@) =~= out@);
    }
}

fn append_bucket(out: &mut String, up: &str, le: &str, n: u64, Ghost(name): Ghost<Seq<char>>)
    requires
        up@ == label_text(name),
    ensures
        final(out)@ == old(out)@ + bucket_line(name, le@, n),
{
    let d = decimal_of(n);
    let line = own("ferrum_request_duration_seconds_bucket{upstream=\"").concat(up).concat(
        "\",le=\"",
    ).concat(le).concat("\"} ").concat(d.as_str()).concat("\n");
    out.append(line.as_str());
}

fn render_histogram(out: &mut String, upstream: &str, h: &Histogram)
    requires
        hist_wf(h@),
    ensures
        final(out)@ == old(out)@ + hist_text(upstream@, h@),
{
    let (cumulative, sum, count) = h.snapshot();
    let up = escape_label(upstream);
    let ghost start = out@;
    let mut i: usize = 0;
    assert(out@ + bucket_lines(upstream@, h@, 0) =~= out@);
    while i < BUCKETS
        invariant
            i <= BUCKETS,
            hist_wf(h@),
            cumulative@.len() == 9,
            forall|k: int| 0 <= k < 8 ==> #[trigger] cumulative@[k] == running(h@.buckets, k + 1),
            up@ == label_text(upstream@),
            out@ == start + bucket_lines(upstream@, h@, i as int),
        decreases BUCKETS - i,
    {
        assert(cumulative@[i as int] == running(h@.buckets, i + 1));
        append_bucket(out, up.as_str(), shown_bound(i), cumulative[i], Ghost(upstream@));
        assert(out@ =~= start + bucket_lines(upstream@, h@, i + 1));
        i = i + 1;
    }
    append_bucket(out, up.as_str(), "+Inf", cumulative[8], Ghost(upstream@));
    let s = seconds_of(sum);
    let c = decimal_of(count);
    out.append("ferrum_request_duration_seconds_sum{upstream=\"");
    out.append(up.as_str());
    out.append("\"} ");
    out.append(s.as_str());
    out.append("\n");
    out.append("ferrum_request_duration_seconds_count{upstream=\"");
    out.append(up.as_str());
    out.append("\"} ");
    out.append(c.as_str());
    out.append("\n");
    assert(out@ =~= start + hist_text(upstream@, h@));
}

impl Metrics {
    fn append_requests(&self, out: &mut String)
        requires
            self.wf(),
        ensures
            final(out)@ == old(out)@ + request_lines(
                self@.upstreams,
                self@.upstreams.len() as int,
            ) + class_lines(self@.unrouted, 5),
    {
        let mut i: usize = 0;
        assert(out@ + request_lines(self@.upstreams, 0) =~= out@);
        while i < self.upstreams.len()
            invariant
                self.wf(),
                i <= self.upstreams@.len(),
                out@ == old(out)@ + request_lines(self@.upstreams, i as int),
            decreases self.upstreams.len() - i,
        {
            assert(slot_wf(self@.upstreams[i as int]));
            append_classes(out, &self.upstreams[i]);
            assert(out@ =~= old(out)@ + request_lines(self@.upstreams, i + 1));
            i = i + 1;
        }
        append_classes(out, &self.unrouted);
    }

    fn append_connect_errors(&self, out: &mut String)
        ensures
            final(out)@ == old(out)@ + connect_lines(
                self@.upstreams,
                self@.upstreams.len() as int,
            ) + connect_line(self@.unrouted),
    {
        let mut i: usize = 0;
        assert(out@ + connect_lines(self@.upstreams, 0) =~= out@);
        while i < self.upstreams.len()
            invariant
                i <= self.upstreams@.len(),
                out@ == old(out)@ + connect_lines(self@.upstreams, i as int),
            decreases self.upstreams.len() - i,
        {
            assert(self@.upstreams[i as int] == self.upstreams@[i as int]@);
            append_connects(out, &self.upstreams[i]);
            assert(out@ =~= old(out)@ + connect_lines(self@.upstreams, i + 1));
            i = i + 1;
        }
        append_connects(out, &self.unrouted);
    }

    fn append_rejections(&self, out: &mut String)
        requires
            self.wf(),
        ensures
            final(out)@ == old(out)@ + reject_lines(self@.rejected, 5),
    {
        let mut i: usize = 0;
        assert(out@ + reject_lines(self@.rejected, 0) =~= out@);
        while i < 5
            invariant
                i <= 5,
                self.wf(),
                out@ == old(out)@ + reject_lines(self@.rejected, i as int),
            decreases 5 - i,
        {
            let n: u64 = self.rejected[i];
            if n > 0 {
                let d = decimal_of(n);
                let line = own("ferrum_rejected_total{by=\"").concat(rejector_name(i)).concat(
                    "\"} ",
                ).concat(d.as_str()).concat("\n");
                out.append(line.as_str());
            }
            assert(out@ =~= old(out)@ + reject_lines(self@.rejected, i + 1));
            i = i + 1;
        }
    }

    fn append_histograms(&self, out: &mut String)
        requires
            self.wf(),
        ensures
            final(out)@ == old(out)@ + hist_text("all"@, self@.duration_all) + hist_lines(
                self@.upstreams,
                self@.upstreams.len() as int,
            ),
    {
        render_histogram(out, "all", &self.duration_all);
        let ghost start = out@;
        let mut i: usize = 0;
        assert(out@ + hist_lines(self@.upstreams, 0) =~= out@);
        while i < self.upstreams.len()
            invariant
                self.wf(),
                i <= self.upstreams@.len(),
                out@ == start + hist_lines(self@.upstreams, i as int),
            decreases self.upstreams.len() - i,
        {
            assert(slot_wf(self@.upstreams[i as int]));
            assert(self@.upstreams[i as int] == self.upstreams@[i as int]@);
            render_histogram(out, self.upstreams[i].name.as_str(), &self.upstreams[i].duration);
            assert(out@ =~= start + hist_lines(self@.upstreams, i + 1));
            i = i + 1;
        }
    }

    /// The whole registry in the Prometheus text format.
    pub fn render(&self) -> (r: String)
        requires
            self.wf(),
        ensures
            r@ == metrics_text(self@),
    {
        let mut out = own(
            "# HELP ferrum_requests_total Completed exchanges by upstream and status class.\n",
        );
        out.append("# TYPE ferrum_requests_total counter\n");
        self.append_requests(&mut out);
        out.append(
            "# HELP ferrum_connect_errors_total Backend connect failures (post-retry, per attempt).\n",
        );
        out.append("# TYPE ferrum_connect_errors_total counter\n");
        self.append_connect_errors(&mut out);
        out.append("# HELP ferrum_rejected_total Requests rejected by middleware, by rejector.\n");
        out.append("# TYPE ferrum_rejected_total counter\n");
        self.append_rejections(&mut out);
        out.append("# HELP ferrum_active_connections Client connections currently open.\n");
        out.append("# TYPE ferrum_active_connections gauge\n");
        let active = signed_of(self.active_connections);
        out.append("ferrum_active_connections ");
        out.append(active.as_str());
        out.append("\n");
        out.append(
            "# HELP ferrum_request_duration_seconds Full exchange duration, client-side.\n",
        );
        out.append("# TYPE ferrum_request_duration_seconds histogram\n");
        self.append_histograms(&mut out);
        out
    }
}

} // verus!
