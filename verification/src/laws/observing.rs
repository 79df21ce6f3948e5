//! What is counted, logged and told.

use vstd::prelude::*;

use super::{
    absent, first_named, law_a_lookup_gives_the_first_field, law_a_lookup_of_nothing_gives_nothing,
};
use crate::admin::{any_down, down, healthy, page_for, ADMIN_TIMEOUT};
use crate::balancer::{serving, PoolView, ServerView};
use crate::http::{Fields, RequestView};
use crate::logging::{
    day_number, days_before_month, is_stamp, law_dates_are_unique, leap, level_of, shown,
    stamp_text, valid_date, Level,
};
use crate::metrics::{
    bound, bound_text, bucket_from, class_of, closed_one, counted, known, observed, opened,
    rejector, rejector_label, requested, seconds_text, slot_named, slot_of, turned_away,
    unconnected, HistView, MetricsView, SlotView, UpstreamId,
};
use crate::middleware::observe::{acceptable_id, id_of, keeps_id, RequestId};
use crate::text::{
    before, decimal, hexadecimal, lemma_first_index_is, lower, same_fold, zero_padded,
};
use crate::time::Duration;

verus! {

// ---------------------------------------------------------------------------
// Counters
// ---------------------------------------------------------------------------

/// The bounds of the buckets: in nanoseconds, and in seconds as they are shown.
pub proof fn law_the_bounds_of_the_buckets()
    ensures
        bound(0) == 1_000_000 && bound_text(0) == "0.001"@,
        bound(1) == 5_000_000 && bound_text(1) == "0.005"@,
        bound(2) == 10_000_000 && bound_text(2) == "0.01"@,
        bound(3) == 50_000_000 && bound_text(3) == "0.05"@,
        bound(4) == 100_000_000 && bound_text(4) == "0.1"@,
        bound(5) == 500_000_000 && bound_text(5) == "0.5"@,
        bound(6) == 1_000_000_000 && bound_text(6) == "1"@,
        bound(7) == 5_000_000_000 && bound_text(7) == "5"@,
{
}

proof fn lemma_bucket(nanos: int, i: int)
    requires
        0 <= i <= 8,
    ensures
        i <= bucket_from(nanos, i) <= 8,
        bucket_from(nanos, i) < 8 ==> nanos <= bound(bucket_from(nanos, i)),
        forall|k: int| i <= k < bucket_from(nanos, i) ==> nanos > #[trigger] bound(k),
    decreases 8 - i,
{
    if i < 8 && nanos > bound(i) {
        lemma_bucket(nanos, i + 1);
    }
}

proof fn lemma_counted_update(b: Seq<u64>, i: int, x: u64, n: int)
    requires
        0 <= i < b.len(),
        0 <= n <= b.len(),
    ensures
        counted(b.update(i, x), n) == counted(b, n) + if i < n {
            x - b[i]
        } else {
            0
        },
    decreases n,
{
    if n > 0 {
        lemma_counted_update(b, i, x, n - 1);
    }
}

/// An observation is counted up to every bound that it does not pass, and up to no
/// smaller one; its time is added in microseconds.
pub proof fn law_an_observation_counts_up_to_its_bound(h: HistView, d: Duration, k: int)
    requires
        h.buckets.len() == 8,
        0 <= k < 8,
        forall|i: int| 0 <= i < 8 ==> (#[trigger] h.buckets[i]) < u64::MAX,
        h.count < u64::MAX,
        h.inf < u64::MAX,
        h.sum_micros + d.nanos / 1000 <= u64::MAX,
    ensures
        counted(observed(h, d).buckets, k + 1) == counted(h.buckets, k + 1) + if d.nanos <= bound(k) {
            1int
        } else {
            0
        },
        observed(h, d).count == h.count + 1,
        observed(h, d).sum_micros == h.sum_micros + d.nanos / 1000,
        observed(h, d).inf == h.inf + if d.nanos > 5_000_000_000 {
            1int
        } else {
            0
        },
{
    let n = d.nanos as int;
    let i = bucket_from(n, 0);
    lemma_bucket(n, 0);
    if i < 8 {
        lemma_counted_update(h.buckets, i, crate::count::bumped(h.buckets[i]), k + 1);
        if i <= k {
            lemma_bounds_rise(i, k);
        } else {
            assert(n > bound(k));
        }
    } else {
        assert(n > bound(k));
        assert(n > bound(7));
    }
    if i < 8 {
        lemma_bounds_rise(i, 7);
    }
}

proof fn lemma_bounds_rise(i: int, k: int)
    requires
        0 <= i <= k < 8,
    ensures
        bound(i) <= bound(k),
{
}

/// A request is counted in the class of its status, from 1xx to 5xx, and in no other.
pub proof fn law_requests_are_counted_by_class(s: SlotView, m: MetricsView, id: UpstreamId, status: u16, d: Duration, c: int)
    requires
        100 <= status <= 599,
        0 <= c < 5,
        id.0 matches Some(i) ==> i < m.upstreams.len(),
        slot_of(m, id).by_class.len() == 5,
        slot_of(m, id).by_class[c] < u64::MAX,
    ensures
        slot_of(requested(m, id, status, d), id).by_class[c] == slot_of(m, id).by_class[c] + if 100
            * (c + 1) <= status < 100 * (c + 2) {
            1int
        } else {
            0
        },
        slot_of(requested(m, id, status, d), id).connect_errors == slot_of(m, id).connect_errors,
        slot_of(requested(m, id, status, d), id).name == slot_of(m, id).name,
        slot_of(requested(m, id, status, d), id).duration == observed(slot_of(m, id).duration, d),
        requested(m, id, status, d).duration_all == observed(m.duration_all, d),
        requested(m, id, status, d).rejected == m.rejected,
        requested(m, id, status, d).active_connections == m.active_connections,
        forall|o: int|
            0 <= o < m.upstreams.len() && id.0 != Some(o as usize) && o <= usize::MAX
                ==> #[trigger] requested(m, id, status, d).upstreams[o] == m.upstreams[o],
{
    assert(class_of(status) == status as int / 100 - 1);
}

/// Refusals are counted by the layer that refused.
pub proof fn law_refusals_are_counted_by_layer()
    ensures
        rejector("ratelimit"@) == 0,
        rejector("auth"@) == 1,
        rejector("authz"@) == 2,
        rejector("request-id"@) == 3,
        rejector("waf"@) == 4,
{
    reveal_strlit("ratelimit");
    reveal_strlit("auth");
    reveal_strlit("authz");
    reveal_strlit("request-id");
    reveal_strlit("waf");
    assert("ratelimit"@.len() == 9 && "auth"@.len() == 4 && "authz"@.len() == 5
        && "request-id"@.len() == 10 && "waf"@.len() == 3);
}

/// A refusal adds one to the count of its layer, and leaves every other count.
pub proof fn law_a_refusal_counts_once(m: MetricsView, by: Seq<char>, i: int)
    requires
        m.rejected.len() == 5,
        0 <= i < 5,
        m.rejected[i] < u64::MAX,
    ensures
        turned_away(m, by).rejected.len() == 5,
        turned_away(m, by).rejected[i] == m.rejected[i] + if i == rejector(by) {
            1int
        } else {
            0
        },
        turned_away(m, by) == (MetricsView { rejected: turned_away(m, by).rejected, ..m }),
        i < 4 ==> rejector(rejector_label(i)) == i,
{
    law_refusals_are_counted_by_layer();
}

/// A connection that opens and closes is counted while it is open.
pub proof fn law_open_connections_are_counted(m: MetricsView)
    requires
        i64::MIN < m.active_connections < i64::MAX,
    ensures
        opened(m).active_connections == m.active_connections + 1,
        closed_one(m).active_connections == m.active_connections - 1,
        closed_one(opened(m)) == m,
        opened(m) == (MetricsView { active_connections: opened(m).active_connections, ..m }),
        closed_one(m) == (MetricsView { active_connections: closed_one(m).active_connections, ..m }),
{
}

/// A failed connect is counted at its pool, once, and changes nothing else.
pub proof fn law_failed_connects_are_counted(m: MetricsView, id: UpstreamId, other: UpstreamId)
    requires
        known(m, id),
        known(m, other),
        slot_of(m, id).connect_errors < u64::MAX,
    ensures
        slot_of(unconnected(m, id), id).connect_errors == slot_of(m, id).connect_errors + 1,
        slot_of(unconnected(m, id), id) == (SlotView {
            connect_errors: slot_of(unconnected(m, id), id).connect_errors,
            ..slot_of(m, id)
        }),
        other != id ==> slot_of(unconnected(m, id), other) == slot_of(m, other),
        unconnected(m, id) == (MetricsView {
            upstreams: unconnected(m, id).upstreams,
            unrouted: unconnected(m, id).unrouted,
            ..m
        }),
{
}

/// A name resolves to the first slot that has it, and to none where no slot has it.
pub proof fn law_names_resolve_to_their_slot(v: Seq<SlotView>, name: Seq<char>, i: int)
    requires
        0 <= i <= v.len() <= usize::MAX,
    ensures
        match slot_named(v, name, i) {
            Some(k) => i <= k < v.len() && v[k as int].name == name && forall|j: int|
                i <= j < k ==> (#[trigger] v[j]).name != name,
            None => forall|j: int| i <= j < v.len() ==> (#[trigger] v[j]).name != name,
        },
    decreases v.len() - i,
{
    if i < v.len() && v[i].name != name {
        law_names_resolve_to_their_slot(v, name, i + 1);
    }
}

/// Whole seconds are shown without a point.
pub proof fn law_whole_seconds_are_shown_plainly(secs: nat)
    ensures
        seconds_text(secs * 1_000_000) == decimal(secs),
{
    assert((secs * 1_000_000) % 1_000_000 == 0);
    assert((secs * 1_000_000) / 1_000_000 == secs);
}

// ---------------------------------------------------------------------------
// The error log
// ---------------------------------------------------------------------------

/// Errors come before warnings, those before operational events, and those before
/// diagnostics: what is written down to a level holds everything more urgent and
/// nothing less.
pub proof fn law_levels_are_ordered()
    ensures
        shown(Level::Error, Level::Error) && !shown(Level::Error, Level::Warn) && !shown(
            Level::Error,
            Level::Info,
        ) && !shown(Level::Error, Level::Debug),
        shown(Level::Warn, Level::Error) && shown(Level::Warn, Level::Warn) && !shown(
            Level::Warn,
            Level::Info,
        ) && !shown(Level::Warn, Level::Debug),
        shown(Level::Info, Level::Error) && shown(Level::Info, Level::Warn) && shown(
            Level::Info,
            Level::Info,
        ) && !shown(Level::Info, Level::Debug),
        shown(Level::Debug, Level::Error) && shown(Level::Debug, Level::Warn) && shown(
            Level::Debug,
            Level::Info,
        ) && shown(Level::Debug, Level::Debug),
{
}

/// A level is read by its name, in any case.
pub proof fn law_levels_are_read(s: Seq<char>)
    ensures
        same_fold(s, "error"@) ==> level_of(s) == Ok::<Level, Seq<char>>(Level::Error),
        same_fold(s, "warn"@) ==> level_of(s) == Ok::<Level, Seq<char>>(Level::Warn),
        same_fold(s, "info"@) ==> level_of(s) == Ok::<Level, Seq<char>>(Level::Info),
        same_fold(s, "debug"@) ==> level_of(s) == Ok::<Level, Seq<char>>(Level::Debug),
        !same_fold(s, "error"@) && !same_fold(s, "warn"@) && !same_fold(s, "info"@) && !same_fold(
            s,
            "debug"@,
        ) ==> level_of(s) is Err,
{
    reveal_strlit("error");
    reveal_strlit("warn");
    reveal_strlit("info");
    reveal_strlit("debug");
    assert(lower("error"@) =~= "error"@);
    assert(lower("warn"@) =~= "warn"@);
    assert(lower("info"@) =~= "info"@);
    assert(lower("debug"@) =~= "debug"@);
    assert("error"@[0] != "debug"@[0]);
    assert("warn"@[0] != "info"@[0]);
    assert("error"@.len() == 5 && "warn"@.len() == 4 && "info"@.len() == 4 && "debug"@.len() == 5);
}

/// The months have their days, February one more in a leap year: every fourth, but not
/// every hundredth, but every four hundredth. The first of January 1970 is day 0.
pub proof fn law_months_have_their_length(y: int)
    ensures
        day_number(1970, 1, 1) == 0,
        ({
            let feb = if y % 4 == 0 && (y % 100 != 0 || y % 400 == 0) {
                29int
            } else {
                28int
            };
            &&& day_number(y, 2, 1) - day_number(y, 1, 1) == 31
            &&& day_number(y, 3, 1) - day_number(y, 2, 1) == feb
            &&& day_number(y, 4, 1) - day_number(y, 3, 1) == 31
            &&& day_number(y, 5, 1) - day_number(y, 4, 1) == 30
            &&& day_number(y, 6, 1) - day_number(y, 5, 1) == 31
            &&& day_number(y, 7, 1) - day_number(y, 6, 1) == 30
            &&& day_number(y, 8, 1) - day_number(y, 7, 1) == 31
            &&& day_number(y, 9, 1) - day_number(y, 8, 1) == 31
            &&& day_number(y, 10, 1) - day_number(y, 9, 1) == 30
            &&& day_number(y, 11, 1) - day_number(y, 10, 1) == 31
            &&& day_number(y, 12, 1) - day_number(y, 11, 1) == 30
            &&& day_number(y + 1, 1, 1) - day_number(y, 12, 1) == 31
        }),
        forall|m: int, d: int| #[trigger] day_number(y, m, d) == day_number(y, m, 1) + d - 1,
        forall|m: int, d: int| #[trigger] valid_date(y, m, d) ==> 1 <= m <= 12 && 1 <= d <= 31,
{
    reveal_with_fuel(days_before_month, 14);
    crate::logging::law_years_have_their_length(y);
}

/// The stamp of a time is its date and its time of day in UTC, each number filled up
/// with zeros.
pub proof fn law_a_stamp_is_the_date_and_time(
    y: nat,
    m: nat,
    d: nat,
    hour: nat,
    minute: nat,
    second: nat,
    millis: u32,
    secs: u64,
    text: Seq<char>,
)
    requires
        valid_date(y as int, m as int, d as int),
        hour < 24,
        minute < 60,
        second < 60,
        secs == day_number(y as int, m as int, d as int) * 86_400 + hour * 3600 + minute * 60 + second,
    ensures
        is_stamp(text, secs, millis) <==> text == zero_padded(decimal(y), 4) + "-"@ + zero_padded(
            decimal(m),
            2,
        ) + "-"@ + zero_padded(decimal(d), 2) + "T"@ + zero_padded(decimal(hour), 2) + ":"@
            + zero_padded(decimal(minute), 2) + ":"@ + zero_padded(decimal(second), 2) + "."@
            + zero_padded(decimal(millis as nat), 3) + "Z"@,
{
    let day = day_number(y as int, m as int, d as int);
    let rest: int = (hour * 3600 + minute * 60 + second) as int;
    assert(0 <= rest < 86_400);
    assert(secs as int / 86_400 == day && secs as int % 86_400 == rest) by {
        vstd::arithmetic::div_mod::lemma_fundamental_div_mod_converse(
            secs as int,
            86_400,
            day,
            rest,
        );
    }
    assert(rest / 3600 == hour);
    assert(rest % 3600 / 60 == minute);
    assert(rest % 60 == second);
    assert(text == stamp_text(y, m, d, rest as nat, millis as nat) ==> is_stamp(text, secs, millis));
    if is_stamp(text, secs, millis) {
        let (a, b, c) = choose|a: nat, b: nat, c: nat|
            valid_date(a as int, b as int, c as int) && day_number(a as int, b as int, c as int)
                == secs / 86_400 && text == #[trigger] stamp_text(
                a,
                b,
                c,
                (secs % 86_400) as nat,
                millis as nat,
            );
        law_dates_are_unique(
            (a as int, b as int, c as int),
            (y as int, m as int, d as int),
        );
    }
}

// ---------------------------------------------------------------------------
// Request ids and the access log
// ---------------------------------------------------------------------------

/// A client's id is adopted where it has one to sixty-four letters, digits, dashes and
/// underscores; every other request gets an id of the proxy, made of its seed and of
/// the number of the request.
pub proof fn law_acceptable_ids_are_adopted(layer: RequestId, h: Fields, i: int)
    ensures
        absent(h, "x-request-id"@) ==> id_of(layer, h) == hexadecimal(layer.seed as nat) + seq!['-']
            + decimal(layer.counter as nat) && !keeps_id(h),
        first_named(h, "x-request-id"@, i) ==> ({
            let s = h[i].1;
            let good = 1 <= s.len() <= 64 && forall|k: int|
                0 <= k < s.len() ==> ('a' <= #[trigger] s[k] <= 'z') || ('A' <= s[k] <= 'Z') || (
                '0' <= s[k] <= '9') || s[k] == '-' || s[k] == '_';
            &&& keeps_id(h) <==> good
            &&& good ==> id_of(layer, h) == s
            &&& !good ==> id_of(layer, h) == hexadecimal(layer.seed as nat) + seq!['-'] + decimal(
                layer.counter as nat,
            )
        }),
{
    reveal_strlit("-");
    assert("-"@ =~= seq!['-']);
    if absent(h, "x-request-id"@) {
        law_a_lookup_of_nothing_gives_nothing(h, "x-request-id"@);
    }
    if first_named(h, "x-request-id"@, i) {
        law_a_lookup_gives_the_first_field(h, "x-request-id"@, i);
        let s = h[i].1;
        if acceptable_id(s) {
            assert forall|k: int| 0 <= k < s.len() implies ('a' <= #[trigger] s[k] <= 'z') || ('A'
                <= s[k] <= 'Z') || ('0' <= s[k] <= '9') || s[k] == '-' || s[k] == '_' by {
                assert(crate::middleware::observe::id_char(s[k]));
            }
        }
    }
}

// ---------------------------------------------------------------------------
// The admin plane
// ---------------------------------------------------------------------------

proof fn lemma_healthy(v: Seq<ServerView>, n: int)
    requires
        0 <= n <= v.len(),
    ensures
        healthy(v, n) <= n,
        healthy(v, n) == 0 <==> forall|i: int| 0 <= i < n ==> !serving(#[trigger] v[i]),
        healthy(v, n) == n <==> forall|i: int| 0 <= i < n ==> serving(#[trigger] v[i]),
    decreases n,
{
    if n > 0 {
        lemma_healthy(v, n - 1);
    }
}

/// The proxy is degraded where some pool has no server that serves, and only there; a
/// pool is as healthy as it has serving servers.
pub proof fn law_health_is_told(v: Seq<PoolView>, i: int)
    requires
        0 <= i < v.len(),
    ensures
        (forall|k: int| 0 <= k < v[i].servers.len() ==> !serving(#[trigger] v[i].servers[k]))
            ==> any_down(v),
        (forall|j: int|
            0 <= j < v.len() ==> exists|k: int|
                0 <= k < (#[trigger] v[j]).servers.len() && serving(v[j].servers[k])) ==> !any_down(v),
        (forall|k: int| 0 <= k < v[i].servers.len() ==> serving(#[trigger] v[i].servers[k]))
            ==> healthy(v[i].servers, v[i].servers.len() as int) == v[i].servers.len(),
{
    lemma_healthy(v[i].servers, v[i].servers.len() as int);
    if forall|k: int| 0 <= k < v[i].servers.len() ==> !serving(#[trigger] v[i].servers[k]) {
        assert(down(v[i]));
    }
    if forall|j: int|
        0 <= j < v.len() ==> exists|k: int|
            0 <= k < (#[trigger] v[j]).servers.len() && serving(v[j].servers[k]) {
        assert forall|j: int| 0 <= j < v.len() implies !down(#[trigger] v[j]) by {
            lemma_healthy(v[j].servers, v[j].servers.len() as int);
            let k = choose|k: int| 0 <= k < v[j].servers.len() && serving(v[j].servers[k]);
            assert(serving(v[j].servers[k]));
        }
    }
}

/// The admin plane answers GET alone, with the metrics and with the health, with or
/// without a query; every other path is a 404 and every other method a 405.
pub proof fn law_the_admin_plane_has_two_pages(
    req: RequestView,
    query: Seq<char>,
    metrics: Seq<char>,
    health: Seq<char>,
)
    ensures
        req.method != "GET"@ ==> page_for(req, metrics, health).status == 405,
        req.method == "GET"@ && (req.target == "/metrics"@ || req.target == "/metrics"@ + seq!['?']
            + query) ==> page_for(req, metrics, health).status == 200 && page_for(
            req,
            metrics,
            health,
        ).body == metrics,
        req.method == "GET"@ && (req.target == "/health"@ || req.target == "/health"@ + seq!['?']
            + query) ==> page_for(req, metrics, health).status == 200 && page_for(
            req,
            metrics,
            health,
        ).body == health,
        req.method == "GET"@ && before(req.target, '?') != "/metrics"@ && before(req.target, '?')
            != "/health"@ ==> page_for(req, metrics, health).status == 404,
        ADMIN_TIMEOUT == 5 * 1_000_000_000,
{
    reveal_strlit("/metrics");
    reveal_strlit("/health");
    lemma_first_index_is("/metrics"@, '?', 8);
    lemma_first_index_is("/health"@, '?', 7);
    assert("/metrics"@.take(8) =~= "/metrics"@);
    assert("/health"@.take(7) =~= "/health"@);
    let a = "/metrics"@ + seq!['?'] + query;
    let b = "/health"@ + seq!['?'] + query;
    assert forall|k: int| 0 <= k < 8 implies a[k] != '?' by {
        assert(a[k] == "/metrics"@[k]);
    }
    assert forall|k: int| 0 <= k < 7 implies b[k] != '?' by {
        assert(b[k] == "/health"@[k]);
    }
    lemma_first_index_is(a, '?', 8);
    lemma_first_index_is(b, '?', 7);
    assert(a.take(8) =~= "/metrics"@);
    assert(b.take(7) =~= "/health"@);
    assert("/metrics"@.len() != "/health"@.len());
}

} // verus!
