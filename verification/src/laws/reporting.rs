//! What the proxy reports: the access log, the counters and the health document.

use vstd::prelude::*;

use crate::admin::{any_down, health_text, healthy, pool_json, pools_json};
use crate::balancer::PoolView;
use crate::cache::store::CacheStats;
use crate::logging::{log_text, Level};
use crate::metrics::{
    bound_text, bucket_line, bucket_lines, class_lines, connect_line, connect_lines, hist_lines,
    hist_text, label_text, metrics_text, reject_lines, rejector_label, request_lines, running,
    running_all, seconds_text, signed_text, HistView, MetricsView, SlotView,
};
use crate::middleware::observe::{json_line, json_text, plain_line, TimesView};
use crate::middleware::CtxView;
use crate::text::{decimal, joined};
use crate::waf::WafStats;

verus! {

// ---------------------------------------------------------------------------
// Objects
// ---------------------------------------------------------------------------

/// A text in quotes.
pub open spec fn quoted(s: Seq<char>) -> Seq<char> {
    "\""@ + s + "\""@
}

/// A member of an object: its name in quotes, a colon and its value.
pub open spec fn member(name: Seq<char>, value: Seq<char>) -> Seq<char> {
    "\""@ + name + "\":"@ + value
}

/// Members with commas between them.
pub open spec fn members(m: Seq<(Seq<char>, Seq<char>)>) -> Seq<char> {
    joined(Seq::new(m.len(), |i: int| member(m[i].0, m[i].1)), ","@)
}

/// An object of these members, in this order.
pub open spec fn object(m: Seq<(Seq<char>, Seq<char>)>) -> Seq<char> {
    "{"@ + members(m) + "}"@
}

proof fn lemma_one_member(x: (Seq<char>, Seq<char>))
    ensures
        members(seq![x]) == member(x.0, x.1),
{
}

proof fn lemma_member_added(m: Seq<(Seq<char>, Seq<char>)>, x: (Seq<char>, Seq<char>))
    requires
        m.len() > 0,
    ensures
        members(m.push(x)) == members(m) + ","@ + member(x.0, x.1),
{
    let n = m.push(x);
    let a = Seq::new(n.len(), |i: int| member(n[i].0, n[i].1));
    let b = Seq::new(m.len(), |i: int| member(m[i].0, m[i].1));
    assert(a.drop_last() =~= b);
    assert(a.last() == member(x.0, x.1));
}

/// Text in front, with the quote that ends the last value, if it is quoted; then a
/// comma, a name, a colon and the quote of the next value, if it is quoted.
proof fn lemma_next_member(
    t: Seq<char>,
    m: Seq<(Seq<char>, Seq<char>)>,
    q: Seq<char>,
    lit: Seq<char>,
    name: Seq<char>,
    v: Seq<char>,
    q2: Seq<char>,
)
    requires
        m.len() > 0,
        t + q == "{"@ + members(m),
        lit == q + ","@ + "\""@ + name + "\":"@ + q2,
    ensures
        (t + lit + v) + q2 == "{"@ + members(m.push((name, q2 + v + q2))),
{
    let val = q2 + v + q2;
    lemma_member_added(m, (name, val));
    assert((t + lit + v) + q2 =~= (t + q) + ","@ + member(name, val));
    assert("{"@ + members(m) + ","@ + member(name, val) =~= "{"@ + (members(m) + ","@ + member(
        name,
        val,
    )));
}

/// A text, or a dash where there is none.
pub open spec fn dashed(t: Option<Seq<char>>) -> Seq<char> {
    if t is Some {
        t->0
    } else {
        "-"@
    }
}

/// A value, or `null` where there is none.
pub open spec fn or_null(t: Option<Seq<char>>) -> Seq<char> {
    if t is Some {
        t->0
    } else {
        "null"@
    }
}

/// The members of a line of the access log.
pub open spec fn log_members(c: CtxView, status: u16, t: TimesView) -> Seq<
    (Seq<char>, Seq<char>),
> {
    seq![
        ("ts"@, quoted(t.stamp)),
        ("id"@, quoted(json_text(c.request_id))),
        ("peer"@, quoted(c.peer)),
        ("method"@, quoted(json_text(c.method))),
        ("target"@, quoted(json_text(c.target))),
        ("status"@, decimal(status as nat)),
        ("dur_ms"@, t.total),
        ("route_ms"@, or_null(t.route)),
        ("connect_ms"@, or_null(t.connect)),
        ("ttfb_ms"@, or_null(t.first_byte)),
        ("upstream"@, quoted(json_text(dashed(c.upstream)))),
        ("backend"@, quoted(json_text(dashed(c.backend)))),
        ("user"@, quoted(json_text(dashed(c.identity)))),
        ("pooled"@, if c.pooled { "true"@ } else { "false"@ }),
        ("cache"@, if c.cache is Some { quoted(c.cache->0) } else { "null"@ }),
        (
            "rejected_by"@,
            if c.rejected_by is Some { quoted(json_text(c.rejected_by->0)) } else { "null"@ },
        ),
    ]
}

proof fn lemma_the_start_of_a_line(c: CtxView, status: u16, t: TimesView) -> (r: (
    Seq<char>,
    Seq<(Seq<char>, Seq<char>)>,
))
    ensures
        r.1 == log_members(c, status, t).take(7),
        r.0 == "{"@ + members(r.1),
        r.0 == "{\"ts\":\""@ + t.stamp + "\",\"id\":\""@ + json_text(c.request_id)
            + "\",\"peer\":\""@ + c.peer + "\",\"method\":\""@ + json_text(c.method)
            + "\",\"target\":\""@ + json_text(c.target) + "\",\"status\":"@ + decimal(status as nat)
            + ",\"dur_ms\":"@ + t.total,
{
    let q = "\""@;
    let e = Seq::<char>::empty();
    reveal_strlit("\"");
    reveal_strlit("\":");
    reveal_strlit(",");
    reveal_strlit("{");
    reveal_strlit("{\"ts\":\"");
    reveal_strlit("ts");
    let t1 = "{\"ts\":\""@ + t.stamp;
    let m1 = seq![("ts"@, quoted(t.stamp))];
    lemma_one_member(m1[0]);
    assert(t1 + q =~= "{"@ + members(m1));
    reveal_strlit("\",\"id\":\"");
    reveal_strlit("id");
    assert("\",\"id\":\""@ =~= q + ","@ + q + "id"@ + "\":"@ + q);
    lemma_next_member(t1, m1, q, "\",\"id\":\""@, "id"@, json_text(c.request_id), q);
    let t2 = t1 + "\",\"id\":\""@ + json_text(c.request_id);
    let m2 = m1.push(("id"@, quoted(json_text(c.request_id))));
    reveal_strlit("\",\"peer\":\"");
    reveal_strlit("peer");
    assert("\",\"peer\":\""@ =~= q + ","@ + q + "peer"@ + "\":"@ + q);
    lemma_next_member(t2, m2, q, "\",\"peer\":\""@, "peer"@, c.peer, q);
    let t3 = t2 + "\",\"peer\":\""@ + c.peer;
    let m3 = m2.push(("peer"@, quoted(c.peer)));
    reveal_strlit("\",\"method\":\"");
    reveal_strlit("method");
    assert("\",\"method\":\""@ =~= q + ","@ + q + "method"@ + "\":"@ + q);
    lemma_next_member(t3, m3, q, "\",\"method\":\""@, "method"@, json_text(c.method), q);
    let t4 = t3 + "\",\"method\":\""@ + json_text(c.method);
    let m4 = m3.push(("method"@, quoted(json_text(c.method))));
    reveal_strlit("\",\"target\":\"");
    reveal_strlit("target");
    assert("\",\"target\":\""@ =~= q + ","@ + q + "target"@ + "\":"@ + q);
    lemma_next_member(t4, m4, q, "\",\"target\":\""@, "target"@, json_text(c.target), q);
    let t5 = t4 + "\",\"target\":\""@ + json_text(c.target);
    let m5 = m4.push(("target"@, quoted(json_text(c.target))));
    reveal_strlit("\",\"status\":");
    reveal_strlit("status");
    let v6 = decimal(status as nat);
    assert("\",\"status\":"@ =~= q + ","@ + q + "status"@ + "\":"@ + e);
    lemma_next_member(t5, m5, q, "\",\"status\":"@, "status"@, v6, e);
    let t6 = t5 + "\",\"status\":"@ + v6;
    assert(e + v6 + e =~= v6);
    let m6 = m5.push(("status"@, v6));
    reveal_strlit(",\"dur_ms\":");
    reveal_strlit("dur_ms");
    assert(",\"dur_ms\":"@ =~= e + ","@ + q + "dur_ms"@ + "\":"@ + e);
    lemma_next_member(t6, m6, e, ",\"dur_ms\":"@, "dur_ms"@, t.total, e);
    let t7 = t6 + ",\"dur_ms\":"@ + t.total;
    assert(e + t.total + e =~= t.total);
    let m7 = m6.push(("dur_ms"@, t.total));
    assert(t7 + e =~= t7);
    assert(m7 =~= log_members(c, status, t).take(7));
    (t7, m7)
}

proof fn lemma_the_middle_of_a_line(
    c: CtxView,
    status: u16,
    t: TimesView,
    t7: Seq<char>,
) -> (r: Seq<char>)
    requires
        t7 == "{"@ + members(log_members(c, status, t).take(7)),
    ensures
        r + "\""@ == "{"@ + members(log_members(c, status, t).take(13)),
        r == t7 + ",\"route_ms\":"@ + or_null(t.route) + ",\"connect_ms\":"@ + or_null(t.connect)
            + ",\"ttfb_ms\":"@ + or_null(t.first_byte) + ",\"upstream\":\""@ + json_text(
            dashed(c.upstream),
        ) + "\",\"backend\":\""@ + json_text(dashed(c.backend)) + "\",\"user\":\""@ + json_text(
            dashed(c.identity),
        ),
{
    let q = "\""@;
    let e = Seq::<char>::empty();
    reveal_strlit("\"");
    reveal_strlit("\":");
    reveal_strlit(",");
    let m7 = log_members(c, status, t).take(7);
    assert(t7 + e =~= t7);
    reveal_strlit(",\"route_ms\":");
    reveal_strlit("route_ms");
    let v8 = or_null(t.route);
    assert(",\"route_ms\":"@ =~= e + ","@ + q + "route_ms"@ + "\":"@ + e);
    lemma_next_member(t7, m7, e, ",\"route_ms\":"@, "route_ms"@, v8, e);
    let t8 = t7 + ",\"route_ms\":"@ + v8;
    assert(e + v8 + e =~= v8);
    let m8 = m7.push(("route_ms"@, v8));
    reveal_strlit(",\"connect_ms\":");
    reveal_strlit("connect_ms");
    let v9 = or_null(t.connect);
    assert(",\"connect_ms\":"@ =~= e + ","@ + q + "connect_ms"@ + "\":"@ + e);
    lemma_next_member(t8, m8, e, ",\"connect_ms\":"@, "connect_ms"@, v9, e);
    let t9 = t8 + ",\"connect_ms\":"@ + v9;
    assert(e + v9 + e =~= v9);
    let m9 = m8.push(("connect_ms"@, v9));
    reveal_strlit(",\"ttfb_ms\":");
    reveal_strlit("ttfb_ms");
    let v10 = or_null(t.first_byte);
    assert(",\"ttfb_ms\":"@ =~= e + ","@ + q + "ttfb_ms"@ + "\":"@ + e);
    lemma_next_member(t9, m9, e, ",\"ttfb_ms\":"@, "ttfb_ms"@, v10, e);
    let t10 = t9 + ",\"ttfb_ms\":"@ + v10;
    assert(e + v10 + e =~= v10);
    let m10 = m9.push(("ttfb_ms"@, v10));
    reveal_strlit(",\"upstream\":\"");
    reveal_strlit("upstream");
    let v11 = json_text(dashed(c.upstream));
    assert(",\"upstream\":\""@ =~= e + ","@ + q + "upstream"@ + "\":"@ + q);
    lemma_next_member(t10, m10, e, ",\"upstream\":\""@, "upstream"@, v11, q);
    let t11 = t10 + ",\"upstream\":\""@ + v11;
    let m11 = m10.push(("upstream"@, quoted(v11)));
    reveal_strlit("\",\"backend\":\"");
    reveal_strlit("backend");
    let v12 = json_text(dashed(c.backend));
    assert("\",\"backend\":\""@ =~= q + ","@ + q + "backend"@ + "\":"@ + q);
    lemma_next_member(t11, m11, q, "\",\"backend\":\""@, "backend"@, v12, q);
    let t12 = t11 + "\",\"backend\":\""@ + v12;
    let m12 = m11.push(("backend"@, quoted(v12)));
    reveal_strlit("\",\"user\":\"");
    reveal_strlit("user");
    let v13 = json_text(dashed(c.identity));
    assert("\",\"user\":\""@ =~= q + ","@ + q + "user"@ + "\":"@ + q);
    lemma_next_member(t12, m12, q, "\",\"user\":\""@, "user"@, v13, q);
    let t13 = t12 + "\",\"user\":\""@ + v13;
    let m13 = m12.push(("user"@, quoted(v13)));
    assert(m13 =~= log_members(c, status, t).take(13));
    t13
}

/// A line of the access log is one JSON object: its texts are escaped, and what a
/// request never came to is `null`.
pub proof fn law_a_log_line_is_an_object(c: CtxView, status: u16, t: TimesView)
    ensures
        json_line(c, status, t) == object(log_members(c, status, t)),
{
    let (t7, m7) = lemma_the_start_of_a_line(c, status, t);
    let t13 = lemma_the_middle_of_a_line(c, status, t, t7);
    let all = log_members(c, status, t);
    let m13 = all.take(13);
    let q = "\""@;
    let e = Seq::<char>::empty();
    reveal_strlit("\"");
    reveal_strlit("\":");
    reveal_strlit(",");
    reveal_strlit("\",\"pooled\":");
    reveal_strlit("pooled");
    let v14 = all[13].1;
    assert("\",\"pooled\":"@ =~= q + ","@ + q + "pooled"@ + "\":"@ + e);
    lemma_next_member(t13, m13, q, "\",\"pooled\":"@, "pooled"@, v14, e);
    let t14 = t13 + "\",\"pooled\":"@ + v14;
    assert(e + v14 + e =~= v14);
    let m14 = m13.push(("pooled"@, v14));
    reveal_strlit(",\"cache\":");
    reveal_strlit("cache");
    let v15 = all[14].1;
    assert(",\"cache\":"@ =~= e + ","@ + q + "cache"@ + "\":"@ + e);
    lemma_next_member(t14, m14, e, ",\"cache\":"@, "cache"@, v15, e);
    let t15 = t14 + ",\"cache\":"@ + v15;
    assert(e + v15 + e =~= v15);
    let m15 = m14.push(("cache"@, v15));
    reveal_strlit(",\"rejected_by\":");
    reveal_strlit("rejected_by");
    let v16 = all[15].1;
    assert(",\"rejected_by\":"@ =~= e + ","@ + q + "rejected_by"@ + "\":"@ + e);
    lemma_next_member(t15, m15, e, ",\"rejected_by\":"@, "rejected_by"@, v16, e);
    let t16 = t15 + ",\"rejected_by\":"@ + v16;
    assert(e + v16 + e =~= v16);
    let m16 = m15.push(("rejected_by"@, v16));
    assert(m16 =~= all);
    assert(t16 + e =~= t16);
    assert(json_line(c, status, t) == t16 + "}"@);
}

/// What is written of a request in prose: its id, its client, what it asked for, what it
/// got and how long that took, and where it went.
pub open spec fn log_words(c: CtxView, status: u16, t: TimesView) -> Seq<Seq<char>> {
    seq![
        "id="@ + c.request_id,
        "peer="@ + c.peer,
        "method="@ + c.method,
        "target="@ + c.target,
        "status="@ + decimal(status as nat),
        "dur="@ + t.total + "ms"@,
        "upstream="@ + dashed(c.upstream),
        "backend="@ + dashed(c.backend),
        "user="@ + dashed(c.identity),
    ]
}

proof fn lemma_next_word(s: Seq<char>, v: Seq<Seq<char>>, lit: Seq<char>, name: Seq<char>, x: Seq<char>)
    requires
        v.len() > 0,
        s == joined(v, " "@),
        lit == " "@ + name,
    ensures
        s + lit + x == joined(v.push(name + x), " "@),
{
    let w = v.push(name + x);
    assert(w.drop_last() =~= v);
    assert(s + lit + x =~= s + " "@ + (name + x));
}

/// In prose a line of the access log is its parts with spaces between them; a refusal
/// adds the layer that refused.
pub proof fn law_a_plain_line_is_its_parts(c: CtxView, status: u16, t: TimesView)
    ensures
        c.rejected_by is None ==> plain_line(c, status, t) == joined(log_words(c, status, t), " "@),
        c.rejected_by is Some ==> plain_line(c, status, t) == joined(
            log_words(c, status, t).push("rejected_by="@ + c.rejected_by->0),
            " "@,
        ),
{
    let all = log_words(c, status, t);
    reveal_strlit(" ");
    reveal_strlit("ms");
    let s1 = "id="@ + c.request_id;
    let v1 = seq![s1];
    reveal_strlit(" peer=");
    reveal_strlit("peer=");
    assert(" peer="@ =~= " "@ + "peer="@);
    lemma_next_word(s1, v1, " peer="@, "peer="@, c.peer);
    let s2 = s1 + " peer="@ + c.peer;
    let v2 = v1.push(all[1]);
    reveal_strlit(" method=");
    reveal_strlit("method=");
    assert(" method="@ =~= " "@ + "method="@);
    lemma_next_word(s2, v2, " method="@, "method="@, c.method);
    let s3 = s2 + " method="@ + c.method;
    let v3 = v2.push(all[2]);
    reveal_strlit(" target=");
    reveal_strlit("target=");
    assert(" target="@ =~= " "@ + "target="@);
    lemma_next_word(s3, v3, " target="@, "target="@, c.target);
    let s4 = s3 + " target="@ + c.target;
    let v4 = v3.push(all[3]);
    reveal_strlit(" status=");
    reveal_strlit("status=");
    assert(" status="@ =~= " "@ + "status="@);
    lemma_next_word(s4, v4, " status="@, "status="@, decimal(status as nat));
    let s5 = s4 + " status="@ + decimal(status as nat);
    let v5 = v4.push(all[4]);
    reveal_strlit(" dur=");
    reveal_strlit("dur=");
    assert(" dur="@ =~= " "@ + "dur="@);
    let dur = t.total + "ms"@;
    lemma_next_word(s5, v5, " dur="@, "dur="@, dur);
    let s6 = s5 + " dur="@ + dur;
    assert("dur="@ + dur =~= all[5]);
    let v6 = v5.push(all[5]);
    reveal_strlit(" upstream=");
    reveal_strlit("ms upstream=");
    reveal_strlit("upstream=");
    assert(" upstream="@ =~= " "@ + "upstream="@);
    lemma_next_word(s6, v6, " upstream="@, "upstream="@, dashed(c.upstream));
    let s7 = s6 + " upstream="@ + dashed(c.upstream);
    let v7 = v6.push(all[6]);
    assert("ms upstream="@ =~= "ms"@ + " upstream="@);
    assert(s7 =~= s5 + " dur="@ + t.total + "ms upstream="@ + dashed(c.upstream));
    reveal_strlit(" backend=");
    reveal_strlit("backend=");
    assert(" backend="@ =~= " "@ + "backend="@);
    lemma_next_word(s7, v7, " backend="@, "backend="@, dashed(c.backend));
    let s8 = s7 + " backend="@ + dashed(c.backend);
    let v8 = v7.push(all[7]);
    reveal_strlit(" user=");
    reveal_strlit("user=");
    assert(" user="@ =~= " "@ + "user="@);
    lemma_next_word(s8, v8, " user="@, "user="@, dashed(c.identity));
    let s9 = s8 + " user="@ + dashed(c.identity);
    let v9 = v8.push(all[8]);
    assert(v9 =~= all);
    if c.rejected_by is Some {
        let by = c.rejected_by->0;
        reveal_strlit(" rejected_by=");
        reveal_strlit("rejected_by=");
        assert(" rejected_by="@ =~= " "@ + "rejected_by="@);
        lemma_next_word(s9, v9, " rejected_by="@, "rejected_by="@, by);
        assert(plain_line(c, status, t) =~= s9 + " rejected_by="@ + by);
    } else {
        assert(plain_line(c, status, t) =~= s9);
    }
}

/// A line of the error log starts with the time, and its message stands in one column:
/// the names of the levels are five wide.
pub proof fn law_messages_stand_in_one_column(stamp: Seq<char>, l: Level, message: Seq<char>)
    ensures
        log_text(stamp, l, message).take(stamp.len() as int) == stamp,
        log_text(stamp, l, message).skip(stamp.len() + 7int) == message,
        log_text(stamp, l, message).subrange(stamp.len() as int, stamp.len() + 7int) == match l {
            Level::Error => " ERROR "@,
            Level::Warn => " WARN  "@,
            Level::Info => " INFO  "@,
            Level::Debug => " DEBUG "@,
        },
{
    reveal_strlit(" ");
    reveal_strlit("ERROR");
    reveal_strlit("WARN ");
    reveal_strlit("INFO ");
    reveal_strlit("DEBUG");
    reveal_strlit(" ERROR ");
    reveal_strlit(" WARN  ");
    reveal_strlit(" INFO  ");
    reveal_strlit(" DEBUG ");
    let s = log_text(stamp, l, message);
    let tag = l.padded_tag();
    assert(tag.len() == 5);
    assert(s.take(stamp.len() as int) =~= stamp);
    assert(s.skip(stamp.len() + 7int) =~= message);
    assert(s.subrange(stamp.len() as int, stamp.len() + 7int) =~= " "@ + tag + " "@);
    assert(" "@ + "ERROR"@ + " "@ =~= " ERROR "@);
    assert(" "@ + "WARN "@ + " "@ =~= " WARN  "@);
    assert(" "@ + "INFO "@ + " "@ =~= " INFO  "@);
    assert(" "@ + "DEBUG"@ + " "@ =~= " DEBUG "@);
}

// ---------------------------------------------------------------------------
// The health document
// ---------------------------------------------------------------------------

/// The members of the pools: for each one how many of its servers serve, and how many it
/// has.
pub open spec fn pool_members(v: Seq<PoolView>) -> Seq<(Seq<char>, Seq<char>)> {
    Seq::new(
        v.len(),
        |i: int|
            (
                json_text(v[i].name),
                object(
                    seq![
                        ("healthy"@, decimal(healthy(v[i].servers, v[i].servers.len() as int))),
                        ("total"@, decimal(v[i].servers.len())),
                    ],
                ),
            ),
    )
}

proof fn lemma_pool_member(p: PoolView)
    ensures
        pool_json(p) == member(
            json_text(p.name),
            object(
                seq![
                    ("healthy"@, decimal(healthy(p.servers, p.servers.len() as int))),
                    ("total"@, decimal(p.servers.len())),
                ],
            ),
        ),
{
    let h = decimal(healthy(p.servers, p.servers.len() as int));
    let n = decimal(p.servers.len());
    reveal_strlit("\"");
    reveal_strlit("\":");
    reveal_strlit(",");
    reveal_strlit("{");
    reveal_strlit("healthy");
    reveal_strlit("total");
    reveal_strlit("\":{\"healthy\":");
    reveal_strlit(",\"total\":");
    lemma_one_member(("healthy"@, h));
    lemma_member_added(seq![("healthy"@, h)], ("total"@, n));
    let m = seq![("healthy"@, h), ("total"@, n)];
    assert(seq![("healthy"@, h)].push(("total"@, n)) =~= m);
    assert("\":{\"healthy\":"@ =~= "\":"@ + "{"@ + "\""@ + "healthy"@ + "\":"@);
    assert(",\"total\":"@ =~= ","@ + "\""@ + "total"@ + "\":"@);
    assert(pool_json(p) =~= member(json_text(p.name), object(m)));
}

proof fn lemma_pool_members(v: Seq<PoolView>, n: int)
    requires
        0 <= n <= v.len(),
    ensures
        pools_json(v, n) == members(pool_members(v.take(n))),
    decreases n,
{
    let m = pool_members(v.take(n));
    if n > 0 {
        lemma_pool_member(v[n - 1]);
        let x = m[n - 1];
        assert(v.take(n)[n - 1] == v[n - 1]);
        if n == 1 {
            assert(m =~= seq![x]);
            lemma_one_member(x);
        } else {
            lemma_pool_members(v, n - 1);
            let before = pool_members(v.take(n - 1));
            assert(before.push(x) =~= m) by {
                assert forall|i: int| 0 <= i < n - 1 implies before[i] == m[i] by {
                    assert(v.take(n)[i] == v.take(n - 1)[i]);
                }
            }
            lemma_member_added(before, x);
        }
    } else {
        assert(members(m) =~= Seq::empty());
    }
}

/// The health document is an object that says how it stands, what serves in each pool,
/// and how many connections are open.
pub proof fn law_health_is_an_object(v: Seq<PoolView>, active: int)
    ensures
        health_text(v, active) == object(
            seq![
                ("status"@, quoted(if any_down(v) { "degraded"@ } else { "ok"@ })),
                ("upstreams"@, object(pool_members(v))),
                ("active_connections"@, signed_text(active)),
            ],
        ) + "\n"@,
{
    lemma_pool_members(v, v.len() as int);
    assert(v.take(v.len() as int) =~= v);
    let pools = members(pool_members(v));
    let status = if any_down(v) {
        "degraded"@
    } else {
        "ok"@
    };
    reveal_strlit("\"");
    reveal_strlit("\":");
    reveal_strlit(",");
    reveal_strlit("{");
    reveal_strlit("}");
    reveal_strlit("\n");
    reveal_strlit("}\n");
    reveal_strlit("status");
    reveal_strlit("upstreams");
    reveal_strlit("active_connections");
    reveal_strlit("{\"status\":\"");
    reveal_strlit("\",\"upstreams\":{");
    reveal_strlit("},\"active_connections\":");
    let a = ("status"@, quoted(status));
    let b = ("upstreams"@, object(pool_members(v)));
    let c = ("active_connections"@, signed_text(active));
    lemma_one_member(a);
    lemma_member_added(seq![a], b);
    lemma_member_added(seq![a, b], c);
    assert(seq![a].push(b) =~= seq![a, b]);
    assert(seq![a, b].push(c) =~= seq![a, b, c]);
    assert("{\"status\":\""@ =~= "{"@ + "\""@ + "status"@ + "\":"@ + "\""@);
    assert("\",\"upstreams\":{"@ =~= "\""@ + ","@ + "\""@ + "upstreams"@ + "\":"@ + "{"@);
    assert("},\"active_connections\":"@ =~= "}"@ + ","@ + "\""@ + "active_connections"@ + "\":"@);
    assert("}\n"@ =~= "}"@ + "\n"@);
    let one = "{"@ + member(a.0, a.1);
    assert("{\"status\":\""@ + status + "\""@ =~= one);
    let two = one + ","@ + member(b.0, b.1);
    assert("{\"status\":\""@ + status + "\",\"upstreams\":{"@ + pools + "}"@ =~= two);
    let three = two + ","@ + member(c.0, c.1);
    assert("{\"status\":\""@ + status + "\",\"upstreams\":{"@ + pools + "},\"active_connections\":"@
        + signed_text(active) =~= three);
    assert(health_text(v, active) =~= three + "}"@ + "\n"@);
    assert(object(seq![a, b, c]) =~= three + "}"@);
}

// ---------------------------------------------------------------------------
// Counters
// ---------------------------------------------------------------------------

/// A text of whole lines.
pub open spec fn whole(s: Seq<char>) -> bool {
    s.len() == 0 || s.last() == '\n'
}

/// A text holds a line, or several in a row, as they stand.
pub open spec fn shows(s: Seq<char>, x: Seq<char>) -> bool {
    exists|a: Seq<char>, b: Seq<char>| whole(a) && s == #[trigger] (a + x + b)
}

proof fn lemma_shows_next(a: Seq<char>, x: Seq<char>)
    requires
        whole(a),
    ensures
        shows(a + x, x),
{
    let none = Seq::<char>::empty();
    assert(a + x =~= a + x + none);
}

proof fn lemma_shows_further(s: Seq<char>, x: Seq<char>, r: Seq<char>)
    requires
        shows(s, x),
    ensures
        shows(s + r, x),
{
    let (a, b) = choose|a: Seq<char>, b: Seq<char>| whole(a) && s == #[trigger] (a + x + b);
    assert(s + r =~= a + x + (b + r));
}

proof fn lemma_shows_behind(p: Seq<char>, s: Seq<char>, x: Seq<char>)
    requires
        whole(p),
        shows(s, x),
    ensures
        shows(p + s, x),
{
    let (a, b) = choose|a: Seq<char>, b: Seq<char>| whole(a) && s == #[trigger] (a + x + b);
    assert(p + s =~= (p + a) + x + b);
    assert(whole(p + a)) by {
        if a.len() > 0 {
            assert((p + a).last() == a.last());
        } else {
            assert(p + a =~= p);
        }
    }
}

proof fn lemma_whole_more(a: Seq<char>, b: Seq<char>)
    requires
        whole(a),
        whole(b),
    ensures
        whole(a + b),
{
    if b.len() > 0 {
        assert((a + b).last() == b.last());
    } else {
        assert(a + b =~= a);
    }
}

/// The line of a status class.
pub open spec fn requests_line(name: Seq<char>, class: int, n: u64) -> Seq<char> {
    "ferrum_requests_total{upstream=\""@ + label_text(name) + "\",code=\""@ + decimal(class as nat)
        + "xx\"} "@ + decimal(n as nat) + "\n"@
}

/// The line of a layer's refusals.
pub open spec fn refusals_line(by: Seq<char>, n: u64) -> Seq<char> {
    "ferrum_rejected_total{by=\""@ + by + "\"} "@ + decimal(n as nat) + "\n"@
}

/// The line of a pool's failed connects.
pub open spec fn failures_line(name: Seq<char>, n: u64) -> Seq<char> {
    "ferrum_connect_errors_total{upstream=\""@ + label_text(name) + "\"} "@ + decimal(n as nat)
        + "\n"@
}

proof fn lemma_line_is_whole(a: Seq<char>)
    ensures
        whole(a + "\n"@),
{
    reveal_strlit("\n");
    assert((a + "\n"@).last() == '\n');
}

proof fn lemma_class_lines(s: SlotView, n: int, class: int)
    requires
        0 <= n <= 5,
        s.by_class.len() == 5,
    ensures
        whole(class_lines(s, n)),
        1 <= class <= n && s.by_class[class - 1] > 0 ==> shows(
            class_lines(s, n),
            requests_line(s.name, class, s.by_class[class - 1]),
        ),
    decreases n,
{
    if n > 0 {
        lemma_class_lines(s, n - 1, class);
        let before = class_lines(s, n - 1);
        let line = requests_line(s.name, n, s.by_class[n - 1]);
        lemma_line_is_whole(
            "ferrum_requests_total{upstream=\""@ + label_text(s.name) + "\",code=\""@ + decimal(
                n as nat,
            ) + "xx\"} "@ + decimal(s.by_class[n - 1] as nat),
        );
        lemma_whole_more(before, line);
        lemma_shows_next(before, line);
        if s.by_class[n - 1] == 0 {
            assert(class_lines(s, n) =~= before);
        } else {
            assert(class_lines(s, n) == before + line);
            if 1 <= class < n && s.by_class[class - 1] > 0 {
                lemma_shows_further(
                    before,
                    requests_line(s.name, class, s.by_class[class - 1]),
                    line,
                );
            }
        }
    }
}

proof fn lemma_request_lines(v: Seq<SlotView>, n: int, i: int, class: int)
    requires
        0 <= n <= v.len(),
        1 <= class <= 5,
        forall|k: int| 0 <= k < v.len() ==> (#[trigger] v[k]).by_class.len() == 5,
    ensures
        whole(request_lines(v, n)),
        0 <= i < n && v[i].by_class[class - 1] > 0 ==> shows(
            request_lines(v, n),
            requests_line(v[i].name, class, v[i].by_class[class - 1]),
        ),
    decreases n,
{
    if n > 0 {
        lemma_request_lines(v, n - 1, i, class);
        lemma_class_lines(v[n - 1], 5, class);
        let before = request_lines(v, n - 1);
        let own = class_lines(v[n - 1], 5);
        lemma_whole_more(before, own);
        if 0 <= i < n && v[i].by_class[class - 1] > 0 {
            let line = requests_line(v[i].name, class, v[i].by_class[class - 1]);
            if i == n - 1 {
                lemma_shows_behind(before, own, line);
            } else {
                lemma_shows_further(before, line, own);
            }
        }
    }
}

proof fn lemma_connect_lines(v: Seq<SlotView>, n: int, i: int)
    requires
        0 <= n <= v.len(),
    ensures
        whole(connect_lines(v, n)),
        0 <= i < n && v[i].connect_errors > 0 ==> shows(
            connect_lines(v, n),
            failures_line(v[i].name, v[i].connect_errors),
        ),
    decreases n,
{
    if n > 0 {
        lemma_connect_lines(v, n - 1, i);
        let before = connect_lines(v, n - 1);
        let own = connect_line(v[n - 1]);
        let line = failures_line(v[n - 1].name, v[n - 1].connect_errors);
        lemma_line_is_whole(
            "ferrum_connect_errors_total{upstream=\""@ + label_text(v[n - 1].name) + "\"} "@
                + decimal(v[n - 1].connect_errors as nat),
        );
        lemma_whole_more(before, own);
        lemma_shows_next(before, line);
        if 0 <= i < n - 1 && v[i].connect_errors > 0 {
            lemma_shows_further(before, failures_line(v[i].name, v[i].connect_errors), own);
        }
    }
}

proof fn lemma_reject_lines(v: Seq<u64>, n: int, i: int)
    requires
        0 <= n <= v.len(),
    ensures
        whole(reject_lines(v, n)),
        0 <= i < n && v[i] > 0 ==> shows(
            reject_lines(v, n),
            refusals_line(rejector_label(i), v[i]),
        ),
    decreases n,
{
    if n > 0 {
        lemma_reject_lines(v, n - 1, i);
        let before = reject_lines(v, n - 1);
        let line = refusals_line(rejector_label(n - 1), v[n - 1]);
        lemma_line_is_whole(
            "ferrum_rejected_total{by=\""@ + rejector_label(n - 1) + "\"} "@ + decimal(
                v[n - 1] as nat,
            ),
        );
        lemma_whole_more(before, line);
        lemma_shows_next(before, line);
        if v[n - 1] == 0 {
            assert(reject_lines(v, n) =~= before);
        } else {
            assert(reject_lines(v, n) == before + line);
            if 0 <= i < n - 1 && v[i] > 0 {
                lemma_shows_further(before, refusals_line(rejector_label(i), v[i]), line);
            }
        }
    }
}

proof fn lemma_bucket_lines(up: Seq<char>, h: HistView, n: int, i: int)
    requires
        0 <= n,
    ensures
        whole(bucket_lines(up, h, n)),
        0 <= i < n ==> shows(
            bucket_lines(up, h, n),
            bucket_line(up, bound_text(i), running(h.buckets, i + 1)),
        ),
    decreases n,
{
    if n > 0 {
        lemma_bucket_lines(up, h, n - 1, i);
        let before = bucket_lines(up, h, n - 1);
        let line = bucket_line(up, bound_text(n - 1), running(h.buckets, n));
        lemma_line_is_whole(
            "ferrum_request_duration_seconds_bucket{upstream=\""@ + label_text(up) + "\",le=\""@
                + bound_text(n - 1) + "\"} "@ + decimal(running(h.buckets, n) as nat),
        );
        lemma_whole_more(before, line);
        lemma_shows_next(before, line);
        if 0 <= i < n - 1 {
            lemma_shows_further(
                before,
                bucket_line(up, bound_text(i), running(h.buckets, i + 1)),
                line,
            );
        }
    }
}

/// What leads to the requests in the text of a registry.
spec fn lead_requests() -> Seq<char> {
    "# HELP ferrum_requests_total Completed exchanges by upstream and status class.\n"@
        + "# TYPE ferrum_requests_total counter\n"@
}

spec fn upto_requests(m: MetricsView) -> Seq<char> {
    lead_requests() + request_lines(m.upstreams, m.upstreams.len() as int)
}

spec fn upto_unrouted(m: MetricsView) -> Seq<char> {
    upto_requests(m) + class_lines(m.unrouted, 5)
}

spec fn lead_connects(m: MetricsView) -> Seq<char> {
    upto_unrouted(m)
        + "# HELP ferrum_connect_errors_total Backend connect failures (post-retry, per attempt).\n"@
        + "# TYPE ferrum_connect_errors_total counter\n"@
}

spec fn upto_connects(m: MetricsView) -> Seq<char> {
    lead_connects(m) + connect_lines(m.upstreams, m.upstreams.len() as int)
}

spec fn lead_rejects(m: MetricsView) -> Seq<char> {
    upto_connects(m) + connect_line(m.unrouted)
        + "# HELP ferrum_rejected_total Requests rejected by middleware, by rejector.\n"@
        + "# TYPE ferrum_rejected_total counter\n"@
}

spec fn upto_rejects(m: MetricsView) -> Seq<char> {
    lead_rejects(m) + reject_lines(m.rejected, 5)
}

spec fn lead_active(m: MetricsView) -> Seq<char> {
    upto_rejects(m) + "# HELP ferrum_active_connections Client connections currently open.\n"@
        + "# TYPE ferrum_active_connections gauge\n"@
}

spec fn upto_active(m: MetricsView) -> Seq<char> {
    lead_active(m) + "ferrum_active_connections "@ + signed_text(m.active_connections as int)
        + "\n"@
}

spec fn lead_durations(m: MetricsView) -> Seq<char> {
    upto_active(m)
        + "# HELP ferrum_request_duration_seconds Full exchange duration, client-side.\n"@
        + "# TYPE ferrum_request_duration_seconds histogram\n"@
}

spec fn upto_all(m: MetricsView) -> Seq<char> {
    lead_durations(m) + hist_text("all"@, m.duration_all)
}

/// A text goes on from another.
spec fn goes_on(t: Seq<char>, s: Seq<char>) -> bool {
    exists|r: Seq<char>| t == #[trigger] (s + r)
}

proof fn lemma_peel(t: Seq<char>, s: Seq<char>, x: Seq<char>)
    requires
        goes_on(t, s + x),
    ensures
        goes_on(t, s),
{
    let r = choose|r: Seq<char>| t == #[trigger] ((s + x) + r);
    assert(t =~= s + (x + r));
}

proof fn lemma_still_shown(t: Seq<char>, s: Seq<char>, x: Seq<char>)
    requires
        goes_on(t, s),
        shows(s, x),
    ensures
        shows(t, x),
{
    let r = choose|r: Seq<char>| t == #[trigger] (s + r);
    lemma_shows_further(s, x, r);
}

proof fn lemma_sections(m: MetricsView)
    ensures
        goes_on(metrics_text(m), upto_all(m)),
        goes_on(metrics_text(m), upto_active(m)),
        goes_on(metrics_text(m), upto_rejects(m)),
        goes_on(metrics_text(m), upto_connects(m)),
        goes_on(metrics_text(m), upto_unrouted(m)),
        goes_on(metrics_text(m), upto_requests(m)),
{
    let t = metrics_text(m);
    let rest = hist_lines(m.upstreams, m.upstreams.len() as int);
    assert(t == upto_all(m) + rest);
    lemma_peel(t, lead_durations(m), hist_text("all"@, m.duration_all));
    let a = "# HELP ferrum_request_duration_seconds Full exchange duration, client-side.\n"@;
    let b = "# TYPE ferrum_request_duration_seconds histogram\n"@;
    lemma_peel(t, upto_active(m) + a, b);
    lemma_peel(t, upto_active(m), a);
    let c = "ferrum_active_connections "@;
    let d = signed_text(m.active_connections as int);
    lemma_peel(t, lead_active(m) + c + d, "\n"@);
    lemma_peel(t, lead_active(m) + c, d);
    lemma_peel(t, lead_active(m), c);
    let e = "# HELP ferrum_active_connections Client connections currently open.\n"@;
    let f = "# TYPE ferrum_active_connections gauge\n"@;
    lemma_peel(t, upto_rejects(m) + e, f);
    lemma_peel(t, upto_rejects(m), e);
    lemma_peel(t, lead_rejects(m), reject_lines(m.rejected, 5));
    let g = "# HELP ferrum_rejected_total Requests rejected by middleware, by rejector.\n"@;
    let h = "# TYPE ferrum_rejected_total counter\n"@;
    let i = connect_line(m.unrouted);
    lemma_peel(t, upto_connects(m) + i + g, h);
    lemma_peel(t, upto_connects(m) + i, g);
    lemma_peel(t, upto_connects(m), i);
    lemma_peel(t, lead_connects(m), connect_lines(m.upstreams, m.upstreams.len() as int));
    let j =
        "# HELP ferrum_connect_errors_total Backend connect failures (post-retry, per attempt).\n"@;
    let k = "# TYPE ferrum_connect_errors_total counter\n"@;
    lemma_peel(t, upto_unrouted(m) + j, k);
    lemma_peel(t, upto_unrouted(m), j);
    lemma_peel(t, upto_requests(m), class_lines(m.unrouted, 5));
}

proof fn lemma_whole_type(s: Seq<char>, x: Seq<char>)
    requires
        x.len() > 0,
        x.last() == '\n',
    ensures
        whole(s + x),
{
    assert((s + x).last() == x.last());
}

proof fn lemma_leads_are_whole(m: MetricsView)
    ensures
        whole(lead_requests()),
        whole(lead_connects(m)),
        whole(lead_rejects(m)),
        whole(lead_active(m)),
        whole(lead_durations(m)),
{
    reveal_strlit("# TYPE ferrum_requests_total counter\n");
    reveal_strlit("# TYPE ferrum_connect_errors_total counter\n");
    reveal_strlit("# TYPE ferrum_rejected_total counter\n");
    reveal_strlit("# TYPE ferrum_active_connections gauge\n");
    reveal_strlit("# TYPE ferrum_request_duration_seconds histogram\n");
    lemma_whole_type(
        "# HELP ferrum_requests_total Completed exchanges by upstream and status class.\n"@,
        "# TYPE ferrum_requests_total counter\n"@,
    );
    lemma_whole_type(
        upto_unrouted(m)
            + "# HELP ferrum_connect_errors_total Backend connect failures (post-retry, per attempt).\n"@,
        "# TYPE ferrum_connect_errors_total counter\n"@,
    );
    lemma_whole_type(
        upto_connects(m) + connect_line(m.unrouted)
            + "# HELP ferrum_rejected_total Requests rejected by middleware, by rejector.\n"@,
        "# TYPE ferrum_rejected_total counter\n"@,
    );
    lemma_whole_type(
        upto_rejects(m) + "# HELP ferrum_active_connections Client connections currently open.\n"@,
        "# TYPE ferrum_active_connections gauge\n"@,
    );
    lemma_whole_type(
        upto_active(m)
            + "# HELP ferrum_request_duration_seconds Full exchange duration, client-side.\n"@,
        "# TYPE ferrum_request_duration_seconds histogram\n"@,
    );
}

/// What was counted is shown, each count on a line of its own: the requests of a pool by
/// status class, its failed connects, and the refusals of a layer.
pub proof fn law_what_was_counted_is_shown(m: MetricsView, i: int, class: int, layer: int)
    requires
        crate::metrics::metrics_wf(m),
        0 <= i < m.upstreams.len(),
        1 <= class <= 5,
        0 <= layer < 5,
    ensures
        ({
            let s = m.upstreams[i];
            let n = s.by_class[class - 1];
            &&& n > 0 ==> shows(
                metrics_text(m),
                "ferrum_requests_total{upstream=\""@ + label_text(s.name) + "\",code=\""@ + decimal(
                    class as nat,
                ) + "xx\"} "@ + decimal(n as nat) + "\n"@,
            )
            &&& s.connect_errors > 0 ==> shows(
                metrics_text(m),
                "ferrum_connect_errors_total{upstream=\""@ + label_text(s.name) + "\"} "@ + decimal(
                    s.connect_errors as nat,
                ) + "\n"@,
            )
        }),
        m.rejected[layer] > 0 ==> shows(
            metrics_text(m),
            "ferrum_rejected_total{by=\""@ + (if layer == 0 {
                "ratelimit"@
            } else if layer == 1 {
                "auth"@
            } else if layer == 2 {
                "authz"@
            } else if layer == 3 {
                "request-id"@
            } else {
                "other"@
            }) + "\"} "@ + decimal(m.rejected[layer] as nat) + "\n"@,
        ),
{
    let t = metrics_text(m);
    lemma_sections(m);
    lemma_leads_are_whole(m);
    assert forall|k: int| 0 <= k < m.upstreams.len() implies (
    #[trigger] m.upstreams[k]).by_class.len() == 5 by {
        assert(crate::metrics::slot_wf(m.upstreams[k]));
    }
    let s = m.upstreams[i];
    let len = m.upstreams.len() as int;
    lemma_request_lines(m.upstreams, len, i, class);
    if s.by_class[class - 1] > 0 {
        let line = requests_line(s.name, class, s.by_class[class - 1]);
        lemma_shows_behind(lead_requests(), request_lines(m.upstreams, len), line);
        lemma_still_shown(t, upto_requests(m), line);
    }
    lemma_connect_lines(m.upstreams, len, i);
    if s.connect_errors > 0 {
        let line = failures_line(s.name, s.connect_errors);
        lemma_shows_behind(lead_connects(m), connect_lines(m.upstreams, len), line);
        lemma_still_shown(t, upto_connects(m), line);
    }
    lemma_reject_lines(m.rejected, 5, layer);
    if m.rejected[layer] > 0 {
        let line = refusals_line(rejector_label(layer), m.rejected[layer]);
        lemma_shows_behind(lead_rejects(m), reject_lines(m.rejected, 5), line);
        lemma_still_shown(t, upto_rejects(m), line);
    }
}

/// The open connections are shown.
pub proof fn law_open_connections_are_shown(m: MetricsView)
    ensures
        shows(
            metrics_text(m),
            "ferrum_active_connections "@ + signed_text(m.active_connections as int) + "\n"@,
        ),
        m.active_connections >= 0 ==> signed_text(m.active_connections as int) == decimal(
            m.active_connections as nat,
        ),
{
    let t = metrics_text(m);
    let d = signed_text(m.active_connections as int);
    let line = "ferrum_active_connections "@ + d + "\n"@;
    lemma_sections(m);
    lemma_leads_are_whole(m);
    lemma_shows_next(lead_active(m), line);
    assert(upto_active(m) =~= lead_active(m) + line);
    lemma_still_shown(t, upto_active(m), line);
}

proof fn lemma_histogram(up: Seq<char>, h: HistView, i: int)
    requires
        0 <= i < 8,
    ensures
        shows(
            hist_text(up, h),
            bucket_line(up, bound_text(i), running(h.buckets, i + 1)),
        ),
        shows(hist_text(up, h), bucket_line(up, "+Inf"@, running_all(h))),
        shows(
            hist_text(up, h),
            "ferrum_request_duration_seconds_sum{upstream=\""@ + label_text(up) + "\"} "@
                + seconds_text(h.sum_micros as nat) + "\n"@,
        ),
        shows(
            hist_text(up, h),
            "ferrum_request_duration_seconds_count{upstream=\""@ + label_text(up) + "\"} "@
                + decimal(running_all(h) as nat) + "\n"@,
        ),
        whole(hist_text(up, h)),
{
    let lines = bucket_lines(up, h, 8);
    let inf = bucket_line(up, "+Inf"@, running_all(h));
    let line = bucket_line(up, bound_text(i), running(h.buckets, i + 1));
    let sum = "ferrum_request_duration_seconds_sum{upstream=\""@ + label_text(up) + "\"} "@
        + seconds_text(h.sum_micros as nat) + "\n"@;
    let count = "ferrum_request_duration_seconds_count{upstream=\""@ + label_text(up) + "\"} "@
        + decimal(running_all(h) as nat) + "\n"@;
    let t = hist_text(up, h);
    assert(t =~= lines + inf + sum + count);
    lemma_bucket_lines(up, h, 8, i);
    lemma_line_is_whole(
        "ferrum_request_duration_seconds_bucket{upstream=\""@ + label_text(up) + "\",le=\""@
            + "+Inf"@ + "\"} "@ + decimal(running_all(h) as nat),
    );
    lemma_line_is_whole(
        "ferrum_request_duration_seconds_sum{upstream=\""@ + label_text(up) + "\"} "@
            + seconds_text(h.sum_micros as nat),
    );
    lemma_line_is_whole(
        "ferrum_request_duration_seconds_count{upstream=\""@ + label_text(up) + "\"} "@ + decimal(
            running_all(h) as nat,
        ),
    );
    lemma_whole_more(lines, inf);
    lemma_whole_more(lines + inf, sum);
    lemma_whole_more(lines + inf + sum, count);
    lemma_shows_further(lines, line, inf);
    lemma_shows_further(lines + inf, line, sum);
    lemma_shows_further(lines + inf + sum, line, count);
    lemma_shows_next(lines, inf);
    lemma_shows_further(lines + inf, inf, sum);
    lemma_shows_further(lines + inf + sum, inf, count);
    lemma_shows_next(lines + inf, sum);
    lemma_shows_further(lines + inf + sum, sum, count);
    lemma_shows_next(lines + inf + sum, count);
}

/// Of the durations of all requests the text shows how many were below each bound, how
/// many there were, and what they add up to, in seconds.
pub proof fn law_durations_are_shown(m: MetricsView, i: int)
    requires
        0 <= i < 8,
    ensures
        ({
            let h = m.duration_all;
            let t = metrics_text(m);
            let all = label_text("all"@);
            &&& shows(
                t,
                "ferrum_request_duration_seconds_bucket{upstream=\""@ + all + "\",le=\""@
                    + bound_text(i) + "\"} "@ + decimal(running(h.buckets, i + 1) as nat) + "\n"@,
            )
            &&& shows(
                t,
                "ferrum_request_duration_seconds_bucket{upstream=\""@ + all + "\",le=\""@ + "+Inf"@
                    + "\"} "@ + decimal(running_all(h) as nat) + "\n"@,
            )
            &&& shows(
                t,
                "ferrum_request_duration_seconds_sum{upstream=\""@ + all + "\"} "@ + seconds_text(
                    h.sum_micros as nat,
                ) + "\n"@,
            )
            &&& shows(
                t,
                "ferrum_request_duration_seconds_count{upstream=\""@ + all + "\"} "@ + decimal(
                    running_all(h) as nat,
                ) + "\n"@,
            )
        }),
{
    let h = m.duration_all;
    let t = metrics_text(m);
    let up = "all"@;
    let x = hist_text(up, h);
    lemma_sections(m);
    lemma_leads_are_whole(m);
    lemma_histogram(up, h, i);
    let a = bucket_line(up, bound_text(i), running(h.buckets, i + 1));
    let b = bucket_line(up, "+Inf"@, running_all(h));
    let c = "ferrum_request_duration_seconds_sum{upstream=\""@ + label_text(up) + "\"} "@
        + seconds_text(h.sum_micros as nat) + "\n"@;
    let d = "ferrum_request_duration_seconds_count{upstream=\""@ + label_text(up) + "\"} "@
        + decimal(running_all(h) as nat) + "\n"@;
    lemma_shows_behind(lead_durations(m), x, a);
    lemma_still_shown(t, upto_all(m), a);
    lemma_shows_behind(lead_durations(m), x, b);
    lemma_still_shown(t, upto_all(m), b);
    lemma_shows_behind(lead_durations(m), x, c);
    lemma_still_shown(t, upto_all(m), c);
    lemma_shows_behind(lead_durations(m), x, d);
    lemma_still_shown(t, upto_all(m), d);
}

proof fn lemma_hist_lines(v: Seq<SlotView>, n: int, u: int, x: Seq<char>)
    requires
        0 <= n <= v.len(),
        0 <= u < v.len(),
        shows(hist_text(v[u].name, v[u].duration), x),
    ensures
        whole(hist_lines(v, n)),
        u < n ==> shows(hist_lines(v, n), x),
    decreases n,
{
    if n > 0 {
        lemma_hist_lines(v, n - 1, u, x);
        let before = hist_lines(v, n - 1);
        let own = hist_text(v[n - 1].name, v[n - 1].duration);
        lemma_histogram(v[n - 1].name, v[n - 1].duration, 0);
        lemma_whole_more(before, own);
        if u == n - 1 {
            lemma_shows_behind(before, own, x);
        } else if u < n {
            lemma_shows_further(before, x, own);
        }
    }
}

/// The durations of a pool are shown like those of all requests.
pub proof fn law_durations_of_pools_are_shown(m: MetricsView, u: int, x: Seq<char>)
    requires
        0 <= u < m.upstreams.len(),
        shows(hist_text(m.upstreams[u].name, m.upstreams[u].duration), x),
    ensures
        shows(metrics_text(m), x),
{
    lemma_leads_are_whole(m);
    lemma_histogram("all"@, m.duration_all, 0);
    lemma_hist_lines(m.upstreams, m.upstreams.len() as int, u, x);
    lemma_whole_more(lead_durations(m), hist_text("all"@, m.duration_all));
    lemma_shows_behind(
        upto_all(m),
        hist_lines(m.upstreams, m.upstreams.len() as int),
        x,
    );
}

/// The counters of the cache are shown under their names; what never happened has no
/// line.
pub proof fn law_cache_events_are_shown(s: CacheStats)
    ensures
        ({
            let t = crate::cache::store::stats_text(s);
            let line = |label: Seq<char>, n: u64|
                "ferrum_cache_events_total{result=\""@ + label + "\"} "@ + decimal(n as nat) + "\n"@;
            &&& s.hits > 0 ==> shows(t, line("hit"@, s.hits))
            &&& s.misses > 0 ==> shows(t, line("miss"@, s.misses))
            &&& s.revalidated > 0 ==> shows(t, line("revalidated"@, s.revalidated))
            &&& s.stored > 0 ==> shows(t, line("stored"@, s.stored))
            &&& s.evicted > 0 ==> shows(t, line("evicted"@, s.evicted))
            &&& s.invalidated > 0 ==> shows(t, line("invalidated"@, s.invalidated))
        }),
{
    let lead =
        "# HELP ferrum_cache_events_total Cache activity by outcome.\n# TYPE ferrum_cache_events_total counter\n"@;
    reveal_strlit(
        "# HELP ferrum_cache_events_total Cache activity by outcome.\n# TYPE ferrum_cache_events_total counter\n",
    );
    assert(whole(lead));
    let p = "ferrum_cache_events_total{result=\""@;
    let v = seq![
        crate::cache::store::event_line("hit"@, s.hits),
        crate::cache::store::event_line("miss"@, s.misses),
        crate::cache::store::event_line("revalidated"@, s.revalidated),
        crate::cache::store::event_line("stored"@, s.stored),
        crate::cache::store::event_line("evicted"@, s.evicted),
        crate::cache::store::event_line("invalidated"@, s.invalidated),
    ];
    lemma_line_is_whole(p + "hit"@ + "\"} "@ + decimal(s.hits as nat));
    lemma_line_is_whole(p + "miss"@ + "\"} "@ + decimal(s.misses as nat));
    lemma_line_is_whole(p + "revalidated"@ + "\"} "@ + decimal(s.revalidated as nat));
    lemma_line_is_whole(p + "stored"@ + "\"} "@ + decimal(s.stored as nat));
    lemma_line_is_whole(p + "evicted"@ + "\"} "@ + decimal(s.evicted as nat));
    lemma_line_is_whole(p + "invalidated"@ + "\"} "@ + decimal(s.invalidated as nat));
    assert forall|k: int| 0 <= k < v.len() implies whole(#[trigger] v[k]) by {
        assert(k == 0 || k == 1 || k == 2 || k == 3 || k == 4 || k == 5);
    }
    lemma_all_shown(lead, v);
    reveal_with_fuel(behind, 7);
    assert(v.drop_last() =~= seq![v[0], v[1], v[2], v[3], v[4]]);
    assert(v.drop_last().drop_last() =~= seq![v[0], v[1], v[2], v[3]]);
    assert(v.drop_last().drop_last().drop_last() =~= seq![v[0], v[1], v[2]]);
    assert(v.drop_last().drop_last().drop_last().drop_last() =~= seq![v[0], v[1]]);
    assert(v.drop_last().drop_last().drop_last().drop_last().drop_last() =~= seq![v[0]]);
    assert(behind(lead, v) == crate::cache::store::stats_text(s));
    assert(shows(behind(lead, v), v[0]) && shows(behind(lead, v), v[1]) && shows(
        behind(lead, v),
        v[2],
    ) && shows(behind(lead, v), v[3]) && shows(behind(lead, v), v[4]) && shows(
        behind(lead, v),
        v[5],
    ));
}

/// Texts, one behind the other.
spec fn behind(lead: Seq<char>, v: Seq<Seq<char>>) -> Seq<char>
    decreases v.len(),
{
    if v.len() == 0 {
        lead
    } else {
        behind(lead, v.drop_last()) + v.last()
    }
}

proof fn lemma_all_shown(lead: Seq<char>, v: Seq<Seq<char>>)
    requires
        whole(lead),
        forall|k: int| 0 <= k < v.len() ==> whole(#[trigger] v[k]),
    ensures
        whole(behind(lead, v)),
        forall|k: int| 0 <= k < v.len() ==> shows(behind(lead, v), #[trigger] v[k]),
    decreases v.len(),
{
    if v.len() > 0 {
        let d = v.drop_last();
        assert forall|k: int| 0 <= k < d.len() implies whole(#[trigger] d[k]) by {
            assert(d[k] == v[k]);
        }
        lemma_all_shown(lead, d);
        assert(whole(v[v.len() - 1]));
        lemma_whole_more(behind(lead, d), v.last());
        lemma_shows_next(behind(lead, d), v.last());
        assert forall|k: int| 0 <= k < v.len() implies shows(behind(lead, v), #[trigger] v[k]) by {
            if k < d.len() {
                assert(d[k] == v[k]);
                lemma_shows_further(behind(lead, d), d[k], v.last());
            }
        }
    }
}

/// The counters of the firewall are shown under their names; what never happened has no
/// line.
pub proof fn law_firewall_events_are_shown(s: WafStats)
    ensures
        ({
            let t = crate::waf::stats_text(s);
            let line = |label: Seq<char>, n: u64|
                "ferrum_waf_events_total{result=\""@ + label + "\"} "@ + decimal(n as nat) + "\n"@;
            &&& s.convicted > 0 ==> shows(t, line("convicted"@, s.convicted))
            &&& s.detected > 0 ==> shows(t, line("detected"@, s.detected))
            &&& s.banned > 0 ==> shows(t, line("banned"@, s.banned))
            &&& s.ban_refused > 0 ==> shows(t, line("ban_refused"@, s.ban_refused))
        }),
{
    let lead =
        "# HELP ferrum_waf_events_total WAF activity by outcome.\n# TYPE ferrum_waf_events_total counter\n"@;
    reveal_strlit(
        "# HELP ferrum_waf_events_total WAF activity by outcome.\n# TYPE ferrum_waf_events_total counter\n",
    );
    assert(whole(lead));
    let p = "ferrum_waf_events_total{result=\""@;
    let v = seq![
        crate::waf::event_line("convicted"@, s.convicted),
        crate::waf::event_line("detected"@, s.detected),
        crate::waf::event_line("banned"@, s.banned),
        crate::waf::event_line("ban_refused"@, s.ban_refused),
    ];
    lemma_line_is_whole(p + "convicted"@ + "\"} "@ + decimal(s.convicted as nat));
    lemma_line_is_whole(p + "detected"@ + "\"} "@ + decimal(s.detected as nat));
    lemma_line_is_whole(p + "banned"@ + "\"} "@ + decimal(s.banned as nat));
    lemma_line_is_whole(p + "ban_refused"@ + "\"} "@ + decimal(s.ban_refused as nat));
    assert forall|k: int| 0 <= k < v.len() implies whole(#[trigger] v[k]) by {
        assert(k == 0 || k == 1 || k == 2 || k == 3);
    }
    lemma_all_shown(lead, v);
    reveal_with_fuel(behind, 5);
    assert(v.drop_last() =~= seq![v[0], v[1], v[2]]);
    assert(v.drop_last().drop_last() =~= seq![v[0], v[1]]);
    assert(v.drop_last().drop_last().drop_last() =~= seq![v[0]]);
    assert(behind(lead, v) == crate::waf::stats_text(s));
    assert(shows(behind(lead, v), v[0]) && shows(behind(lead, v), v[1]) && shows(
        behind(lead, v),
        v[2],
    ) && shows(behind(lead, v), v[3]));
}

} // verus!
