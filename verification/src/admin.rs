//! The admin plane: metrics and health on a listener of their own.
//!
//! It answers one request on each connection and closes it.

use vstd::prelude::*;
use vstd::string::{StrSliceExecFns, StringExecFns};
use vstd::utf8::encode_utf8;

use crate::balancer::{serving, PoolView, ServerView, Upstream};
use crate::cache::store::stats_text;
use crate::cache::Cache;
use crate::fault::{Fault, FaultKind, Outcome};
use crate::http::{parse_request_head, request_of, target_path, RequestView};
use crate::metrics::{metrics_text, signed_of, signed_text, Metrics};
use crate::middleware::observe::{json_escape, json_text};
use crate::text::{before, decimal, decimal_of, own, same};

verus! {

/// How long a whole exchange may take, in nanoseconds: 5 seconds.
pub const ADMIN_TIMEOUT: u128 = 5_000_000_000;

/// How many of the first `n` servers serve.
pub open spec fn healthy(v: Seq<ServerView>, n: int) -> nat
    decreases n,
{
    if n <= 0 {
        0
    } else if serving(v[n - 1]) {
        healthy(v, n - 1) + 1
    } else {
        healthy(v, n - 1)
    }
}

/// A pool without a server that serves: a part of the traffic gets a 502.
pub open spec fn down(p: PoolView) -> bool {
    healthy(p.servers, p.servers.len() as int) == 0
}

/// A pool in the health document.
pub open spec fn pool_json(p: PoolView) -> Seq<char> {
    "\""@ + json_text(p.name) + "\":{\"healthy\":"@ + decimal(
        healthy(p.servers, p.servers.len() as int),
    ) + ",\"total\":"@ + decimal(p.servers.len()) + "}"@
}

/// The first `n` pools in the health document.
pub open spec fn pools_json(v: Seq<PoolView>, n: int) -> Seq<char>
    decreases n,
{
    if n <= 0 {
        Seq::empty()
    } else if n == 1 {
        pool_json(v[0])
    } else {
        pools_json(v, n - 1) + ","@ + pool_json(v[n - 1])
    }
}

/// The health document.
pub open spec fn health_text(v: Seq<PoolView>, active: int) -> Seq<char> {
    "{\"status\":\""@ + (if any_down(v) {
        "degraded"@
    } else {
        "ok"@
    }) + "\",\"upstreams\":{"@ + pools_json(v, v.len() as int) + "},\"active_connections\":"@
        + signed_text(active) + "}\n"@
}

/// Some pool is down.
pub open spec fn any_down(v: Seq<PoolView>) -> bool {
    exists|i: int| 0 <= i < v.len() && down(#[trigger] v[i])
}

/// What pools are.
pub open spec fn pool_views(v: Seq<&Upstream>) -> Seq<PoolView> {
    Seq::new(v.len(), |i: int| v[i]@)
}

fn count_healthy(up: &Upstream) -> (n: usize)
    ensures
        n == healthy(up@.servers, up@.servers.len() as int),
{
    let mut n: usize = 0;
    let mut i: usize = 0;
    assert(up@.servers.len() == up.servers@.len());
    while i < up.servers.len()
        invariant
            i <= up.servers@.len() == up@.servers.len(),
            n <= i,
            n == healthy(up@.servers, i as int),
        decreases up.servers.len() - i,
    {
        assert(up@.servers[i as int] == up.servers@[i as int]@);
        if up.servers[i].available() {
            n = n + 1;
        }
        i = i + 1;
    }
    n
}

/// The proxy's own health: the document, and whether a pool is down.
pub fn health_json(metrics: &Metrics, upstreams: &Vec<&Upstream>) -> (r: (String, bool))
    ensures
        r.0@ == health_text(pool_views(upstreams@), metrics.active_connections as int),
        r.1 == any_down(pool_views(upstreams@)),
{
    let ghost v = pool_views(upstreams@);
    let mut degraded = false;
    let mut ups = String::new();
    assert(ups@ =~= Seq::empty());
    let mut i: usize = 0;
    while i < upstreams.len()
        invariant
            i <= upstreams@.len(),
            v == pool_views(upstreams@),
            ups@ == pools_json(v, i as int),
            degraded == (exists|k: int| 0 <= k < i && down(#[trigger] v[k])),
        decreases upstreams.len() - i,
    {
        let u = upstreams[i];
        assert(v[i as int] == u@);
        let good: usize = count_healthy(u);
        if good == 0 {
            degraded = true;
        }
        let name = json_escape(u.name());
        let g = decimal_of(good as u64);
        let t = decimal_of(u.servers.len() as u64);
        assert(u@.servers.len() == u.servers@.len());
        let one = own("\"").concat(name.as_str()).concat("\":{\"healthy\":").concat(
            g.as_str(),
        ).concat(",\"total\":").concat(t.as_str()).concat("}");
        assert(one@ == pool_json(u@));
        ups = if i > 0 {
            ups.concat(",").concat(one.as_str())
        } else {
            one
        };
        i = i + 1;
    }
    let status = if degraded {
        "degraded"
    } else {
        "ok"
    };
    let n = signed_of(metrics.active_connections());
    let body = own("{\"status\":\"").concat(status).concat("\",\"upstreams\":{").concat(
        ups.as_str(),
    ).concat("},\"active_connections\":").concat(n.as_str()).concat("}\n");
    (body, degraded)
}

/// A response of the admin plane.
pub struct PageView {
    pub status: nat,
    pub reason: Seq<char>,
    pub content_type: Seq<char>,
    pub body: Seq<char>,
}

/// What a request is answered: `GET` alone, and two paths.
pub open spec fn page_for(req: RequestView, metrics: Seq<char>, health: Seq<char>) -> PageView {
    let path = before(req.target, '?');
    if req.method != "GET"@ {
        PageView {
            status: 405,
            reason: "Method Not Allowed"@,
            content_type: "text/plain"@,
            body: "405\n"@,
        }
    } else if path == "/metrics"@ {
        PageView {
            status: 200,
            reason: "OK"@,
            content_type: "text/plain; version=0.0.4"@,
            body: metrics,
        }
    } else if path == "/health"@ {
        PageView { status: 200, reason: "OK"@, content_type: "application/json"@, body: health }
    } else {
        PageView {
            status: 404,
            reason: "Not Found"@,
            content_type: "text/plain"@,
            body: "404\n"@,
        }
    }
}

/// A response of the admin plane on the wire.
pub open spec fn page_bytes(p: PageView) -> Seq<u8> {
    encode_utf8(
        "HTTP/1.1 "@ + decimal(p.status) + " "@ + p.reason + "\r\nContent-Type: "@
            + p.content_type + "\r\nContent-Length: "@ + decimal(encode_utf8(p.body).len())
            + "\r\nConnection: close\r\n\r\n"@,
    ) + encode_utf8(p.body)
}

fn write_page(status: u64, reason: &str, content_type: &str, body: &str) -> (r: Vec<u8>)
    ensures
        r@ == page_bytes(
            PageView {
                status: status as nat,
                reason: reason@,
                content_type: content_type@,
                body: body@,
            },
        ),
{
    let code = decimal_of(status);
    let len = decimal_of(body.as_bytes().len() as u64);
    let head = own("HTTP/1.1 ").concat(code.as_str()).concat(" ").concat(reason).concat(
        "\r\nContent-Type: ",
    ).concat(content_type).concat("\r\nContent-Length: ").concat(len.as_str()).concat(
        "\r\nConnection: close\r\n\r\n",
    );
    let mut r = head.as_str().as_bytes_vec();
    let mut b = body.as_bytes_vec();
    r.append(&mut b);
    r
}

/// The answer to the head of a request, or why the head is refused.
pub open spec fn answer_to(head: Seq<u8>, metrics: Seq<char>, health: Seq<char>) -> Outcome<Seq<u8>> {
    match request_of(head) {
        Err(m) => Err(m),
        Ok(req) => Ok(page_bytes(page_for(req, metrics, health))),
    }
}

/// Answers the head of a request. A degraded pool does not change the status: the
/// proxy is alive, and restarting it would not help.
pub fn answer(head: &[u8], metrics: &Metrics, cache: &Cache, upstreams: &Vec<&Upstream>) -> (r: Result<
    Vec<u8>,
    Fault,
>)
    requires
        metrics.wf(),
    ensures
        match r {
            Ok(b) => answer_to(
                head@,
                metrics_text(metrics@) + stats_text(cache.stats),
                health_text(pool_views(upstreams@), metrics.active_connections as int),
            ) == Ok::<Seq<u8>, Seq<char>>(b@),
            Err(e) => e.kind == FaultKind::InvalidData && answer_to(
                head@,
                metrics_text(metrics@) + stats_text(cache.stats),
                health_text(pool_views(upstreams@), metrics.active_connections as int),
            ) == Err::<Seq<u8>, Seq<char>>(e.message@),
        },
{
    let req = match parse_request_head(head) {
        Ok(r) => r,
        Err(e) => {
            return Err(e);
        },
    };
    let path = target_path(req.target.as_str());
    if !same(req.method.as_str(), "GET") {
        return Ok(write_page(405, "Method Not Allowed", "text/plain", "405\n"));
    }
    if same(path, "/metrics") {
        let m = metrics.render();
        let c = cache.render_prometheus();
        let body = m.concat(c.as_str());
        return Ok(write_page(200, "OK", "text/plain; version=0.0.4", body.as_str()));
    }
    if same(path, "/health") {
        let (body, _) = health_json(metrics, upstreams);
        return Ok(write_page(200, "OK", "application/json", body.as_str()));
    }
    Ok(write_page(404, "Not Found", "text/plain", "404\n"))
}

} // verus!
