//! Active health checks: which servers are probed, with what, and what of it counts.
//!
//! A server without traffic has no outcomes, so only a probe can notice that it has
//! recovered. The program around the library sleeps, connects and reads.

use vstd::prelude::*;
use vstd::string::StringExecFns;

use crate::balancer::breaker::{
    asked, change, due, failed, succeeded, Breaker, BreakerState,
};
use crate::balancer::{PoolView, Server, ServerView, Upstream};
use crate::http::{parse_response_head, response_of};
use crate::text::own;
use crate::time::Instant;

verus! {

/// Of the first `n` servers, those that are due for a probe, in order.
pub open spec fn due_among(v: Seq<ServerView>, n: int, now: Instant) -> Seq<usize>
    decreases n,
{
    if n <= 0 {
        Seq::empty()
    } else if due(v[n - 1].breaker, now) is Some {
        due_among(v, n - 1, now).push((n - 1) as usize)
    } else {
        due_among(v, n - 1, now)
    }
}

/// Servers after the first `n` of them were asked for a probe.
pub open spec fn asked_among(v: Seq<ServerView>, n: int, now: Instant) -> Seq<ServerView> {
    Seq::new(
        v.len(),
        |i: int|
            if i < n {
                ServerView { breaker: asked(v[i].breaker, now), ..v[i] }
            } else {
                v[i]
            },
    )
}

/// The servers of a pool that are due for a probe, by their places. All are asked
/// before any is probed, so that the answers are those of one point in time.
pub fn due_servers(up: &mut Upstream, now: Instant) -> (r: Vec<usize>)
    requires
        old(up).wf(),
    ensures
        final(up).wf(),
        r@ == due_among(old(up)@.servers, old(up)@.servers.len() as int, now),
        final(up)@ == (PoolView {
            servers: asked_among(old(up)@.servers, old(up)@.servers.len() as int, now),
            ..old(up)@
        }),
{
    let mut r: Vec<usize> = Vec::new();
    let mut i: usize = 0;
    let n: usize = up.servers.len();
    let ghost was = up@;
    assert(was.servers.len() == n);
    assert(asked_among(was.servers, 0, now) =~= was.servers);
    while i < n
        invariant
            i <= n == was.servers.len(),
            up.wf(),
            up.servers@.len() == n,
            r@ == due_among(was.servers, i as int, now),
            up@ == (PoolView { servers: asked_among(was.servers, i as int, now), ..was }),
        decreases n - i,
    {
        let ghost before = up@;
        assert(before.servers[i as int] == was.servers[i as int]);
        if up.probe_due(i, now).is_some() {
            r.push(i);
        }
        assert(up@.servers =~= asked_among(was.servers, i + 1, now));
        assert(up@.servers.len() == up.servers@.len());
        i = i + 1;
    }
    r
}

/// The request of a probe.
pub open spec fn probe_text(path: Seq<char>, addr: Seq<char>) -> Seq<char> {
    "GET "@ + path + " HTTP/1.1\r\nHost: "@ + addr + "\r\nConnection: close\r\n\r\n"@
}

/// The request of a probe.
pub fn probe_request(path: &str, addr: &str) -> (r: String)
    ensures
        r@ == probe_text(path@, addr@),
{
    own("GET ").concat(path).concat(" HTTP/1.1\r\nHost: ").concat(addr).concat(
        "\r\nConnection: close\r\n\r\n",
    )
}

/// The head of a probe's response says that the server is well: a 2xx.
pub open spec fn well(head: Seq<u8>) -> bool {
    response_of(head) matches Ok(resp) && 200 <= resp.status < 300
}

/// Does the head of a probe's response say that the server is well? Everything but a
/// 2xx is a failure.
pub fn probe_passed(head: &[u8]) -> (r: bool)
    ensures
        r == well(head@),
{
    match parse_response_head(head) {
        Ok(resp) => 200 <= resp.status && resp.status < 300,
        Err(_) => false,
    }
}

/// A breaker after a probe that passed or failed.
pub open spec fn told(b: Breaker, ok: bool, now: Instant) -> Breaker {
    if ok {
        succeeded(b)
    } else {
        failed(b, now)
    }
}

/// Reports a probe to the server's breaker, and returns the change of its state.
pub fn apply_probe_result(server: &mut Server, ok: bool, now: Instant) -> (r: Option<
    (BreakerState, BreakerState),
>)
    requires
        old(server).breaker.wf(),
    ensures
        final(server).breaker.wf(),
        final(server)@ == (ServerView {
            breaker: told(old(server).breaker, ok, now),
            ..old(server)@
        }),
        r == change(old(server).breaker, final(server).breaker),
{
    if ok {
        server.record_success(now)
    } else {
        server.record_failure(now)
    }
}

} // verus!
