//! One exchange: the decisions from a client's head to the end of the response.
//!
//! The program around the library reads, connects, writes and waits. It hands each
//! outcome to the function of its stage, and does what that function says next. A
//! server that was picked is released by the stage at which the exchange ends.

use vstd::prelude::*;
use vstd::utf8::encode_utf8;

use super::conn::BodyCopy;
use super::{
    answer_head, answered, forward_head, forwarded, is_idempotent, is_poolable, poolable,
    rejection_head, rejection_response, repeatable, says_close, sent_close, usable_after, wire,
    MAX_RETRIES,
};
use crate::balancer::{chosen, moved_on, released, taken, Lease};
use crate::fault::{Fault, FaultKind, Outcome};
use crate::http::{
    header, host_name, host_without_port, keep_alive, lookup, parse_request_head,
    parse_response_head, request_body_framing, request_framing, request_of, request_text,
    response_body_framing, response_framing, response_of, response_text, target_path,
    wants_keep_alive, write_request_head, write_response_head, BodyFraming, Fields, RequestHead,
    RequestView, ResponseHead, ResponseView, Version,
};
use crate::ip::IpAddr;
use crate::middleware::{
    entered, unwound, Chain, CtxView, Middleware, Passage, Peer, Rejection, RejectionView, ReqCtx,
    Shared,
};
use crate::rewrite::{ForwardContext, RewriteRules};
use crate::router::{best, pool_at, with_pool, RouteTable, RouteView, TableView, TargetView};
use crate::security::Limits;
use crate::text::{before, maybe, own, slice};
use crate::time::Instant;

verus! {

/// The client's side of an exchange.
#[derive(Debug)]
pub struct Client {
    pub ip: IpAddr,
    /// Address and port as they stand in a log line.
    pub shown: String,
    /// The address alone, as it is forwarded.
    pub ip_shown: String,
    /// What the client speaks to the listener.
    pub scheme: &'static str,
    pub limits: Limits,
}

/// What became of reading a head.
#[derive(Debug)]
pub enum HeadEvent {
    /// It took too long.
    TimedOut,
    /// The peer closed before its first byte.
    Closed,
    Failed(Fault),
    Bytes(Vec<u8>),
}

/// An error response, and how the connection ends with it.
#[derive(Debug)]
pub struct Refuse {
    pub status: u16,
    pub reason: &'static str,
    /// Whether a failure to send it is a failure of the exchange.
    pub must_send: bool,
    /// The failure that the exchange ends with, if there is one.
    pub fault: Option<Fault>,
}

/// What an error response is.
pub struct RefuseView {
    pub status: u16,
    pub reason: Seq<char>,
    pub must_send: bool,
    pub fault: Option<(FaultKind, Seq<char>)>,
}

impl View for Refuse {
    type V = RefuseView;

    open spec fn view(&self) -> RefuseView {
        RefuseView {
            status: self.status,
            reason: self.reason@,
            must_send: self.must_send,
            fault: match self.fault {
                Some(e) => Some((e.kind, e.message@)),
                None => None,
            },
        }
    }
}

/// An error response after which the connection is closed.
pub open spec fn plain_refusal(status: u16, reason: Seq<char>) -> RefuseView {
    RefuseView { status, reason, must_send: true, fault: None }
}

/// The answer to a head that is no proper request.
pub open spec fn bad_request(kind: FaultKind, message: Seq<char>) -> RefuseView {
    RefuseView {
        status: 400,
        reason: "Bad Request"@,
        must_send: false,
        fault: Some((kind, message)),
    }
}

fn refuse(status: u16, reason: &'static str) -> (r: Refuse)
    ensures
        r@ == plain_refusal(status, reason@),
{
    Refuse { status, reason, must_send: true, fault: None }
}

fn refuse_head(e: Fault) -> (r: Refuse)
    ensures
        r@ == bad_request(e.kind, e.message@),
{
    Refuse { status: 400, reason: "Bad Request", must_send: false, fault: Some(e) }
}

// ---------------------------------------------------------------------------
// The head of the request
// ---------------------------------------------------------------------------

/// A request that has a route.
#[derive(Debug)]
pub struct Asked {
    pub req: RequestHead,
    pub framing: BodyFraming,
    /// The client wants to keep its connection.
    pub keep: bool,
    /// The place of the route.
    pub route: usize,
    /// The `Host` header as the client sent it.
    pub host: Option<String>,
}

/// What follows on the head of a request.
#[derive(Debug)]
pub enum Gate {
    /// The connection is closed without a word.
    Close,
    Refuse(Refuse),
    Pass(Asked),
}

/// What follows on the head of a request, in a specification.
pub enum GateView {
    Close,
    Refuse(RefuseView),
    Pass { req: RequestView, framing: BodyFraming, keep: bool, route: int },
}

/// The host that a request asks for, without a port.
pub open spec fn host_of(h: Fields) -> Option<Seq<char>> {
    match lookup(h, "host"@) {
        Some(v) => Some(host_name(v)),
        None => None,
    }
}

/// The route of a request.
pub open spec fn route_for(routes: Seq<RouteView>, req: RequestView) -> Option<int> {
    best(
        routes,
        routes.len() as int,
        req.method,
        host_of(req.headers),
        before(req.target, '?'),
    )
}

/// What follows on a parsed head: too many fields, an unclear framing and a declared
/// body over the limit are refused before a route is looked for.
pub open spec fn gate_of_request(req: RequestView, limits: Limits, routes: Seq<RouteView>) -> GateView {
    if req.headers.len() > limits.max_headers {
        GateView::Refuse(plain_refusal(431, "Request Header Fields Too Large"@))
    } else {
        match request_framing(req.headers) {
            Err(m) => GateView::Refuse(bad_request(FaultKind::InvalidData, m)),
            Ok(framing) => if framing is Length && framing->Length_0 > limits.max_body {
                GateView::Refuse(plain_refusal(413, "Payload Too Large"@))
            } else {
                match route_for(routes, req) {
                    None => GateView::Refuse(plain_refusal(404, "Not Found"@)),
                    Some(route) => GateView::Pass {
                        req,
                        framing,
                        keep: keep_alive(req.version, req.headers),
                        route,
                    },
                }
            },
        }
    }
}

/// What follows on reading a head.
pub open spec fn gate_of(ev: HeadEvent, limits: Limits, routes: Seq<RouteView>) -> GateView {
    match ev {
        HeadEvent::TimedOut => GateView::Refuse(
            RefuseView {
                status: 408,
                reason: "Request Timeout"@,
                must_send: false,
                fault: None,
            },
        ),
        HeadEvent::Closed => GateView::Close,
        HeadEvent::Failed(e) => GateView::Refuse(bad_request(e.kind, e.message@)),
        HeadEvent::Bytes(b) => match request_of(b@) {
            Err(m) => GateView::Refuse(bad_request(FaultKind::InvalidData, m)),
            Ok(req) => gate_of_request(req, limits, routes),
        },
    }
}

/// A decision on a head is the one that its bytes call for.
pub open spec fn is_gate(g: Gate, v: GateView) -> bool {
    match (g, v) {
        (Gate::Close, GateView::Close) => true,
        (Gate::Refuse(r), GateView::Refuse(w)) => r@ == w,
        (Gate::Pass(a), GateView::Pass { req, framing, keep, route }) => {
            &&& a.req@ == req
            &&& a.framing == framing
            &&& a.keep == keep
            &&& a.route == route
            &&& maybe(a.host) == lookup(req.headers, "host"@)
        },
        _ => false,
    }
}

fn find_route(table: &RouteTable, req: &RequestHead) -> (r: Option<usize>)
    ensures
        match r {
            Some(i) => i < table.routes@.len() && route_for(table@.routes, req@) == Some(i as int),
            None => route_for(table@.routes, req@) is None,
        },
{
    let host = match header(req.headers.as_slice(), "host") {
        Some(v) => Some(host_without_port(v)),
        None => None,
    };
    assert(slice(host) == host_of(req@.headers));
    table.find_route(req.method.as_str(), host, target_path(req.target.as_str()))
}

/// Decides on a head: what is no proper request is answered at once, and a request
/// is given its route.
pub fn on_head(ev: HeadEvent, limits: &Limits, table: &RouteTable) -> (g: Gate)
    ensures
        is_gate(g, gate_of(ev, *limits, table@.routes)),
        g matches Gate::Pass(a) ==> a.route < table.routes@.len(),
{
    let bytes = match ev {
        HeadEvent::TimedOut => {
            return Gate::Refuse(
                Refuse { status: 408, reason: "Request Timeout", must_send: false, fault: None },
            );
        },
        HeadEvent::Closed => {
            return Gate::Close;
        },
        HeadEvent::Failed(e) => {
            return Gate::Refuse(refuse_head(e));
        },
        HeadEvent::Bytes(b) => b,
    };
    let req = match parse_request_head(bytes.as_slice()) {
        Ok(r) => r,
        Err(e) => {
            return Gate::Refuse(refuse_head(e));
        },
    };
    assert(req@.headers.len() == req.headers@.len());
    if req.headers.len() > limits.max_headers {
        return Gate::Refuse(refuse(431, "Request Header Fields Too Large"));
    }
    let framing = match request_body_framing(&req) {
        Ok(f) => f,
        Err(e) => {
            return Gate::Refuse(refuse_head(e));
        },
    };
    if let BodyFraming::Length(n) = framing {
        if n > limits.max_body {
            return Gate::Refuse(refuse(413, "Payload Too Large"));
        }
    }
    let keep = wants_keep_alive(req.version, req.headers.as_slice());
    match find_route(table, &req) {
        None => Gate::Refuse(refuse(404, "Not Found")),
        Some(route) => {
            let host = match header(req.headers.as_slice(), "host") {
                Some(v) => Some(own(v)),
                None => None,
            };
            Gate::Pass(Asked { req, framing, keep, route, host })
        },
    }
}

// ---------------------------------------------------------------------------
// The layers of the route
// ---------------------------------------------------------------------------

/// A request that is ready for a backend. Its head is written once, and sent again
/// as it is where another server is tried.
pub struct Attempt {
    pub route: usize,
    pub method: String,
    pub head: Vec<u8>,
    pub framing: BodyFraming,
    pub keep: bool,
    pub retryable: bool,
    pub tries: usize,
    pub ctx: ReqCtx,
}

/// A request that a layer refused.
pub struct Turned {
    pub route: usize,
    pub entered: usize,
    pub rejection: Rejection,
    pub framing: BodyFraming,
    pub keep: bool,
    pub ctx: ReqCtx,
}

/// What the layers decide. A refused request never reaches a backend: its body is
/// drained next.
pub enum Admission {
    Forward(Attempt),
    Drain(Turned),
}

/// The state of a request at its start.
pub open spec fn first_state(client: Client, a: Asked, started: Instant) -> CtxView {
    CtxView {
        ip: client.ip,
        peer: client.shown@,
        started,
        method: a.req@.method,
        target: a.req@.target,
        host: maybe(a.host),
        request_id: Seq::empty(),
        identity: None,
        backend: None,
        upstream: None,
        rejected_by: None,
        t_route: None,
        t_connect: None,
        t_first_byte: None,
        pooled: false,
        cache: None,
        waf_score: None,
        waf_hits: Seq::empty(),
        waf_ban: None,
    }
}

/// What the layers decide, where they took the request to that point.
pub open spec fn admits<M>(
    client: Client,
    a: Asked,
    rules: RewriteRules,
    now: Passage<M>,
    res: Result<(), (usize, Rejection)>,
    r: Admission,
) -> bool {
    match (res, r) {
        (Ok(()), Admission::Forward(f)) => {
            &&& f.route == a.route
            &&& f.method@ == a.req@.method
            &&& f.head@ == encode_utf8(
                request_text(
                    forwarded(
                        now.req@,
                        a.framing,
                        rules@,
                        client.ip_shown@,
                        maybe(a.host),
                        client.scheme@,
                    ),
                ),
            )
            &&& f.framing == a.framing
            &&& f.keep == a.keep
            &&& f.retryable == repeatable(a.req@.method)
            &&& f.tries == 0
            &&& f.ctx == now.ctx
        },
        (Err((i, rejection)), Admission::Drain(t)) => {
            &&& t.route == a.route
            &&& t.entered == i
            &&& t.rejection == rejection
            &&& t.framing == a.framing
            &&& t.keep == a.keep
            &&& t.ctx == now.ctx
        },
        _ => false,
    }
}

/// Runs the layers of the route on a request. One that they let through is rewritten
/// for the backend.
pub fn run_layers<M: Middleware>(
    client: &Client,
    asked: Asked,
    rules: &RewriteRules,
    chain: &mut Chain<M>,
    shared: &mut Shared,
    started: Instant,
) -> (r: Admission)
    requires
        old(shared).wf(),
    ensures
        final(shared).wf(),
        final(chain).summary == old(chain).summary,
        exists|ctx: ReqCtx, now: Passage<M>, res: Result<(), (usize, Rejection)>|
            {
                &&& ctx@ == first_state(*client, asked, started)
                &&& #[trigger] entered(
                    Passage {
                        mws: old(chain).mws@,
                        req: asked.req,
                        ctx,
                        shared: *old(shared),
                    },
                    0,
                    old(chain).mws@.len() as int,
                    now,
                    res,
                )
                &&& now.mws == final(chain).mws@
                &&& now.shared == *final(shared)
                &&& admits(*client, asked, *rules, now, res, r)
            },
        r matches Admission::Drain(t) ==> t.entered < final(chain).mws@.len(),
{
    let ghost whole = asked;
    let Asked { req: head, framing, keep, route, host } = asked;
    let mut req = head;
    let method = own(req.method.as_str());
    let seen = match &host {
        Some(h) => Some(own(h.as_str())),
        None => None,
    };
    let mut ctx = ReqCtx::new(
        Peer { ip: client.ip, shown: own(client.shown.as_str()) },
        started,
        own(req.method.as_str()),
        own(req.target.as_str()),
        seen,
    );
    let ghost ctx0 = ctx;
    let ghost was = Passage { mws: chain.mws@, req, ctx, shared: *shared };
    let res = chain.run_request(&mut req, &mut ctx, shared);
    let ghost now = Passage { mws: chain.mws@, req, ctx, shared: *shared };
    assert(entered(was, 0, was.mws.len() as int, now, res));
    let ghost given = res;
    match res {
        Err((i, rejection)) => {
            let r = Admission::Drain(
                Turned { route, entered: i, rejection, framing, keep, ctx },
            );
            assert(admits(*client, whole, *rules, now, given, r));
            r
        },
        Ok(()) => {
            let fwd = ForwardContext {
                client_ip: own(client.ip_shown.as_str()),
                original_host: match &host {
                    Some(h) => Some(h.as_str()),
                    None => None,
                },
                scheme: client.scheme,
            };
            assert(slice(fwd.original_host) == maybe(whole.host));
            forward_head(&mut req, framing, rules, &fwd);
            let head = write_request_head(&req);
            let retryable = is_idempotent(method.as_str());
            let r = Admission::Forward(
                Attempt { route, method, head, framing, keep, retryable, tries: 0, ctx },
            );
            assert(admits(*client, whole, *rules, now, given, r));
            r
        },
    }
}

/// The response of a refusal before the layers that were entered see it.
pub open spec fn rejected(r: RejectionView) -> ResponseView {
    ResponseView {
        version: Version::Http11,
        status: r.status,
        reason: r.reason,
        headers: r.headers,
    }
}

/// A response of the proxy, and whether the connection is kept.
#[derive(Debug)]
pub struct Reply {
    pub bytes: Vec<u8>,
    pub keep: bool,
}

/// The client's connection is kept after a refusal.
pub open spec fn kept_after_refusal(keep: bool, drained: bool) -> bool {
    drained && keep
}

/// Answers a request that a layer refused. The layers before that one see the
/// response, in reverse; the connection is kept where the body was drained and the
/// client wants it.
pub fn turn_away<M: Middleware>(chain: &Chain<M>, turned: Turned, drained: bool) -> (r: Reply)
    requires
        turned.entered <= chain.mws@.len(),
    ensures
        r.keep == kept_after_refusal(turned.keep, drained),
        exists|resp: ResponseHead, now: ResponseHead|
            {
                &&& resp@ == rejected(turned.rejection@)
                &&& #[trigger] unwound(
                    chain.mws@,
                    turned.entered as int,
                    turned.ctx,
                    resp,
                    now,
                )
                &&& r.bytes@ == wire(
                    rejection_head(
                        now@,
                        turned.rejection.body@,
                        kept_after_refusal(turned.keep, drained),
                    ),
                    turned.rejection.body@,
                )
            },
{
    let Turned { route: _, entered: up_to, rejection, framing: _, keep, ctx } = turned;
    let body = rejection.body;
    let mut resp = ResponseHead {
        version: Version::Http11,
        status: rejection.status,
        reason: own(rejection.reason),
        headers: rejection.headers,
    };
    let ghost first = resp;
    assert(first@ == rejected(turned.rejection@));
    chain.run_response(&ctx, &mut resp, up_to);
    assert(unwound(chain.mws@, up_to as int, ctx, first, resp));
    let kept = drained && keep;
    Reply { bytes: rejection_response(&resp, body.as_str(), kept), keep: kept }
}

// ---------------------------------------------------------------------------
// A server
// ---------------------------------------------------------------------------

/// A request with the server that was picked for it.
pub struct Dial {
    pub attempt: Attempt,
    pub lease: Lease,
    pub addr: String,
}

/// What follows on picking a server.
pub enum Picked {
    Connect(Dial),
    Refuse(Refuse),
}

/// The answer where a pool has no healthy server.
pub open spec fn no_server() -> RefuseView {
    plain_refusal(502, "Bad Gateway"@)
}

/// Picks a server for a request. Without a healthy one the client gets a 502.
pub fn pick_server(table: &mut RouteTable, attempt: Attempt, ip: IpAddr, roll: u64, now: Instant) -> (r:
    Picked)
    requires
        old(table).wf(),
        attempt.route < old(table).routes@.len(),
    ensures
        final(table).wf(),
        final(table).routes@.len() == old(table).routes@.len(),
        ({
            let i = attempt.route as int;
            let p = pool_at(old(table)@, i);
            match r {
                Picked::Connect(d) => {
                    &&& d.attempt == attempt
                    &&& chosen(p, ip, roll) == Some(d.lease.server as int)
                    &&& d.lease == (Lease {
                        server: d.lease.server,
                        started: now,
                        served: false,
                        outcome: None,
                    })
                    &&& final(table)@ == with_pool(
                        old(table)@,
                        i,
                        taken(moved_on(p), d.lease.server as int),
                    )
                    &&& d.lease.server < pool_at(final(table)@, i).servers.len()
                    &&& d.addr@ == p.servers[d.lease.server as int].addr
                },
                Picked::Refuse(x) => {
                    &&& chosen(p, ip, roll) is None
                    &&& x@ == no_server()
                    &&& final(table)@ == with_pool(old(table)@, i, moved_on(p))
                },
            }
        }),
{
    let i: usize = attempt.route;
    let ghost p = pool_at(table@, i as int);
    match table.pick(i, ip, roll, now) {
        None => Picked::Refuse(refuse(502, "Bad Gateway")),
        Some(lease) => {
            assert(pool_at(table@, i as int) == taken(moved_on(p), lease.server as int));
            let up = table.pool(i);
            let addr = own(lease.addr(up));
            Picked::Connect(Dial { attempt, lease, addr })
        },
    }
}

/// What became of connecting to a server.
#[derive(Debug, Clone, Copy, PartialEq, Eq, Structural)]
pub enum Dialed {
    Open,
    Failed,
    TimedOut,
}

/// What follows on connecting to a server.
pub enum Next {
    /// The head is written to the connection.
    Write(Dial),
    /// Another server is picked.
    Again(Attempt),
    Refuse(Refuse),
}

/// The table after a lease was released as a failure.
pub open spec fn indicted(t: TableView, route: usize, lease: Lease, now: Instant) -> TableView {
    with_pool(
        t,
        route as int,
        released(pool_at(t, route as int), Lease { outcome: Some(false), ..lease }, now),
    )
}

/// The request may be tried again: it has no second effect, and tries are left.
pub open spec fn may_retry(a: Attempt) -> bool {
    a.retryable && a.tries < MAX_RETRIES
}

/// The answer where a server could not be reached, in the end.
pub open spec fn no_connection(outcome: Dialed) -> RefuseView {
    if outcome == Dialed::TimedOut {
        plain_refusal(504, "Gateway Timeout"@)
    } else {
        plain_refusal(502, "Bad Gateway"@)
    }
}

/// The answer where a server did not respond in time.
pub open spec fn no_response() -> RefuseView {
    plain_refusal(504, "Gateway Timeout"@)
}

/// The answer to a body that turned out too large.
pub open spec fn too_large() -> RefuseView {
    plain_refusal(413, "Payload Too Large"@)
}

/// The lease of a request that was sent: the exchange takes place, and counts as a
/// failure until a response proves otherwise.
pub open spec fn committed(lease: Lease) -> Lease {
    Lease { served: true, outcome: Some(false), ..lease }
}

/// What follows on a server that could not be reached: it is reported to its
/// breaker, and another one is tried where that is safe.
pub open spec fn after_failure(d: Dial, status: u16, reason: Seq<char>, n: Next) -> bool {
    if may_retry(d.attempt) {
        n == Next::Again(Attempt { tries: (d.attempt.tries + 1) as usize, ..d.attempt })
    } else {
        n matches Next::Refuse(x) && x@ == plain_refusal(status, reason)
    }
}

fn give_up(table: &mut RouteTable, dial: Dial, status: u16, reason: &'static str, now: Instant) -> (n:
    Next)
    requires
        old(table).wf(),
        dial.attempt.route < old(table).routes@.len(),
        dial.lease.server < pool_at(old(table)@, dial.attempt.route as int).servers.len(),
    ensures
        final(table).wf(),
        final(table).routes@.len() == old(table).routes@.len(),
        final(table)@ == indicted(old(table)@, dial.attempt.route, dial.lease, now),
        after_failure(dial, status, reason@, n),
{
    let mut lease = dial.lease;
    lease.mark_failure();
    table.release(dial.attempt.route, lease, now);
    if dial.attempt.retryable && dial.attempt.tries < MAX_RETRIES {
        let mut a = dial.attempt;
        a.tries = a.tries + 1;
        Next::Again(a)
    } else {
        Next::Refuse(refuse(status, reason))
    }
}

/// Decides on a connection to a server.
pub fn on_dialed(table: &mut RouteTable, dial: Dial, outcome: Dialed, now: Instant) -> (n: Next)
    requires
        old(table).wf(),
        dial.attempt.route < old(table).routes@.len(),
        dial.lease.server < pool_at(old(table)@, dial.attempt.route as int).servers.len(),
    ensures
        final(table).wf(),
        final(table).routes@.len() == old(table).routes@.len(),
        match outcome {
            Dialed::Open => n == Next::Write(dial) && final(table)@ == old(table)@,
            _ => after_failure(dial, no_connection(outcome).status, no_connection(outcome).reason, n)
                && final(table)@ == indicted(old(table)@, dial.attempt.route, dial.lease, now),
        },
{
    match outcome {
        Dialed::Open => Next::Write(dial),
        Dialed::Failed => give_up(table, dial, 502, "Bad Gateway", now),
        Dialed::TimedOut => give_up(table, dial, 504, "Gateway Timeout", now),
    }
}

/// A request of which the head was sent to a server.
pub struct Sent {
    pub route: usize,
    pub method: String,
    pub framing: BodyFraming,
    pub keep: bool,
    pub ctx: ReqCtx,
    pub lease: Lease,
}

/// What follows on writing the head.
pub enum Written {
    /// The body is relayed.
    Body(Sent),
    Again(Attempt),
    Refuse(Refuse),
}

/// The state of a request that a server of that pool got.
pub open spec fn sent_state(c: CtxView, pool: Seq<char>, addr: Seq<char>) -> CtxView {
    CtxView { upstream: Some(pool), backend: Some(addr), ..c }
}

/// Decides on writing the head to a server. A connection from the pool may turn out
/// dead at its first write: nothing has reached a backend then, and the request may
/// be tried again as after a failed connect. From here on the exchange counts as a
/// failure of the server until a response proves otherwise.
pub fn on_head_written(table: &mut RouteTable, dial: Dial, ok: bool, now: Instant) -> (w: Written)
    requires
        old(table).wf(),
        dial.attempt.route < old(table).routes@.len(),
        dial.lease.server < pool_at(old(table)@, dial.attempt.route as int).servers.len(),
    ensures
        final(table).wf(),
        final(table).routes@.len() == old(table).routes@.len(),
        ok ==> final(table)@ == old(table)@ && (w matches Written::Body(s) && {
            &&& s.route == dial.attempt.route
            &&& s.method == dial.attempt.method
            &&& s.framing == dial.attempt.framing
            &&& s.keep == dial.attempt.keep
            &&& s.ctx@ == sent_state(
                dial.attempt.ctx@,
                pool_at(old(table)@, dial.attempt.route as int).name,
                dial.addr@,
            )
            &&& s.lease == committed(dial.lease)
        }),
        !ok ==> final(table)@ == indicted(
            old(table)@,
            dial.attempt.route,
            dial.lease,
            now,
        ) && match w {
            Written::Body(_) => false,
            Written::Again(a) => after_failure(
                dial,
                no_connection(Dialed::Failed).status,
                no_connection(Dialed::Failed).reason,
                Next::Again(a),
            ),
            Written::Refuse(x) => after_failure(
                dial,
                no_connection(Dialed::Failed).status,
                no_connection(Dialed::Failed).reason,
                Next::Refuse(x),
            ),
        },
{
    if !ok {
        return match give_up(table, dial, 502, "Bad Gateway", now) {
            Next::Again(a) => Written::Again(a),
            Next::Refuse(x) => Written::Refuse(x),
            Next::Write(d) => {
                assert(false);
                Written::Again(d.attempt)
            },
        };
    }
    let Dial { attempt, lease, addr } = dial;
    let mut lease = lease;
    lease.mark_served();
    lease.mark_failure();
    let mut ctx = attempt.ctx;
    let up = table.pool(attempt.route);
    ctx.upstream = Some(own(up.name()));
    ctx.backend = Some(addr);
    Written::Body(
        Sent {
            route: attempt.route,
            method: attempt.method,
            framing: attempt.framing,
            keep: attempt.keep,
            ctx,
            lease,
        },
    )
}

// ---------------------------------------------------------------------------
// The body, and the response
// ---------------------------------------------------------------------------

/// What follows on relaying the body of the request.
pub enum BodySent {
    /// The head of the response is read.
    Await(Sent),
    Refuse(Refuse),
    Fail(Fault),
}

/// The table after the lease of an exchange was released as it stands.
pub open spec fn settled(t: TableView, route: usize, lease: Lease, now: Instant) -> TableView {
    with_pool(t, route as int, released(pool_at(t, route as int), lease, now))
}

/// Decides on the relay of the request's body. A part of the request has reached a
/// server, so that nothing is tried again.
pub fn on_body_sent(
    table: &mut RouteTable,
    sent: Sent,
    outcome: Result<BodyCopy, Fault>,
    now: Instant,
) -> (r: BodySent)
    requires
        old(table).wf(),
        sent.route < old(table).routes@.len(),
        sent.lease.server < pool_at(old(table)@, sent.route as int).servers.len(),
    ensures
        final(table).wf(),
        final(table).routes@.len() == old(table).routes@.len(),
        match outcome {
            Ok(BodyCopy::Done { .. }) => r == BodySent::Await(sent) && final(table)@
                == old(table)@,
            Ok(BodyCopy::TooLarge) => (r matches BodySent::Refuse(x) && x@ == too_large())
                && final(table)@ == settled(old(table)@, sent.route, sent.lease, now),
            Err(e) => r == BodySent::Fail(e) && final(table)@ == settled(
                old(table)@,
                sent.route,
                sent.lease,
                now,
            ),
        },
{
    match outcome {
        Ok(BodyCopy::Done { .. }) => BodySent::Await(sent),
        Ok(BodyCopy::TooLarge) => {
            table.release(sent.route, sent.lease, now);
            BodySent::Refuse(refuse(413, "Payload Too Large"))
        },
        Err(e) => {
            table.release(sent.route, sent.lease, now);
            BodySent::Fail(e)
        },
    }
}

/// A response that is ready for the client.
pub struct Answer {
    pub route: usize,
    pub lease: Lease,
    pub head: Vec<u8>,
    pub framing: BodyFraming,
    pub status: u16,
    /// The client's connection is usable afterwards.
    pub usable: bool,
    /// The backend closes its connection.
    pub sent_close: bool,
    /// The backend speaks HTTP/1.1.
    pub http11: bool,
    pub ctx: ReqCtx,
}

/// What follows on the head of the response.
pub enum Response {
    Relay(Answer),
    Refuse(Refuse),
    Fail(Fault),
}

/// The head of a response and the framing of its body, or why they are refused.
pub open spec fn reading_of(method: Seq<char>, bytes: Seq<u8>) -> Outcome<
    (ResponseView, BodyFraming),
> {
    match response_of(bytes) {
        Err(m) => Err(m),
        Ok(resp) => match response_framing(method, resp.status, resp.headers) {
            Err(m) => Err(m),
            Ok(framing) => Ok((resp, framing)),
        },
    }
}

fn read_response(method: &str, bytes: &Vec<u8>) -> (r: Result<(ResponseHead, BodyFraming), Fault>)
    ensures
        match r {
            Ok(x) => reading_of(method@, bytes@) == Ok::<(ResponseView, BodyFraming), Seq<char>>(
                (x.0@, x.1),
            ),
            Err(e) => e.kind == FaultKind::InvalidData && reading_of(method@, bytes@) == Err::<
                (ResponseView, BodyFraming),
                Seq<char>,
            >(e.message@),
        },
{
    match parse_response_head(bytes.as_slice()) {
        Err(e) => Err(e),
        Ok(resp) => match response_body_framing(method, &resp) {
            Err(e) => Err(e),
            Ok(f) => Ok((resp, f)),
        },
    }
}

/// The answer to a response that was read so: a 5xx indicts the server, anything
/// below proves its health. What the head says of the backend's own connection is
/// noted before the head is rewritten for the client's.
pub open spec fn is_answer<M: Middleware>(
    sent: Sent,
    resp: ResponseView,
    framing: BodyFraming,
    mws: Seq<M>,
    rules: RewriteRules,
    first: ResponseHead,
    seen: ResponseHead,
    a: Answer,
) -> bool {
    &&& first@ == resp
    &&& unwound(mws, mws.len() as int, sent.ctx, first, seen)
    &&& a.route == sent.route
    &&& a.lease == (Lease { outcome: Some(resp.status < 500), ..sent.lease })
    &&& a.head@ == encode_utf8(response_text(answered(seen@, framing, rules@, sent.keep)))
    &&& a.framing == framing
    &&& a.status == resp.status
    &&& a.usable == usable_after(framing, sent.keep)
    &&& a.sent_close == says_close(resp.headers)
    &&& a.http11 == (resp.version == Version::Http11)
    &&& a.ctx == sent.ctx
}

/// Decides on the head of the backend's response.
pub fn on_response<M: Middleware>(
    table: &mut RouteTable,
    chain: &Chain<M>,
    sent: Sent,
    ev: HeadEvent,
    now: Instant,
) -> (r: Response)
    requires
        old(table).wf(),
        sent.route < old(table).routes@.len(),
        sent.lease.server < pool_at(old(table)@, sent.route as int).servers.len(),
    ensures
        final(table).wf(),
        final(table).routes@.len() == old(table).routes@.len(),
        match ev {
            HeadEvent::TimedOut => (r matches Response::Refuse(x) && x@ == no_response())
                && final(table)@ == indicted(old(table)@, sent.route, sent.lease, now),
            HeadEvent::Closed => (r matches Response::Fail(e) && e.kind
                == FaultKind::UnexpectedEof && e.message@ == "backend closed before responding"@)
                && final(table)@ == settled(old(table)@, sent.route, sent.lease, now),
            HeadEvent::Failed(e) => r == Response::Fail(e) && final(table)@ == settled(
                old(table)@,
                sent.route,
                sent.lease,
                now,
            ),
            HeadEvent::Bytes(b) => match reading_of(sent.method@, b@) {
                Err(m) => (r matches Response::Fail(e) && e.kind == FaultKind::InvalidData
                    && e.message@ == m) && final(table)@ == settled(
                    old(table)@,
                    sent.route,
                    sent.lease,
                    now,
                ),
                Ok((resp, framing)) => {
                    &&& final(table)@ == old(table)@
                    &&& r matches Response::Relay(a) && exists|
                        first: ResponseHead,
                        seen: ResponseHead,
                    |
                        #[trigger] is_answer(
                            sent,
                            resp,
                            framing,
                            chain.mws@,
                            old(table).routes@[sent.route as int].rules,
                            first,
                            seen,
                            a,
                        )
                },
            },
        },
{
    let bytes = match ev {
        HeadEvent::TimedOut => {
            let mut lease = sent.lease;
            lease.mark_failure();
            table.release(sent.route, lease, now);
            return Response::Refuse(refuse(504, "Gateway Timeout"));
        },
        HeadEvent::Closed => {
            table.release(sent.route, sent.lease, now);
            return Response::Fail(
                Fault {
                    kind: FaultKind::UnexpectedEof,
                    message: own("backend closed before responding"),
                },
            );
        },
        HeadEvent::Failed(e) => {
            table.release(sent.route, sent.lease, now);
            return Response::Fail(e);
        },
        HeadEvent::Bytes(b) => b,
    };
    let (head, framing) = match read_response(sent.method.as_str(), &bytes) {
        Ok(x) => x,
        Err(e) => {
            table.release(sent.route, sent.lease, now);
            return Response::Fail(e);
        },
    };
    let ghost whole = sent;
    let ghost first = head;
    let closes = sent_close(head.headers.as_slice());
    let http11 = head.version == Version::Http11;
    let status: u16 = head.status;
    let mut lease = sent.lease;
    if status >= 500 {
        lease.mark_failure();
    } else {
        lease.mark_success();
    }
    let mut resp = head;
    chain.run_response_all(&sent.ctx, &mut resp);
    let ghost seen = resp;
    let usable = answer_head(&mut resp, framing, &table.routes[sent.route].rules, sent.keep);
    let a = Answer {
        route: sent.route,
        lease,
        head: write_response_head(&resp),
        framing,
        status,
        usable,
        sent_close: closes,
        http11,
        ctx: sent.ctx,
    };
    assert(is_answer(
        whole,
        first@,
        framing,
        chain.mws@,
        table.routes@[whole.route as int].rules,
        first,
        seen,
        a,
    ));
    Response::Relay(a)
}

/// How an exchange ends.
pub enum Finish {
    /// The response was relayed.
    Done {
        /// The client's connection is kept for another request.
        keep: bool,
        /// The backend's connection is kept for another exchange.
        pool: bool,
    },
    Fail(Fault),
}

/// How an exchange ends whose response was relayed, with the backend's buffer empty or
/// not.
pub open spec fn finish_of(a: Answer, empty: bool) -> Finish {
    Finish::Done {
        keep: a.usable,
        pool: poolable(a.framing, a.sent_close, a.http11, false, empty),
    }
}

/// Decides on the relay of the response. `outcome` says whether the backend's buffer
/// is empty afterwards.
pub fn on_relayed(
    table: &mut RouteTable,
    answer: Answer,
    outcome: Result<bool, Fault>,
    now: Instant,
) -> (r: Finish)
    requires
        old(table).wf(),
        answer.route < old(table).routes@.len(),
        answer.lease.server < pool_at(old(table)@, answer.route as int).servers.len(),
    ensures
        final(table).wf(),
        final(table).routes@.len() == old(table).routes@.len(),
        final(table)@ == settled(old(table)@, answer.route, answer.lease, now),
        match outcome {
            Ok(empty) => r == finish_of(answer, empty),
            Err(e) => r == Finish::Fail(e),
        },
{
    table.release(answer.route, answer.lease, now);
    match outcome {
        Ok(empty) => Finish::Done {
            keep: answer.usable,
            pool: is_poolable(answer.framing, answer.sent_close, answer.http11, false, empty),
        },
        Err(e) => Finish::Fail(e),
    }
}

// ---------------------------------------------------------------------------
// What holds of every exchange
// ---------------------------------------------------------------------------

/// A request is tried again only where that has no second effect, and at most so
/// often; every try sends the same head.
pub proof fn law_only_repeatable_requests_are_tried_again(
    d: Dial,
    status: u16,
    reason: Seq<char>,
    n: Next,
)
    requires
        d.attempt.tries <= MAX_RETRIES,
        after_failure(d, status, reason, n),
        n is Again,
    ensures
        d.attempt.retryable,
        n->Again_0.tries == d.attempt.tries + 1,
        n->Again_0.tries <= MAX_RETRIES,
        n->Again_0.head == d.attempt.head,
        n->Again_0.retryable,
{
}

/// A request that breaks a limit is refused before it has a route, whatever the
/// routes are.
pub proof fn law_limits_come_before_routes(
    req: RequestView,
    limits: Limits,
    routes: Seq<RouteView>,
)
    ensures
        req.headers.len() > limits.max_headers ==> gate_of_request(req, limits, routes)
            == GateView::Refuse(plain_refusal(431, "Request Header Fields Too Large"@)),
        req.headers.len() <= limits.max_headers && (request_framing(req.headers) matches Ok(
            BodyFraming::Length(n),
        ) && n > limits.max_body) ==> gate_of_request(req, limits, routes) == GateView::Refuse(
            plain_refusal(413, "Payload Too Large"@),
        ),
        gate_of_request(req, limits, routes) is Pass ==> {
            &&& req.headers.len() <= limits.max_headers
            &&& request_framing(req.headers) is Ok
            &&& (request_framing(req.headers) matches Ok(BodyFraming::Length(n)) ==> n
                <= limits.max_body)
            &&& route_for(routes, req) is Some
        },
{
}

/// An exchange that has ended, in whichever way, has no request in flight any more
/// on the server that it was given.
pub proof fn law_an_ended_exchange_is_not_in_flight(
    t: TableView,
    route: usize,
    lease: Lease,
    now: Instant,
)
    requires
        route < t.routes.len(),
        t.routes[route as int].upstream matches TargetView::Declared(k) ==> k < t.pools.len(),
        lease.server < pool_at(t, route as int).servers.len(),
    ensures
        ({
            let p = pool_at(t, route as int);
            let held = with_pool(t, route as int, taken(moved_on(p), lease.server as int));
            &&& pool_at(settled(held, route, lease, now), route as int).servers[
                lease.server as int
            ].inflight == p.servers[lease.server as int].inflight
            &&& pool_at(indicted(held, route, lease, now), route as int).servers[
                lease.server as int
            ].inflight == p.servers[lease.server as int].inflight
        }),
{
    let p = pool_at(t, route as int);
    let q = taken(moved_on(p), lease.server as int);
    let held = with_pool(t, route as int, q);
    assert(q.servers.len() == p.servers.len());
    assert(pool_at(held, route as int) == q);
    assert(pool_at(settled(held, route, lease, now), route as int) == released(q, lease, now));
    let failed = Lease { outcome: Some(false), ..lease };
    assert(pool_at(indicted(held, route, lease, now), route as int) == released(q, failed, now));
}

} // verus!
