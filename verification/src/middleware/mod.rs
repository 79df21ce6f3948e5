//! The middleware pipeline: policy applied around forwarding.
//!
//! A layer has two halves. `on_request` runs forward through the chain before a
//! backend exists; the exchange then streams untouched; `on_response` runs in
//! reverse on the way out, without ever owning the body.

pub mod auth;
pub mod observe;
pub mod options;
pub mod ratelimit;
pub mod stack;

pub use options::{Layer, MiddlewareConfig, Number, Rate, L6_KEYS};
pub use stack::AnyLayer;

use vstd::prelude::*;

use crate::http::{Fields, RequestHead, ResponseHead};
use crate::ip::IpAddr;
use crate::text::{join, joined, maybe, own, pairs, push_text, slice, slices, texts};
use crate::time::{Duration, Instant};
use crate::waf::{Reputation, RuleSet};

verus! {

/// A proxy-generated refusal. It carries headers, because a bare status is often
/// not a valid response: a 401 needs a challenge, a 429 a time to retry after.
pub struct Rejection {
    pub status: u16,
    pub reason: &'static str,
    pub headers: Vec<(String, String)>,
    pub body: String,
}

/// What a refusal says.
pub struct RejectionView {
    pub status: u16,
    pub reason: Seq<char>,
    pub headers: Fields,
    pub body: Seq<char>,
}

impl View for Rejection {
    type V = RejectionView;

    open spec fn view(&self) -> RejectionView {
        RejectionView {
            status: self.status,
            reason: self.reason@,
            headers: pairs(self.headers@),
            body: self.body@,
        }
    }
}

/// The verdict of a layer on the way in.
pub enum Decision {
    /// Go on to the next layer, and in the end to the backend.
    Continue,
    /// Stop here, and send this response instead of forwarding.
    Reject(Rejection),
}

/// The verdict of a layer, in a specification: nothing, or the refusal.
pub open spec fn verdict(d: Decision) -> Option<RejectionView> {
    match d {
        Decision::Continue => None,
        Decision::Reject(r) => Some(r@),
    }
}

/// The peer as the socket shows it.
pub struct Peer {
    pub ip: IpAddr,
    /// Address and port as they stand in a log line.
    pub shown: String,
}

/// The state of one request that crosses layers and survives into the response
/// phase. The head is rewritten on the way; the method, target and host here are
/// those that the client sent.
pub struct ReqCtx {
    pub peer: Peer,
    pub started: Instant,
    pub method: String,
    pub target: String,
    pub host: Option<String>,
    /// Set by the request-id layer.
    pub request_id: String,
    /// Set by authentication, read by authorisation.
    pub identity: Option<String>,
    pub backend: Option<String>,
    pub upstream: Option<String>,
    /// The name of the layer that refused the request.
    pub rejected_by: Option<&'static str>,
    /// Time from the start until the route was known.
    pub t_route: Option<Duration>,
    /// Time from the start until a backend connection was at hand.
    pub t_connect: Option<Duration>,
    /// Time from the start until the first byte of the backend's response.
    pub t_first_byte: Option<Duration>,
    /// Whether the backend connection came from the idle pool.
    pub pooled: bool,
    /// What the cache did: "hit", "miss", "revalidated", or nothing.
    pub cache: Option<&'static str>,
    /// The firewall's score, where it is not 0.
    pub waf_score: Option<u32>,
    /// The rules that hit, for the error log alone.
    pub waf_hits: Vec<&'static str>,
    /// The term of the ban that this request earned, for the error log alone.
    pub waf_ban: Option<Duration>,
}

/// What the state of a request says.
pub struct CtxView {
    pub ip: IpAddr,
    pub peer: Seq<char>,
    pub started: Instant,
    pub method: Seq<char>,
    pub target: Seq<char>,
    pub host: Option<Seq<char>>,
    pub request_id: Seq<char>,
    pub identity: Option<Seq<char>>,
    pub backend: Option<Seq<char>>,
    pub upstream: Option<Seq<char>>,
    pub rejected_by: Option<Seq<char>>,
    pub t_route: Option<Duration>,
    pub t_connect: Option<Duration>,
    pub t_first_byte: Option<Duration>,
    pub pooled: bool,
    pub cache: Option<Seq<char>>,
    pub waf_score: Option<u32>,
    pub waf_hits: Seq<Seq<char>>,
    pub waf_ban: Option<Duration>,
}

impl View for ReqCtx {
    type V = CtxView;

    open spec fn view(&self) -> CtxView {
        CtxView {
            ip: self.peer.ip,
            peer: self.peer.shown@,
            started: self.started,
            method: self.method@,
            target: self.target@,
            host: maybe(self.host),
            request_id: self.request_id@,
            identity: maybe(self.identity),
            backend: maybe(self.backend),
            upstream: maybe(self.upstream),
            rejected_by: slice(self.rejected_by),
            t_route: self.t_route,
            t_connect: self.t_connect,
            t_first_byte: self.t_first_byte,
            pooled: self.pooled,
            cache: slice(self.cache),
            waf_score: self.waf_score,
            waf_hits: slices(self.waf_hits@),
            waf_ban: self.waf_ban,
        }
    }
}

impl ReqCtx {
    /// The state of a request that has just been read, stamped before any layer
    /// runs so that the logged time covers them all.
    pub fn new(
        peer: Peer,
        started: Instant,
        method: String,
        target: String,
        host: Option<String>,
    ) -> (c: ReqCtx)
        ensures
            c@ == (CtxView {
                ip: peer.ip,
                peer: peer.shown@,
                started,
                method: method@,
                target: target@,
                host: maybe(host),
                request_id: Seq::empty(),
                identity: None,
                backend: None,
                upstream: None,
                rejected_by: None,
                t_route: None,
                t_connect: None,
                t_first_byte: None,
                pooled: false,
                cache: None,
                waf_score: None,
                waf_hits: Seq::empty(),
                waf_ban: None,
            }),
    {
        let c = ReqCtx {
            peer,
            started,
            method,
            target,
            host,
            request_id: String::new(),
            identity: None,
            backend: None,
            upstream: None,
            rejected_by: None,
            t_route: None,
            t_connect: None,
            t_first_byte: None,
            pooled: false,
            cache: None,
            waf_score: None,
            waf_hits: Vec::new(),
            waf_ban: None,
        };
        assert(c@.request_id =~= Seq::empty());
        assert(c@.waf_hits =~= Seq::empty());
        c
    }
}

/// What the layers of all routes share: the time at which the chain runs, the
/// reputation store, and the compiled rules of the firewall.
pub struct Shared {
    pub now: Instant,
    pub reputation: Reputation,
    pub rules: RuleSet,
}

impl Shared {
    /// The store and the rules are valid.
    pub open spec fn wf(&self) -> bool {
        self.reputation.wf() && self.rules.wf()
    }
}

/// One layer of the pipeline. What a layer does is stated by its name and by two
/// relations, which an implementation chooses and its methods keep. Where it
/// chooses none, nothing is known of it.
pub trait Middleware: Sized {
    /// The name of the layer.
    open spec fn label(&self) -> Seq<char> {
        arbitrary()
    }

    /// What the inbound half may do: from the layer, the head, the state and what
    /// is shared before it to the same after it, with its decision.
    open spec fn inbound(
        was: Self,
        req: RequestHead,
        ctx: ReqCtx,
        shared: Shared,
        now: Self,
        req_now: RequestHead,
        ctx_now: ReqCtx,
        shared_now: Shared,
        d: Decision,
    ) -> bool {
        true
    }

    /// What the outbound half may do to a response head.
    open spec fn outbound(&self, ctx: ReqCtx, resp: ResponseHead, resp_now: ResponseHead) -> bool {
        true
    }

    /// Stable name for log lines and for the attribution of refusals.
    fn name(&self) -> (r: &'static str)
        ensures
            r@ == self.label(),
    ;

    /// Inbound half. It may change the head and the state, and may stop the whole
    /// exchange by refusing it.
    fn on_request(
        &mut self,
        req: &mut RequestHead,
        ctx: &mut ReqCtx,
        shared: &mut Shared,
    ) -> (d: Decision)
        requires
            old(shared).wf(),
        ensures
            final(shared).wf(),
            Self::inbound(
                *old(self),
                *old(req),
                *old(ctx),
                *old(shared),
                *final(self),
                *final(req),
                *final(ctx),
                *final(shared),
                d,
            ),
    ;

    /// Outbound half.
    fn on_response(&self, ctx: &ReqCtx, resp: &mut ResponseHead)
        ensures
            self.outbound(*ctx, *old(resp), *final(resp)),
    ;
}

/// An ordered stack of layers, built once for each route.
pub struct Chain<M> {
    pub mws: Vec<M>,
    /// A summary for the startup banner.
    pub summary: String,
}

/// A chain in the middle of a request: its layers, the head, the state and what is
/// shared.
pub struct Passage<M> {
    pub mws: Seq<M>,
    pub req: RequestHead,
    pub ctx: ReqCtx,
    pub shared: Shared,
}

/// The layer at `at` takes the request from one point of its passage to the next:
/// no other layer changes.
pub open spec fn passes<M: Middleware>(
    was: Passage<M>,
    at: int,
    now: Passage<M>,
    d: Decision,
) -> bool {
    &&& 0 <= at < was.mws.len()
    &&& now.mws.len() == was.mws.len()
    &&& now.mws == was.mws.update(at, now.mws[at])
    &&& M::inbound(
        was.mws[at],
        was.req,
        was.ctx,
        was.shared,
        now.mws[at],
        now.req,
        now.ctx,
        now.shared,
        d,
    )
}

/// The state of a request that a layer refused: it names the layer.
pub open spec fn blamed(was: ReqCtx, now: ReqCtx, name: Seq<char>) -> bool {
    now@ == (CtxView { rejected_by: Some(name), ..was@ })
}

/// The request passes the layers from `at` on, in order, up to the first one that
/// refuses it; the layers behind that one never run.
pub open spec fn entered<M: Middleware>(
    was: Passage<M>,
    at: int,
    count: int,
    now: Passage<M>,
    r: Result<(), (usize, Rejection)>,
) -> bool
    decreases count - at,
{
    if at >= count {
        now == was && r is Ok
    } else {
        exists|mid: Passage<M>, d: Decision|
            #![trigger passes(was, at, mid, d)]
            {
                &&& passes(was, at, mid, d)
                &&& match d {
                    Decision::Continue => entered(mid, at + 1, count, now, r),
                    Decision::Reject(rejection) => {
                        &&& r == Err::<(), (usize, Rejection)>((at as usize, rejection))
                        &&& now.mws == mid.mws
                        &&& now.req == mid.req
                        &&& now.shared == mid.shared
                        &&& blamed(mid.ctx, now.ctx, mid.mws[at].label())
                    },
                }
            }
    }
}

/// The outbound halves of the first `n` layers run in reverse.
pub open spec fn unwound<M: Middleware>(
    mws: Seq<M>,
    n: int,
    ctx: ReqCtx,
    resp: ResponseHead,
    resp_now: ResponseHead,
) -> bool
    decreases n,
{
    if n <= 0 {
        resp_now == resp
    } else {
        exists|mid: ResponseHead|
            #![trigger mws[n - 1].outbound(ctx, resp, mid)]
            mws[n - 1].outbound(ctx, resp, mid) && unwound(mws, n - 1, ctx, mid, resp_now)
    }
}

/// The names of layers.
pub open spec fn labels<M: Middleware>(mws: Seq<M>) -> Seq<Seq<char>> {
    Seq::new(mws.len(), |i: int| mws[i].label())
}

impl<M: Middleware> Chain<M> {
    /// A chain of layers, with their names as its summary.
    pub fn new(mws: Vec<M>) -> (c: Chain<M>)
        ensures
            c.mws == mws,
            c.summary@ == joined(labels(mws@), ", "@),
    {
        let mut names: Vec<String> = Vec::new();
        let mut i: usize = 0;
        assert(texts(names@) =~= labels(mws@).take(0));
        while i < mws.len()
            invariant
                i <= mws@.len(),
                texts(names@) == labels(mws@).take(i as int),
            decreases mws.len() - i,
        {
            push_text(&mut names, own(mws[i].name()));
            assert(labels(mws@).take(i + 1) =~= labels(mws@).take(i as int).push(
                mws@[i as int].label(),
            ));
            i = i + 1;
        }
        assert(labels(mws@).take(i as int) =~= labels(mws@));
        let summary = join(&names, ", ");
        Chain { mws, summary }
    }

    /// A chain of layers with a summary of its own.
    pub fn with_summary(mws: Vec<M>, summary: String) -> (c: Chain<M>)
        ensures
            c.mws == mws,
            c.summary == summary,
    {
        Chain { mws, summary }
    }

    /// Runs the inbound halves forward. A refusal comes with the index of the layer
    /// that refused, which is the number of layers to unwind.
    pub fn run_request(
        &mut self,
        req: &mut RequestHead,
        ctx: &mut ReqCtx,
        shared: &mut Shared,
    ) -> (r: Result<(), (usize, Rejection)>)
        requires
            old(shared).wf(),
        ensures
            final(shared).wf(),
            final(self).summary == old(self).summary,
            entered(
                Passage { mws: old(self).mws@, req: *old(req), ctx: *old(ctx), shared: *old(shared) },
                0,
                old(self).mws@.len() as int,
                Passage {
                    mws: final(self).mws@,
                    req: *final(req),
                    ctx: *final(ctx),
                    shared: *final(shared),
                },
                r,
            ),
            r matches Err((i, _)) ==> i < final(self).mws@.len(),
    {
        self.run_from(0, req, ctx, shared)
    }

    fn run_from(
        &mut self,
        at: usize,
        req: &mut RequestHead,
        ctx: &mut ReqCtx,
        shared: &mut Shared,
    ) -> (r: Result<(), (usize, Rejection)>)
        requires
            old(shared).wf(),
        ensures
            final(shared).wf(),
            final(self).summary == old(self).summary,
            final(self).mws@.len() == old(self).mws@.len(),
            entered(
                Passage { mws: old(self).mws@, req: *old(req), ctx: *old(ctx), shared: *old(shared) },
                at as int,
                old(self).mws@.len() as int,
                Passage {
                    mws: final(self).mws@,
                    req: *final(req),
                    ctx: *final(ctx),
                    shared: *final(shared),
                },
                r,
            ),
            r matches Err((i, _)) ==> i < final(self).mws@.len(),
        decreases old(self).mws@.len() - at,
    {
        if at >= self.mws.len() {
            return Ok(());
        }
        let ghost was = Passage { mws: self.mws@, req: *req, ctx: *ctx, shared: *shared };
        let d = self.mws[at].on_request(req, ctx, shared);
        let ghost mid = Passage { mws: self.mws@, req: *req, ctx: *ctx, shared: *shared };
        assert(mid.mws =~= was.mws.update(at as int, mid.mws[at as int]));
        assert(passes(was, at as int, mid, d));
        match d {
            Decision::Continue => self.run_from(at + 1, req, ctx, shared),
            Decision::Reject(rejection) => {
                ctx.rejected_by = Some(self.mws[at].name());
                Err((at, rejection))
            },
        }
    }

    /// Runs the outbound halves in reverse for the first `up_to` layers: those that
    /// were entered before one refused. That one made the response and does not
    /// post-process it, and the layers behind it never ran.
    pub fn run_response(&self, ctx: &ReqCtx, resp: &mut ResponseHead, up_to: usize)
        requires
            up_to <= self.mws@.len(),
        ensures
            unwound(self.mws@, up_to as int, *ctx, *old(resp), *final(resp)),
        decreases up_to,
    {
        if up_to > 0 {
            let ghost was = *resp;
            self.mws[up_to - 1].on_response(ctx, resp);
            assert(self.mws@[up_to - 1].outbound(*ctx, was, *resp));
            self.run_response(ctx, resp, up_to - 1);
        }
    }

    /// Runs the outbound halves of all layers in reverse.
    pub fn run_response_all(&self, ctx: &ReqCtx, resp: &mut ResponseHead)
        ensures
            unwound(self.mws@, self.mws@.len() as int, *ctx, *old(resp), *final(resp)),
    {
        self.run_response(ctx, resp, self.mws.len());
    }

    /// The summary for the startup banner.
    pub fn describe(&self) -> (r: String)
        ensures
            r@ == self.summary@,
    {
        self.summary.clone()
    }
}

/// A layer that refuses ends the passage: the layers behind it are as they were, and
/// the refusal is attributed to it.
pub proof fn law_layers_behind_a_refusal_never_run<M: Middleware>(
    was: Passage<M>,
    at: int,
    count: int,
    now: Passage<M>,
    r: Result<(), (usize, Rejection)>,
)
    requires
        0 <= at <= count <= was.mws.len() <= usize::MAX,
        entered(was, at, count, now, r),
        r is Err,
    ensures
        now.mws.len() == was.mws.len(),
        at <= r->Err_0.0 < count,
        now.ctx@.rejected_by == Some(now.mws[r->Err_0.0 as int].label()),
        forall|j: int|
            r->Err_0.0 < j < was.mws.len() ==> #[trigger] now.mws[j] == was.mws[j],
    decreases count - at,
{
    if at < count {
        let (mid, d) = choose|mid: Passage<M>, d: Decision|
            #![trigger passes(was, at, mid, d)]
            {
                &&& passes(was, at, mid, d)
                &&& match d {
                    Decision::Continue => entered(mid, at + 1, count, now, r),
                    Decision::Reject(rejection) => {
                        &&& r == Err::<(), (usize, Rejection)>((at as usize, rejection))
                        &&& now.mws == mid.mws
                        &&& now.req == mid.req
                        &&& now.shared == mid.shared
                        &&& blamed(mid.ctx, now.ctx, mid.mws[at].label())
                    },
                }
            };
        if d is Continue {
            law_layers_behind_a_refusal_never_run(mid, at + 1, count, now, r);
            assert forall|j: int| r->Err_0.0 < j < was.mws.len() implies #[trigger] now.mws[j]
                == was.mws[j] by {
                assert(now.mws[j] == mid.mws[j]);
            }
        }
    }
}

/// A layer saw the response on its way out: it took it from some head to another.
pub open spec fn saw<M: Middleware>(m: M, ctx: ReqCtx, before: ResponseHead, after: ResponseHead) -> bool {
    m.outbound(ctx, before, after)
}

/// Every layer that was entered sees the response, also that of a refusal: a refused
/// request has its id and its line in the log.
pub proof fn law_every_entered_layer_sees_the_response<M: Middleware>(
    mws: Seq<M>,
    n: int,
    ctx: ReqCtx,
    resp: ResponseHead,
    now: ResponseHead,
    i: int,
)
    requires
        0 <= i < n <= mws.len(),
        unwound(mws, n, ctx, resp, now),
    ensures
        exists|before: ResponseHead, after: ResponseHead|
            #[trigger] saw(mws[i], ctx, before, after),
    decreases n,
{
    let mid = choose|mid: ResponseHead|
        #![trigger mws[n - 1].outbound(ctx, resp, mid)]
        mws[n - 1].outbound(ctx, resp, mid) && unwound(mws, n - 1, ctx, mid, now);
    if i == n - 1 {
        assert(saw(mws[i], ctx, resp, mid));
    } else {
        law_every_entered_layer_sees_the_response(mws, n - 1, ctx, mid, now, i);
    }
}

} // verus!
