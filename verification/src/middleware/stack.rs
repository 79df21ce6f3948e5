//! The layers of one chain, of different kinds.

use vstd::prelude::*;

use super::auth::{Auth, Authz};
use super::observe::RequestId;
use super::{Decision, Middleware, ReqCtx, Shared};
use crate::http::{RequestHead, ResponseHead};
use crate::waf::Waf;

verus! {

/// One layer of a chain: one of the library, or one of the program around it.
pub enum AnyLayer<L> {
    RequestId(RequestId),
    Waf(Waf),
    Auth(Auth),
    Authz(Authz),
    /// A layer of the program: what it does is what that layer states.
    Outside(L),
}

impl<L: Middleware> Middleware for AnyLayer<L> {
    open spec fn label(&self) -> Seq<char> {
        match self {
            AnyLayer::RequestId(l) => l.label(),
            AnyLayer::Waf(l) => l.label(),
            AnyLayer::Auth(l) => l.label(),
            AnyLayer::Authz(l) => l.label(),
            AnyLayer::Outside(l) => l.label(),
        }
    }

    /// A layer stays of its kind, and does what that kind does.
    open spec fn inbound(
        was: AnyLayer<L>,
        req: RequestHead,
        ctx: ReqCtx,
        shared: Shared,
        now: AnyLayer<L>,
        req_now: RequestHead,
        ctx_now: ReqCtx,
        shared_now: Shared,
        d: Decision,
    ) -> bool {
        match (was, now) {
            (AnyLayer::RequestId(a), AnyLayer::RequestId(b)) => RequestId::inbound(
                a,
                req,
                ctx,
                shared,
                b,
                req_now,
                ctx_now,
                shared_now,
                d,
            ),
            (AnyLayer::Waf(a), AnyLayer::Waf(b)) => Waf::inbound(
                a,
                req,
                ctx,
                shared,
                b,
                req_now,
                ctx_now,
                shared_now,
                d,
            ),
            (AnyLayer::Auth(a), AnyLayer::Auth(b)) => Auth::inbound(
                a,
                req,
                ctx,
                shared,
                b,
                req_now,
                ctx_now,
                shared_now,
                d,
            ),
            (AnyLayer::Authz(a), AnyLayer::Authz(b)) => Authz::inbound(
                a,
                req,
                ctx,
                shared,
                b,
                req_now,
                ctx_now,
                shared_now,
                d,
            ),
            (AnyLayer::Outside(a), AnyLayer::Outside(b)) => L::inbound(
                a,
                req,
                ctx,
                shared,
                b,
                req_now,
                ctx_now,
                shared_now,
                d,
            ),
            _ => false,
        }
    }

    open spec fn outbound(&self, ctx: ReqCtx, resp: ResponseHead, resp_now: ResponseHead) -> bool {
        match self {
            AnyLayer::RequestId(l) => l.outbound(ctx, resp, resp_now),
            AnyLayer::Waf(l) => l.outbound(ctx, resp, resp_now),
            AnyLayer::Auth(l) => l.outbound(ctx, resp, resp_now),
            AnyLayer::Authz(l) => l.outbound(ctx, resp, resp_now),
            AnyLayer::Outside(l) => l.outbound(ctx, resp, resp_now),
        }
    }

    fn name(&self) -> (r: &'static str) {
        match self {
            AnyLayer::RequestId(l) => l.name(),
            AnyLayer::Waf(l) => l.name(),
            AnyLayer::Auth(l) => l.name(),
            AnyLayer::Authz(l) => l.name(),
            AnyLayer::Outside(l) => l.name(),
        }
    }

    fn on_request(
        &mut self,
        req: &mut RequestHead,
        ctx: &mut ReqCtx,
        shared: &mut Shared,
    ) -> (d: Decision) {
        match self {
            AnyLayer::RequestId(l) => l.on_request(req, ctx, shared),
            AnyLayer::Waf(l) => l.on_request(req, ctx, shared),
            AnyLayer::Auth(l) => l.on_request(req, ctx, shared),
            AnyLayer::Authz(l) => l.on_request(req, ctx, shared),
            AnyLayer::Outside(l) => l.on_request(req, ctx, shared),
        }
    }

    fn on_response(&self, ctx: &ReqCtx, resp: &mut ResponseHead) {
        match self {
            AnyLayer::RequestId(l) => l.on_response(ctx, resp),
            AnyLayer::Waf(l) => l.on_response(ctx, resp),
            AnyLayer::Auth(l) => l.on_response(ctx, resp),
            AnyLayer::Authz(l) => l.on_response(ctx, resp),
            AnyLayer::Outside(l) => l.on_response(ctx, resp),
        }
    }
}

} // verus!
