//! What passes between a client and a backend, and how an exchange goes on.

use vstd::prelude::*;
use vstd::utf8::encode_utf8;

use super::{
    absent, first_named, law_a_lookup_gives_the_first_field, law_a_lookup_of_nothing_gives_nothing,
};
use crate::balancer::Lease;
use crate::http::{
    law_removed_field_is_gone, lemma_lookup_push, lookup, occurrences, request_framing, without,
    BodyFraming, Fields, RequestView, ResponseHead, ResponseView, Version, MAX_HEAD_BYTES,
};
use crate::middleware::Middleware;
use crate::proxy::conn::{at_eof, draining, relay, started, BodyCopy, Relay};
use crate::proxy::exchange::{
    after_failure, committed, finish_of, gate_of, gate_of_request, is_answer, kept_after_refusal,
    no_connection, no_response, no_server, route_for, too_large, Answer, Dial, Dialed, GateView,
    HeadEvent, Next, Sent,
};
use crate::proxy::{
    answered, error_body, error_head, forwarded, hop_by_hop, law_only_end_to_end_fields_pass, named,
    persistence, poolable, repeatable, says_close, stripped, usable_after, wire,
    BACKEND_CONNECT_TIMEOUT, DEFAULT_BACKEND_RESPONSE_TIMEOUT, HEAD_READ_TIMEOUT, MAX_RETRIES,
    REJECT_DRAIN_CAP,
};
use crate::rewrite::{no_rules, requested, responded, RulesView};
use crate::router::RouteView;
use crate::security::Limits;
use crate::text::{
    decimal, lower, lower_char, pieces, same_fold, trimmed, upper, upper_char,
};

verus! {

// ---------------------------------------------------------------------------
// Header fields
// ---------------------------------------------------------------------------

/// The names that belong to one connection.
pub open spec fn of_one_connection(name: Seq<char>) -> bool {
    ||| same_fold(name, "Connection"@)
    ||| same_fold(name, "Keep-Alive"@)
    ||| same_fold(name, "Proxy-Connection"@)
    ||| same_fold(name, "Proxy-Authenticate"@)
    ||| same_fold(name, "Proxy-Authorization"@)
    ||| same_fold(name, "TE"@)
    ||| same_fold(name, "Trailer"@)
    ||| same_fold(name, "Upgrade"@)
}

proof fn lemma_of_one_connection(name: Seq<char>)
    ensures
        of_one_connection(name) <==> hop_by_hop(lower(name)),
{
    reveal_strlit("Connection");
    reveal_strlit("Keep-Alive");
    reveal_strlit("Proxy-Connection");
    reveal_strlit("Proxy-Authenticate");
    reveal_strlit("Proxy-Authorization");
    reveal_strlit("TE");
    reveal_strlit("Trailer");
    reveal_strlit("Upgrade");
    reveal_strlit("connection");
    reveal_strlit("keep-alive");
    reveal_strlit("proxy-connection");
    reveal_strlit("proxy-authenticate");
    reveal_strlit("proxy-authorization");
    reveal_strlit("te");
    reveal_strlit("trailer");
    reveal_strlit("upgrade");
    assert(lower("Connection"@) =~= "connection"@);
    assert(lower("Keep-Alive"@) =~= "keep-alive"@);
    assert(lower("Proxy-Connection"@) =~= "proxy-connection"@);
    assert(lower("Proxy-Authenticate"@) =~= "proxy-authenticate"@);
    assert(lower("Proxy-Authorization"@) =~= "proxy-authorization"@);
    assert(lower("TE"@) =~= "te"@);
    assert(lower("Trailer"@) =~= "trailer"@);
    assert(lower("Upgrade"@) =~= "upgrade"@);
}

/// A field of one connection is not passed on, nor is one that `Connection` lists; every
/// other field is, as often and with the same value.
pub proof fn law_fields_of_one_connection_stay_there(h: Fields, name: Seq<char>, co: int, k: int)
    ensures
        of_one_connection(name) ==> lookup(stripped(h), name) is None && occurrences(
            stripped(h),
            name,
        ) == 0,
        first_named(h, "connection"@, co) && 0 <= k < pieces(h[co].1, ',').len() && same_fold(
            trimmed(pieces(h[co].1, ',')[k]),
            name,
        ) ==> lookup(stripped(h), name) is None && occurrences(stripped(h), name) == 0,
        !of_one_connection(name) && absent(h, "connection"@) ==> lookup(stripped(h), name)
            == lookup(h, name) && occurrences(stripped(h), name) == occurrences(h, name),
        !of_one_connection(name) && first_named(h, "connection"@, co) && (forall|j: int|
            0 <= j < pieces(h[co].1, ',').len() ==> !same_fold(
                trimmed(#[trigger] pieces(h[co].1, ',')[j]),
                name,
            )) ==> lookup(stripped(h), name) == lookup(h, name) && occurrences(stripped(h), name)
            == occurrences(h, name),
{
    lemma_of_one_connection(name);
    let list = named(h);
    law_only_end_to_end_fields_pass(h, list, name);
    if absent(h, "connection"@) {
        law_a_lookup_of_nothing_gives_nothing(h, "connection"@);
        assert(!list.contains(lower(name)));
    }
    if first_named(h, "connection"@, co) {
        law_a_lookup_gives_the_first_field(h, "connection"@, co);
        let p = pieces(h[co].1, ',');
        assert(list.len() == p.len());
        if 0 <= k < p.len() && same_fold(trimmed(p[k]), name) {
            assert(list[k] == lower(name));
            assert(list.contains(lower(name)));
        }
        if forall|j: int| 0 <= j < p.len() ==> !same_fold(trimmed(#[trigger] p[j]), name) {
            if list.contains(lower(name)) {
                let j = choose|j: int| 0 <= j < list.len() && list[j] == lower(name);
                assert(same_fold(trimmed(p[j]), name));
            }
        }
    }
}

/// An ordinary name: neither of one connection nor one that the proxy writes itself.
pub open spec fn ordinary(name: Seq<char>) -> bool {
    &&& !of_one_connection(name)
    &&& !same_fold(name, "Transfer-Encoding"@)
    &&& !same_fold(name, "Connection"@)
}

/// Without rules a backend gets the request as the client sent it: the method, the
/// target and every ordinary field; and a client gets the response as the backend sent
/// it, with its status and reason. Both are told HTTP/1.1.
pub proof fn law_messages_pass_as_they_are(
    req: RequestView,
    resp: ResponseView,
    framing: BodyFraming,
    keep: bool,
    name: Seq<char>,
    ip: Seq<char>,
    host: Option<Seq<char>>,
    scheme: Seq<char>,
)
    requires
        ordinary(name),
        absent(req.headers, "connection"@),
        absent(resp.headers, "connection"@),
    ensures
        ({
            let f = forwarded(req, framing, no_rules(false), ip, host, scheme);
            let a = answered(resp, framing, no_rules(false), keep);
            &&& f.method == req.method
            &&& f.target == req.target
            &&& f.version == Version::Http11
            &&& lookup(f.headers, name) == lookup(req.headers, name)
            &&& occurrences(f.headers, name) == occurrences(req.headers, name)
            &&& a.status == resp.status
            &&& a.reason == resp.reason
            &&& a.version == Version::Http11
            &&& lookup(a.headers, name) == lookup(resp.headers, name)
            &&& occurrences(a.headers, name) == occurrences(resp.headers, name)
        }),
{
    let te = "transfer-encoding"@;
    law_fields_of_one_connection_stay_there(req.headers, name, 0, 0);
    law_fields_of_one_connection_stay_there(resp.headers, name, 0, 0);
    reveal_strlit("Transfer-Encoding");
    reveal_strlit("transfer-encoding");
    assert(lower("Transfer-Encoding"@) =~= lower(te));
    let r = requested(
        no_rules(false),
        RequestView { headers: stripped(req.headers), ..req },
        ip,
        host,
        scheme,
    );
    assert(r.headers == stripped(req.headers));
    law_removed_field_is_gone(r.headers, te, name);
    let w = without(r.headers, te);
    lemma_lookup_push(w, ("Connection"@, "keep-alive"@), name);
    lemma_lookup_push(
        w.push(("Connection"@, "keep-alive"@)),
        ("Transfer-Encoding"@, "chunked"@),
        name,
    );
    let s = responded(no_rules(false), ResponseView { headers: stripped(resp.headers), ..resp });
    assert(s.headers == stripped(resp.headers));
    law_removed_field_is_gone(s.headers, te, name);
    let v = without(s.headers, te);
    let f = ("Connection"@, persistence(usable_after(framing, keep)));
    lemma_lookup_push(v, f, name);
    lemma_lookup_push(v, ("Transfer-Encoding"@, "chunked"@), name);
    lemma_lookup_push(v.push(("Transfer-Encoding"@, "chunked"@)), f, name);
}

/// The client is told to keep its connection where it asked for that and the response
/// has an end of its own, and else that it is closed.
pub proof fn law_the_client_is_told_of_its_connection(resp: ResponseView, framing: BodyFraming, rules: RulesView, keep: bool)
    ensures
        lookup(answered(resp, framing, rules, keep).headers, "connection"@) is Some,
        usable_after(framing, keep) <==> keep && framing != BodyFraming::UntilClose,
        answered(resp, framing, rules, keep).headers.last().0 == "Connection"@,
        answered(resp, framing, rules, keep).headers.last().1 == if keep && framing
            != BodyFraming::UntilClose {
            "keep-alive"@
        } else {
            "close"@
        },
{
    let r = responded(rules, ResponseView { headers: stripped(resp.headers), ..resp });
    let h = without(r.headers, "transfer-encoding"@);
    let k = if framing == BodyFraming::Chunked {
        h.push(("Transfer-Encoding"@, "chunked"@))
    } else {
        h
    };
    let f = ("Connection"@, persistence(usable_after(framing, keep)));
    lemma_lookup_push(k, f, "connection"@);
    reveal_strlit("Connection");
    reveal_strlit("connection");
    assert(lower("Connection"@) =~= lower("connection"@));
}

// ---------------------------------------------------------------------------
// Connections
// ---------------------------------------------------------------------------

/// A backend's connection is used again only where the response had an end of its own,
/// the backend speaks HTTP/1.1 and did not announce to close, nothing failed and
/// nothing was left over; and it is, where all of that holds.
pub proof fn law_only_clean_connections_are_used_again(
    framing: BodyFraming,
    sent_close: bool,
    http11: bool,
    errored: bool,
    empty: bool,
)
    ensures
        framing == BodyFraming::UntilClose ==> !poolable(framing, sent_close, http11, errored, empty),
        sent_close ==> !poolable(framing, sent_close, http11, errored, empty),
        !http11 ==> !poolable(framing, sent_close, http11, errored, empty),
        errored ==> !poolable(framing, sent_close, http11, errored, empty),
        !empty ==> !poolable(framing, sent_close, http11, errored, empty),
        framing != BodyFraming::UntilClose && !sent_close && http11 && !errored && empty ==> poolable(
            framing,
            sent_close,
            http11,
            errored,
            empty,
        ),
{
}

/// A backend announces to close where one of the words of its `Connection` is `close`.
pub proof fn law_announced_closes_are_heard(h: Fields, co: int, k: int)
    ensures
        absent(h, "connection"@) ==> !says_close(h),
        first_named(h, "connection"@, co) && 0 <= k < pieces(h[co].1, ',').len() && same_fold(
            trimmed(pieces(h[co].1, ',')[k]),
            "close"@,
        ) ==> says_close(h),
        first_named(h, "connection"@, co) && (forall|j: int|
            0 <= j < pieces(h[co].1, ',').len() ==> !same_fold(
                trimmed(#[trigger] pieces(h[co].1, ',')[j]),
                "close"@,
            )) ==> !says_close(h),
{
    if absent(h, "connection"@) {
        law_a_lookup_of_nothing_gives_nothing(h, "connection"@);
    }
    if first_named(h, "connection"@, co) {
        law_a_lookup_gives_the_first_field(h, "connection"@, co);
    }
}

/// After a relayed response the client's connection is kept as it was told, and the
/// backend's where it is clean.
pub proof fn law_an_exchange_ends_as_announced(a: Answer, empty: bool)
    ensures
        finish_of(a, empty) is Done,
        finish_of(a, empty)->keep == a.usable,
        finish_of(a, empty)->pool <==> a.framing != BodyFraming::UntilClose && !a.sent_close
            && a.http11 && empty,
        kept_after_refusal(true, true),
        !kept_after_refusal(true, false),
        !kept_after_refusal(false, true),
{
}

// ---------------------------------------------------------------------------
// Servers
// ---------------------------------------------------------------------------

proof fn lemma_case(a: char, b: char)
    ensures
        upper_char(a) == upper_char(b) <==> lower_char(a) == lower_char(b),
{
}

proof fn lemma_upper_folds(a: Seq<char>, b: Seq<char>)
    ensures
        upper(a) == upper(b) <==> same_fold(a, b),
{
    if upper(a) == upper(b) {
        assert(upper(a).len() == upper(b).len());
        assert(a.len() == b.len());
        assert forall|i: int| 0 <= i < a.len() implies lower(a)[i] == lower(b)[i] by {
            assert(upper(a)[i] == upper(b)[i]);
            lemma_case(a[i], b[i]);
        }
        assert(lower(a) =~= lower(b));
    }
    if same_fold(a, b) {
        assert(lower(a).len() == lower(b).len());
        assert forall|i: int| 0 <= i < a.len() implies upper(a)[i] == upper(b)[i] by {
            assert(lower(a)[i] == lower(b)[i]);
            lemma_case(a[i], b[i]);
        }
        assert(upper(a) =~= upper(b));
    }
}

/// A GET, HEAD, PUT, DELETE, OPTIONS or TRACE may be sent to a second server, in any
/// case; a POST, a PATCH, a CONNECT and every other method may not.
pub proof fn law_only_safe_methods_are_repeated(method: Seq<char>)
    ensures
        repeatable(method) <==> same_fold(method, "GET"@) || same_fold(method, "HEAD"@) || same_fold(
            method,
            "PUT"@,
        ) || same_fold(method, "DELETE"@) || same_fold(method, "OPTIONS"@) || same_fold(
            method,
            "TRACE"@,
        ),
{
    reveal_strlit("GET");
    reveal_strlit("HEAD");
    reveal_strlit("PUT");
    reveal_strlit("DELETE");
    reveal_strlit("OPTIONS");
    reveal_strlit("TRACE");
    assert(upper("GET"@) =~= "GET"@);
    assert(upper("HEAD"@) =~= "HEAD"@);
    assert(upper("PUT"@) =~= "PUT"@);
    assert(upper("DELETE"@) =~= "DELETE"@);
    assert(upper("OPTIONS"@) =~= "OPTIONS"@);
    assert(upper("TRACE"@) =~= "TRACE"@);
    lemma_upper_folds(method, "GET"@);
    lemma_upper_folds(method, "HEAD"@);
    lemma_upper_folds(method, "PUT"@);
    lemma_upper_folds(method, "DELETE"@);
    lemma_upper_folds(method, "OPTIONS"@);
    lemma_upper_folds(method, "TRACE"@);
}

/// A request that may be repeated is tried again twice at most, with the same head; any
/// other is answered at once.
pub proof fn law_there_are_two_more_tries(d: Dial, status: u16, reason: Seq<char>, n: Next)
    requires
        after_failure(d, status, reason, n),
    ensures
        n is Again <==> d.attempt.retryable && d.attempt.tries < 2,
        n matches Next::Again(a) ==> a.tries == d.attempt.tries + 1 && a.head == d.attempt.head
            && a.framing == d.attempt.framing && a.route == d.attempt.route,
        n matches Next::Refuse(r) ==> r.status == status,
        !(n is Write),
{
}

/// A server that cannot be reached is a 502, one that is too slow to connect or to
/// respond a 504, a pool without a server a 502, and a body over the limit a 413; each
/// closes the client's connection without a fault of its own.
pub proof fn law_failures_have_their_status()
    ensures
        no_connection(Dialed::Failed).status == 502,
        no_connection(Dialed::TimedOut).status == 504,
        no_response().status == 504,
        no_server().status == 502,
        too_large().status == 413,
        no_connection(Dialed::Failed).reason == "Bad Gateway"@,
        no_connection(Dialed::TimedOut).reason == "Gateway Timeout"@,
        no_response().reason == "Gateway Timeout"@,
        no_server().reason == "Bad Gateway"@,
        too_large().reason == "Payload Too Large"@,
        no_connection(Dialed::Failed).must_send && no_connection(Dialed::Failed).fault is None,
        no_connection(Dialed::TimedOut).must_send && no_connection(Dialed::TimedOut).fault is None,
        no_response().must_send && no_response().fault is None,
        no_server().must_send && no_server().fault is None,
        too_large().must_send && too_large().fault is None,
{
}

/// From the moment that a request is sent it counts as a failure of its server, and a
/// response below 500 turns that into a success; one from 500 on does not. The answer
/// has the status of the response and its framing.
pub proof fn law_a_response_below_500_proves_health<M: Middleware>(
    sent: Sent,
    resp: ResponseView,
    framing: BodyFraming,
    mws: Seq<M>,
    rules: crate::rewrite::RewriteRules,
    first: ResponseHead,
    seen: ResponseHead,
    a: Answer,
    lease: Lease,
)
    requires
        is_answer(sent, resp, framing, mws, rules, first, seen, a),
    ensures
        a.lease.outcome == Some(resp.status <= 499),
        a.lease.server == sent.lease.server,
        a.lease.served == sent.lease.served,
        a.status == resp.status,
        a.framing == framing,
        a.http11 <==> resp.version == Version::Http11,
        a.usable <==> sent.keep && framing != BodyFraming::UntilClose,
        committed(lease).outcome == Some(false),
        committed(lease).served,
        committed(lease).server == lease.server,
        committed(lease).started == lease.started,
{
}

// ---------------------------------------------------------------------------
// The entrance
// ---------------------------------------------------------------------------

/// What a head meets: a slow one a 408, a malformed one a 400, too many fields a 431, a
/// declared body over the limit a 413, and no route a 404; and a client that closes
/// without a word is left alone.
pub proof fn law_heads_are_answered(ev: HeadEvent, req: RequestView, limits: Limits, routes: Seq<RouteView>)
    ensures
        gate_of(HeadEvent::TimedOut, limits, routes) matches GateView::Refuse(r) && r.status == 408
            && r.fault is None,
        gate_of(HeadEvent::Closed, limits, routes) is Close,
        ev is Failed ==> (gate_of(ev, limits, routes) matches GateView::Refuse(r) && r.status == 400
            && r.fault is Some),
        ev matches HeadEvent::Bytes(b) ==> (crate::http::request_of(b@) is Err ==> (gate_of(
            ev,
            limits,
            routes,
        ) matches GateView::Refuse(r) && r.status == 400 && r.fault is Some)),
        ev matches HeadEvent::Bytes(b) ==> (crate::http::request_of(b@) matches Ok(q) ==> gate_of(
            ev,
            limits,
            routes,
        ) == gate_of_request(q, limits, routes)),
        req.headers.len() > limits.max_headers ==> (gate_of_request(req, limits, routes) matches
            GateView::Refuse(r) && r.status == 431),
        req.headers.len() <= limits.max_headers && request_framing(req.headers) is Err ==> (
        gate_of_request(req, limits, routes) matches GateView::Refuse(r) && r.status == 400),
        req.headers.len() <= limits.max_headers ==> (request_framing(req.headers) matches Ok(
            BodyFraming::Length(n),
        ) ==> n > limits.max_body ==> (gate_of_request(req, limits, routes) matches
            GateView::Refuse(r) && r.status == 413)),
        req.headers.len() <= limits.max_headers && (request_framing(req.headers) matches Ok(f) && (
        f matches BodyFraming::Length(n) ==> n <= limits.max_body)) && route_for(
            routes,
            req,
        ) is None ==> (gate_of_request(req, limits, routes) matches GateView::Refuse(r) && r.status
            == 404),
        req.headers.len() <= limits.max_headers && (request_framing(req.headers) matches Ok(f) && (
        f matches BodyFraming::Length(n) ==> n <= limits.max_body)) && route_for(
            routes,
            req,
        ) is Some ==> (gate_of_request(req, limits, routes) matches GateView::Pass {
            req: q,
            framing,
            route,
            ..
        } && q == req && request_framing(req.headers) == Ok::<BodyFraming, Seq<char>>(framing)
            && route_for(routes, req) == Some(route)),
{
}

// ---------------------------------------------------------------------------
// Bodies
// ---------------------------------------------------------------------------

/// A body of a declared length passes byte for byte, exactly to its end; one over the
/// limit does not pass at all, and an end before its end is an error.
pub proof fn law_declared_bodies_pass_whole(n: u64, max: Option<u64>, body: Seq<u8>, tail: Seq<u8>)
    requires
        n > 0,
    ensures
        (max matches Some(m) ==> n <= m) ==> started(BodyFraming::Length(n), max) == Relay::Length(n),
        (max matches Some(m) && n > m) ==> started(BodyFraming::Length(n), max) == Relay::Ended(
            BodyCopy::TooLarge,
        ),
        body.len() == n ==> relay(Relay::Length(n), body + tail).out == body && relay(
            Relay::Length(n),
            body + tail,
        ).rest == tail && relay(Relay::Length(n), body + tail).state == Relay::Ended(
            BodyCopy::Done { reusable: true },
        ) && relay(Relay::Length(n), body + tail).fault is None,
        body.len() < n ==> relay(Relay::Length(n), body).out == body && at_eof(
            relay(Relay::Length(n), body).state,
        ) is Err,
{
    assert((body + tail).take(body.len() as int) =~= body);
    assert((body + tail).skip(body.len() as int) =~= tail);
}

/// A body without a declared end passes byte for byte until the peer closes, and the
/// connection is then used up; one over the limit is too large. No body needs no
/// bytes.
pub proof fn law_open_bodies_pass_to_the_end(body: Seq<u8>, max: Option<u64>)
    requires
        body.len() <= u64::MAX,
    ensures
        ({
            let p = relay(started(BodyFraming::UntilClose, max), body);
            &&& p.out == body
            &&& p.fault is None
            &&& at_eof(p.state) == Ok::<BodyCopy, Seq<char>>(
                if max matches Some(m) && body.len() > m {
                    BodyCopy::TooLarge
                } else {
                    BodyCopy::Done { reusable: false }
                },
            )
        }),
        started(BodyFraming::Empty, max) == Relay::Ended(BodyCopy::Done { reusable: true }),
{
}

/// The body of a refused request is drained up to the cap: one that declares more, or
/// has no end, is not drained at all.
pub proof fn law_draining_is_bounded(n: u64, cap: u64)
    requires
        n > 0,
    ensures
        draining(BodyFraming::UntilClose, cap) == Relay::Ended(BodyCopy::TooLarge),
        n > cap ==> draining(BodyFraming::Length(n), cap) == Relay::Ended(BodyCopy::TooLarge),
        n <= cap ==> draining(BodyFraming::Length(n), cap) == Relay::Length(n),
        draining(BodyFraming::Empty, cap) == Relay::Ended(BodyCopy::Done { reusable: true }),
{
}

// ---------------------------------------------------------------------------
// The proxy's own answers
// ---------------------------------------------------------------------------

/// An error response states its status, closes the connection, and declares exactly the
/// body that it has, which is the status and the reason.
pub proof fn law_errors_say_what_they_are(status: u16, reason: Seq<char>, extra: Fields)
    ensures
        ({
            let head = error_head(status, reason, extra);
            &&& head.status == status
            &&& head.reason == reason
            &&& lookup(head.headers, "content-length"@) == Some(
                decimal(encode_utf8(error_body(status, reason)).len()),
            )
            &&& lookup(head.headers, "connection"@) == Some("close"@)
            &&& lookup(head.headers, "content-type"@) == Some("text/plain"@)
            &&& forall|i: int| 0 <= i < extra.len() ==> head.headers.contains(#[trigger] extra[i])
            &&& error_body(status, reason) == decimal(status as nat) + seq![' '] + reason + seq!['\n']
            &&& wire(head, error_body(status, reason)).skip(
                encode_utf8(crate::http::response_text(head)).len() as int,
            ) == encode_utf8(error_body(status, reason))
        }),
{
    let head = error_head(status, reason, extra);
    let h = head.headers;
    reveal_strlit("Content-Type");
    reveal_strlit("Content-Length");
    reveal_strlit("Connection");
    reveal_strlit("content-type");
    reveal_strlit("content-length");
    reveal_strlit("connection");
    reveal_strlit(" ");
    reveal_strlit("\n");
    assert(" "@ =~= seq![' ']);
    assert("\n"@ =~= seq!['\n']);
    assert(lower("Content-Type"@) =~= lower("content-type"@));
    assert(lower("Content-Length"@) =~= lower("content-length"@));
    assert(lower("Connection"@) =~= lower("connection"@));
    assert(lower("content-type"@).len() == 12 && lower("content-length"@).len() == 14 && lower(
        "connection"@,
    ).len() == 10);
    assert(h[0] == ("Content-Type"@, "text/plain"@));
    assert(h[1] == ("Content-Length"@, decimal(encode_utf8(error_body(status, reason)).len())));
    assert(h[2] == ("Connection"@, "close"@));
    assert(first_named(h, "content-type"@, 0));
    assert(first_named(h, "content-length"@, 1));
    assert(first_named(h, "connection"@, 2));
    law_a_lookup_gives_the_first_field(h, "content-type"@, 0);
    law_a_lookup_gives_the_first_field(h, "content-length"@, 1);
    law_a_lookup_gives_the_first_field(h, "connection"@, 2);
    assert forall|i: int| 0 <= i < extra.len() implies h.contains(#[trigger] extra[i]) by {
        assert(h[i + 3] == extra[i]);
    }
    let a = encode_utf8(crate::http::response_text(head));
    let b = encode_utf8(error_body(status, reason));
    assert((a + b).skip(a.len() as int) =~= b);
}

/// The limits of the proxy: 16 KiB for a head, half a minute to read one and to wait
/// for a response, five seconds to connect, two more tries, and 64 KiB of a refused
/// body.
pub proof fn law_the_limits_of_the_proxy()
    ensures
        MAX_HEAD_BYTES == 16 * 1024,
        HEAD_READ_TIMEOUT == 30 * 1_000_000_000,
        BACKEND_CONNECT_TIMEOUT == 5 * 1_000_000_000,
        DEFAULT_BACKEND_RESPONSE_TIMEOUT == 30 * 1_000_000_000,
        MAX_RETRIES == 2,
        REJECT_DRAIN_CAP == 64 * 1024,
{
}

} // verus!
