//! The proxy engine: what is read, what is forwarded, and what is answered.
//!
//! Each leg of an exchange has headers of its own. Whatever belongs to one
//! connection alone is taken out of a head before it is passed on, and the headers
//! that frame the body are written by the proxy.

pub mod conn;
pub mod exchange;

pub use conn::{BodyCopy, Conn};

use vstd::prelude::*;
use vstd::string::{StrSliceExecFns, StringExecFns};
use vstd::utf8::encode_utf8;

use crate::cache::copy_fields;
use crate::http::{
    bodiless, header, keep_alive, law_removed_field_is_gone, lemma_lookup_push, lookup, occurrences,
    remove_header, request_framing, response_framing, response_text, without, write_response_head,
    BodyFraming, Fields, RequestHead, RequestView, ResponseHead, ResponseView, Version,
};
use crate::rewrite::{
    is_protected, law_framing_headers_pass_unchanged, law_response_framing_passes_unchanged,
    requested, responded, safe_rules, ForwardContext, RewriteRules, RulesView,
};
use crate::text::{
    decimal, decimal_of, list_has, lower, lowercase, own, pairs, pieces, push_text, same,
    same_fold, same_ignoring_case, slice, slices, split, texts, trim, trimmed, upper, uppercase,
};

verus! {

/// How long a client may take to send a head, in nanoseconds: 30 seconds.
pub const HEAD_READ_TIMEOUT: u128 = 30_000_000_000;

/// How long the connection to a backend may take, in nanoseconds: 5 seconds.
pub const BACKEND_CONNECT_TIMEOUT: u128 = 5_000_000_000;

/// How long a backend may take for the head of its response, if nothing else is
/// said, in nanoseconds: 30 seconds.
pub const DEFAULT_BACKEND_RESPONSE_TIMEOUT: u128 = 30_000_000_000;

/// How often a request is tried again after a backend could not be reached.
pub const MAX_RETRIES: usize = 2;

/// How much of a refused request's body is drained.
pub const REJECT_DRAIN_CAP: u64 = 65536;

/// A method that may be sent twice without a second effect.
pub open spec fn repeatable(method: Seq<char>) -> bool {
    let m = upper(method);
    ||| m == "GET"@
    ||| m == "HEAD"@
    ||| m == "PUT"@
    ||| m == "DELETE"@
    ||| m == "OPTIONS"@
    ||| m == "TRACE"@
}

/// May the method be sent to another backend?
pub fn is_idempotent(method: &str) -> (r: bool)
    ensures
        r == repeatable(method@),
{
    let m = uppercase(method);
    let s = m.as_str();
    same(s, "GET") || same(s, "HEAD") || same(s, "PUT") || same(s, "DELETE") || same(s, "OPTIONS")
        || same(s, "TRACE")
}

// ---------------------------------------------------------------------------
// Headers of one connection
// ---------------------------------------------------------------------------

/// A name, in lower case, that belongs to one connection.
pub open spec fn hop_by_hop(n: Seq<char>) -> bool {
    ||| n == "connection"@
    ||| n == "keep-alive"@
    ||| n == "proxy-connection"@
    ||| n == "proxy-authenticate"@
    ||| n == "proxy-authorization"@
    ||| n == "te"@
    ||| n == "trailer"@
    ||| n == "upgrade"@
}

fn is_hop_by_hop(n: &str) -> (r: bool)
    ensures
        r == hop_by_hop(n@),
{
    same(n, "connection") || same(n, "keep-alive") || same(n, "proxy-connection") || same(
        n,
        "proxy-authenticate",
    ) || same(n, "proxy-authorization") || same(n, "te") || same(n, "trailer") || same(n, "upgrade")
}

/// The names that a `Connection` header lists, in lower case.
pub open spec fn named(h: Fields) -> Seq<Seq<char>> {
    match lookup(h, "connection"@) {
        Some(v) => Seq::new(
            pieces(v, ',').len(),
            |i: int| lower(trimmed(pieces(v, ',')[i])),
        ),
        None => Seq::empty(),
    }
}

/// The fields that are passed on: neither of one connection nor in the list.
pub open spec fn end_to_end(h: Fields, list: Seq<Seq<char>>) -> Fields
    decreases h.len(),
{
    if h.len() == 0 {
        h
    } else if hop_by_hop(lower(h[0].0)) || list.contains(lower(h[0].0)) {
        end_to_end(h.drop_first(), list)
    } else {
        seq![h[0]] + end_to_end(h.drop_first(), list)
    }
}

/// A head's fields without those of one connection.
pub open spec fn stripped(h: Fields) -> Fields {
    end_to_end(h, named(h))
}

/// Takes out the fields that belong to one connection, and those that the
/// `Connection` header names.
pub fn strip_hop_by_hop(headers: &mut Vec<(String, String)>)
    ensures
        pairs(final(headers)@) == stripped(pairs(old(headers)@)),
{
    let ghost all = pairs(headers@);
    let mut list: Vec<String> = Vec::new();
    assert(texts(list@) =~= Seq::empty());
    if let Some(v) = header(headers.as_slice(), "connection") {
        let parts = split(v, ',');
        let ghost want = named(all);
        let mut k: usize = 0;
        assert(texts(list@) =~= want.take(0));
        while k < parts.len()
            invariant
                k <= parts@.len(),
                slices(parts@) == pieces(v@, ','),
                want == Seq::new(
                    pieces(v@, ',').len(),
                    |i: int| lower(trimmed(pieces(v@, ',')[i])),
                ),
                texts(list@) == want.take(k as int),
            decreases parts.len() - k,
        {
            let n = lowercase(trim(parts[k]));
            assert(slices(parts@)[k as int] == parts@[k as int]@);
            assert(want.take(k + 1) =~= want.take(k as int).push(n@));
            push_text(&mut list, n);
            k = k + 1;
        }
        assert(want.take(k as int) =~= want);
    }
    let ghost l = texts(list@);
    assert(l == named(all));
    let mut i: usize = 0;
    assert(all.take(0) + end_to_end(all.skip(0), l) =~= end_to_end(all, l)) by {
        assert(all.skip(0) =~= all);
    }
    while i < headers.len()
        invariant
            i <= headers@.len(),
            l == texts(list@),
            pairs(headers@).take(i as int) + end_to_end(pairs(headers@).skip(i as int), l)
                == end_to_end(all, l),
        decreases headers.len() - i,
    {
        let ghost now = pairs(headers@);
        let ghost rest = now.skip(i as int);
        assert(rest[0] == now[i as int]);
        assert(rest.drop_first() =~= now.skip(i + 1));
        let n = lowercase(headers[i].0.as_str());
        if is_hop_by_hop(n.as_str()) || list_has(&list, n.as_str()) {
            let gone = headers.remove(i);
            assert(pairs(headers@).skip(i as int) =~= now.skip(i + 1));
            assert(pairs(headers@).take(i as int) =~= now.take(i as int));
        } else {
            assert(now.take(i as int) + (seq![now[i as int]] + end_to_end(now.skip(i + 1), l))
                =~= now.take(i + 1) + end_to_end(now.skip(i + 1), l));
            i = i + 1;
        }
    }
    let ghost now = pairs(headers@);
    assert(now.take(i as int) =~= now);
    assert(now.skip(i as int) =~= Seq::empty());
    assert(now + Seq::empty() =~= now);
}

/// A field of one connection, or one that the `Connection` header names, is never
/// passed on; every other field is, as it is.
pub proof fn law_only_end_to_end_fields_pass(h: Fields, list: Seq<Seq<char>>, name: Seq<char>)
    ensures
        hop_by_hop(lower(name)) || list.contains(lower(name)) ==> lookup(
            end_to_end(h, list),
            name,
        ) is None && occurrences(end_to_end(h, list), name) == 0,
        !hop_by_hop(lower(name)) && !list.contains(lower(name)) ==> lookup(
            end_to_end(h, list),
            name,
        ) == lookup(h, name) && occurrences(end_to_end(h, list), name) == occurrences(h, name),
    decreases h.len(),
{
    if h.len() > 0 {
        let t = h.drop_first();
        law_only_end_to_end_fields_pass(t, list, name);
        if !(hop_by_hop(lower(h[0].0)) || list.contains(lower(h[0].0))) {
            let w = seq![h[0]] + end_to_end(t, list);
            assert(w.drop_first() =~= end_to_end(t, list));
        }
    }
}

// ---------------------------------------------------------------------------
// The request to the backend
// ---------------------------------------------------------------------------

/// The head that a backend gets: without the fields of the client's connection,
/// rewritten by the route's rules, and framed by the proxy.
pub open spec fn forwarded(
    req: RequestView,
    framing: BodyFraming,
    rules: RulesView,
    ip: Seq<char>,
    host: Option<Seq<char>>,
    scheme: Seq<char>,
) -> RequestView {
    let r = requested(
        rules,
        RequestView { headers: stripped(req.headers), ..req },
        ip,
        host,
        scheme,
    );
    let h = without(r.headers, "transfer-encoding"@).push(("Connection"@, "keep-alive"@));
    RequestView {
        version: Version::Http11,
        headers: if framing == BodyFraming::Chunked {
            h.push(("Transfer-Encoding"@, "chunked"@))
        } else {
            h
        },
        ..r
    }
}

fn push_field(headers: &mut Vec<(String, String)>, name: &str, value: &str)
    ensures
        pairs(final(headers)@) == pairs(old(headers)@).push((name@, value@)),
{
    headers.push((own(name), own(value)));
    assert(pairs(headers@) =~= pairs(old(headers)@).push((name@, value@)));
}

/// Turns a client's head into the one that the backend gets. It is done once for an
/// exchange: the rules add to headers, so that doing it again would add twice.
pub fn forward_head(
    req: &mut RequestHead,
    framing: BodyFraming,
    rules: &RewriteRules,
    ctx: &ForwardContext,
)
    ensures
        final(req)@ == forwarded(
            old(req)@,
            framing,
            rules@,
            ctx.client_ip@,
            slice(ctx.original_host),
            ctx.scheme@,
        ),
{
    strip_hop_by_hop(&mut req.headers);
    rules.apply_request(req, ctx);
    remove_header(&mut req.headers, "transfer-encoding");
    req.version = Version::Http11;
    push_field(&mut req.headers, "Connection", "keep-alive");
    if framing == BodyFraming::Chunked {
        push_field(&mut req.headers, "Transfer-Encoding", "chunked");
    }
}

proof fn lemma_framing_names()
    ensures
        is_protected("content-length"@),
        is_protected("transfer-encoding"@),
        is_protected("connection"@),
        !same_fold("content-length"@, "host"@),
        !same_fold("transfer-encoding"@, "host"@),
        !same_fold("connection"@, "host"@),
        !hop_by_hop(lower("content-length"@)),
        hop_by_hop(lower("connection"@)),
        lower("content-length"@) == "content-length"@,
        !same_fold("Connection"@, "content-length"@),
        !same_fold("Connection"@, "transfer-encoding"@),
        same_fold("Connection"@, "connection"@),
        !same_fold("content-length"@, "transfer-encoding"@),
        !same_fold("Transfer-Encoding"@, "content-length"@),
        !same_fold("Transfer-Encoding"@, "connection"@),
        same_fold("Transfer-Encoding"@, "transfer-encoding"@),
        !same_fold("connection"@, "transfer-encoding"@),
{
    reveal_strlit("content-length");
    reveal_strlit("transfer-encoding");
    reveal_strlit("connection");
    reveal_strlit("Connection");
    reveal_strlit("Transfer-Encoding");
    reveal_strlit("host");
    reveal_strlit("keep-alive");
    reveal_strlit("proxy-connection");
    reveal_strlit("proxy-authenticate");
    reveal_strlit("proxy-authorization");
    reveal_strlit("te");
    reveal_strlit("trailer");
    reveal_strlit("upgrade");
    assert(lower("content-length"@) =~= "content-length"@);
    assert(lower("connection"@) =~= "connection"@);
    assert(lower("Connection"@) =~= lower("connection"@));
    assert(lower("Transfer-Encoding"@) =~= lower("transfer-encoding"@));
    assert(lower("host"@).len() == 4);
    assert(lower("content-length"@).len() == 14);
    assert(lower("transfer-encoding"@).len() == 17);
    assert(lower("connection"@).len() == 10);
    assert("proxy-authenticate"@.len() == 18);
    assert("proxy-authorization"@.len() == 19);
    assert("proxy-connection"@.len() == 16);
    assert("keep-alive"@.len() == 10);
}

/// The backend finds the body where the client's head put it: the framing that it
/// reads from the forwarded head is the one that the proxy relays the body by. Where a
/// length frames it, the client must not name `Content-Length` in its `Connection`
/// header.
pub proof fn law_the_backend_reads_the_same_framing(
    req: RequestView,
    framing: BodyFraming,
    rules: RulesView,
    ip: Seq<char>,
    host: Option<Seq<char>>,
    scheme: Seq<char>,
)
    requires
        request_framing(req.headers) == Ok::<BodyFraming, Seq<char>>(framing),
        safe_rules(rules),
        framing is Length ==> !named(req.headers).contains("content-length"@),
    ensures
        request_framing(forwarded(req, framing, rules, ip, host, scheme).headers) == Ok::<
            BodyFraming,
            Seq<char>,
        >(framing),
        occurrences(
            forwarded(req, framing, rules, ip, host, scheme).headers,
            "transfer-encoding"@,
        ) == if framing == BodyFraming::Chunked {
            1nat
        } else {
            0nat
        },
        occurrences(forwarded(req, framing, rules, ip, host, scheme).headers, "connection"@) == 1,
{
    lemma_framing_names();
    let te = "transfer-encoding"@;
    let cl = "content-length"@;
    let co = "connection"@;
    let list = named(req.headers);
    let a = RequestView { headers: stripped(req.headers), ..req };
    law_only_end_to_end_fields_pass(req.headers, list, cl);
    law_only_end_to_end_fields_pass(req.headers, list, co);
    law_framing_headers_pass_unchanged(rules, a, ip, host, scheme, cl);
    law_framing_headers_pass_unchanged(rules, a, ip, host, scheme, co);
    let r = requested(rules, a, ip, host, scheme);
    law_removed_field_is_gone(r.headers, te, cl);
    law_removed_field_is_gone(r.headers, te, co);
    let w = without(r.headers, te);
    let f = ("Connection"@, "keep-alive"@);
    lemma_lookup_push(w, f, te);
    lemma_lookup_push(w, f, cl);
    lemma_lookup_push(w, f, co);
    let g = ("Transfer-Encoding"@, "chunked"@);
    lemma_lookup_push(w.push(f), g, te);
    lemma_lookup_push(w.push(f), g, cl);
    lemma_lookup_push(w.push(f), g, co);
}

// ---------------------------------------------------------------------------
// The response to the client
// ---------------------------------------------------------------------------

/// The value of a `Connection` header.
pub open spec fn persistence(keep: bool) -> Seq<char> {
    if keep {
        "keep-alive"@
    } else {
        "close"@
    }
}

fn persistence_text(keep: bool) -> (r: &'static str)
    ensures
        r@ == persistence(keep),
{
    if keep {
        "keep-alive"
    } else {
        "close"
    }
}

/// Whether the client's connection is usable after a response of that framing: one
/// that runs until the end of the connection uses it up.
pub open spec fn usable_after(framing: BodyFraming, keep: bool) -> bool {
    framing != BodyFraming::UntilClose && keep
}

/// The head that a client gets: without the fields of the backend's connection,
/// rewritten by the route's rules, and framed by the proxy.
pub open spec fn answered(resp: ResponseView, framing: BodyFraming, rules: RulesView, keep: bool) -> ResponseView {
    let r = responded(rules, ResponseView { headers: stripped(resp.headers), ..resp });
    let h = without(r.headers, "transfer-encoding"@);
    let k = if framing == BodyFraming::Chunked {
        h.push(("Transfer-Encoding"@, "chunked"@))
    } else {
        h
    };
    ResponseView {
        version: Version::Http11,
        headers: k.push(("Connection"@, persistence(usable_after(framing, keep)))),
        ..r
    }
}

/// Turns a backend's head into the one that the client gets, and says whether the
/// client's connection is usable afterwards.
pub fn answer_head(resp: &mut ResponseHead, framing: BodyFraming, rules: &RewriteRules, keep: bool) -> (usable: bool)
    ensures
        final(resp)@ == answered(old(resp)@, framing, rules@, keep),
        usable == usable_after(framing, keep),
{
    strip_hop_by_hop(&mut resp.headers);
    rules.apply_response(resp);
    remove_header(&mut resp.headers, "transfer-encoding");
    resp.version = Version::Http11;
    let usable = framing != BodyFraming::UntilClose && keep;
    if framing == BodyFraming::Chunked {
        push_field(&mut resp.headers, "Transfer-Encoding", "chunked");
    }
    push_field(&mut resp.headers, "Connection", persistence_text(usable));
    usable
}

/// A `Content-Length` decides how the body of a response is framed: it may have one,
/// and no transfer coding frames it.
pub open spec fn framed_by_length(method: Seq<char>, resp: ResponseView) -> bool {
    &&& !bodiless(method, resp.status)
    &&& lookup(resp.headers, "transfer-encoding"@) is None
    &&& lookup(resp.headers, "content-length"@) is Some
}

/// The client finds the body where the backend's head put it. Where a `Content-Length`
/// decides that, the backend must not name it in its `Connection` header.
pub proof fn law_the_client_reads_the_same_framing(
    method: Seq<char>,
    resp: ResponseView,
    framing: BodyFraming,
    rules: RulesView,
    keep: bool,
)
    requires
        response_framing(method, resp.status, resp.headers) == Ok::<BodyFraming, Seq<char>>(
            framing,
        ),
        safe_rules(rules),
        framed_by_length(method, resp) ==> !named(resp.headers).contains("content-length"@),
    ensures
        response_framing(
            method,
            resp.status,
            answered(resp, framing, rules, keep).headers,
        ) == Ok::<BodyFraming, Seq<char>>(framing),
        answered(resp, framing, rules, keep).status == resp.status,
        occurrences(answered(resp, framing, rules, keep).headers, "transfer-encoding"@) == if framing
            == BodyFraming::Chunked {
            1nat
        } else {
            0nat
        },
        occurrences(answered(resp, framing, rules, keep).headers, "connection"@) == 1,
        framing == BodyFraming::UntilClose ==> lookup(
            answered(resp, framing, rules, keep).headers,
            "connection"@,
        ) == Some("close"@),
{
    lemma_framing_names();
    let te = "transfer-encoding"@;
    let cl = "content-length"@;
    let co = "connection"@;
    let list = named(resp.headers);
    let a = ResponseView { headers: stripped(resp.headers), ..resp };
    law_only_end_to_end_fields_pass(resp.headers, list, cl);
    law_only_end_to_end_fields_pass(resp.headers, list, co);
    law_response_framing_passes_unchanged(rules, a, cl);
    law_response_framing_passes_unchanged(rules, a, co);
    let r = responded(rules, a);
    law_removed_field_is_gone(r.headers, te, cl);
    law_removed_field_is_gone(r.headers, te, co);
    let w = without(r.headers, te);
    let g = ("Transfer-Encoding"@, "chunked"@);
    lemma_lookup_push(w, g, te);
    lemma_lookup_push(w, g, cl);
    lemma_lookup_push(w, g, co);
    let k = if framing == BodyFraming::Chunked {
        w.push(g)
    } else {
        w
    };
    let f = ("Connection"@, persistence(usable_after(framing, keep)));
    lemma_lookup_push(k, f, te);
    lemma_lookup_push(k, f, cl);
    lemma_lookup_push(k, f, co);
}

/// A backend's connection may be used again: the response had an end of its own, the
/// backend keeps the connection and speaks HTTP/1.1, nothing failed, and no byte is
/// left over that the next exchange would take for its own.
pub open spec fn poolable(
    framing: BodyFraming,
    sent_close: bool,
    http11: bool,
    errored: bool,
    empty: bool,
) -> bool {
    framing != BodyFraming::UntilClose && !sent_close && http11 && !errored && empty
}

/// May a backend's connection be used again?
pub fn is_poolable(
    resp_framing: BodyFraming,
    backend_sent_close: bool,
    backend_is_http11: bool,
    exchange_errored: bool,
    buffer_empty: bool,
) -> (r: bool)
    ensures
        r == poolable(
            resp_framing,
            backend_sent_close,
            backend_is_http11,
            exchange_errored,
            buffer_empty,
        ),
{
    if resp_framing == BodyFraming::UntilClose {
        return false;
    }
    if backend_sent_close {
        return false;
    }
    if !backend_is_http11 {
        return false;
    }
    if exchange_errored {
        return false;
    }
    buffer_empty
}

/// A list holds the word, in any case.
pub open spec fn says(list: Seq<Seq<char>>, word: Seq<char>) -> bool {
    exists|i: int| 0 <= i < list.len() && same_fold(trimmed(#[trigger] list[i]), word)
}

/// The backend's head says that it closes the connection.
pub open spec fn says_close(h: Fields) -> bool {
    match lookup(h, "connection"@) {
        Some(v) => says(pieces(v, ','), "close"@),
        None => false,
    }
}

/// Does the backend's head say that it closes the connection?
pub fn sent_close(headers: &[(String, String)]) -> (r: bool)
    ensures
        r == says_close(pairs(headers@)),
{
    match header(headers, "connection") {
        None => false,
        Some(v) => {
            let parts = split(v, ',');
            let ghost list = pieces(v@, ',');
            let mut i: usize = 0;
            while i < parts.len()
                invariant
                    i <= parts@.len(),
                    list == slices(parts@),
                    says_close(pairs(headers@)) == says(list, "close"@),
                    forall|k: int|
                        0 <= k < i ==> !same_fold(trimmed(#[trigger] list[k]), "close"@),
                decreases parts.len() - i,
            {
                assert(list[i as int] == parts@[i as int]@);
                if same_ignoring_case(trim(parts[i]), "close") {
                    return true;
                }
                i = i + 1;
            }
            false
        },
    }
}

// ---------------------------------------------------------------------------
// The proxy's own responses
// ---------------------------------------------------------------------------

/// A response of the proxy on the wire: head and body.
pub open spec fn wire(head: ResponseView, body: Seq<char>) -> Seq<u8> {
    encode_utf8(response_text(head)) + encode_utf8(body)
}

/// The body of an error response.
pub open spec fn error_body(status: u16, reason: Seq<char>) -> Seq<char> {
    decimal(status as nat) + " "@ + reason + "\n"@
}

/// The head of an error response. It closes the connection.
pub open spec fn error_head(status: u16, reason: Seq<char>, extra: Fields) -> ResponseView {
    ResponseView {
        version: Version::Http11,
        status,
        reason,
        headers: seq![
            ("Content-Type"@, "text/plain"@),
            ("Content-Length"@, decimal(encode_utf8(error_body(status, reason)).len())),
            ("Connection"@, "close"@),
        ] + extra,
    }
}

fn joined_bytes(head: &ResponseHead, body: &str) -> (r: Vec<u8>)
    ensures
        r@ == wire(head@, body@),
{
    let mut r = write_response_head(head);
    let mut b = body.as_bytes_vec();
    r.append(&mut b);
    r
}

/// An error response with further headers.
pub fn error_response_with(status: u16, reason: &str, extra: &Vec<(String, String)>) -> (r: Vec<u8>)
    ensures
        r@ == wire(
            error_head(status, reason@, pairs(extra@)),
            error_body(status, reason@),
        ),
{
    let code = decimal_of(status as u64);
    let body = code.concat(" ").concat(reason).concat("\n");
    let len = decimal_of(body.as_str().as_bytes().len() as u64);
    let mut headers: Vec<(String, String)> = Vec::new();
    push_field(&mut headers, "Content-Type", "text/plain");
    push_field(&mut headers, "Content-Length", len.as_str());
    push_field(&mut headers, "Connection", "close");
    let mut more = copy_fields(extra);
    let ghost own_fields = headers@;
    let ghost others = more@;
    headers.append(&mut more);
    assert(pairs(headers@) =~= pairs(own_fields) + pairs(others));
    assert(pairs(headers@) =~= error_head(status, reason@, pairs(extra@)).headers);
    let head = ResponseHead { version: Version::Http11, status, reason: own(reason), headers };
    joined_bytes(&head, body.as_str())
}

/// An error response.
pub fn error_response(status: u16, reason: &str) -> (r: Vec<u8>)
    ensures
        r@ == wire(error_head(status, reason@, Seq::empty()), error_body(status, reason@)),
{
    let none: Vec<(String, String)> = Vec::new();
    assert(pairs(none@) =~= Seq::empty());
    error_response_with(status, reason, &none)
}

/// The head of a layer's refusal: its own headers, framed by the proxy.
pub open spec fn rejection_head(resp: ResponseView, body: Seq<char>, keep: bool) -> ResponseView {
    ResponseView {
        version: Version::Http11,
        headers: without(
            without(without(resp.headers, "content-length"@), "transfer-encoding"@),
            "connection"@,
        ).push(("Content-Type"@, "text/plain"@)).push(
            ("Content-Length"@, decimal(encode_utf8(body).len())),
        ).push(("Connection"@, persistence(keep))),
        ..resp
    }
}

/// The response that carries a layer's refusal.
pub fn rejection_response(resp: &ResponseHead, body: &str, keep: bool) -> (r: Vec<u8>)
    ensures
        r@ == wire(rejection_head(resp@, body@, keep), body@),
{
    let len = decimal_of(body.as_bytes().len() as u64);
    let mut headers = copy_fields(&resp.headers);
    remove_header(&mut headers, "content-length");
    remove_header(&mut headers, "transfer-encoding");
    remove_header(&mut headers, "connection");
    push_field(&mut headers, "Content-Type", "text/plain");
    push_field(&mut headers, "Content-Length", len.as_str());
    push_field(&mut headers, "Connection", persistence_text(keep));
    let head = ResponseHead {
        version: Version::Http11,
        status: resp.status,
        reason: own(resp.reason.as_str()),
        headers,
    };
    joined_bytes(&head, body)
}

/// Whatever a layer wrote into its refusal, the client finds exactly the body that
/// is sent, and learns once whether the connection stays open.
pub proof fn law_refusals_declare_their_body(resp: ResponseView, body: Seq<char>, keep: bool)
    requires
        encode_utf8(body).len() <= u64::MAX,
    ensures
        lookup(rejection_head(resp, body, keep).headers, "content-length"@) == Some(
            decimal(encode_utf8(body).len()),
        ),
        occurrences(rejection_head(resp, body, keep).headers, "content-length"@) == 1,
        occurrences(rejection_head(resp, body, keep).headers, "transfer-encoding"@) == 0,
        occurrences(rejection_head(resp, body, keep).headers, "connection"@) == 1,
        keep_alive(Version::Http11, rejection_head(resp, body, keep).headers) == keep,
{
    lemma_framing_names();
    let te = "transfer-encoding"@;
    let cl = "content-length"@;
    let co = "connection"@;
    reveal_strlit("Content-Type");
    reveal_strlit("Content-Length");
    reveal_strlit("content-length");
    reveal_strlit("close");
    reveal_strlit("keep-alive");
    assert(lower("Content-Length"@) =~= lower(cl));
    assert(lower("Content-Type"@).len() == 12);
    assert(lower(cl).len() == 14);
    assert(lower(co).len() == 10) by {
        reveal_strlit("connection");
    }
    assert(lower(te).len() == 17) by {
        reveal_strlit("transfer-encoding");
    }
    assert(lower("close"@).len() == 5);
    assert(lower("keep-alive"@).len() == 10);
    let a = without(resp.headers, cl);
    law_removed_field_is_gone(resp.headers, cl, te);
    law_removed_field_is_gone(resp.headers, cl, co);
    let b = without(a, te);
    law_removed_field_is_gone(a, te, cl);
    law_removed_field_is_gone(a, te, co);
    let c = without(b, co);
    law_removed_field_is_gone(b, co, cl);
    law_removed_field_is_gone(b, co, te);
    let f1 = ("Content-Type"@, "text/plain"@);
    let f2 = ("Content-Length"@, decimal(encode_utf8(body).len()));
    let f3 = ("Connection"@, persistence(keep));
    lemma_lookup_push(c, f1, cl);
    lemma_lookup_push(c, f1, te);
    lemma_lookup_push(c, f1, co);
    lemma_lookup_push(c.push(f1), f2, cl);
    lemma_lookup_push(c.push(f1), f2, te);
    lemma_lookup_push(c.push(f1), f2, co);
    lemma_lookup_push(c.push(f1).push(f2), f3, cl);
    lemma_lookup_push(c.push(f1).push(f2), f3, te);
    lemma_lookup_push(c.push(f1).push(f2), f3, co);
}

} // verus!
