//! What a listener, a layer and a probe do.

use vstd::prelude::*;
use vstd::utf8::encode_utf8;

use super::lemma_nothing_to_trim;
use crate::health::probe_text;
use crate::http::{
    fields_text, law_set_field_reads_back, law_written_request_reads_back, lookup, request_of,
    request_text, version_of, without, RequestHead, RequestView, ResponseHead, Version,
};
use crate::middleware::auth::{challenge, identity_of, is_allowed, Auth, Authz};
use crate::middleware::observe::{id_of, keeps_id, RequestId};
use crate::middleware::ratelimit::{evictable, Bucket};
use crate::middleware::{verdict, CtxView, Decision, Middleware, ReqCtx, Shared};
use crate::proxy::conn::{on_line, BodyCopy, Phase, Relay};
use crate::proxy::exchange::{first_state, sent_state, Asked, Client};
use crate::text::{
    before, has_char, hexadecimal, lemma_first_index, lemma_first_index_is, trimmed, unsigned,
};
use crate::time::Instant;
use crate::waf::{noted, Offender, Sentence, Waf, WafMode};
use crate::tls::{
    http11, is_made_from, open_failure, optional_failure, pem_certs, pem_key, refusal,
    required_failure, trust_in, unusable, ClientAuth, FileBytes, KeyBytes, TlsFiles,
};

verus! {

// ---------------------------------------------------------------------------
// TLS
// ---------------------------------------------------------------------------

/// A listener presents every certificate of its file, and offers HTTP/1.1 alone.
pub proof fn law_listeners_present_their_certificates(
    c: rustls::ServerConfig,
    files: TlsFiles,
    cert: Seq<char>,
    ca: Seq<char>,
    auth: ClientAuth,
    bytes: Vec<u8>,
    v: Seq<Seq<u8>>,
)
    requires
        is_made_from(c, files, cert, ca, auth),
        files.cert == FileBytes::Whole(bytes),
        pem_certs(bytes@) == Ok::<Seq<Seq<u8>>, Seq<char>>(v),
        v.len() > 0,
    ensures
        crate::tls::presented(c) == v,
        crate::tls::offered(c).len() == 1,
        crate::tls::offered(c)[0] == encode_utf8("http/1.1"@),
{
    reveal_strlit("http/1.1");
    let t = "http/1.1"@;
    vstd::utf8::is_ascii_chars_encode_utf8(t);
    assert(encode_utf8(t) =~= http11());
}

/// Clients are checked as it was set: not at all, or against the authorities of the
/// named file; only a required certificate may not be missing.
pub proof fn law_clients_are_checked(
    c: rustls::ServerConfig,
    files: TlsFiles,
    cert: Seq<char>,
    ca: Seq<char>,
    auth: ClientAuth,
    bytes: Vec<u8>,
    v: Seq<Seq<u8>>,
)
    requires
        is_made_from(c, files, cert, ca, auth),
        files.client_ca == FileBytes::Whole(bytes),
        pem_certs(bytes@) == Ok::<Seq<Seq<u8>>, Seq<char>>(v),
        v.len() > 0,
        unusable(v) == 0,
    ensures
        crate::tls::client_check(c) is None <==> auth == ClientAuth::Off,
        auth == ClientAuth::Optional ==> crate::tls::client_check(c) == Some((true, trust_in(v))),
        auth == ClientAuth::Required ==> crate::tls::client_check(c) == Some((false, trust_in(v))),
{
}

/// Files make a listener exactly where there is a certificate and a key, authorities
/// where clients are checked, each of them usable, and the parts go together.
pub proof fn law_files_make_a_listener(
    files: TlsFiles,
    cert: Seq<char>,
    key: Seq<char>,
    ca: Seq<char>,
    auth: ClientAuth,
    bytes: Seq<Vec<u8>>,
    chain: Seq<Seq<u8>>,
    k: KeyBytes,
    roots: Seq<Seq<u8>>,
)
    requires
        bytes.len() == 3,
        files.cert == FileBytes::Whole(bytes[0]),
        files.key == FileBytes::Whole(bytes[1]),
        files.client_ca == FileBytes::Whole(bytes[2]),
        pem_certs(bytes[0]@) == Ok::<Seq<Seq<u8>>, Seq<char>>(chain),
        pem_key(bytes[1]@) == Ok::<Option<KeyBytes>, Seq<char>>(Some(k)),
        pem_certs(bytes[2]@) == Ok::<Seq<Seq<u8>>, Seq<char>>(roots),
    ensures
        refusal(files, cert, key, ca, auth) is None <==> chain.len() > 0 && match auth {
            ClientAuth::Off => open_failure(chain, k) is None,
            ClientAuth::Optional => roots.len() > 0 && unusable(roots) == 0 && optional_failure(
                chain,
                k,
                trust_in(roots),
            ) is None,
            ClientAuth::Required => roots.len() > 0 && unusable(roots) == 0 && required_failure(
                chain,
                k,
                trust_in(roots),
            ) is None,
        },
{
}

/// A file that could not be read, or holds no block of its kind, makes no listener.
pub proof fn law_unread_files_make_no_listener(
    files: TlsFiles,
    cert: Seq<char>,
    key: Seq<char>,
    ca: Seq<char>,
    auth: ClientAuth,
)
    ensures
        !(files.cert is Whole) ==> refusal(files, cert, key, ca, auth) is Some,
        !(files.key is Whole) ==> refusal(files, cert, key, ca, auth) is Some,
        auth != ClientAuth::Off && !(files.client_ca is Whole) ==> refusal(
            files,
            cert,
            key,
            ca,
            auth,
        ) is Some,
        files.key matches FileBytes::Whole(b) && pem_key(b@) == Ok::<Option<KeyBytes>, Seq<char>>(
            None,
        ) ==> refusal(files, cert, key, ca, auth) is Some,
{
}

// ---------------------------------------------------------------------------
// Probes
// ---------------------------------------------------------------------------

/// A server reads a probe as a GET of the path at its own address, on a connection
/// that is closed afterwards.
pub proof fn law_probes_are_requests(path: Seq<char>, addr: Seq<char>)
    requires
        path.len() > 0,
        !has_char(path, ' '),
        !has_char(path, '\n'),
        !has_char(addr, '\n'),
        trimmed(addr) == addr,
    ensures
        request_of(encode_utf8(probe_text(path, addr))) == Ok::<RequestView, Seq<char>>(
            RequestView {
                method: "GET"@,
                target: path,
                version: Version::Http11,
                headers: seq![("Host"@, addr), ("Connection"@, "close"@)],
            },
        ),
{
    let host = ("Host"@, addr);
    let close = ("Connection"@, "close"@);
    let h = RequestView {
        method: "GET"@,
        target: path,
        version: Version::Http11,
        headers: seq![host, close],
    };
    reveal_strlit("GET");
    reveal_strlit("GET ");
    reveal_strlit("Host");
    reveal_strlit("Connection");
    reveal_strlit("close");
    reveal_strlit(": ");
    reveal_strlit(" ");
    reveal_strlit("\r\n");
    reveal_strlit("HTTP/1.1");
    reveal_strlit(" HTTP/1.1\r\nHost: ");
    reveal_strlit("\r\nConnection: close\r\n\r\n");
    lemma_first_index_is("GET"@, ' ', 3);
    lemma_first_index_is("GET"@, '\n', 3);
    lemma_first_index_is("Host"@, ' ', 4);
    lemma_first_index_is("Host"@, ':', 4);
    lemma_first_index_is("Host"@, '\n', 4);
    lemma_first_index_is("Connection"@, ' ', 10);
    lemma_first_index_is("Connection"@, ':', 10);
    lemma_first_index_is("Connection"@, '\n', 10);
    lemma_first_index_is("close"@, '\n', 5);
    lemma_nothing_to_trim("close"@);
    assert(crate::http::plain_field(host));
    assert(crate::http::plain_field(close));
    assert forall|i: int| 0 <= i < h.headers.len() implies crate::http::plain_field(
        #[trigger] h.headers[i],
    ) by {
        assert(i == 0 || i == 1);
    }
    law_written_request_reads_back(h);
    assert(h.headers.drop_last() =~= seq![host]);
    assert(seq![host].drop_last() =~= Seq::empty());
    let one = "Host"@ + ": "@ + addr + "\r\n"@;
    assert(fields_text(Seq::empty()) =~= Seq::empty());
    assert(fields_text(seq![host]) =~= one);
    let two = "Connection"@ + ": "@ + "close"@ + "\r\n"@;
    assert(fields_text(h.headers) =~= one + two);
    let mid = " "@ + "HTTP/1.1"@ + "\r\n"@ + "Host"@ + ": "@;
    assert(mid =~= " HTTP/1.1\r\nHost: "@);
    let tail = "\r\n"@ + two + "\r\n"@;
    assert(tail =~= "\r\nConnection: close\r\n\r\n"@);
    assert(request_text(h) =~= "GET"@ + " "@ + path + mid + addr + tail);
    assert("GET"@ + " "@ =~= "GET "@);
    assert(probe_text(path, addr) =~= request_text(h));
}

/// HTTP/1.1 and HTTP/1.0 are spoken, and nothing else is.
pub proof fn law_two_versions_are_spoken(s: Seq<char>)
    ensures
        version_of("HTTP/1.1"@) == Ok::<Version, Seq<char>>(Version::Http11),
        version_of("HTTP/1.0"@) == Ok::<Version, Seq<char>>(Version::Http10),
        s != "HTTP/1.1"@ && s != "HTTP/1.0"@ ==> version_of(s) is Err,
{
    reveal_strlit("HTTP/1.1");
    reveal_strlit("HTTP/1.0");
    assert("HTTP/1.1"@[7] != "HTTP/1.0"@[7]);
}

// ---------------------------------------------------------------------------
// Chunked bodies
// ---------------------------------------------------------------------------

/// The size of a chunk is hexadecimal; what follows a semicolon is an extension, which
/// does not pass. The chunk counts toward the limit, which it may reach.
pub proof fn law_sizes_are_hexadecimal(
    n: u64,
    ext: Seq<char>,
    seen: u64,
    max: Option<u64>,
    size: Seq<char>,
)
    requires
        size.len() > 0,
        !has_char(size, ';'),
        trimmed(size) == size,
        unsigned(size, 16, u64::MAX as int) == Some(n as int),
        seen + n <= u64::MAX,
    ensures
        ({
            let line = size + seq![';'] + ext;
            &&& max is None || seen + n <= max->0 ==> on_line(Phase::SizeLine, seen, max, line)
                == Ok::<(Seq<u8>, Relay), Seq<char>>(
                (
                    encode_utf8(size + seq!['\r', '\n']),
                    Relay::Chunked {
                        phase: if n == 0 {
                            Phase::Trailer
                        } else {
                            Phase::Data(n)
                        },
                        seen: (seen + n) as u64,
                        max,
                    },
                ),
            )
            &&& max is Some && seen + n > max->0 ==> on_line(Phase::SizeLine, seen, max, line)
                == Ok::<(Seq<u8>, Relay), Seq<char>>(
                (Seq::empty(), Relay::Ended(BodyCopy::TooLarge)),
            )
            &&& on_line(Phase::SizeLine, seen, max, line) == on_line(
                Phase::SizeLine,
                seen,
                max,
                size,
            )
        }),
{
    let line = size + seq![';'] + ext;
    lemma_first_index(size, ';');
    assert forall|k: int| 0 <= k < size.len() implies line[k] != ';' by {
        assert(line[k] == size[k]);
    }
    lemma_first_index_is(line, ';', size.len() as int);
    assert(before(line, ';') =~= size);
    assert(before(size, ';') =~= size);
    reveal_strlit("\r\n");
    assert("\r\n"@ =~= seq!['\r', '\n']);
}

/// A line that starts with no size is refused, and so is anything but an empty line
/// behind a chunk.
pub proof fn law_broken_chunks_are_refused(seen: u64, max: Option<u64>, line: Seq<char>)
    ensures
        unsigned(trimmed(before(line, ';')), 16, u64::MAX as int) is None ==> on_line(
            Phase::SizeLine,
            seen,
            max,
            line,
        ) is Err,
        line.len() > 0 <==> on_line(Phase::Separator, seen, max, line) is Err,
        line.len() == 0 ==> (on_line(Phase::Separator, seen, max, line) matches Ok((_, s)) && s
            == (Relay::Chunked { phase: Phase::SizeLine, seen, max })),
{
}

/// The trailer passes line by line, and an empty line ends the body: the connection is
/// then usable again.
pub proof fn law_trailers_pass(seen: u64, max: Option<u64>, line: Seq<char>)
    ensures
        on_line(Phase::Trailer, seen, max, line) matches Ok((out, s)) && out == encode_utf8(
            line + seq!['\r', '\n'],
        ) && s == if line.len() == 0 {
            Relay::Ended(BodyCopy::Done { reusable: true })
        } else {
            Relay::Chunked { phase: Phase::Trailer, seen, max }
        },
{
    reveal_strlit("\r\n");
    assert("\r\n"@ =~= seq!['\r', '\n']);
}

// ---------------------------------------------------------------------------
// Layers
// ---------------------------------------------------------------------------

/// The layer of ids lets every request on; its id is noted, and it is the one id that the
/// backend sees. Only a minted id uses the counter up.
pub proof fn law_requests_carry_their_id(
    was: RequestId,
    req: RequestHead,
    ctx: ReqCtx,
    shared: Shared,
    now: RequestId,
    req_now: RequestHead,
    ctx_now: ReqCtx,
    shared_now: Shared,
    d: Decision,
)
    requires
        RequestId::inbound(was, req, ctx, shared, now, req_now, ctx_now, shared_now, d),
    ensures
        verdict(d) is None,
        lookup(req_now@.headers, "X-Request-Id"@) == Some(ctx_now@.request_id),
        req_now@.method == req@.method && req_now@.target == req@.target && req_now@.version
            == req@.version,
        keeps_id(req@.headers) ==> now == was,
        !keeps_id(req@.headers) && was.counter < u64::MAX ==> now.counter == was.counter + 1
            && now.seed == was.seed,
        ctx_now@ == (CtxView { request_id: ctx_now@.request_id, ..ctx@ }),
        shared_now == shared,
{
    reveal_strlit("X-Request-Id");
    law_set_field_reads_back(req@.headers, "X-Request-Id"@, id_of(was, req@.headers), "X-Request-Id"@);
}

/// The client is told the id of its request.
pub proof fn law_responses_carry_the_id(
    l: RequestId,
    ctx: ReqCtx,
    resp: ResponseHead,
    resp_now: ResponseHead,
)
    requires
        l.outbound(ctx, resp, resp_now),
    ensures
        lookup(resp_now@.headers, "X-Request-Id"@) == Some(ctx@.request_id),
        resp_now@.status == resp@.status && resp_now@.reason == resp@.reason && resp_now@.version
            == resp@.version,
{
    law_set_field_reads_back(resp@.headers, "X-Request-Id"@, ctx@.request_id, "X-Request-Id"@);
}

/// Authentication lets a request on exactly where it proves who it is from, and notes
/// that; it changes nothing else.
pub proof fn law_the_proved_identity_is_noted(
    was: Auth,
    req: RequestHead,
    ctx: ReqCtx,
    shared: Shared,
    now: Auth,
    req_now: RequestHead,
    ctx_now: ReqCtx,
    shared_now: Shared,
    d: Decision,
    id: Option<Seq<char>>,
)
    requires
        Auth::inbound(was, req, ctx, shared, now, req_now, ctx_now, shared_now, d),
        id == identity_of(crate::middleware::auth::credentials(was.creds@), req@.headers),
    ensures
        verdict(d) is None <==> id is Some,
        id is Some ==> ctx_now@ == (CtxView { identity: id, ..ctx@ }),
        id is None ==> ctx_now == ctx && verdict(d) == Some(challenge(was.realm@)),
        id is None ==> verdict(d)->0.status == 401,
        now == was && req_now == req && shared_now == shared,
{
}

/// Authorization lets a request on exactly where its identity is on the list.
pub proof fn law_the_listed_get_in(
    was: Authz,
    req: RequestHead,
    ctx: ReqCtx,
    shared: Shared,
    now: Authz,
    req_now: RequestHead,
    ctx_now: ReqCtx,
    shared_now: Shared,
    d: Decision,
)
    requires
        Authz::inbound(was, req, ctx, shared, now, req_now, ctx_now, shared_now, d),
    ensures
        verdict(d) is None <==> exists|i: int|
            0 <= i < was.allowed@.len() && ctx@.identity == Some((#[trigger] was.allowed@[i])@),
        verdict(d) is Some ==> verdict(d)->0.status == 403,
        now == was && req_now == req && ctx_now == ctx && shared_now == shared,
{
    let t = crate::text::texts(was.allowed@);
    if is_allowed(t, ctx@.identity) {
        let i = choose|i: int| 0 <= i < t.len() && t[i] == ctx@.identity->0;
        assert(ctx@.identity == Some(was.allowed@[i]@));
    }
    if exists|i: int|
        0 <= i < was.allowed@.len() && ctx@.identity == Some((#[trigger] was.allowed@[i])@) {
        let i = choose|i: int|
            0 <= i < was.allowed@.len() && ctx@.identity == Some((#[trigger] was.allowed@[i])@);
        assert(t[i] == was.allowed@[i]@);
    }
}

/// The firewall notes what it found and whom it banned, and nothing else.
pub proof fn law_findings_are_noted(ctx: CtxView, s: Sentence, now: CtxView)
    requires
        noted(ctx, s, now),
    ensures
        s.score is Some ==> now.waf_score == s.score,
        s.score is None ==> now.waf_score == ctx.waf_score,
        s.hits.len() > 0 ==> now.waf_hits == s.hits,
        s.ban matches Some(n) ==> now.waf_ban is Some && now.waf_ban->0.nanos == n,
        s.ban is None ==> now.waf_ban == ctx.waf_ban,
        now.ip == ctx.ip && now.request_id == ctx.request_id && now.identity == ctx.identity
            && now.rejected_by == ctx.rejected_by && now.method == ctx.method && now.target
            == ctx.target,
{
}

/// A blocking firewall refuses a banned source without a look at its request: whatever it
/// asks, nothing is noted but one more refusal.
pub proof fn law_the_banned_are_refused_unseen(
    was: Waf,
    req: RequestHead,
    ctx: ReqCtx,
    shared: Shared,
    now: Waf,
    req_now: RequestHead,
    ctx_now: ReqCtx,
    shared_now: Shared,
    d: Decision,
    o: Offender,
    until: u128,
)
    requires
        Waf::inbound(was, req, ctx, shared, now, req_now, ctx_now, shared_now, d),
        was.mode == WafMode::Block,
        shared.reputation.at(ctx.peer.ip) == Some(o),
        o.banned_until == Some(until),
        shared.now.nanos < until,
    ensures
        verdict(d) is Some && verdict(d)->0.status == 403,
        req_now == req && ctx_now == ctx && now == was,
        shared.reputation.stats.ban_refused < u64::MAX
            ==> shared_now.reputation.stats.ban_refused == shared.reputation.stats.ban_refused + 1,
        shared_now.reputation.stats.convicted == shared.reputation.stats.convicted,
        shared_now.reputation.at(ctx.peer.ip) == Some(o),
{
}

/// A watching firewall lets every request on.
pub proof fn law_watching_lets_everything_on(
    was: Waf,
    req: RequestHead,
    ctx: ReqCtx,
    shared: Shared,
    now: Waf,
    req_now: RequestHead,
    ctx_now: ReqCtx,
    shared_now: Shared,
    d: Decision,
)
    requires
        Waf::inbound(was, req, ctx, shared, now, req_now, ctx_now, shared_now, d),
        was.mode != WafMode::Block,
    ensures
        verdict(d) is None,
        req_now == req,
        ctx_now@.waf_ban == ctx@.waf_ban,
        shared_now.reputation.stats.convicted == shared.reputation.stats.convicted,
{
}

/// A bucket is dropped only where it is full and nobody has touched it for a minute.
pub proof fn law_only_idle_buckets_are_dropped(b: Bucket, now: Instant)
    ensures
        now.nanos < b.full_at.nanos ==> !evictable(b, now),
        now.nanos < b.last_refill.nanos + 60_000_000_000 ==> !evictable(b, now),
        now.nanos >= b.full_at.nanos && now.nanos >= b.last_refill.nanos + 60_000_000_000
            ==> evictable(b, now),
{
}

// ---------------------------------------------------------------------------
// Exchanges
// ---------------------------------------------------------------------------

/// A request starts with what is known of it and of its client, and with nothing else
/// noted.
pub proof fn law_requests_start_blank(client: Client, a: Asked, started: Instant)
    ensures
        ({
            let c = first_state(client, a, started);
            &&& c.ip == client.ip && c.peer == client.shown@ && c.started == started
            &&& c.method == a.req@.method && c.target == a.req@.target
            &&& c.host == crate::text::maybe(a.host)
            &&& c.request_id.len() == 0 && c.identity is None && c.rejected_by is None
            &&& c.upstream is None && c.backend is None && !c.pooled
            &&& c.t_route is None && c.t_connect is None && c.t_first_byte is None
            &&& c.cache is None && c.waf_score is None && c.waf_ban is None && c.waf_hits.len() == 0
        }),
{
}

/// Of a request that was sent, its pool and server are noted, and nothing else changes.
pub proof fn law_the_server_is_noted(c: CtxView, pool: Seq<char>, addr: Seq<char>)
    ensures
        sent_state(c, pool, addr).upstream == Some(pool),
        sent_state(c, pool, addr).backend == Some(addr),
        sent_state(c, pool, addr) == (CtxView {
            upstream: Some(pool),
            backend: Some(addr),
            ..c
        }),
{
}

} // verus!
