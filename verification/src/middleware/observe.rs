//! Observability: request ids, and one access-log line for each request.
//!
//! Neither can refuse a request, so both are on unless they are switched off.

use vstd::prelude::*;
use vstd::string::StringExecFns;

use super::{verdict, CtxView, Decision, Middleware, ReqCtx, Shared};
use crate::count::{bump, bumped};
use crate::http::{
    header, lookup, set_header, with_field, Fields, RequestHead, RequestView, ResponseHead,
    ResponseView,
};
use crate::text::{
    alpha, chars_of, decimal, decimal_of, digit, digit_value, hex_char, hex_digit, hexadecimal,
    hexadecimal_of, is_alpha, is_digit, maybe, own, slice,
};

verus! {

/// The format of the access log, one for the whole process: a stream that mixes
/// JSON and prose lines is worse than either.
#[derive(Debug, Clone, Copy, PartialEq, Eq, Structural)]
pub struct LogFormat {
    pub plain: bool,
}

/// Sets the format.
pub fn set_plain(format: &mut LogFormat, plain: bool)
    ensures
        final(format).plain == plain,
{
    format.plain = plain;
}

/// Whether the access log is prose.
pub fn plain_mode(format: &LogFormat) -> (r: bool)
    ensures
        r == format.plain,
{
    format.plain
}

// ---------------------------------------------------------------------------
// Request ids
// ---------------------------------------------------------------------------

/// A character of a request id.
pub open spec fn id_char(c: char) -> bool {
    is_alpha(c) || is_digit(c) || c == '-' || c == '_'
}

/// A request id that may be adopted from a client: short, and of characters that
/// need no escape in a log line.
pub open spec fn acceptable_id(s: Seq<char>) -> bool {
    1 <= s.len() <= 64 && forall|i: int| 0 <= i < s.len() ==> id_char(#[trigger] s[i])
}

/// Whether a client's request id may be adopted.
pub fn valid_request_id(s: &str) -> (r: bool)
    ensures
        r == acceptable_id(s@),
{
    let v = chars_of(s);
    if v.len() == 0 || v.len() > 64 {
        return false;
    }
    let mut i: usize = 0;
    while i < v.len()
        invariant
            i <= v@.len(),
            v@ == s@,
            forall|k: int| 0 <= k < i ==> id_char(#[trigger] v@[k]),
        decreases v.len() - i,
    {
        let c = v[i];
        if !(alpha(c) || digit(c) || c == '-' || c == '_') {
            assert(!id_char(s@[i as int]));
            return false;
        }
        i = i + 1;
    }
    true
}

/// Assigns `X-Request-Id`: a valid inbound value is kept, so that a trace holds
/// across hops, and else one is minted.
#[derive(Debug)]
pub struct RequestId {
    pub counter: u64,
    /// Tells the ids of two processes apart.
    pub seed: u64,
}

/// The id that is minted from a seed and a counter.
pub open spec fn minted(seed: u64, counter: u64) -> Seq<char> {
    hexadecimal(seed as nat) + "-"@ + decimal(counter as nat)
}

/// The id of a request: its own where that is acceptable, else a minted one.
pub open spec fn id_of(layer: RequestId, h: Fields) -> Seq<char> {
    match lookup(h, "x-request-id"@) {
        Some(v) => if acceptable_id(v) {
            v
        } else {
            minted(layer.seed, layer.counter)
        },
        None => minted(layer.seed, layer.counter),
    }
}

/// The request keeps its own id.
pub open spec fn keeps_id(h: Fields) -> bool {
    lookup(h, "x-request-id"@) matches Some(v) && acceptable_id(v)
}

impl RequestId {
    /// A source of ids for one process, seeded from the clock.
    pub fn new() -> (r: RequestId)
        ensures
            r.counter == 0,
    {
        let (secs, nanos) = crate::time::unix_now();
        RequestId::from_clock(secs, nanos)
    }

    /// A source of ids seeded from a reading of the clock: its nanoseconds since the
    /// epoch, in the low bits.
    pub fn from_clock(secs: u64, nanos: u32) -> (r: RequestId)
        ensures
            r.counter == 0,
            r.seed == secs.wrapping_mul(1_000_000_000).wrapping_add(nanos as u64),
    {
        RequestId::seeded(secs.wrapping_mul(1_000_000_000).wrapping_add(nanos as u64))
    }

    /// A source of ids with a given seed.
    pub fn seeded(seed: u64) -> (r: RequestId)
        ensures
            r.counter == 0,
            r.seed == seed,
    {
        RequestId { counter: 0, seed }
    }
}

impl Middleware for RequestId {
    open spec fn label(&self) -> Seq<char> {
        "request-id"@
    }

    /// The request's id is noted and set on the request, so that the backend sees
    /// the id that is logged; a minted id uses up the counter.
    open spec fn inbound(
        was: RequestId,
        req: RequestHead,
        ctx: ReqCtx,
        shared: Shared,
        now: RequestId,
        req_now: RequestHead,
        ctx_now: ReqCtx,
        shared_now: Shared,
        d: Decision,
    ) -> bool {
        let id = id_of(was, req@.headers);
        &&& verdict(d) is None
        &&& shared_now == shared
        &&& ctx_now@ == (CtxView { request_id: id, ..ctx@ })
        &&& req_now@ == (RequestView {
            headers: with_field(req@.headers, "X-Request-Id"@, id),
            ..req@
        })
        &&& now == (RequestId {
            counter: if keeps_id(req@.headers) {
                was.counter
            } else {
                bumped(was.counter)
            },
            seed: was.seed,
        })
    }

    /// The id is echoed, so that a client can quote it.
    open spec fn outbound(&self, ctx: ReqCtx, resp: ResponseHead, resp_now: ResponseHead) -> bool {
        resp_now@ == (ResponseView {
            headers: with_field(resp@.headers, "X-Request-Id"@, ctx@.request_id),
            ..resp@
        })
    }

    fn name(&self) -> (r: &'static str) {
        "request-id"
    }

    fn on_request(
        &mut self,
        req: &mut RequestHead,
        ctx: &mut ReqCtx,
        shared: &mut Shared,
    ) -> (d: Decision) {
        let own_id: Option<String> = match header(req.headers.as_slice(), "x-request-id") {
            Some(v) => if valid_request_id(v) {
                Some(own(v))
            } else {
                None
            },
            None => None,
        };
        let id = match own_id {
            Some(v) => v,
            None => {
                let prefix = hexadecimal_of(self.seed);
                let n = decimal_of(self.counter);
                self.counter = bump(self.counter);
                prefix.concat("-").concat(n.as_str())
            },
        };
        set_header(&mut req.headers, "X-Request-Id", id.as_str());
        ctx.request_id = id;
        Decision::Continue
    }

    fn on_response(&self, ctx: &ReqCtx, resp: &mut ResponseHead) {
        set_header(&mut resp.headers, "X-Request-Id", ctx.request_id.as_str());
    }
}

/// Sixteen to the power `k`.
spec fn pow16(k: nat) -> nat
    decreases k,
{
    if k == 0 {
        1
    } else {
        16 * pow16((k - 1) as nat)
    }
}

/// Ten to the power `k`.
spec fn pow10(k: nat) -> nat
    decreases k,
{
    if k == 0 {
        1
    } else {
        10 * pow10((k - 1) as nat)
    }
}

proof fn lemma_hexadecimal(n: nat, k: nat)
    requires
        n < pow16(k),
        k >= 1,
    ensures
        1 <= hexadecimal(n).len() <= k,
        forall|i: int| 0 <= i < hexadecimal(n).len() ==> id_char(#[trigger] hexadecimal(n)[i]),
    decreases n,
{
    if n >= 16 {
        assert(k >= 2) by {
            reveal_with_fuel(pow16, 2);
        }
        lemma_hexadecimal(n / 16, (k - 1) as nat);
        let h = hexadecimal(n);
        assert forall|i: int| 0 <= i < h.len() implies id_char(#[trigger] h[i]) by {
            if i < h.len() - 1 {
                assert(h[i] == hexadecimal(n / 16)[i]);
            }
        }
    }
}

proof fn lemma_decimal_is_short(n: nat, k: nat)
    requires
        n < pow10(k),
        k >= 1,
    ensures
        1 <= decimal(n).len() <= k,
    decreases n,
{
    if n >= 10 {
        assert(k >= 2) by {
            reveal_with_fuel(pow10, 2);
        }
        lemma_decimal_is_short(n / 10, (k - 1) as nat);
    }
}

/// The id that a request gets is always acceptable, whatever the client sent: it
/// can stand in a log line and in a header as it is.
pub proof fn law_ids_are_always_safe(layer: RequestId, h: Fields)
    ensures
        acceptable_id(id_of(layer, h)),
{
    let a = hexadecimal(layer.seed as nat);
    let b = decimal(layer.counter as nat);
    assert(pow16(16) == 0x1_0000_0000_0000_0000) by {
        reveal_with_fuel(pow16, 17);
    }
    assert(pow10(20) == 100_000_000_000_000_000_000) by {
        reveal_with_fuel(pow10, 21);
    }
    lemma_hexadecimal(layer.seed as nat, 16);
    lemma_decimal_is_short(layer.counter as nat, 20);
    crate::text::lemma_decimal(layer.counter as nat);
    reveal_strlit("-");
    let m = minted(layer.seed, layer.counter);
    assert forall|i: int| 0 <= i < m.len() implies id_char(#[trigger] m[i]) by {
        if i < a.len() {
            assert(m[i] == a[i]);
        } else if i > a.len() {
            assert(m[i] == b[i - a.len() - 1]);
            assert(is_digit(b[i - a.len() - 1]));
        }
    }
}

/// Two ids minted with one seed are equal only where their counters are.
pub proof fn law_minted_ids_are_unique(seed: u64, a: u64, b: u64)
    requires
        minted(seed, a) == minted(seed, b),
    ensures
        a == b,
{
    let p = hexadecimal(seed as nat) + "-"@;
    crate::text::lemma_decimal(a as nat);
    crate::text::lemma_decimal(b as nat);
    assert(minted(seed, a).skip(p.len() as int) =~= decimal(a as nat));
    assert(minted(seed, b).skip(p.len() as int) =~= decimal(b as nat));
}

// ---------------------------------------------------------------------------
// JSON text
// ---------------------------------------------------------------------------

/// A character inside a JSON string.
pub open spec fn json_char(c: char) -> Seq<char> {
    if c == '"' {
        seq!['\\', '"']
    } else if c == '\\' {
        seq!['\\', '\\']
    } else if c == '\n' {
        seq!['\\', 'n']
    } else if c == '\r' {
        seq!['\\', 'r']
    } else if c == '\t' {
        seq!['\\', 't']
    } else if (c as int) < 32 {
        seq!['\\', 'u', '0', '0', hex_char(c as int / 16), hex_char(c as int % 16)]
    } else {
        seq![c]
    }
}

/// A text inside a JSON string.
pub open spec fn json_text(s: Seq<char>) -> Seq<char>
    decreases s.len(),
{
    if s.len() == 0 {
        Seq::empty()
    } else {
        json_text(s.drop_last()) + json_char(s.last())
    }
}

fn push_json(out: &mut String, c: char)
    ensures
        final(out)@ == old(out)@ + json_char(c),
{
    if c == '"' {
        out.push('\\');
        out.push('"');
    } else if c == '\\' {
        out.push('\\');
        out.push('\\');
    } else if c == '\n' {
        out.push('\\');
        out.push('n');
    } else if c == '\r' {
        out.push('\\');
        out.push('r');
    } else if c == '\t' {
        out.push('\\');
        out.push('t');
    } else if c <= '\u{1f}' {
        let code: u8 = c as u8;
        out.push('\\');
        out.push('u');
        out.push('0');
        out.push('0');
        out.push(hex_digit(code / 16));
        out.push(hex_digit(code % 16));
    } else {
        out.push(c);
    }
    assert(out@ =~= old(out)@ + json_char(c));
}

/// Escapes a text for a JSON string. A request's target is chosen by the client: a
/// quote would break out of the string and forge fields, and a raw control
/// character would make the line unreadable.
pub fn json_escape(s: &str) -> (out: String)
    ensures
        out@ == json_text(s@),
{
    let v = chars_of(s);
    let mut out = String::new();
    let mut i: usize = 0;
    assert(v@.take(0) =~= Seq::empty());
    while i < v.len()
        invariant
            i <= v@.len(),
            v@ == s@,
            out@ == json_text(v@.take(i as int)),
        decreases v.len() - i,
    {
        let c = v[i];
        let ghost sofar = out@;
        assert(v@.take(i + 1).drop_last() =~= v@.take(i as int));
        push_json(&mut out, c);
        assert(out@ =~= sofar + json_char(c));
        i = i + 1;
    }
    assert(v@.take(i as int) =~= s@);
    out
}

/// The first character that a JSON string's text stands for, and how much of the
/// text it takes. A raw quote or control character has no place there.
pub open spec fn json_first(s: Seq<char>) -> Option<(char, int)> {
    if s.len() == 0 || s[0] == '"' || (s[0] as int) < 32 {
        None
    } else if s[0] != '\\' {
        Some((s[0], 1))
    } else if s.len() < 2 {
        None
    } else if s[1] == '"' || s[1] == '\\' {
        Some((s[1], 2))
    } else if s[1] == 'n' {
        Some(('\n', 2))
    } else if s[1] == 'r' {
        Some(('\r', 2))
    } else if s[1] == 't' {
        Some(('\t', 2))
    } else if s[1] == 'u' && s.len() >= 6 && s[2] == '0' && s[3] == '0' {
        Some(((digit_value(s[4]) * 16 + digit_value(s[5])) as char, 6))
    } else {
        None
    }
}

/// The text that a JSON string's text stands for.
pub open spec fn json_read(s: Seq<char>) -> Option<Seq<char>>
    decreases s.len(),
{
    if s.len() == 0 {
        Some(Seq::empty())
    } else {
        match json_first(s) {
            None => None,
            Some((c, n)) => match json_read(s.skip(n)) {
                None => None,
                Some(rest) => Some(seq![c] + rest),
            },
        }
    }
}

proof fn lemma_json_first(c: char, rest: Seq<char>)
    ensures
        json_first(json_char(c) + rest) == Some((c, json_char(c).len() as int)),
        (json_char(c) + rest).skip(json_char(c).len() as int) == rest,
{
    let s = json_char(c) + rest;
    assert(s.skip(json_char(c).len() as int) =~= rest);
    assert(s[0] == json_char(c)[0]);
    if json_char(c).len() >= 2 {
        assert(s[1] == json_char(c)[1]);
    }
    if json_char(c).len() == 6 {
        assert(s[2] == '0' && s[3] == '0');
        assert(s[4] == hex_char(c as int / 16));
        assert(s[5] == hex_char(c as int % 16));
    }
}

proof fn lemma_json_text_lead(s: Seq<char>)
    requires
        s.len() > 0,
    ensures
        json_text(s) == json_char(s[0]) + json_text(s.drop_first()),
    decreases s.len(),
{
    if s.len() == 1 {
        assert(s.drop_last() =~= Seq::empty());
        assert(s.drop_first() =~= Seq::empty());
        assert(json_text(s.drop_last()) =~= Seq::<char>::empty());
        assert(json_text(s.drop_first()) =~= Seq::<char>::empty());
        assert(json_text(s) =~= json_char(s[0]) + Seq::<char>::empty());
    } else {
        lemma_json_text_lead(s.drop_last());
        assert(s.drop_last().drop_first() =~= s.drop_first().drop_last());
        assert(json_text(s) =~= json_char(s[0]) + json_text(s.drop_first()));
    }
}

/// An escaped text, read as a JSON string, is the text that was escaped: it ends
/// no string early and holds no raw control character.
pub proof fn law_escaped_text_reads_back(s: Seq<char>)
    ensures
        json_read(json_text(s)) == Some(s),
    decreases s.len(),
{
    if s.len() == 0 {
        assert(s =~= Seq::empty());
    } else {
        let rest = s.drop_first();
        law_escaped_text_reads_back(rest);
        lemma_json_text_lead(s);
        lemma_json_first(s[0], json_text(rest));
        assert(seq![s[0]] + rest =~= s);
    }
}

// ---------------------------------------------------------------------------
// The access log
// ---------------------------------------------------------------------------

/// The times of a request, in milliseconds and as text, and its wall-clock stamp.
pub struct Times {
    pub stamp: String,
    pub total: String,
    pub route: Option<String>,
    pub connect: Option<String>,
    pub first_byte: Option<String>,
}

/// What the times of a request say.
pub struct TimesView {
    pub stamp: Seq<char>,
    pub total: Seq<char>,
    pub route: Option<Seq<char>>,
    pub connect: Option<Seq<char>>,
    pub first_byte: Option<Seq<char>>,
}

impl View for Times {
    type V = TimesView;

    open spec fn view(&self) -> TimesView {
        TimesView {
            stamp: self.stamp@,
            total: self.total@,
            route: maybe(self.route),
            connect: maybe(self.connect),
            first_byte: maybe(self.first_byte),
        }
    }
}

/// A time, or `null` where the request never came to that stage: zero is a
/// measurement.
pub open spec fn time_or_null(t: Option<Seq<char>>) -> Seq<char> {
    match t {
        Some(x) => x,
        None => "null"@,
    }
}

/// A time in milliseconds, or `null` where the request never came to that stage.
pub fn opt_ms(t: Option<&str>) -> (r: String)
    ensures
        r@ == time_or_null(slice(t)),
{
    match t {
        Some(x) => own(x),
        None => own("null"),
    }
}

/// A text, or a dash where there is none.
pub open spec fn or_dash(t: Option<Seq<char>>) -> Seq<char> {
    match t {
        Some(x) => x,
        None => "-"@,
    }
}

fn dash(t: &Option<String>) -> (r: String)
    ensures
        r@ == or_dash(maybe(*t)),
{
    match t {
        Some(x) => own(x.as_str()),
        None => own("-"),
    }
}

fn time_of(t: &Option<String>) -> (r: String)
    ensures
        r@ == time_or_null(maybe(*t)),
{
    match t {
        Some(x) => opt_ms(Some(x.as_str())),
        None => opt_ms(None),
    }
}

/// A quoted text, or `null`.
pub open spec fn quoted_or_null(t: Option<Seq<char>>) -> Seq<char> {
    match t {
        Some(x) => "\""@ + x + "\""@,
        None => "null"@,
    }
}

/// The access-log line as prose.
pub open spec fn plain_line(c: CtxView, status: u16, t: TimesView) -> Seq<char> {
    "id="@ + c.request_id + " peer="@ + c.peer + " method="@ + c.method + " target="@ + c.target
        + " status="@ + decimal(status as nat) + " dur="@ + t.total + "ms upstream="@ + or_dash(
        c.upstream,
    ) + " backend="@ + or_dash(c.backend) + " user="@ + or_dash(c.identity) + match c.rejected_by {
        Some(r) => " rejected_by="@ + r,
        None => Seq::empty(),
    }
}

/// The access-log line as one JSON object.
pub open spec fn json_line(c: CtxView, status: u16, t: TimesView) -> Seq<char> {
    "{\"ts\":\""@ + t.stamp + "\",\"id\":\""@ + json_text(c.request_id) + "\",\"peer\":\""@ + c.peer
        + "\",\"method\":\""@ + json_text(c.method) + "\",\"target\":\""@ + json_text(c.target)
        + "\",\"status\":"@ + decimal(status as nat) + ",\"dur_ms\":"@ + t.total + ",\"route_ms\":"@
        + time_or_null(t.route) + ",\"connect_ms\":"@ + time_or_null(t.connect) + ",\"ttfb_ms\":"@
        + time_or_null(t.first_byte) + ",\"upstream\":\""@ + json_text(or_dash(c.upstream))
        + "\",\"backend\":\""@ + json_text(or_dash(c.backend)) + "\",\"user\":\""@ + json_text(
        or_dash(c.identity),
    ) + "\",\"pooled\":"@ + (if c.pooled {
        "true"@
    } else {
        "false"@
    }) + ",\"cache\":"@ + quoted_or_null(c.cache) + ",\"rejected_by\":"@ + quoted_or_null(
        match c.rejected_by {
            Some(r) => Some(json_text(r)),
            None => None,
        },
    ) + "}"@
}

/// The access log: one line for each request, from the outermost layer, so that it
/// sees the final status and the whole time.
#[derive(Debug, Clone, Copy, PartialEq, Eq, Structural)]
pub struct AccessLog {
    pub plain: bool,
}

impl AccessLog {
    /// The line of a request.
    pub fn line(&self, ctx: &ReqCtx, status: u16, times: &Times) -> (r: String)
        ensures
            r@ == if self.plain {
                plain_line(ctx@, status, times@)
            } else {
                json_line(ctx@, status, times@)
            },
    {
        let code = decimal_of(status as u64);
        let upstream = dash(&ctx.upstream);
        let backend = dash(&ctx.backend);
        let user = dash(&ctx.identity);
        if self.plain {
            let rejected = match ctx.rejected_by {
                Some(r) => own(" rejected_by=").concat(r),
                None => {
                    let none = String::new();
                    assert(none@ =~= Seq::empty());
                    none
                },
            };
            return own("id=").concat(ctx.request_id.as_str()).concat(" peer=").concat(
                ctx.peer.shown.as_str(),
            ).concat(" method=").concat(ctx.method.as_str()).concat(" target=").concat(
                ctx.target.as_str(),
            ).concat(" status=").concat(code.as_str()).concat(" dur=").concat(
                times.total.as_str(),
            ).concat("ms upstream=").concat(upstream.as_str()).concat(" backend=").concat(
                backend.as_str(),
            ).concat(" user=").concat(user.as_str()).concat(rejected.as_str());
        }
        let id = json_escape(ctx.request_id.as_str());
        let method = json_escape(ctx.method.as_str());
        let target = json_escape(ctx.target.as_str());
        let route = time_of(&times.route);
        let connect = time_of(&times.connect);
        let first_byte = time_of(&times.first_byte);
        let upstream = json_escape(upstream.as_str());
        let backend = json_escape(backend.as_str());
        let user = json_escape(user.as_str());
        let cache = match ctx.cache {
            Some(c) => own("\"").concat(c).concat("\""),
            None => own("null"),
        };
        let rejected = match ctx.rejected_by {
            Some(r) => {
                let e = json_escape(r);
                own("\"").concat(e.as_str()).concat("\"")
            },
            None => own("null"),
        };
        let pooled = if ctx.pooled {
            "true"
        } else {
            "false"
        };
        let a = own("{\"ts\":\"").concat(times.stamp.as_str()).concat("\",\"id\":\"").concat(
            id.as_str(),
        ).concat("\",\"peer\":\"").concat(ctx.peer.shown.as_str()).concat(
            "\",\"method\":\"",
        ).concat(method.as_str()).concat("\",\"target\":\"").concat(target.as_str()).concat(
            "\",\"status\":",
        ).concat(code.as_str()).concat(",\"dur_ms\":").concat(times.total.as_str());
        let b = a.concat(",\"route_ms\":").concat(route.as_str()).concat(",\"connect_ms\":").concat(
            connect.as_str(),
        ).concat(",\"ttfb_ms\":").concat(first_byte.as_str()).concat(",\"upstream\":\"").concat(
            upstream.as_str(),
        ).concat("\",\"backend\":\"").concat(backend.as_str()).concat("\",\"user\":\"").concat(
            user.as_str(),
        );
        b.concat("\",\"pooled\":").concat(pooled).concat(",\"cache\":").concat(
            cache.as_str(),
        ).concat(",\"rejected_by\":").concat(rejected.as_str()).concat("}")
    }
}

} // verus!
