//! HTTP/1.1 message heads and body framing.
//!
//! Two questions about a byte stream: where does the message head end, and,
//! given the head, where does the body end?

use vstd::prelude::*;
use vstd::string::{StrSliceExecFns, StringExecFns};
use vstd::utf8::{decode_utf8, encode_utf8, valid_utf8};

use crate::fault::{bad_data, Fault, FaultKind, Outcome};
use crate::text::{
    before, chars_of, contains_char, cut, debug_text, decimal, decimal_of, find_from, first_index,
    first_match, has_char, lemma_first_index, lemma_first_index_is, lemma_first_match_is,
    lemma_pieces_lead, lines,
    lines_of, own, pairs, parse_number, pieces, quoted, same, same_fold, same_ignoring_case, slice,
    slices, split, split_once, starts, trim, trimmed, trimmed_start, unsigned, up_to,
    without_return,
};

verus! {

/// Hard cap on the head (request line and all headers): a larger one is an attack
/// or a broken client, and unauthenticated input is never buffered without bound.
pub const MAX_HEAD_BYTES: usize = 16384;

/// The HTTP versions that are spoken.
#[derive(Debug, Clone, Copy, PartialEq, Eq, Structural)]
pub enum Version {
    Http10,
    Http11,
}

/// A parsed request head.
#[derive(Debug)]
pub struct RequestHead {
    pub method: String,
    /// Origin-form target, e.g. "/api/users?page=2".
    pub target: String,
    pub version: Version,
    pub headers: Vec<(String, String)>,
}

/// A parsed response head from the backend.
#[derive(Debug)]
pub struct ResponseHead {
    pub version: Version,
    pub status: u16,
    pub reason: String,
    pub headers: Vec<(String, String)>,
}

/// How a message body is delimited on the wire.
#[derive(Debug, Clone, Copy, PartialEq, Eq, Structural)]
pub enum BodyFraming {
    /// No body at all.
    Empty,
    /// Exactly this many bytes follow the head.
    Length(u64),
    /// Hex-sized chunks until a zero-size chunk.
    Chunked,
    /// The body runs until the peer closes. Only legal for responses.
    UntilClose,
}

/// Header fields in a specification: names and values in order.
pub type Fields = Seq<(Seq<char>, Seq<char>)>;

/// What a request head says.
pub struct RequestView {
    pub method: Seq<char>,
    pub target: Seq<char>,
    pub version: Version,
    pub headers: Fields,
}

/// What a response head says.
pub struct ResponseView {
    pub version: Version,
    pub status: u16,
    pub reason: Seq<char>,
    pub headers: Fields,
}

impl View for RequestHead {
    type V = RequestView;

    open spec fn view(&self) -> RequestView {
        RequestView {
            method: self.method@,
            target: self.target@,
            version: self.version,
            headers: pairs(self.headers@),
        }
    }
}

impl View for ResponseHead {
    type V = ResponseView;

    open spec fn view(&self) -> ResponseView {
        ResponseView {
            version: self.version,
            status: self.status,
            reason: self.reason@,
            headers: pairs(self.headers@),
        }
    }
}

impl Version {
    /// The version as it stands on the wire.
    pub open spec fn token(self) -> Seq<char> {
        match self {
            Version::Http10 => "HTTP/1.0"@,
            Version::Http11 => "HTTP/1.1"@,
        }
    }

    /// The version as it stands on the wire.
    pub fn as_str(&self) -> (r: &'static str)
        ensures
            r@ == self.token(),
    {
        match self {
            Version::Http10 => "HTTP/1.0",
            Version::Http11 => "HTTP/1.1",
        }
    }
}

// ---------------------------------------------------------------------------
// Trusted: UTF-8 decoding of std.
// ---------------------------------------------------------------------------

/// `std::str::from_utf8` gives the text that the bytes encode when they are valid
/// UTF-8, and an error (here `None`) when they are not.
#[verifier::external_body]
pub(crate) fn utf8_text(raw: &[u8]) -> (r: Option<&str>)
    ensures
        match r {
            Some(s) => valid_utf8(raw@) && s@ == decode_utf8(raw@),
            None => !valid_utf8(raw@),
        },
{
    std::str::from_utf8(raw).ok()
}

// ---------------------------------------------------------------------------
// Where the head ends
// ---------------------------------------------------------------------------

/// The end of a line.
pub open spec fn line_end() -> Seq<u8> {
    seq![13u8, 10u8]
}

/// The four bytes that end a head.
pub open spec fn blank_line() -> Seq<u8> {
    seq![13u8, 10u8, 13u8, 10u8]
}

/// The index just behind the first blank line, if it has arrived.
pub open spec fn head_end(buf: Seq<u8>) -> Option<int> {
    let i: int = first_match(buf, blank_line());
    if i < buf.len() {
        Some(i + 4)
    } else {
        None
    }
}

/// Locates the end of the head: the byte index just past the first
/// `\r\n\r\n`, or `None` while the terminator has not arrived.
pub fn find_head_end(buf: &[u8]) -> (r: Option<usize>)
    ensures
        match r {
            Some(n) => head_end(buf@) == Some(n as int) && 4 <= n <= buf@.len(),
            None => head_end(buf@) is None,
        },
{
    let n: usize = buf.len();
    let mut i: usize = 0;
    while i < n
        invariant
            i <= n == buf@.len(),
            forall|k: int| 0 <= k < i ==> !starts(#[trigger] buf@.skip(k), blank_line()),
        decreases n - i,
    {
        if n - i >= 4 && buf[i] == 13 && buf[i + 1] == 10 && buf[i + 2] == 13 && buf[i + 3] == 10 {
            assert(buf@.skip(i as int).take(4) =~= blank_line());
            proof {
                lemma_first_match_is(buf@, blank_line(), i as int);
            }
            return Some(i + 4);
        }
        proof {
            let t = buf@.skip(i as int);
            if starts(t, blank_line()) {
                assert(t.take(4)[0] == 13 && t.take(4)[1] == 10 && t.take(4)[2] == 13 && t.take(
                    4,
                )[3] == 10);
                assert(false);
            }
        }
        i = i + 1;
    }
    proof {
        lemma_first_match_is(buf@, blank_line(), n as int);
    }
    None
}

// ---------------------------------------------------------------------------
// Parsing heads
// ---------------------------------------------------------------------------

/// The version that a token names.
pub open spec fn version_of(s: Seq<char>) -> Outcome<Version> {
    if s == "HTTP/1.1"@ {
        Ok(Version::Http11)
    } else if s == "HTTP/1.0"@ {
        Ok(Version::Http10)
    } else {
        Err("unsupported HTTP version: "@ + s)
    }
}

fn parse_version(s: &str) -> (r: Result<Version, Fault>)
    ensures
        match r {
            Ok(v) => version_of(s@) == Ok::<Version, Seq<char>>(v),
            Err(e) => e.kind == FaultKind::InvalidData && version_of(s@) == Err::<Version, Seq<char>>(
                e.message@,
            ),
        },
{
    if same(s, "HTTP/1.1") {
        Ok(Version::Http11)
    } else if same(s, "HTTP/1.0") {
        Ok(Version::Http10)
    } else {
        Err(bad_data(own("unsupported HTTP version: ").concat(s)))
    }
}

/// One header line: a name, a colon, and a value with optional space around it.
/// A name is not empty and holds no space: `Host : x` is read differently by
/// lenient parsers.
pub open spec fn field(line: Seq<char>) -> Outcome<(Seq<char>, Seq<char>)> {
    match cut(line, ':') {
        None => Err("malformed header line: "@ + debug_text(line)),
        Some((name, value)) => if name.len() == 0 || has_char(name, ' ') {
            Err("malformed header name: "@ + debug_text(name))
        } else {
            Ok((name, trimmed(value)))
        },
    }
}

/// Header lines up to the first empty line.
pub open spec fn fields(ls: Seq<Seq<char>>) -> Outcome<Fields>
    decreases ls.len(),
{
    if ls.len() == 0 || ls[0].len() == 0 {
        Ok(Seq::empty())
    } else {
        match field(ls[0]) {
            Err(e) => Err(e),
            Ok(f) => match fields(ls.drop_first()) {
                Err(e) => Err(e),
                Ok(rest) => Ok(seq![f] + rest),
            },
        }
    }
}

/// Fields put before those of an outcome.
pub open spec fn led_by(f: Fields, r: Outcome<Fields>) -> Outcome<Fields> {
    match r {
        Ok(rest) => Ok(f + rest),
        Err(e) => Err(e),
    }
}

fn parse_header_lines(ls: &Vec<&str>, from: usize) -> (r: Result<Vec<(String, String)>, Fault>)
    requires
        from <= ls@.len(),
    ensures
        match r {
            Ok(h) => fields(slices(ls@).skip(from as int)) == Ok::<Fields, Seq<char>>(pairs(h@)),
            Err(e) => e.kind == FaultKind::InvalidData && fields(slices(ls@).skip(from as int))
                == Err::<Fields, Seq<char>>(e.message@),
        },
{
    let mut headers: Vec<(String, String)> = Vec::new();
    let mut i: usize = from;
    let ghost all = fields(slices(ls@).skip(from as int));
    assert(all == led_by(pairs(headers@), all)) by {
        if all is Ok {
            assert(pairs(headers@) + all->Ok_0 =~= all->Ok_0);
        }
    }
    while i < ls.len()
        invariant
            from <= i <= ls@.len(),
            all == fields(slices(ls@).skip(from as int)),
            all == led_by(pairs(headers@), fields(slices(ls@).skip(i as int))),
        decreases ls.len() - i,
    {
        let line = ls[i];
        let ghost rest = slices(ls@).skip(i as int);
        assert(rest[0] == line@);
        assert(rest.drop_first() =~= slices(ls@).skip(i + 1));
        if line.unicode_len() == 0 {
            assert(pairs(headers@) + Seq::empty() =~= pairs(headers@));
            return Ok(headers);
        }
        match split_once(line, ':') {
            None => {
                let q = quoted(line);
                return Err(bad_data(own("malformed header line: ").concat(q.as_str())));
            },
            Some((name, value)) => {
                if name.unicode_len() == 0 || contains_char(name, ' ') {
                    let q = quoted(name);
                    return Err(bad_data(own("malformed header name: ").concat(q.as_str())));
                }
                let value = trim(value);
                let ghost sofar = headers@;
                headers.push((own(name), own(value)));
                assert(pairs(headers@) =~= pairs(sofar).push((name@, value@)));
                proof {
                    let tail = fields(rest.drop_first());
                    if tail is Ok {
                        assert(pairs(sofar) + (seq![(name@, value@)] + tail->Ok_0) =~= pairs(
                            headers@,
                        ) + tail->Ok_0);
                    }
                }
            },
        }
        i = i + 1;
    }
    assert(slices(ls@).skip(i as int) =~= Seq::<Seq<char>>::empty());
    assert(pairs(headers@) + Seq::empty() =~= pairs(headers@));
    Ok(headers)
}

/// A request line: a method, a target and a version, with one space between them.
pub open spec fn request_line(line: Seq<char>) -> Outcome<(Seq<char>, Seq<char>, Seq<char>)> {
    let p = pieces(line, ' ');
    if p.len() == 3 && p[0].len() > 0 && p[1].len() > 0 {
        Ok((p[0], p[1], p[2]))
    } else {
        Err("malformed request line: "@ + debug_text(line))
    }
}

/// The request head that lines of text hold.
pub open spec fn request_of_lines(ls: Seq<Seq<char>>) -> Outcome<RequestView> {
    if ls.len() == 0 {
        Err("empty request head"@)
    } else {
        match request_line(ls[0]) {
            Err(e) => Err(e),
            Ok((method, target, v)) => match version_of(v) {
                Err(e) => Err(e),
                Ok(version) => match fields(ls.skip(1)) {
                    Err(e) => Err(e),
                    Ok(headers) => Ok(RequestView { method, target, version, headers }),
                },
            },
        }
    }
}

/// The request head that bytes hold.
pub open spec fn request_of(raw: Seq<u8>) -> Outcome<RequestView> {
    if valid_utf8(raw) {
        request_of_lines(lines(decode_utf8(raw)))
    } else {
        Err("head is not valid UTF-8"@)
    }
}

/// Parses a complete request head (everything up to and including the blank line).
pub fn parse_request_head(raw: &[u8]) -> (r: Result<RequestHead, Fault>)
    ensures
        match r {
            Ok(h) => request_of(raw@) == Ok::<RequestView, Seq<char>>(h@),
            Err(e) => e.kind == FaultKind::InvalidData && request_of(raw@) == Err::<
                RequestView,
                Seq<char>,
            >(e.message@),
        },
{
    let text = match utf8_text(raw) {
        Some(t) => t,
        None => {
            return Err(bad_data(own("head is not valid UTF-8")));
        },
    };
    let ls = lines_of(text);
    assert(slices(ls@).len() == ls@.len());
    if ls.len() == 0 {
        return Err(bad_data(own("empty request head")));
    }
    let parts = split(ls[0], ' ');
    assert(slices(parts@).len() == parts@.len());
    if parts.len() != 3 || parts[0].unicode_len() == 0 || parts[1].unicode_len() == 0 {
        let q = quoted(ls[0]);
        return Err(bad_data(own("malformed request line: ").concat(q.as_str())));
    }
    let version = match parse_version(parts[2]) {
        Ok(v) => v,
        Err(e) => {
            return Err(e);
        },
    };
    match parse_header_lines(&ls, 1) {
        Ok(headers) => Ok(
            RequestHead { method: own(parts[0]), target: own(parts[1]), version, headers },
        ),
        Err(e) => Err(e),
    }
}

/// A status line: a version, a status from 100 to 599, and perhaps a reason.
pub open spec fn status_line(line: Seq<char>) -> Outcome<(Version, u16, Seq<char>)> {
    match version_of(before(line, ' ')) {
        Err(e) => Err(e),
        Ok(version) => {
            let rest = line.skip(first_index(line, ' ') + 1);
            let code = unsigned(before(rest, ' '), 10, u16::MAX as int);
            if has_char(line, ' ') && code is Some && 100 <= code->Some_0 <= 599 {
                Ok(
                    (
                        version,
                        code->Some_0 as u16,
                        if has_char(rest, ' ') {
                            rest.skip(first_index(rest, ' ') + 1)
                        } else {
                            Seq::empty()
                        },
                    ),
                )
            } else {
                Err("malformed status line: "@ + debug_text(line))
            }
        },
    }
}

/// The response head that lines of text hold.
pub open spec fn response_of_lines(ls: Seq<Seq<char>>) -> Outcome<ResponseView> {
    if ls.len() == 0 {
        Err("empty response head"@)
    } else {
        match status_line(ls[0]) {
            Err(e) => Err(e),
            Ok((version, status, reason)) => match fields(ls.skip(1)) {
                Err(e) => Err(e),
                Ok(headers) => Ok(ResponseView { version, status, reason, headers }),
            },
        }
    }
}

/// The response head that bytes hold.
pub open spec fn response_of(raw: Seq<u8>) -> Outcome<ResponseView> {
    if valid_utf8(raw) {
        response_of_lines(lines(decode_utf8(raw)))
    } else {
        Err("head is not valid UTF-8"@)
    }
}

fn parse_status_line(line: &str) -> (r: Result<(Version, u16, String), Fault>)
    ensures
        match r {
            Ok(t) => status_line(line@) == Ok::<(Version, u16, Seq<char>), Seq<char>>(
                (t.0, t.1, t.2@),
            ),
            Err(e) => e.kind == FaultKind::InvalidData && status_line(line@) == Err::<
                (Version, u16, Seq<char>),
                Seq<char>,
            >(e.message@),
        },
{
    let version = match parse_version(up_to(line, ' ')) {
        Ok(v) => v,
        Err(e) => {
            return Err(e);
        },
    };
    if let Some((_, rest)) = split_once(line, ' ') {
        if let Some(code) = parse_number(up_to(rest, ' '), 10, 65535) {
            if 100 <= code && code <= 599 {
                let reason = match split_once(rest, ' ') {
                    Some((_, reason)) => own(reason),
                    None => String::new(),
                };
                return Ok((version, code as u16, reason));
            }
        }
    }
    let q = quoted(line);
    Err(bad_data(own("malformed status line: ").concat(q.as_str())))
}

/// Parses a complete response head.
pub fn parse_response_head(raw: &[u8]) -> (r: Result<ResponseHead, Fault>)
    ensures
        match r {
            Ok(h) => response_of(raw@) == Ok::<ResponseView, Seq<char>>(h@),
            Err(e) => e.kind == FaultKind::InvalidData && response_of(raw@) == Err::<
                ResponseView,
                Seq<char>,
            >(e.message@),
        },
{
    let text = match utf8_text(raw) {
        Some(t) => t,
        None => {
            return Err(bad_data(own("head is not valid UTF-8")));
        },
    };
    let ls = lines_of(text);
    assert(slices(ls@).len() == ls@.len());
    if ls.len() == 0 {
        return Err(bad_data(own("empty response head")));
    }
    let (version, status, reason) = match parse_status_line(ls[0]) {
        Ok(t) => t,
        Err(e) => {
            return Err(e);
        },
    };
    match parse_header_lines(&ls, 1) {
        Ok(headers) => Ok(ResponseHead { version, status, reason, headers }),
        Err(e) => Err(e),
    }
}

// ---------------------------------------------------------------------------
// Header fields
// ---------------------------------------------------------------------------

/// The value of the first field of that name; names are equal up to case.
pub open spec fn lookup(h: Fields, name: Seq<char>) -> Option<Seq<char>>
    decreases h.len(),
{
    if h.len() == 0 {
        None
    } else if same_fold(h[0].0, name) {
        Some(h[0].1)
    } else {
        lookup(h.drop_first(), name)
    }
}

/// The fields without those of that name.
pub open spec fn without(h: Fields, name: Seq<char>) -> Fields
    decreases h.len(),
{
    if h.len() == 0 {
        h
    } else if same_fold(h[0].0, name) {
        without(h.drop_first(), name)
    } else {
        seq![h[0]] + without(h.drop_first(), name)
    }
}

/// The fields with exactly one of that name, which stands last.
pub open spec fn with_field(h: Fields, name: Seq<char>, value: Seq<char>) -> Fields {
    without(h, name).push((name, value))
}

/// How many fields have that name.
pub open spec fn occurrences(h: Fields, name: Seq<char>) -> nat
    decreases h.len(),
{
    if h.len() == 0 {
        0
    } else {
        occurrences(h.drop_first(), name) + if same_fold(h[0].0, name) {
            1nat
        } else {
            0nat
        }
    }
}

/// Case-insensitive header lookup.
pub fn header<'a>(headers: &'a [(String, String)], name: &str) -> (r: Option<&'a str>)
    ensures
        slice(r) == lookup(pairs(headers@), name@),
{
    let mut i: usize = 0;
    assert(pairs(headers@).skip(0) =~= pairs(headers@));
    while i < headers.len()
        invariant
            i <= headers@.len(),
            lookup(pairs(headers@), name@) == lookup(pairs(headers@).skip(i as int), name@),
        decreases headers.len() - i,
    {
        let ghost rest = pairs(headers@).skip(i as int);
        assert(rest[0] == pairs(headers@)[i as int]);
        if same_ignoring_case(headers[i].0.as_str(), name) {
            return Some(headers[i].1.as_str());
        }
        assert(rest.drop_first() =~= pairs(headers@).skip(i + 1));
        i = i + 1;
    }
    None
}

/// Removes every field of that name, in any case.
pub fn remove_header(headers: &mut Vec<(String, String)>, name: &str)
    ensures
        pairs(final(headers)@) == without(pairs(old(headers)@), name@),
{
    let mut i: usize = 0;
    let ghost all = pairs(headers@);
    assert(all.take(0) + without(all.skip(0), name@) =~= without(all, name@)) by {
        assert(all.skip(0) =~= all);
    }
    while i < headers.len()
        invariant
            i <= headers@.len(),
            pairs(headers@).take(i as int) + without(pairs(headers@).skip(i as int), name@)
                == without(all, name@),
        decreases headers.len() - i,
    {
        let ghost now = pairs(headers@);
        let ghost rest = now.skip(i as int);
        assert(rest[0] == now[i as int]);
        assert(rest.drop_first() =~= now.skip(i + 1));
        if same_ignoring_case(headers[i].0.as_str(), name) {
            let gone = headers.remove(i);
            assert(pairs(headers@).skip(i as int) =~= now.skip(i + 1));
            assert(pairs(headers@).take(i as int) =~= now.take(i as int));
        } else {
            assert(now.take(i as int) + (seq![now[i as int]] + without(now.skip(i + 1), name@))
                =~= now.take(i + 1) + without(now.skip(i + 1), name@));
            i = i + 1;
        }
    }
    let ghost now = pairs(headers@);
    assert(now.take(i as int) =~= now);
    assert(now.skip(i as int) =~= Seq::empty());
    assert(now + Seq::empty() =~= now);
}

/// Sets a field: every field of that name is removed, and one is put last.
pub fn set_header(headers: &mut Vec<(String, String)>, name: &str, value: &str)
    ensures
        pairs(final(headers)@) == with_field(pairs(old(headers)@), name@, value@),
{
    remove_header(headers, name);
    let ghost now = headers@;
    headers.push((own(name), own(value)));
    assert(pairs(headers@) =~= pairs(now).push((name@, value@)));
}

/// The `Host` without the port; a bracketed IPv6 literal keeps its brackets.
pub open spec fn host_name(host: Seq<char>) -> Seq<char> {
    if host.len() > 0 && host[0] == '[' {
        if has_char(host, ']') {
            host.take(first_index(host, ']') + 1)
        } else {
            host
        }
    } else {
        before(host, ':')
    }
}

/// The `Host` value without its port.
pub fn host_without_port<'a>(host: &'a str) -> (r: &'a str)
    ensures
        r@ == host_name(host@),
{
    let v = chars_of(host);
    assert(v@.skip(0) =~= v@);
    if v.len() > 0 && v[0] == '[' {
        let i: usize = find_from(v.as_slice(), ']', 0);
        if i < v.len() {
            let r = host.substring_char(0, i + 1);
            assert(r@ =~= host@.take(i + 1));
            r
        } else {
            host
        }
    } else {
        up_to(host, ':')
    }
}

/// The path of a request target: the target up to its query.
pub fn target_path<'a>(target: &'a str) -> (r: &'a str)
    ensures
        r@ == before(target@, '?'),
{
    up_to(target, '?')
}

// ---------------------------------------------------------------------------
// Body framing
// ---------------------------------------------------------------------------

/// The framing that a length or a transfer coding gives.
pub open spec fn stated_framing(te: Option<Seq<char>>, cl: Option<Seq<char>>) -> Option<
    Outcome<BodyFraming>,
> {
    match te {
        Some(t) => Some(
            if same_fold(t, "chunked"@) {
                Ok(BodyFraming::Chunked)
            } else {
                Err("unsupported Transfer-Encoding: "@ + debug_text(t))
            },
        ),
        None => match cl {
            Some(c) => Some(
                match unsigned(c, 10, u64::MAX as int) {
                    None => Err("invalid Content-Length: "@ + debug_text(c)),
                    Some(n) => Ok(
                        if n == 0 {
                            BodyFraming::Empty
                        } else {
                            BodyFraming::Length(n as u64)
                        },
                    ),
                },
            ),
            None => None,
        },
    }
}

/// How a request body is framed. A request with both a transfer coding and a
/// length is refused: one peer would honour one of them, the next the other. A
/// request with neither has no body.
pub open spec fn request_framing(h: Fields) -> Outcome<BodyFraming> {
    let te = lookup(h, "transfer-encoding"@);
    let cl = lookup(h, "content-length"@);
    if te is Some && cl is Some {
        Err("both Transfer-Encoding and Content-Length present"@)
    } else {
        match stated_framing(te, cl) {
            Some(r) => r,
            None => Ok(BodyFraming::Empty),
        }
    }
}

/// A response that carries no body whatever its headers say.
pub open spec fn bodiless(method: Seq<char>, status: u16) -> bool {
    same_fold(method, "HEAD"@) || status / 100 == 1 || status == 204 || status == 304
}

/// How a response body is framed. Without a length or a transfer coding it runs
/// until the server closes.
pub open spec fn response_framing(method: Seq<char>, status: u16, h: Fields) -> Outcome<
    BodyFraming,
> {
    if bodiless(method, status) {
        Ok(BodyFraming::Empty)
    } else {
        match stated_framing(lookup(h, "transfer-encoding"@), lookup(h, "content-length"@)) {
            Some(r) => r,
            None => Ok(BodyFraming::UntilClose),
        }
    }
}

fn framing_of(te: Option<&str>, cl: Option<&str>) -> (r: Option<Result<BodyFraming, Fault>>)
    ensures
        match r {
            None => stated_framing(slice(te), slice(cl)) is None,
            Some(Ok(f)) => stated_framing(slice(te), slice(cl)) == Some(
                Ok::<BodyFraming, Seq<char>>(f),
            ),
            Some(Err(e)) => e.kind == FaultKind::InvalidData && stated_framing(slice(te), slice(cl))
                == Some(Err::<BodyFraming, Seq<char>>(e.message@)),
        },
{
    if let Some(t) = te {
        if same_ignoring_case(t, "chunked") {
            return Some(Ok(BodyFraming::Chunked));
        }
        let q = quoted(t);
        return Some(Err(bad_data(own("unsupported Transfer-Encoding: ").concat(q.as_str()))));
    }
    if let Some(c) = cl {
        match crate::text::parse_u64(c) {
            None => {
                let q = quoted(c);
                return Some(Err(bad_data(own("invalid Content-Length: ").concat(q.as_str()))));
            },
            Some(n) => {
                return Some(
                    Ok(
                        if n == 0 {
                            BodyFraming::Empty
                        } else {
                            BodyFraming::Length(n)
                        },
                    ),
                );
            },
        }
    }
    None
}

/// Decides how a request body is framed.
pub fn request_body_framing(head: &RequestHead) -> (r: Result<BodyFraming, Fault>)
    ensures
        match r {
            Ok(f) => request_framing(head@.headers) == Ok::<BodyFraming, Seq<char>>(f),
            Err(e) => e.kind == FaultKind::InvalidData && request_framing(head@.headers) == Err::<
                BodyFraming,
                Seq<char>,
            >(e.message@),
        },
{
    let te = header(head.headers.as_slice(), "transfer-encoding");
    let cl = header(head.headers.as_slice(), "content-length");
    if te.is_some() && cl.is_some() {
        return Err(bad_data(own("both Transfer-Encoding and Content-Length present")));
    }
    match framing_of(te, cl) {
        Some(r) => r,
        None => Ok(BodyFraming::Empty),
    }
}

/// Decides how a response body is framed.
pub fn response_body_framing(req_method: &str, head: &ResponseHead) -> (r: Result<
    BodyFraming,
    Fault,
>)
    ensures
        match r {
            Ok(f) => response_framing(req_method@, head.status, head@.headers) == Ok::<
                BodyFraming,
                Seq<char>,
            >(f),
            Err(e) => e.kind == FaultKind::InvalidData && response_framing(
                req_method@,
                head.status,
                head@.headers,
            ) == Err::<BodyFraming, Seq<char>>(e.message@),
        },
{
    if same_ignoring_case(req_method, "HEAD") || head.status / 100 == 1 || head.status == 204
        || head.status == 304 {
        return Ok(BodyFraming::Empty);
    }
    let te = header(head.headers.as_slice(), "transfer-encoding");
    let cl = header(head.headers.as_slice(), "content-length");
    match framing_of(te, cl) {
        Some(r) => r,
        None => Ok(BodyFraming::UntilClose),
    }
}

/// Whether a peer wants the connection kept open: as its `Connection` header says,
/// and else as its version has it by default.
pub open spec fn keep_alive(version: Version, h: Fields) -> bool {
    match lookup(h, "connection"@) {
        Some(v) => if same_fold(v, "close"@) {
            false
        } else if same_fold(v, "keep-alive"@) {
            true
        } else {
            version == Version::Http11
        },
        None => version == Version::Http11,
    }
}

/// Does the client want the connection kept open after this exchange?
pub fn wants_keep_alive(version: Version, headers: &[(String, String)]) -> (r: bool)
    ensures
        r == keep_alive(version, pairs(headers@)),
{
    if let Some(v) = header(headers, "connection") {
        if same_ignoring_case(v, "close") {
            return false;
        }
        if same_ignoring_case(v, "keep-alive") {
            return true;
        }
    }
    version == Version::Http11
}

// ---------------------------------------------------------------------------
// Writing heads
// ---------------------------------------------------------------------------

/// Header fields as text, one line each.
pub open spec fn fields_text(h: Fields) -> Seq<char>
    decreases h.len(),
{
    if h.len() == 0 {
        Seq::empty()
    } else {
        fields_text(h.drop_last()) + h.last().0 + ": "@ + h.last().1 + "\r\n"@
    }
}

/// A request head as text.
pub open spec fn request_text(h: RequestView) -> Seq<char> {
    h.method + " "@ + h.target + " "@ + h.version.token() + "\r\n"@ + fields_text(h.headers)
        + "\r\n"@
}

/// A response head as text.
pub open spec fn response_text(h: ResponseView) -> Seq<char> {
    h.version.token() + " "@ + decimal(h.status as nat) + " "@ + h.reason + "\r\n"@ + fields_text(
        h.headers,
    ) + "\r\n"@
}

fn append_fields(out: String, headers: &Vec<(String, String)>) -> (r: String)
    ensures
        r@ == out@ + fields_text(pairs(headers@)) + "\r\n"@,
{
    let mut r = out;
    let mut i: usize = 0;
    assert(out@ + fields_text(pairs(headers@).take(0)) =~= out@);
    while i < headers.len()
        invariant
            i <= headers@.len(),
            r@ == out@ + fields_text(pairs(headers@).take(i as int)),
        decreases headers.len() - i,
    {
        let ghost h = pairs(headers@).take(i + 1);
        assert(h.drop_last() =~= pairs(headers@).take(i as int));
        assert(h.last() == (headers@[i as int].0@, headers@[i as int].1@));
        r.append(headers[i].0.as_str());
        r.append(": ");
        r.append(headers[i].1.as_str());
        r.append("\r\n");
        assert(r@ =~= out@ + fields_text(h));
        i = i + 1;
    }
    assert(pairs(headers@).take(i as int) =~= pairs(headers@));
    r.append("\r\n");
    r
}

/// Serialises a request head for the backend leg.
pub fn write_request_head(head: &RequestHead) -> (r: Vec<u8>)
    ensures
        r@ == encode_utf8(request_text(head@)),
{
    let line = own(head.method.as_str()).concat(" ").concat(head.target.as_str()).concat(
        " ",
    ).concat(head.version.as_str()).concat("\r\n");
    let s = append_fields(line, &head.headers);
    s.as_str().as_bytes_vec()
}

/// Serialises a response head for the client leg.
pub fn write_response_head(head: &ResponseHead) -> (r: Vec<u8>)
    ensures
        r@ == encode_utf8(response_text(head@)),
{
    let code = decimal_of(head.status as u64);
    let line = own(head.version.as_str()).concat(" ").concat(code.as_str()).concat(" ").concat(
        head.reason.as_str(),
    ).concat("\r\n");
    let s = append_fields(line, &head.headers);
    s.as_str().as_bytes_vec()
}

// ---------------------------------------------------------------------------
// Laws of header fields
// ---------------------------------------------------------------------------

/// After a field is removed, no lookup finds it, and every other lookup is as before.
pub proof fn law_removed_field_is_gone(h: Fields, name: Seq<char>, other: Seq<char>)
    ensures
        lookup(without(h, name), name) is None,
        occurrences(without(h, name), name) == 0,
        !same_fold(other, name) ==> lookup(without(h, name), other) == lookup(h, other),
        !same_fold(other, name) ==> occurrences(without(h, name), other) == occurrences(h, other),
    decreases h.len(),
{
    if h.len() > 0 {
        let t = h.drop_first();
        law_removed_field_is_gone(t, name, other);
        if !same_fold(h[0].0, name) {
            let w = seq![h[0]] + without(t, name);
            assert(w.drop_first() =~= without(t, name));
        }
    }
}

/// What a lookup finds after one more field.
pub proof fn lemma_lookup_push(h: Fields, f: (Seq<char>, Seq<char>), name: Seq<char>)
    ensures
        lookup(h.push(f), name) == match lookup(h, name) {
            Some(v) => Some(v),
            None => if same_fold(f.0, name) {
                Some(f.1)
            } else {
                None
            },
        },
        occurrences(h.push(f), name) == occurrences(h, name) + if same_fold(f.0, name) {
            1nat
        } else {
            0nat
        },
    decreases h.len(),
{
    if h.len() > 0 {
        lemma_lookup_push(h.drop_first(), f, name);
        assert(h.push(f).drop_first() =~= h.drop_first().push(f));
    } else {
        assert(h.push(f).drop_first() =~= h);
    }
}

/// After a field is set there is exactly one of its name, a lookup gives back the
/// value that was set, and every other lookup is as before.
pub proof fn law_set_field_reads_back(
    h: Fields,
    name: Seq<char>,
    value: Seq<char>,
    other: Seq<char>,
)
    ensures
        lookup(with_field(h, name, value), name) == Some(value),
        occurrences(with_field(h, name, value), name) == 1,
        !same_fold(other, name) ==> lookup(with_field(h, name, value), other) == lookup(h, other),
        !same_fold(other, name) ==> occurrences(with_field(h, name, value), other) == occurrences(
            h,
            other,
        ),
{
    law_removed_field_is_gone(h, name, other);
    lemma_lookup_push(without(h, name), (name, value), name);
    lemma_lookup_push(without(h, name), (name, value), other);
}

// ---------------------------------------------------------------------------
// Laws of reading and writing heads
// ---------------------------------------------------------------------------

/// A header field that the wire carries as it is: no separator and no line feed in
/// its name, no line feed in its value, and no space around the value.
pub open spec fn plain_field(f: (Seq<char>, Seq<char>)) -> bool {
    &&& f.0.len() > 0
    &&& !has_char(f.0, ' ')
    &&& !has_char(f.0, ':')
    &&& !has_char(f.0, '\n')
    &&& !has_char(f.1, '\n')
    &&& trimmed(f.1) == f.1
}

/// Every field is one that the wire carries as it is.
pub open spec fn plain_fields(h: Fields) -> bool {
    forall|i: int| 0 <= i < h.len() ==> plain_field(#[trigger] h[i])
}

/// A token of a start line: not empty, without a space and without a line feed.
pub open spec fn plain_token(s: Seq<char>) -> bool {
    s.len() > 0 && !has_char(s, ' ') && !has_char(s, '\n')
}

proof fn lemma_no_char(s: Seq<char>, c: char)
    ensures
        has_char(s, c) <==> exists|k: int| 0 <= k < s.len() && s[k] == c,
{
    lemma_first_index(s, c);
    if has_char(s, c) {
        assert(s[first_index(s, c)] == c);
    }
}

/// A line in front of a text becomes its first line.
proof fn lemma_lines_lead(a: Seq<char>, rest: Seq<char>)
    requires
        !has_char(a, '\n'),
    ensures
        lines(a + "\r\n"@ + rest) == seq![a] + lines(rest),
{
    reveal_strlit("\r\n");
    let s = a + "\r\n"@ + rest;
    lemma_no_char(a, '\n');
    assert forall|k: int| 0 <= k < a.len() + 1 implies s[k] != '\n' by {
        if k < a.len() {
            assert(s[k] == a[k]);
        }
    }
    lemma_first_index_is(s, '\n', a.len() as int + 1);
    assert(without_return(s.take(a.len() as int + 1)) =~= a);
    assert(s.skip(a.len() as int + 2) =~= rest);
}

/// The text of one field, without the end of its line.
pub open spec fn field_line(f: (Seq<char>, Seq<char>)) -> Seq<char> {
    f.0 + ": "@ + f.1
}

proof fn lemma_fields_text_lead(h: Fields)
    requires
        h.len() > 0,
    ensures
        fields_text(h) == field_line(h[0]) + "\r\n"@ + fields_text(h.drop_first()),
    decreases h.len(),
{
    if h.len() == 1 {
        assert(h.drop_last() =~= Seq::empty());
        assert(h.drop_first() =~= Seq::empty());
        assert(fields_text(h.drop_last()) =~= Seq::<char>::empty());
        assert(fields_text(h.drop_first()) =~= Seq::<char>::empty());
        assert(fields_text(h) =~= field_line(h[0]) + "\r\n"@ + Seq::<char>::empty());
    } else {
        lemma_fields_text_lead(h.drop_last());
        assert(h.drop_last().drop_first() =~= h.drop_first().drop_last());
        assert(fields_text(h) =~= field_line(h[0]) + "\r\n"@ + fields_text(h.drop_first()));
    }
}

proof fn lemma_field_reads_back(f: (Seq<char>, Seq<char>))
    requires
        plain_field(f),
    ensures
        field(field_line(f)) == Ok::<(Seq<char>, Seq<char>), Seq<char>>(f),
        field_line(f).len() > 0,
        !has_char(field_line(f), '\n'),
{
    reveal_strlit(": ");
    let s = field_line(f);
    lemma_no_char(f.0, ':');
    lemma_no_char(f.0, '\n');
    lemma_no_char(f.1, '\n');
    lemma_no_char(s, '\n');
    assert forall|k: int| 0 <= k < f.0.len() implies s[k] != ':' by {
        assert(s[k] == f.0[k]);
    }
    lemma_first_index_is(s, ':', f.0.len() as int);
    assert(s.take(f.0.len() as int) =~= f.0);
    let v = s.skip(f.0.len() as int + 1);
    assert(v.drop_first() =~= f.1);
    assert(v[0] == ' ');
    assert(trimmed_start(v) == trimmed_start(f.1));
    assert forall|k: int| 0 <= k < s.len() implies s[k] != '\n' by {
        if k < f.0.len() {
            assert(s[k] == f.0[k]);
        } else if k >= f.0.len() + 2 {
            assert(s[k] == f.1[k - f.0.len() - 2]);
        }
    }
}

proof fn lemma_fields_read_back(h: Fields)
    requires
        plain_fields(h),
    ensures
        fields(lines(fields_text(h) + "\r\n"@)) == Ok::<Fields, Seq<char>>(h),
    decreases h.len(),
{
    if h.len() == 0 {
        reveal_strlit("\r\n");
        let e = Seq::<char>::empty();
        assert(first_index(e, '\n') == 0);
        lemma_lines_lead(e, e);
        assert(e + "\r\n"@ + e =~= fields_text(h) + "\r\n"@);
        assert(lines(e) =~= Seq::empty());
        assert(lines(fields_text(h) + "\r\n"@)[0] =~= e);
        assert(h =~= Seq::empty());
    } else {
        let t = h.drop_first();
        assert(plain_fields(t)) by {
            assert forall|i: int| 0 <= i < t.len() implies plain_field(#[trigger] t[i]) by {
                assert(t[i] == h[i + 1]);
            }
        }
        lemma_fields_read_back(t);
        lemma_fields_text_lead(h);
        assert(plain_field(h[0]));
        lemma_field_reads_back(h[0]);
        let rest = fields_text(t) + "\r\n"@;
        lemma_lines_lead(field_line(h[0]), rest);
        assert(fields_text(h) + "\r\n"@ =~= field_line(h[0]) + "\r\n"@ + rest);
        let ls = seq![field_line(h[0])] + lines(rest);
        assert(ls.drop_first() =~= lines(rest));
        assert(seq![h[0]] + t =~= h);
    }
}

/// A request head that is written and parsed again is the head that was written,
/// for every head whose method, target and fields the wire carries as they are.
pub proof fn law_written_request_reads_back(h: RequestView)
    requires
        plain_token(h.method),
        plain_token(h.target),
        plain_fields(h.headers),
    ensures
        request_of(encode_utf8(request_text(h))) == Ok::<RequestView, Seq<char>>(h),
{
    let text = request_text(h);
    vstd::utf8::encode_utf8_valid_utf8(text);
    vstd::utf8::encode_utf8_decode_utf8(text);
    reveal_strlit(" ");
    reveal_strlit("HTTP/1.0");
    reveal_strlit("HTTP/1.1");
    let v = h.version.token();
    let line = h.method + " "@ + h.target + " "@ + v;
    let rest = fields_text(h.headers) + "\r\n"@;
    lemma_no_char(line, '\n');
    lemma_no_char(h.method, '\n');
    lemma_no_char(h.target, '\n');
    assert forall|k: int| 0 <= k < line.len() implies line[k] != '\n' by {
        if k < h.method.len() {
            assert(line[k] == h.method[k]);
        } else if k == h.method.len() {
        } else if k < h.method.len() + 1 + h.target.len() {
            assert(line[k] == h.target[k - h.method.len() - 1]);
        } else if k > h.method.len() + 1 + h.target.len() {
            assert(line[k] == v[k - h.method.len() - h.target.len() - 2]);
        }
    }
    lemma_lines_lead(line, rest);
    assert(text =~= line + "\r\n"@ + rest);
    let ls = lines(text);
    assert(ls[0] == line);
    assert(ls.skip(1) =~= lines(rest));
    assert(" "@ =~= seq![' ']);
    lemma_pieces_lead(h.method, h.target + " "@ + v, ' ');
    assert(line =~= h.method + " "@ + (h.target + " "@ + v));
    lemma_pieces_lead(h.target, v, ' ');
    lemma_no_char(v, ' ');
    lemma_first_index(v, ' ');
    assert(!has_char(v, ' '));
    assert(pieces(v, ' ') =~= seq![v]);
    let p = pieces(line, ' ');
    assert(p =~= seq![h.method, h.target, v]);
    assert(version_of(v) == Ok::<Version, Seq<char>>(h.version)) by {
        assert("HTTP/1.0"@[7] != "HTTP/1.1"@[7]);
    }
    lemma_fields_read_back(h.headers);
}

proof fn lemma_behind(a: Seq<char>, b: Seq<char>)
    ensures
        (a + b).skip(a.len() as int) == b,
{
    assert((a + b).skip(a.len() as int) =~= b);
}

/// A response head that is written and parsed again is the head that was written,
/// for every valid status and every reason and fields that the wire carries.
pub proof fn law_written_response_reads_back(h: ResponseView)
    requires
        100 <= h.status <= 599,
        !has_char(h.reason, '\n'),
        plain_fields(h.headers),
    ensures
        response_of(encode_utf8(response_text(h))) == Ok::<ResponseView, Seq<char>>(h),
{
    let text = response_text(h);
    vstd::utf8::encode_utf8_valid_utf8(text);
    vstd::utf8::encode_utf8_decode_utf8(text);
    reveal_strlit(" ");
    reveal_strlit("HTTP/1.0");
    reveal_strlit("HTTP/1.1");
    let v = h.version.token();
    let d = decimal(h.status as nat);
    let line = v + " "@ + d + " "@ + h.reason;
    let rest = fields_text(h.headers) + "\r\n"@;
    crate::text::lemma_decimal(h.status as nat);
    crate::text::lemma_decimal_reads_back(h.status as nat, u16::MAX as int);
    lemma_no_char(line, '\n');
    lemma_no_char(h.reason, '\n');
    assert forall|k: int| 0 <= k < d.len() implies d[k] != '\n' && d[k] != ' ' by {
        assert(crate::text::is_digit(d[k]));
    }
    assert forall|k: int| 0 <= k < line.len() implies line[k] != '\n' by {
        if k < 8 {
            assert(line[k] == v[k]);
        } else if k == 8 {
        } else if k < 9 + d.len() {
            assert(line[k] == d[k - 9]);
        } else if k > 9 + d.len() {
            assert(line[k] == h.reason[k - 10 - d.len()]);
        }
    }
    lemma_lines_lead(line, rest);
    assert(text =~= line + "\r\n"@ + rest);
    let ls = lines(text);
    assert(ls[0] == line);
    assert(ls.skip(1) =~= lines(rest));
    lemma_first_index_is(line, ' ', 8);
    assert(line.take(8) =~= v);
    let after = line.skip(9);
    let tail = d + " "@ + h.reason;
    assert(line =~= (v + " "@) + tail);
    lemma_behind(v + " "@, tail);
    assert(after == tail);
    assert forall|k: int| 0 <= k < d.len() implies after[k] != ' ' by {
        assert(after[k] == d[k]);
    }
    lemma_first_index_is(after, ' ', d.len() as int);
    assert(after.take(d.len() as int) =~= d);
    assert(after.skip(d.len() as int + 1) =~= h.reason);
    assert(version_of(v) == Ok::<Version, Seq<char>>(h.version)) by {
        assert("HTTP/1.0"@[7] != "HTTP/1.1"@[7]);
    }
    lemma_fields_read_back(h.headers);
}

/// The bytes of the end of a line.
pub proof fn lemma_line_end_bytes()
    ensures
        encode_utf8("\r\n"@) == line_end(),
{
    reveal_strlit("\r\n");
    vstd::utf8::is_ascii_chars_encode_utf8("\r\n"@);
    assert(encode_utf8("\r\n"@) =~= line_end());
}

/// Texts are encoded one after the other.
pub proof fn lemma_encode_sum(a: Seq<char>, b: Seq<char>)
    ensures
        encode_utf8(a + b) == encode_utf8(a) + encode_utf8(b),
    decreases a.len(),
{
    if a.len() == 0 {
        assert(a + b =~= b);
        assert(encode_utf8(a) + encode_utf8(b) =~= encode_utf8(b));
    } else {
        lemma_encode_sum(a.drop_first(), b);
        assert((a + b).drop_first() =~= a.drop_first() + b);
        assert(encode_utf8(a + b) =~= encode_utf8(a) + encode_utf8(b));
    }
}

/// A text without carriage returns and line feeds.
pub open spec fn unbroken(s: Seq<char>) -> bool {
    !has_char(s, '\r') && !has_char(s, '\n')
}

/// Bytes without carriage returns and line feeds.
pub open spec fn unbroken_bytes(b: Seq<u8>) -> bool {
    forall|i: int| 0 <= i < b.len() ==> (#[trigger] b[i]) != 13 && b[i] != 10
}

/// How many ends of lines bytes hold.
pub open spec fn line_ends(b: Seq<u8>) -> nat
    decreases b.len(),
{
    if b.len() < 2 {
        0
    } else {
        line_ends(b.drop_first()) + if b[0] == 13 && b[1] == 10 {
            1nat
        } else {
            0
        }
    }
}

proof fn lemma_scalar_bytes(c: char)
    requires
        c != '\r',
        c != '\n',
    ensures
        unbroken_bytes(vstd::utf8::encode_scalar(c as u32)),
        vstd::utf8::encode_scalar(c as u32).len() > 0,
{
    let v = c as u32;
    vstd::utf8::char_is_scalar(c);
    if vstd::utf8::has_width_1_encoding(v) {
        assert(vstd::utf8::leading_byte_width_1(v) == v as u8) by (bit_vector)
            requires
                vstd::utf8::has_width_1_encoding(v),
        ;
    } else {
        assert(vstd::utf8::leading_byte_width_2(v) >= 0x80) by (bit_vector);
        assert(vstd::utf8::leading_byte_width_3(v) >= 0x80) by (bit_vector);
        assert(vstd::utf8::leading_byte_width_4(v) >= 0x80) by (bit_vector);
        assert(vstd::utf8::last_continuation_byte(v) >= 0x80) by (bit_vector);
        assert(vstd::utf8::second_last_continuation_byte(v) >= 0x80) by (bit_vector);
        assert(vstd::utf8::third_last_continuation_byte(v) >= 0x80) by (bit_vector);
    }
}

proof fn lemma_unbroken_bytes(s: Seq<char>)
    requires
        unbroken(s),
    ensures
        unbroken_bytes(encode_utf8(s)),
        s.len() > 0 ==> encode_utf8(s).len() > 0,
    decreases s.len(),
{
    if s.len() > 0 {
        let t = s.drop_first();
        lemma_no_char(s, '\r');
        lemma_no_char(s, '\n');
        lemma_no_char(t, '\r');
        lemma_no_char(t, '\n');
        assert forall|k: int| 0 <= k < t.len() implies t[k] != '\r' && t[k] != '\n' by {
            assert(t[k] == s[k + 1]);
        }
        lemma_unbroken_bytes(t);
        lemma_scalar_bytes(s[0]);
        let a = vstd::utf8::encode_scalar(s[0] as u32);
        let b = encode_utf8(t);
        assert forall|i: int| 0 <= i < (a + b).len() implies (#[trigger] (a + b)[i]) != 13 && (a
            + b)[i] != 10 by {
            if i < a.len() {
                assert((a + b)[i] == a[i]);
            } else {
                assert((a + b)[i] == b[i - a.len()]);
            }
        }
    }
}

proof fn lemma_unbroken_sum(a: Seq<char>, b: Seq<char>)
    requires
        unbroken(a),
        unbroken(b),
    ensures
        unbroken(a + b),
{
    lemma_no_char(a, '\r');
    lemma_no_char(a, '\n');
    lemma_no_char(b, '\r');
    lemma_no_char(b, '\n');
    lemma_no_char(a + b, '\r');
    lemma_no_char(a + b, '\n');
    assert forall|k: int| 0 <= k < (a + b).len() implies (a + b)[k] != '\r' && (a + b)[k]
        != '\n' by {
        if k < a.len() {
            assert((a + b)[k] == a[k]);
        } else {
            assert((a + b)[k] == b[k - a.len()]);
        }
    }
}

proof fn lemma_line_ends_lead(a: Seq<u8>, rest: Seq<u8>)
    requires
        unbroken_bytes(a),
    ensures
        line_ends(a + line_end() + rest) == 1 + line_ends(rest),
    decreases a.len(),
{
    let s = a + line_end() + rest;
    if a.len() == 0 {
        assert(s[0] == 13 && s[1] == 10);
        let t = s.drop_first();
        assert(t[0] == 10);
        assert(t.drop_first() =~= rest);
        assert(line_ends(t) == line_ends(rest));
        assert(line_ends(s) == 1 + line_ends(t));
    } else {
        let t = a.drop_first();
        assert(s.drop_first() =~= t + line_end() + rest);
        assert forall|i: int| 0 <= i < t.len() implies (#[trigger] t[i]) != 13 && t[i] != 10 by {
            assert(t[i] == a[i + 1]);
        }
        lemma_line_ends_lead(t, rest);
        assert(s[0] == a[0]);
    }
}

/// The first blank line stands behind a line of its own: where it is in what follows,
/// or right here where what follows is a blank line alone.
proof fn lemma_head_end_lead(a: Seq<u8>, rest: Seq<u8>)
    requires
        unbroken_bytes(a),
        rest == line_end() || (rest.len() > 0 && rest[0] != 13 && head_end(rest) == Some(
            rest.len() as int,
        )),
    ensures
        head_end(a + line_end() + rest) == Some((a.len() + 2 + rest.len()) as int),
{
    let s = a + line_end() + rest;
    let n: int = a.len() as int;
    let at: int = s.len() - 4;
    crate::text::lemma_first_match(rest, blank_line());
    let f: int = first_match(rest, blank_line());
    assert(starts(s.skip(at), blank_line())) by {
        if rest == line_end() {
            assert(s.skip(at).take(4) =~= blank_line());
        } else {
            assert(f == rest.len() - 4);
            assert(s.skip(at) =~= rest.skip(f));
        }
    }
    assert forall|k: int| 0 <= k < at implies !starts(#[trigger] s.skip(k), blank_line()) by {
        let t = s.skip(k);
        if starts(t, blank_line()) {
            assert(t.take(4)[0] == 13 && t.take(4)[1] == 10 && t.take(4)[2] == 13);
            assert(s[k] == 13 && s[k + 1] == 10 && s[k + 2] == 13);
            if k < n {
                assert(s[k] == a[k]);
            } else if k == n {
                assert(s[k + 2] == rest[0]);
            } else if k == n + 1 {
                assert(s[k] == 10);
            } else {
                assert(t =~= rest.skip(k - n - 2));
            }
        }
    }
    lemma_first_match_is(s, blank_line(), at);
}

/// Every field is free of line breaks.
pub open spec fn unbroken_fields(h: Fields) -> bool {
    forall|i: int| 0 <= i < h.len() ==> unbroken((#[trigger] h[i]).0) && unbroken(h[i].1)
}

proof fn lemma_fields_end(h: Fields)
    requires
        unbroken_fields(h),
    ensures
        ({
            let b = encode_utf8(fields_text(h) + "\r\n"@);
            &&& line_ends(b) == h.len() + 1
            &&& h.len() == 0 ==> b == line_end()
            &&& h.len() > 0 ==> b.len() > 0 && b[0] != 13 && head_end(b) == Some(b.len() as int)
        }),
    decreases h.len(),
{
    lemma_line_end_bytes();
    if h.len() == 0 {
        assert(fields_text(h) + "\r\n"@ =~= "\r\n"@);
        let e = Seq::<u8>::empty();
        assert(e + line_end() + e =~= line_end());
        lemma_line_ends_lead(e, e);
    } else {
        let t = h.drop_first();
        assert forall|i: int| 0 <= i < t.len() implies unbroken((#[trigger] t[i]).0) && unbroken(
            t[i].1,
        ) by {
            assert(t[i] == h[i + 1]);
        }
        lemma_fields_end(t);
        lemma_fields_text_lead(h);
        assert(unbroken(h[0].0) && unbroken(h[0].1));
        reveal_strlit(": ");
        lemma_no_char(": "@, '\r');
        lemma_no_char(": "@, '\n');
        lemma_unbroken_sum(h[0].0, ": "@);
        lemma_unbroken_sum(h[0].0 + ": "@, h[0].1);
        let line = field_line(h[0]);
        let rest = fields_text(t) + "\r\n"@;
        assert(fields_text(h) + "\r\n"@ =~= line + "\r\n"@ + rest);
        lemma_text_lead(line, rest);
    }
}

proof fn lemma_text_lead(line: Seq<char>, rest: Seq<char>)
    requires
        unbroken(line),
        line.len() > 0,
        ({
            let b = encode_utf8(rest);
            b == line_end() || (b.len() > 0 && b[0] != 13 && head_end(b) == Some(b.len() as int))
        }),
    ensures
        ({
            let b = encode_utf8(line + "\r\n"@ + rest);
            &&& b.len() > 0 && b[0] != 13
            &&& head_end(b) == Some(b.len() as int)
            &&& line_ends(b) == 1 + line_ends(encode_utf8(rest))
        }),
{
    lemma_line_end_bytes();
    lemma_encode_sum(line + "\r\n"@, rest);
    lemma_encode_sum(line, "\r\n"@);
    lemma_unbroken_bytes(line);
    let a = encode_utf8(line);
    let b = a + line_end() + encode_utf8(rest);
    assert(b[0] == a[0]);
    lemma_head_end_lead(a, encode_utf8(rest));
    lemma_line_ends_lead(a, encode_utf8(rest));
}

/// A written request is exactly one head with nothing behind it, and as many lines as
/// it has fields and two more, for every head without line breaks in its method, its
/// target and its fields.
pub proof fn law_a_written_request_is_one_head(h: RequestView)
    requires
        unbroken(h.method),
        unbroken(h.target),
        unbroken_fields(h.headers),
    ensures
        ({
            let out = encode_utf8(request_text(h));
            &&& head_end(out) == Some(out.len() as int)
            &&& line_ends(out) == h.headers.len() + 2
        }),
{
    reveal_strlit(" ");
    reveal_strlit("HTTP/1.0");
    reveal_strlit("HTTP/1.1");
    let v = h.version.token();
    let line = h.method + " "@ + h.target + " "@ + v;
    let rest = fields_text(h.headers) + "\r\n"@;
    lemma_no_char(" "@, '\r');
    lemma_no_char(" "@, '\n');
    lemma_no_char(v, '\r');
    lemma_no_char(v, '\n');
    lemma_unbroken_sum(h.method, " "@);
    lemma_unbroken_sum(h.method + " "@, h.target);
    lemma_unbroken_sum(h.method + " "@ + h.target, " "@);
    lemma_unbroken_sum(h.method + " "@ + h.target + " "@, v);
    lemma_fields_end(h.headers);
    lemma_text_lead(line, rest);
    assert(request_text(h) =~= line + "\r\n"@ + rest);
}

/// A written response is exactly one head with nothing behind it, and as many lines as
/// it has fields and two more, for every head without line breaks in its reason and
/// its fields.
pub proof fn law_a_written_response_is_one_head(h: ResponseView)
    requires
        unbroken(h.reason),
        unbroken_fields(h.headers),
    ensures
        ({
            let out = encode_utf8(response_text(h));
            &&& head_end(out) == Some(out.len() as int)
            &&& line_ends(out) == h.headers.len() + 2
        }),
{
    reveal_strlit(" ");
    reveal_strlit("HTTP/1.0");
    reveal_strlit("HTTP/1.1");
    let v = h.version.token();
    let d = decimal(h.status as nat);
    let line = v + " "@ + d + " "@ + h.reason;
    let rest = fields_text(h.headers) + "\r\n"@;
    crate::text::lemma_decimal(h.status as nat);
    lemma_no_char(" "@, '\r');
    lemma_no_char(" "@, '\n');
    lemma_no_char(v, '\r');
    lemma_no_char(v, '\n');
    lemma_no_char(d, '\r');
    lemma_no_char(d, '\n');
    assert forall|k: int| 0 <= k < d.len() implies d[k] != '\r' && d[k] != '\n' by {
        assert(crate::text::is_digit(d[k]));
    }
    lemma_unbroken_sum(v, " "@);
    lemma_unbroken_sum(v + " "@, d);
    lemma_unbroken_sum(v + " "@ + d, " "@);
    lemma_unbroken_sum(v + " "@ + d + " "@, h.reason);
    lemma_fields_end(h.headers);
    lemma_text_lead(line, rest);
    assert(response_text(h) =~= line + "\r\n"@ + rest);
}

} // verus!
