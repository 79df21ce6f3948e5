//! Proxy headers and rewriting: pure transforms of a head.
//!
//! The forwarded headers tell a backend who really called; path, `Host` and header
//! rules decide what the backend sees.

use vstd::prelude::*;
use vstd::string::{StrSliceExecFns, StringExecFns};

use crate::fault::{bad_input, Fault, FaultKind, Outcome};
use crate::http::{
    header, law_removed_field_is_gone, law_set_field_reads_back, lookup, occurrences,
    remove_header, set_header, with_field, without, Fields, RequestHead, RequestView,
    ResponseHead, ResponseView,
};
use crate::text::{
    alpha, before, chars_of, control, cut, debug_char, debug_text, digit, dropped_end, is_alpha,
    is_control, is_digit, lower, maybe, own, pairs, pieces, push_text, quoted, quoted_char, same,
    same_fold, same_ignoring_case, slice, slices, split, split_once, starts, strip_prefix, texts,
    trim, trim_end_char, trimmed, without_prefix,
};

verus! {

/// The option keys of this module.
pub const L5_KEYS: [&'static str; 7] = [
    "strip",
    "prefix",
    "host",
    "set-header",
    "set-resp-header",
    "remove-header",
    "remove-resp-header",
];

/// A key of this module.
pub open spec fn is_l5_key(k: Seq<char>) -> bool {
    ||| k == "strip"@
    ||| k == "prefix"@
    ||| k == "host"@
    ||| k == "set-header"@
    ||| k == "set-resp-header"@
    ||| k == "remove-header"@
    ||| k == "remove-resp-header"@
}

/// Whether a key is one of this module.
pub fn l5_key(k: &str) -> (r: bool)
    ensures
        r == is_l5_key(k@),
{
    same(k, "strip") || same(k, "prefix") || same(k, "host") || same(k, "set-header") || same(
        k,
        "set-resp-header",
    ) || same(k, "remove-header") || same(k, "remove-resp-header")
}

/// Facts of a connection that a request head does not carry.
pub struct ForwardContext<'a> {
    /// The immediate peer's address as text. It was seen on the socket and cannot
    /// be forged.
    pub client_ip: String,
    /// The `Host` that the client asked for, taken before any rewriting.
    pub original_host: Option<&'a str>,
    /// The scheme on the client's side.
    pub scheme: &'static str,
}

/// The rewrite rules of one route.
#[derive(Debug)]
pub struct RewriteRules {
    /// A path prefix to remove.
    pub strip: Option<String>,
    /// A path prefix to put in front, after `strip`.
    pub prefix: Option<String>,
    /// A `Host` value to send instead.
    pub host: Option<String>,
    pub set_headers: Vec<(String, String)>,
    pub remove_headers: Vec<String>,
    pub set_resp_headers: Vec<(String, String)>,
    pub remove_resp_headers: Vec<String>,
    /// Whether the forwarded headers are injected: on unless it is switched off.
    pub forwarded: bool,
}

/// What rewrite rules say.
pub struct RulesView {
    pub strip: Option<Seq<char>>,
    pub prefix: Option<Seq<char>>,
    pub host: Option<Seq<char>>,
    pub set_headers: Fields,
    pub remove_headers: Seq<Seq<char>>,
    pub set_resp_headers: Fields,
    pub remove_resp_headers: Seq<Seq<char>>,
    pub forwarded: bool,
}

impl View for RewriteRules {
    type V = RulesView;

    open spec fn view(&self) -> RulesView {
        RulesView {
            strip: maybe(self.strip),
            prefix: maybe(self.prefix),
            host: maybe(self.host),
            set_headers: pairs(self.set_headers@),
            remove_headers: texts(self.remove_headers@),
            set_resp_headers: pairs(self.set_resp_headers@),
            remove_resp_headers: texts(self.remove_resp_headers@),
            forwarded: self.forwarded,
        }
    }
}

/// Rules that change nothing, with or without the forwarded headers.
pub open spec fn no_rules(forwarded: bool) -> RulesView {
    RulesView {
        strip: None,
        prefix: None,
        host: None,
        set_headers: Seq::empty(),
        remove_headers: Seq::empty(),
        set_resp_headers: Seq::empty(),
        remove_resp_headers: Seq::empty(),
        forwarded,
    }
}

fn plain_rules(forwarded: bool) -> (r: RewriteRules)
    ensures
        r@ == no_rules(forwarded),
{
    let r = RewriteRules {
        strip: None,
        prefix: None,
        host: None,
        set_headers: Vec::new(),
        remove_headers: Vec::new(),
        set_resp_headers: Vec::new(),
        remove_resp_headers: Vec::new(),
        forwarded,
    };
    assert(r@.set_headers =~= Seq::empty());
    assert(r@.remove_headers =~= Seq::empty());
    assert(r@.set_resp_headers =~= Seq::empty());
    assert(r@.remove_resp_headers =~= Seq::empty());
    r
}

impl Default for RewriteRules {
    /// Forwarded headers are on.
    fn default() -> (r: RewriteRules)
        ensures
            r@ == no_rules(true),
    {
        plain_rules(true)
    }
}

// ---------------------------------------------------------------------------
// Which headers a rule may touch
// ---------------------------------------------------------------------------

/// Headers that a rule never touches: those of framing and of the connection, which
/// the proxy owns, and `Host`, which has an option of its own. A rule could put a
/// hop-by-hop header back after it was stripped.
pub open spec fn is_protected(name: Seq<char>) -> bool {
    ||| same_fold(name, "content-length"@)
    ||| same_fold(name, "transfer-encoding"@)
    ||| same_fold(name, "connection"@)
    ||| same_fold(name, "host"@)
    ||| same_fold(name, "upgrade"@)
    ||| same_fold(name, "te"@)
    ||| same_fold(name, "trailer"@)
}

fn protected(name: &str) -> (r: bool)
    ensures
        r == is_protected(name@),
{
    same_ignoring_case(name, "content-length") || same_ignoring_case(name, "transfer-encoding")
        || same_ignoring_case(name, "connection") || same_ignoring_case(name, "host")
        || same_ignoring_case(name, "upgrade") || same_ignoring_case(name, "te")
        || same_ignoring_case(name, "trailer")
}

/// A character of a header name: a `tchar` of RFC 9110.
pub open spec fn is_tchar(c: char) -> bool {
    ||| is_alpha(c)
    ||| is_digit(c)
    ||| c == '!'
    ||| c == '#'
    ||| c == '$'
    ||| c == '%'
    ||| c == '&'
    ||| c == '\''
    ||| c == '*'
    ||| c == '+'
    ||| c == '-'
    ||| c == '.'
    ||| c == '^'
    ||| c == '_'
    ||| c == '`'
    ||| c == '|'
    ||| c == '~'
}

/// Every character may stand in a header name.
pub open spec fn is_token(s: Seq<char>) -> bool {
    forall|i: int| 0 <= i < s.len() ==> is_tchar(#[trigger] s[i])
}

fn tchar(c: char) -> (r: bool)
    ensures
        r == is_tchar(c),
{
    alpha(c) || digit(c) || c == '!' || c == '#' || c == '$' || c == '%' || c == '&' || c == '\''
        || c == '*' || c == '+' || c == '-' || c == '.' || c == '^' || c == '_' || c == '`' || c
        == '|' || c == '~'
}

fn token(s: &str) -> (r: bool)
    ensures
        r == is_token(s@),
{
    let v = chars_of(s);
    let mut i: usize = 0;
    while i < v.len()
        invariant
            i <= v@.len(),
            v@ == s@,
            forall|k: int| 0 <= k < i ==> is_tchar(#[trigger] v@[k]),
        decreases v.len() - i,
    {
        if !tchar(v[i]) {
            assert(!is_tchar(s@[i as int]));
            return false;
        }
        i = i + 1;
    }
    true
}

/// The first control character of a text.
pub open spec fn first_control(s: Seq<char>) -> Option<char>
    decreases s.len(),
{
    if s.len() == 0 {
        None
    } else if is_control(s[0]) {
        Some(s[0])
    } else {
        first_control(s.drop_first())
    }
}

fn find_control(s: &str) -> (r: Option<char>)
    ensures
        r == first_control(s@),
{
    let v = chars_of(s);
    let mut i: usize = 0;
    assert(v@.skip(0) =~= v@);
    while i < v.len()
        invariant
            i <= v@.len(),
            v@ == s@,
            first_control(v@) == first_control(v@.skip(i as int)),
        decreases v.len() - i,
    {
        if control(v[i]) {
            return Some(v[i]);
        }
        assert(v@.skip(i as int).drop_first() =~= v@.skip(i + 1));
        i = i + 1;
    }
    None
}

// ---------------------------------------------------------------------------
// Parsing options
// ---------------------------------------------------------------------------

/// A refusal of an option.
pub open spec fn refused(m: Seq<char>) -> Seq<char> {
    "rewrite option: "@ + m
}

fn err(m: &str) -> (e: Fault)
    ensures
        e.kind == FaultKind::InvalidInput,
        e.message@ == refused(m@),
{
    bad_input(own("rewrite option: ").concat(m))
}

fn err_quoting(a: &str, value: &str, b: &str) -> (e: Fault)
    ensures
        e.kind == FaultKind::InvalidInput,
        e.message@ == refused(a@ + debug_text(value@) + b@),
{
    let q = quoted(value);
    let m = own(a).concat(q.as_str()).concat(b);
    err(m.as_str())
}

/// A header name that a rule may use: not protected, and a valid token.
pub open spec fn name_check(name: Seq<char>) -> Outcome<()> {
    if is_protected(name) {
        Err(
            refused(
                "header "@ + debug_text(name) + " is managed by the proxy and cannot be rewritten"@,
            ),
        )
    } else if !is_token(name) {
        Err(
            refused(
                "header name "@ + debug_text(name)
                    + " is not a valid HTTP token (RFC 9110 tchar: letters, digits, and !#$%&'*+-.^_`|~ only)"@,
            ),
        )
    } else {
        Ok(())
    }
}

fn check_name(name: &str) -> (r: Result<(), Fault>)
    ensures
        match r {
            Ok(()) => name_check(name@) is Ok,
            Err(e) => e.kind == FaultKind::InvalidInput && name_check(name@) == Err::<
                (),
                Seq<char>,
            >(e.message@),
        },
{
    if protected(name) {
        return Err(
            err_quoting(
                "header ",
                name,
                " is managed by the proxy and cannot be rewritten",
            ),
        );
    }
    if !token(name) {
        return Err(
            err_quoting(
                "header name ",
                name,
                " is not a valid HTTP token (RFC 9110 tchar: letters, digits, and !#$%&'*+-.^_`|~ only)",
            ),
        );
    }
    Ok(())
}

/// `Name:Value`, split at the first colon. A control character in the value, a
/// carriage return or a line feed above all, would end the header line and start
/// another.
pub open spec fn pair_of(key: Seq<char>, value: Seq<char>) -> Outcome<(Seq<char>, Seq<char>)> {
    match cut(value, ':') {
        None => Err(refused(key + " needs Name:Value, got "@ + debug_text(value))),
        Some((n, v)) => {
            let name = trimmed(n);
            let hv = trimmed(v);
            if name.len() == 0 || hv.len() == 0 {
                Err(refused(key + " needs a non-empty name and value"@))
            } else {
                match name_check(name) {
                    Err(e) => Err(e),
                    Ok(()) => match first_control(hv) {
                        Some(c) => Err(
                            refused(
                                "header "@ + debug_text(name) + " value contains control character "@
                                    + debug_char(c)
                                    + "; CR/LF (or any control char) in a header value is a CRLF-injection / request-smuggling vector"@,
                            ),
                        ),
                        None => Ok((name, hv)),
                    },
                }
            }
        },
    }
}

fn parse_pair(key: &str, value: &str) -> (r: Result<(String, String), Fault>)
    ensures
        match r {
            Ok(p) => pair_of(key@, value@) == Ok::<(Seq<char>, Seq<char>), Seq<char>>(
                (p.0@, p.1@),
            ),
            Err(e) => e.kind == FaultKind::InvalidInput && pair_of(key@, value@) == Err::<
                (Seq<char>, Seq<char>),
                Seq<char>,
            >(e.message@),
        },
{
    match split_once(value, ':') {
        None => {
            let q = quoted(value);
            let m = own(key).concat(" needs Name:Value, got ").concat(q.as_str());
            Err(err(m.as_str()))
        },
        Some((n, v)) => {
            let name = trim(n);
            let hv = trim(v);
            if name.unicode_len() == 0 || hv.unicode_len() == 0 {
                let m = own(key).concat(" needs a non-empty name and value");
                return Err(err(m.as_str()));
            }
            match check_name(name) {
                Ok(()) => {},
                Err(e) => {
                    return Err(e);
                },
            }
            match find_control(hv) {
                Some(c) => {
                    let q = quoted(name);
                    let k = quoted_char(c);
                    let m = own("header ").concat(q.as_str()).concat(
                        " value contains control character ",
                    ).concat(k.as_str()).concat(
                        "; CR/LF (or any control char) in a header value is a CRLF-injection / request-smuggling vector",
                    );
                    Err(err(m.as_str()))
                },
                None => Ok((own(name), own(hv))),
            }
        },
    }
}

/// What one option does. A trailing slash of `strip` is dropped, as it would keep
/// the rule from ever matching at a segment's end.
pub open spec fn apply(r: RulesView, key: Seq<char>, value: Seq<char>) -> Outcome<RulesView> {
    if key == "strip"@ {
        let s = dropped_end(value, '/');
        if s.len() == 0 {
            Err(
                refused(
                    "strip "@ + debug_text(value)
                        + " normalizes to empty and names no path segment"@,
                ),
            )
        } else {
            Ok(RulesView { strip: Some(s), ..r })
        }
    } else if key == "prefix"@ {
        Ok(RulesView { prefix: Some(value), ..r })
    } else if key == "host"@ {
        Ok(RulesView { host: Some(value), ..r })
    } else if key == "set-header"@ {
        match pair_of(key, value) {
            Err(e) => Err(e),
            Ok(p) => Ok(RulesView { set_headers: r.set_headers.push(p), ..r }),
        }
    } else if key == "set-resp-header"@ {
        match pair_of(key, value) {
            Err(e) => Err(e),
            Ok(p) => Ok(RulesView { set_resp_headers: r.set_resp_headers.push(p), ..r }),
        }
    } else if key == "remove-header"@ {
        match name_check(value) {
            Err(e) => Err(e),
            Ok(()) => Ok(RulesView { remove_headers: r.remove_headers.push(value), ..r }),
        }
    } else if key == "remove-resp-header"@ {
        match name_check(value) {
            Err(e) => Err(e),
            Ok(()) => Ok(RulesView { remove_resp_headers: r.remove_resp_headers.push(value), ..r }),
        }
    } else {
        Err(refused("unknown option "@ + debug_text(key) + ""@))
    }
}

/// What one segment between semicolons does; a blank one does nothing.
pub open spec fn step(r: RulesView, seg: Seq<char>) -> Outcome<RulesView> {
    let opt = trimmed(seg);
    if opt.len() == 0 {
        Ok(r)
    } else {
        match cut(opt, '=') {
            None => Err(refused(""@ + debug_text(opt) + " must be name=value"@)),
            Some((k, v)) => if trimmed(v).len() == 0 {
                Err(refused(trimmed(k) + " needs a non-empty value"@))
            } else {
                apply(r, trimmed(k), trimmed(v))
            },
        }
    }
}

/// What segments do, one after the other.
pub open spec fn steps(r: RulesView, segs: Seq<Seq<char>>) -> Outcome<RulesView>
    decreases segs.len(),
{
    if segs.len() == 0 {
        Ok(r)
    } else {
        match step(r, segs[0]) {
            Err(e) => Err(e),
            Ok(next) => steps(next, segs.drop_first()),
        }
    }
}

/// The rules that options write.
pub open spec fn rules_of(opts: Seq<char>, forwarded: bool) -> Outcome<RulesView> {
    steps(no_rules(forwarded), pieces(opts, ';'))
}

fn push_pair(v: &mut Vec<(String, String)>, p: (String, String))
    ensures
        pairs(final(v)@) == pairs(old(v)@).push((p.0@, p.1@)),
{
    v.push(p);
    assert(pairs(v@) =~= pairs(old(v)@).push((p.0@, p.1@)));
}

impl RewriteRules {
    /// Rules that inject the forwarded headers and do nothing else.
    pub fn new() -> (r: RewriteRules)
        ensures
            r@ == no_rules(true),
    {
        plain_rules(true)
    }

    /// Rules that do nothing at all.
    pub fn no_forwarded() -> (r: RewriteRules)
        ensures
            r@ == no_rules(false),
    {
        plain_rules(false)
    }

    fn apply_option(&mut self, key: &str, value: &str) -> (r: Result<(), Fault>)
        ensures
            match r {
                Ok(()) => apply(old(self)@, key@, value@) == Ok::<RulesView, Seq<char>>(
                    final(self)@,
                ),
                Err(e) => e.kind == FaultKind::InvalidInput && apply(old(self)@, key@, value@)
                    == Err::<RulesView, Seq<char>>(e.message@),
            },
    {
        if same(key, "strip") {
            let s = trim_end_char(value, '/');
            if s.unicode_len() == 0 {
                return Err(
                    err_quoting(
                        "strip ",
                        value,
                        " normalizes to empty and names no path segment",
                    ),
                );
            }
            self.strip = Some(own(s));
        } else if same(key, "prefix") {
            self.prefix = Some(own(value));
        } else if same(key, "host") {
            self.host = Some(own(value));
        } else if same(key, "set-header") {
            match parse_pair(key, value) {
                Err(e) => {
                    return Err(e);
                },
                Ok(p) => {
                    push_pair(&mut self.set_headers, p);
                },
            }
        } else if same(key, "set-resp-header") {
            match parse_pair(key, value) {
                Err(e) => {
                    return Err(e);
                },
                Ok(p) => {
                    push_pair(&mut self.set_resp_headers, p);
                },
            }
        } else if same(key, "remove-header") {
            match check_name(value) {
                Err(e) => {
                    return Err(e);
                },
                Ok(()) => {
                    push_text(&mut self.remove_headers, own(value));
                },
            }
        } else if same(key, "remove-resp-header") {
            match check_name(value) {
                Err(e) => {
                    return Err(e);
                },
                Ok(()) => {
                    push_text(&mut self.remove_resp_headers, own(value));
                },
            }
        } else {
            return Err(err_quoting("unknown option ", key, ""));
        }
        Ok(())
    }

    /// Parses options between semicolons into rules.
    pub fn from_options(opts: &str, forwarded: bool) -> (r: Result<RewriteRules, Fault>)
        ensures
            match r {
                Ok(x) => rules_of(opts@, forwarded) == Ok::<RulesView, Seq<char>>(x@),
                Err(e) => e.kind == FaultKind::InvalidInput && rules_of(opts@, forwarded) == Err::<
                    RulesView,
                    Seq<char>,
                >(e.message@),
            },
    {
        let mut rules = plain_rules(forwarded);
        let segs = split(opts, ';');
        let mut i: usize = 0;
        assert(slices(segs@).skip(0) =~= slices(segs@));
        while i < segs.len()
            invariant
                i <= segs@.len(),
                slices(segs@) == pieces(opts@, ';'),
                rules_of(opts@, forwarded) == steps(rules@, slices(segs@).skip(i as int)),
            decreases segs.len() - i,
        {
            let ghost rest = slices(segs@).skip(i as int);
            assert(rest[0] == segs@[i as int]@);
            assert(rest.drop_first() =~= slices(segs@).skip(i + 1));
            let opt = trim(segs[i]);
            if opt.unicode_len() != 0 {
                match split_once(opt, '=') {
                    None => {
                        return Err(err_quoting("", opt, " must be name=value"));
                    },
                    Some((k, v)) => {
                        let key = trim(k);
                        let value = trim(v);
                        if value.unicode_len() == 0 {
                            let m = own(key).concat(" needs a non-empty value");
                            return Err(err(m.as_str()));
                        }
                        match rules.apply_option(key, value) {
                            Ok(()) => {},
                            Err(e) => {
                                return Err(e);
                            },
                        }
                    },
                }
            }
            i = i + 1;
        }
        assert(slices(segs@).skip(i as int) =~= Seq::<Seq<char>>::empty());
        Ok(rules)
    }
}

// ---------------------------------------------------------------------------
// Applying rules
// ---------------------------------------------------------------------------

/// A path without the prefix `s`, where the prefix ends at a segment's end: `/api`
/// is not stripped from `/apixyz`.
pub open spec fn stripped(path: Seq<char>, s: Option<Seq<char>>) -> Seq<char> {
    match s {
        Some(p) => match without_prefix(path, p) {
            Some(rest) => if rest.len() == 0 || rest[0] == '/' {
                rest
            } else {
                path
            },
            None => path,
        },
        None => path,
    }
}

/// A path with a prefix in front.
pub open spec fn prefixed(path: Seq<char>, p: Option<Seq<char>>) -> Seq<char> {
    match p {
        Some(x) => x + path,
        None => path,
    }
}

/// A path with a slash in front: an empty target is malformed.
pub open spec fn rooted(path: Seq<char>) -> Seq<char> {
    if path.len() > 0 && path[0] == '/' {
        path
    } else {
        seq!['/'] + path
    }
}

/// The target that a backend gets: strip, then prefix, on the path alone; the query
/// stays. Only an origin-form target is changed, as a prefix would corrupt any
/// other.
pub open spec fn rewritten(r: RulesView, target: Seq<char>) -> Seq<char> {
    if target.len() == 0 || target[0] != '/' {
        target
    } else {
        match cut(target, '?') {
            Some((path, query)) => rooted(prefixed(stripped(path, r.strip), r.prefix)) + "?"@ + query,
            None => rooted(prefixed(stripped(target, r.strip), r.prefix)),
        }
    }
}

/// The chain of callers with the one that was seen behind it: everything before
/// that one is hearsay, so it is kept and never trusted.
pub open spec fn chained(existing: Option<Seq<char>>, ip: Seq<char>) -> Seq<char> {
    match existing {
        Some(x) => if trimmed(x).len() > 0 {
            x + ", "@ + ip
        } else {
            ip
        },
        None => ip,
    }
}

/// A field that is set only where there is none.
pub open spec fn with_default(h: Fields, name: Seq<char>, probe: Seq<char>, value: Seq<char>) -> Fields {
    if lookup(h, probe) is None {
        with_field(h, name, value)
    } else {
        h
    }
}

/// The forwarded headers: the chain is appended to, the caller's address is
/// overwritten (a client's own value is a forgery), and host and scheme are set
/// only where an earlier proxy did not set them.
pub open spec fn injected(
    h: Fields,
    ip: Seq<char>,
    host: Option<Seq<char>>,
    scheme: Seq<char>,
) -> Fields {
    let a = with_field(h, "X-Forwarded-For"@, chained(lookup(h, "x-forwarded-for"@), ip));
    let b = with_field(a, "X-Real-IP"@, ip);
    let c = match host {
        Some(x) => with_default(b, "X-Forwarded-Host"@, "x-forwarded-host"@, x),
        None => b,
    };
    with_default(c, "X-Forwarded-Proto"@, "x-forwarded-proto"@, scheme)
}

/// Fields without those of any of the names.
pub open spec fn without_all(h: Fields, names: Seq<Seq<char>>) -> Fields
    decreases names.len(),
{
    if names.len() == 0 {
        h
    } else {
        without(without_all(h, names.drop_last()), names.last())
    }
}

/// Fields with each of the pairs set, in order.
pub open spec fn with_all(h: Fields, set: Fields) -> Fields
    decreases set.len(),
{
    if set.len() == 0 {
        h
    } else {
        with_field(with_all(h, set.drop_last()), set.last().0, set.last().1)
    }
}

/// What a backend gets: the path first, then `Host`, then the forwarded headers,
/// and the explicit rules last, so that a rule can override an injected value.
/// Removals come before sets.
pub open spec fn requested(
    r: RulesView,
    req: RequestView,
    ip: Seq<char>,
    host: Option<Seq<char>>,
    scheme: Seq<char>,
) -> RequestView {
    let a = match r.host {
        Some(x) => with_field(req.headers, "Host"@, x),
        None => req.headers,
    };
    let b = if r.forwarded {
        injected(a, ip, host, scheme)
    } else {
        a
    };
    RequestView {
        target: if r.strip is Some || r.prefix is Some {
            rewritten(r, req.target)
        } else {
            req.target
        },
        headers: with_all(without_all(b, r.remove_headers), r.set_headers),
        ..req
    }
}

/// What a client gets: only the explicit rules apply.
pub open spec fn responded(r: RulesView, resp: ResponseView) -> ResponseView {
    ResponseView {
        headers: with_all(without_all(resp.headers, r.remove_resp_headers), r.set_resp_headers),
        ..resp
    }
}

fn remove_all(headers: &mut Vec<(String, String)>, names: &Vec<String>)
    ensures
        pairs(final(headers)@) == without_all(pairs(old(headers)@), texts(names@)),
{
    let mut i: usize = 0;
    assert(texts(names@).take(0) =~= Seq::empty());
    while i < names.len()
        invariant
            i <= names@.len(),
            pairs(headers@) == without_all(pairs(old(headers)@), texts(names@).take(i as int)),
        decreases names.len() - i,
    {
        let ghost t = texts(names@).take(i + 1);
        assert(t.drop_last() =~= texts(names@).take(i as int));
        assert(t.last() == names@[i as int]@);
        remove_header(headers, names[i].as_str());
        i = i + 1;
    }
    assert(texts(names@).take(i as int) =~= texts(names@));
}

fn set_all(headers: &mut Vec<(String, String)>, set: &Vec<(String, String)>)
    ensures
        pairs(final(headers)@) == with_all(pairs(old(headers)@), pairs(set@)),
{
    let mut i: usize = 0;
    assert(pairs(set@).take(0) =~= Seq::empty());
    while i < set.len()
        invariant
            i <= set@.len(),
            pairs(headers@) == with_all(pairs(old(headers)@), pairs(set@).take(i as int)),
        decreases set.len() - i,
    {
        let ghost t = pairs(set@).take(i + 1);
        assert(t.drop_last() =~= pairs(set@).take(i as int));
        assert(t.last() == (set@[i as int].0@, set@[i as int].1@));
        set_header(headers, set[i].0.as_str(), set[i].1.as_str());
        i = i + 1;
    }
    assert(pairs(set@).take(i as int) =~= pairs(set@));
}

fn slash_leads(s: &str) -> (r: bool)
    ensures
        r == (s@.len() > 0 && s@[0] == '/'),
{
    s.unicode_len() > 0 && s.get_char(0) == '/'
}

impl RewriteRules {
    fn rewrite_one(&self, path: &str) -> (r: String)
        ensures
            r@ == rooted(prefixed(stripped(path@, self@.strip), self@.prefix)),
    {
        let mut out = own(path);
        if let Some(s) = &self.strip {
            if let Some(rest) = strip_prefix(path, s.as_str()) {
                if rest.unicode_len() == 0 || slash_leads(rest) {
                    out = own(rest);
                }
            }
        }
        if let Some(p) = &self.prefix {
            out = own(p.as_str()).concat(out.as_str());
        }
        if !slash_leads(out.as_str()) {
            let mut t = String::new();
            t.push('/');
            t.append(out.as_str());
            assert(t@ =~= seq!['/'] + out@);
            out = t;
        }
        out
    }

    fn rewrite_path(&self, target: &str) -> (r: String)
        ensures
            r@ == rewritten(self@, target@),
    {
        if !slash_leads(target) {
            return own(target);
        }
        match split_once(target, '?') {
            Some((path, query)) => self.rewrite_one(path).concat("?").concat(query),
            None => self.rewrite_one(target),
        }
    }

    fn inject_forwarded(&self, headers: &mut Vec<(String, String)>, ctx: &ForwardContext)
        ensures
            pairs(final(headers)@) == injected(
                pairs(old(headers)@),
                ctx.client_ip@,
                slice(ctx.original_host),
                ctx.scheme@,
            ),
    {
        let ip = ctx.client_ip.as_str();
        let chain = match header(headers.as_slice(), "x-forwarded-for") {
            Some(existing) => if trim(existing).unicode_len() > 0 {
                own(existing).concat(", ").concat(ip)
            } else {
                own(ip)
            },
            None => own(ip),
        };
        set_header(headers, "X-Forwarded-For", chain.as_str());
        set_header(headers, "X-Real-IP", ip);
        if let Some(h) = ctx.original_host {
            if header(headers.as_slice(), "x-forwarded-host").is_none() {
                set_header(headers, "X-Forwarded-Host", h);
            }
        }
        if header(headers.as_slice(), "x-forwarded-proto").is_none() {
            set_header(headers, "X-Forwarded-Proto", ctx.scheme);
        }
    }

    /// Transforms a request head for the backend.
    pub fn apply_request(&self, req: &mut RequestHead, ctx: &ForwardContext)
        ensures
            final(req)@ == requested(
                self@,
                old(req)@,
                ctx.client_ip@,
                slice(ctx.original_host),
                ctx.scheme@,
            ),
    {
        if self.strip.is_some() || self.prefix.is_some() {
            req.target = self.rewrite_path(req.target.as_str());
        }
        if let Some(h) = &self.host {
            set_header(&mut req.headers, "Host", h.as_str());
        }
        if self.forwarded {
            self.inject_forwarded(&mut req.headers, ctx);
        }
        remove_all(&mut req.headers, &self.remove_headers);
        set_all(&mut req.headers, &self.set_headers);
    }

    /// Transforms a response head for the client.
    pub fn apply_response(&self, resp: &mut ResponseHead)
        ensures
            final(resp)@ == responded(self@, old(resp)@),
    {
        remove_all(&mut resp.headers, &self.remove_resp_headers);
        set_all(&mut resp.headers, &self.set_resp_headers);
    }
}

// ---------------------------------------------------------------------------
// Laws
// ---------------------------------------------------------------------------

/// A name that a rule may use: a token of at least one character, and not protected.
pub open spec fn free_name(name: Seq<char>) -> bool {
    name.len() > 0 && !is_protected(name) && is_token(name)
}

/// A pair that a rule may set: a free name, and a value of at least one character
/// without control characters.
pub open spec fn free_pair(p: (Seq<char>, Seq<char>)) -> bool {
    free_name(p.0) && p.1.len() > 0 && first_control(p.1) is None
}

/// Rules that touch no protected header, set no control character, and strip a path
/// that names a segment.
pub open spec fn safe_rules(r: RulesView) -> bool {
    &&& forall|i: int| 0 <= i < r.set_headers.len() ==> free_pair(#[trigger] r.set_headers[i])
    &&& forall|i: int|
        0 <= i < r.set_resp_headers.len() ==> free_pair(#[trigger] r.set_resp_headers[i])
    &&& forall|i: int|
        0 <= i < r.remove_headers.len() ==> free_name(#[trigger] r.remove_headers[i])
    &&& forall|i: int|
        0 <= i < r.remove_resp_headers.len() ==> free_name(#[trigger] r.remove_resp_headers[i])
    &&& r.strip matches Some(s) ==> s.len() > 0 && s.last() != '/'
}

proof fn lemma_dropped_end(s: Seq<char>)
    ensures
        dropped_end(s, '/').len() > 0 ==> dropped_end(s, '/').last() != '/',
    decreases s.len(),
{
    if s.len() > 0 && s.last() == '/' {
        lemma_dropped_end(s.drop_last());
    }
}

proof fn lemma_steps_are_safe(r: RulesView, segs: Seq<Seq<char>>)
    requires
        safe_rules(r),
        steps(r, segs) is Ok,
    ensures
        safe_rules(steps(r, segs)->Ok_0),
    decreases segs.len(),
{
    if segs.len() > 0 {
        let next = step(r, segs[0])->Ok_0;
        let opt = trimmed(segs[0]);
        if opt.len() > 0 {
            let value = trimmed(cut(opt, '=')->Some_0.1);
            lemma_dropped_end(value);
        }
        assert(safe_rules(next));
        lemma_steps_are_safe(next, segs.drop_first());
    }
}

/// Whatever the options: the header rules that are accepted name no protected header
/// and set no control character, so that none of them can add a header line or change
/// the framing; and a path to strip names a segment.
pub proof fn law_accepted_rules_are_safe(opts: Seq<char>, forwarded: bool)
    requires
        rules_of(opts, forwarded) is Ok,
    ensures
        safe_rules(rules_of(opts, forwarded)->Ok_0),
{
    lemma_steps_are_safe(no_rules(forwarded), pieces(opts, ';'));
}

/// Two names that are equal up to case are protected alike.
proof fn lemma_protected_folds(a: Seq<char>, b: Seq<char>)
    requires
        same_fold(a, b),
    ensures
        is_protected(a) == is_protected(b),
{
}

proof fn lemma_without_all_keeps(h: Fields, names: Seq<Seq<char>>, name: Seq<char>)
    requires
        forall|i: int| 0 <= i < names.len() ==> !same_fold(#[trigger] names[i], name),
    ensures
        lookup(without_all(h, names), name) == lookup(h, name),
        occurrences(without_all(h, names), name) == occurrences(h, name),
    decreases names.len(),
{
    if names.len() > 0 {
        lemma_without_all_keeps(h, names.drop_last(), name);
        assert(!same_fold(names[names.len() - 1], name));
        law_removed_field_is_gone(without_all(h, names.drop_last()), names.last(), name);
    }
}

proof fn lemma_with_all_keeps(h: Fields, set: Fields, name: Seq<char>)
    requires
        forall|i: int| 0 <= i < set.len() ==> !same_fold((#[trigger] set[i]).0, name),
    ensures
        lookup(with_all(h, set), name) == lookup(h, name),
        occurrences(with_all(h, set), name) == occurrences(h, name),
    decreases set.len(),
{
    if set.len() > 0 {
        lemma_with_all_keeps(h, set.drop_last(), name);
        assert(!same_fold(set[set.len() - 1].0, name));
        law_set_field_reads_back(
            with_all(h, set.drop_last()),
            set.last().0,
            set.last().1,
            name,
        );
    }
}

proof fn lemma_rules_keep(h: Fields, r: RulesView, name: Seq<char>)
    requires
        safe_rules(r),
        is_protected(name),
    ensures
        lookup(with_all(without_all(h, r.remove_headers), r.set_headers), name) == lookup(h, name),
        occurrences(with_all(without_all(h, r.remove_headers), r.set_headers), name)
            == occurrences(h, name),
{
    assert forall|i: int| 0 <= i < r.remove_headers.len() implies !same_fold(
        #[trigger] r.remove_headers[i],
        name,
    ) by {
        if same_fold(r.remove_headers[i], name) {
            lemma_protected_folds(r.remove_headers[i], name);
            assert(free_name(r.remove_headers[i]));
        }
    }
    assert forall|i: int| 0 <= i < r.set_headers.len() implies !same_fold(
        (#[trigger] r.set_headers[i]).0,
        name,
    ) by {
        if same_fold(r.set_headers[i].0, name) {
            lemma_protected_folds(r.set_headers[i].0, name);
            assert(free_pair(r.set_headers[i]));
        }
    }
    lemma_without_all_keeps(h, r.remove_headers, name);
    lemma_with_all_keeps(without_all(h, r.remove_headers), r.set_headers, name);
}

/// No rule of a route changes a header of a response that frames its body or belongs
/// to one connection.
pub proof fn law_response_framing_passes_unchanged(
    r: RulesView,
    resp: ResponseView,
    name: Seq<char>,
)
    requires
        safe_rules(r),
        is_protected(name),
    ensures
        lookup(responded(r, resp).headers, name) == lookup(resp.headers, name),
        occurrences(responded(r, resp).headers, name) == occurrences(resp.headers, name),
{
    let h = resp.headers;
    assert forall|i: int| 0 <= i < r.remove_resp_headers.len() implies !same_fold(
        #[trigger] r.remove_resp_headers[i],
        name,
    ) by {
        if same_fold(r.remove_resp_headers[i], name) {
            lemma_protected_folds(r.remove_resp_headers[i], name);
            assert(free_name(r.remove_resp_headers[i]));
        }
    }
    lemma_without_all_keeps(h, r.remove_resp_headers, name);
    assert forall|i: int| 0 <= i < r.set_resp_headers.len() implies !same_fold(
        (#[trigger] r.set_resp_headers[i]).0,
        name,
    ) by {
        if same_fold(r.set_resp_headers[i].0, name) {
            lemma_protected_folds(r.set_resp_headers[i].0, name);
            assert(free_pair(r.set_resp_headers[i]));
        }
    }
    lemma_with_all_keeps(without_all(h, r.remove_resp_headers), r.set_resp_headers, name);
}

/// None of the headers that the proxy injects is protected.
proof fn lemma_injected_names()
    ensures
        !is_protected("X-Forwarded-For"@),
        !is_protected("X-Real-IP"@),
        !is_protected("X-Forwarded-Host"@),
        !is_protected("X-Forwarded-Proto"@),
        is_protected("Host"@),
        !same_fold("X-Forwarded-Host"@, "X-Real-IP"@),
        !same_fold("X-Forwarded-Proto"@, "X-Real-IP"@),
        !same_fold("Host"@, "X-Real-IP"@),
{
    reveal_strlit("X-Forwarded-For");
    reveal_strlit("X-Real-IP");
    reveal_strlit("X-Forwarded-Host");
    reveal_strlit("X-Forwarded-Proto");
    reveal_strlit("Host");
    reveal_strlit("content-length");
    reveal_strlit("transfer-encoding");
    reveal_strlit("connection");
    reveal_strlit("host");
    reveal_strlit("upgrade");
    reveal_strlit("te");
    reveal_strlit("trailer");
    assert(lower("X-Forwarded-For"@).len() == 15);
    assert(lower("X-Real-IP"@).len() == 9);
    assert(lower("X-Forwarded-Host"@).len() == 16);
    assert(lower("X-Forwarded-Proto"@).len() == 17);
    assert(lower("Host"@).len() == 4);
    assert(lower("content-length"@).len() == 14);
    assert(lower("transfer-encoding"@).len() == 17);
    assert(lower("connection"@).len() == 10);
    assert(lower("host"@).len() == 4);
    assert(lower("upgrade"@).len() == 7);
    assert(lower("te"@).len() == 2);
    assert(lower("trailer"@).len() == 7);
    assert(lower("X-Forwarded-Proto"@)[0] == 'x');
    assert(lower("transfer-encoding"@)[0] == 't');
    assert(lower("Host"@) =~= lower("host"@));
}

proof fn lemma_injection_keeps(
    h: Fields,
    ip: Seq<char>,
    host: Option<Seq<char>>,
    scheme: Seq<char>,
    name: Seq<char>,
)
    requires
        is_protected(name),
    ensures
        lookup(injected(h, ip, host, scheme), name) == lookup(h, name),
        occurrences(injected(h, ip, host, scheme), name) == occurrences(h, name),
{
    lemma_injected_names();
    let chain = chained(lookup(h, "x-forwarded-for"@), ip);
    let a = with_field(h, "X-Forwarded-For"@, chain);
    let b = with_field(a, "X-Real-IP"@, ip);
    let c = match host {
        Some(x) => with_default(b, "X-Forwarded-Host"@, "x-forwarded-host"@, x),
        None => b,
    };
    if same_fold(name, "X-Forwarded-For"@) {
        lemma_protected_folds(name, "X-Forwarded-For"@);
    }
    if same_fold(name, "X-Real-IP"@) {
        lemma_protected_folds(name, "X-Real-IP"@);
    }
    if same_fold(name, "X-Forwarded-Host"@) {
        lemma_protected_folds(name, "X-Forwarded-Host"@);
    }
    if same_fold(name, "X-Forwarded-Proto"@) {
        lemma_protected_folds(name, "X-Forwarded-Proto"@);
    }
    law_set_field_reads_back(h, "X-Forwarded-For"@, chain, name);
    law_set_field_reads_back(a, "X-Real-IP"@, ip, name);
    if host is Some {
        law_set_field_reads_back(b, "X-Forwarded-Host"@, host->Some_0, name);
    }
    law_set_field_reads_back(c, "X-Forwarded-Proto"@, scheme, name);
}

/// A rewrite leaves every protected header but `Host` as the client sent it.
pub proof fn law_framing_headers_pass_unchanged(
    r: RulesView,
    req: RequestView,
    ip: Seq<char>,
    host: Option<Seq<char>>,
    scheme: Seq<char>,
    name: Seq<char>,
)
    requires
        safe_rules(r),
        is_protected(name),
        !same_fold(name, "host"@),
    ensures
        lookup(requested(r, req, ip, host, scheme).headers, name) == lookup(req.headers, name),
        occurrences(requested(r, req, ip, host, scheme).headers, name) == occurrences(
            req.headers,
            name,
        ),
{
    let a = match r.host {
        Some(x) => with_field(req.headers, "Host"@, x),
        None => req.headers,
    };
    let b = if r.forwarded {
        injected(a, ip, host, scheme)
    } else {
        a
    };
    assert(lower("Host"@) =~= lower("host"@)) by {
        reveal_strlit("Host");
        reveal_strlit("host");
    }
    if r.host is Some {
        law_set_field_reads_back(req.headers, "Host"@, r.host->Some_0, name);
    }
    if r.forwarded {
        lemma_injection_keeps(a, ip, host, scheme, name);
    }
    lemma_rules_keep(b, r, name);
}

/// Where `Host` is rewritten, the backend gets exactly one `Host`, and it is the
/// configured one: two of them would be read differently by two peers.
pub proof fn law_one_host_after_a_rewrite(
    r: RulesView,
    req: RequestView,
    ip: Seq<char>,
    host: Option<Seq<char>>,
    scheme: Seq<char>,
)
    requires
        safe_rules(r),
        r.host is Some,
    ensures
        lookup(requested(r, req, ip, host, scheme).headers, "Host"@) == r.host,
        occurrences(requested(r, req, ip, host, scheme).headers, "Host"@) == 1,
{
    let a = with_field(req.headers, "Host"@, r.host->Some_0);
    let b = if r.forwarded {
        injected(a, ip, host, scheme)
    } else {
        a
    };
    lemma_injected_names();
    law_set_field_reads_back(req.headers, "Host"@, r.host->Some_0, "Host"@);
    if r.forwarded {
        lemma_injection_keeps(a, ip, host, scheme, "Host"@);
    }
    lemma_rules_keep(b, r, "Host"@);
}

/// The caller's address cannot be forged: whatever the client sent, the backend
/// gets exactly one `X-Real-IP`, and it is the address that was seen; unless a rule
/// of the operator names that header.
pub proof fn law_the_real_address_is_reported(
    r: RulesView,
    req: RequestView,
    ip: Seq<char>,
    host: Option<Seq<char>>,
    scheme: Seq<char>,
)
    requires
        r.forwarded,
        forall|i: int|
            0 <= i < r.remove_headers.len() ==> !same_fold(
                #[trigger] r.remove_headers[i],
                "X-Real-IP"@,
            ),
        forall|i: int|
            0 <= i < r.set_headers.len() ==> !same_fold(
                (#[trigger] r.set_headers[i]).0,
                "X-Real-IP"@,
            ),
    ensures
        lookup(requested(r, req, ip, host, scheme).headers, "X-Real-IP"@) == Some(ip),
        occurrences(requested(r, req, ip, host, scheme).headers, "X-Real-IP"@) == 1,
{
    lemma_injected_names();
    let h = match r.host {
        Some(x) => with_field(req.headers, "Host"@, x),
        None => req.headers,
    };
    let a = with_field(h, "X-Forwarded-For"@, chained(lookup(h, "x-forwarded-for"@), ip));
    let b = with_field(a, "X-Real-IP"@, ip);
    let c = match host {
        Some(x) => with_default(b, "X-Forwarded-Host"@, "x-forwarded-host"@, x),
        None => b,
    };
    law_set_field_reads_back(a, "X-Real-IP"@, ip, "X-Real-IP"@);
    if host is Some {
        law_set_field_reads_back(b, "X-Forwarded-Host"@, host->Some_0, "X-Real-IP"@);
    }
    law_set_field_reads_back(c, "X-Forwarded-Proto"@, scheme, "X-Real-IP"@);
    let d = injected(h, ip, host, scheme);
    lemma_without_all_keeps(d, r.remove_headers, "X-Real-IP"@);
    lemma_with_all_keeps(without_all(d, r.remove_headers), r.set_headers, "X-Real-IP"@);
}

/// An explicit rule has the last word: the value that the last rule sets is the one
/// that the backend gets.
pub proof fn law_explicit_rules_win(
    r: RulesView,
    req: RequestView,
    ip: Seq<char>,
    host: Option<Seq<char>>,
    scheme: Seq<char>,
)
    requires
        r.set_headers.len() > 0,
    ensures
        lookup(requested(r, req, ip, host, scheme).headers, r.set_headers.last().0) == Some(
            r.set_headers.last().1,
        ),
        occurrences(requested(r, req, ip, host, scheme).headers, r.set_headers.last().0) == 1,
{
    let a = match r.host {
        Some(x) => with_field(req.headers, "Host"@, x),
        None => req.headers,
    };
    let b = if r.forwarded {
        injected(a, ip, host, scheme)
    } else {
        a
    };
    law_set_field_reads_back(
        with_all(without_all(b, r.remove_headers), r.set_headers.drop_last()),
        r.set_headers.last().0,
        r.set_headers.last().1,
        r.set_headers.last().0,
    );
}

/// A rewritten target keeps its query to the letter, and it starts with a slash.
pub proof fn law_the_query_survives(r: RulesView, target: Seq<char>)
    requires
        target.len() > 0,
        target[0] == '/',
    ensures
        rewritten(r, target).len() > 0,
        rewritten(r, target)[0] == '/',
        cut(target, '?') matches Some((_, q)) ==> crate::text::ends(
            rewritten(r, target),
            "?"@ + q,
        ),
{
    match cut(target, '?') {
        Some((path, q)) => {
            let p = rooted(prefixed(stripped(path, r.strip), r.prefix));
            let t = rewritten(r, target);
            let tail = "?"@ + q;
            assert(t =~= p + tail);
            assert(t.skip(t.len() - tail.len()) =~= tail);
        },
        None => {},
    }
}

} // verus!
