//! What rules do to requests and responses.

use vstd::prelude::*;

use super::{
    lemma_nothing_to_trim, lemma_trimmed_ends,
};
use crate::http::{
    law_removed_field_is_gone, law_set_field_reads_back, lookup, occurrences, with_field, without,
    Fields, RequestView, ResponseView,
};
use crate::rewrite::{
    apply, chained, first_control, free_pair, injected, is_protected, is_token, no_rules, pair_of,
    requested, responded, rewritten, rules_of, step, steps, with_all, with_default, without_all,
    RulesView,
};
use crate::text::{
    cut, dropped_end, has_char, is_control, lemma_first_index, lemma_first_index_is, lower, pieces,
    same_fold, starts, trimmed,
};

verus! {

// ---------------------------------------------------------------------------
// Paths
// ---------------------------------------------------------------------------

/// Rules that strip and prefix, and do nothing else.
pub open spec fn path_rules(strip: Option<Seq<char>>, prefix: Option<Seq<char>>) -> RulesView {
    RulesView { strip, prefix, ..no_rules(false) }
}

proof fn lemma_path_cut(path: Seq<char>, query: Seq<char>)
    requires
        !has_char(path, '?'),
    ensures
        cut(path, '?') is None,
        cut(path + seq!['?'] + query, '?') == Some((path, query)),
{
    let s = path + seq!['?'] + query;
    lemma_first_index(path, '?');
    assert forall|k: int| 0 <= k < path.len() implies s[k] != '?' by {
        assert(s[k] == path[k]);
    }
    lemma_first_index_is(s, '?', path.len() as int);
    assert(s.take(path.len() as int) =~= path);
    assert(s.skip(path.len() as int + 1) =~= query);
}

/// A prefix that is stripped goes where it ends at a segment's end, and stays where it
/// does not; what is left starts with a slash, and the query stays.
pub proof fn law_stripping_ends_at_a_segment(
    strip: Seq<char>,
    rest: Seq<char>,
    query: Seq<char>,
)
    requires
        strip.len() > 0,
        strip[0] == '/',
        !has_char(strip + rest, '?'),
    ensures
        ({
            let r = path_rules(Some(strip), None);
            let path = strip + rest;
            let left = if rest.len() == 0 {
                seq!['/']
            } else if rest[0] == '/' {
                rest
            } else {
                path
            };
            &&& rewritten(r, path) == left
            &&& rewritten(r, path + seq!['?'] + query) == left + seq!['?'] + query
        }),
{
    let path = strip + rest;
    lemma_path_cut(path, query);
    assert(path.take(strip.len() as int) =~= strip);
    assert(path.skip(strip.len() as int) =~= rest);
    assert(path[0] == '/');
    assert((path + seq!['?'] + query)[0] == '/');
    reveal_strlit("?");
    assert("?"@ =~= seq!['?']);
    assert(seq!['/'] + Seq::<char>::empty() =~= seq!['/']);
    if rest.len() == 0 {
        assert(rest =~= Seq::empty());
    }
}

/// A prefix is put before the path, behind what was stripped; the query stays.
pub proof fn law_a_prefix_comes_before_the_path(
    strip: Seq<char>,
    prefix: Seq<char>,
    path: Seq<char>,
    query: Seq<char>,
)
    requires
        strip.len() > 0,
        strip[0] == '/',
        prefix.len() > 0,
        prefix[0] == '/',
        path.len() > 0,
        path[0] == '/',
        !has_char(path, '?'),
        !has_char(strip + path, '?'),
    ensures
        rewritten(path_rules(None, Some(prefix)), path) == prefix + path,
        rewritten(path_rules(None, Some(prefix)), path + seq!['?'] + query) == prefix + path
            + seq!['?'] + query,
        rewritten(path_rules(Some(strip), Some(prefix)), strip + path) == prefix + path,
        rewritten(path_rules(None, None), path) == path,
{
    lemma_path_cut(path, query);
    lemma_path_cut(strip + path, query);
    let s = strip + path;
    assert(s.take(strip.len() as int) =~= strip);
    assert(s.skip(strip.len() as int) =~= path);
    assert(s[0] == '/');
    assert((path + seq!['?'] + query)[0] == '/');
    assert((prefix + path)[0] == '/');
    reveal_strlit("?");
    assert("?"@ =~= seq!['?']);
}

/// The target of the backend's request is the rewritten one where a rule strips or
/// prefixes, and else the client's own; the method is the client's.
pub proof fn law_only_path_rules_change_the_target(
    r: RulesView,
    req: RequestView,
    ip: Seq<char>,
    host: Option<Seq<char>>,
    scheme: Seq<char>,
)
    ensures
        requested(r, req, ip, host, scheme).method == req.method,
        requested(r, req, ip, host, scheme).version == req.version,
        r.strip is None && r.prefix is None ==> requested(r, req, ip, host, scheme).target
            == req.target,
        r.strip is Some || r.prefix is Some ==> requested(r, req, ip, host, scheme).target
            == rewritten(r, req.target),
{
}

// ---------------------------------------------------------------------------
// Forwarded headers
// ---------------------------------------------------------------------------

proof fn lemma_forwarded_names()
    ensures
        same_fold("x-forwarded-for"@, "X-Forwarded-For"@),
        same_fold("x-real-ip"@, "X-Real-IP"@),
        same_fold("x-forwarded-host"@, "X-Forwarded-Host"@),
        same_fold("x-forwarded-proto"@, "X-Forwarded-Proto"@),
        !same_fold("X-Forwarded-For"@, "X-Real-IP"@),
        !same_fold("X-Forwarded-For"@, "X-Forwarded-Host"@),
        !same_fold("X-Forwarded-For"@, "X-Forwarded-Proto"@),
        !same_fold("X-Real-IP"@, "X-Forwarded-Host"@),
        !same_fold("X-Real-IP"@, "X-Forwarded-Proto"@),
        !same_fold("X-Forwarded-Host"@, "X-Forwarded-Proto"@),
{
    reveal_strlit("x-forwarded-for");
    reveal_strlit("x-real-ip");
    reveal_strlit("x-forwarded-host");
    reveal_strlit("x-forwarded-proto");
    reveal_strlit("X-Forwarded-For");
    reveal_strlit("X-Real-IP");
    reveal_strlit("X-Forwarded-Host");
    reveal_strlit("X-Forwarded-Proto");
    assert(lower("x-forwarded-for"@) =~= lower("X-Forwarded-For"@));
    assert(lower("x-real-ip"@) =~= lower("X-Real-IP"@));
    assert(lower("x-forwarded-host"@) =~= lower("X-Forwarded-Host"@));
    assert(lower("x-forwarded-proto"@) =~= lower("X-Forwarded-Proto"@));
    assert(lower("X-Forwarded-For"@).len() == 15);
    assert(lower("X-Real-IP"@).len() == 9);
    assert(lower("X-Forwarded-Host"@).len() == 16);
    assert(lower("X-Forwarded-Proto"@).len() == 17);
}

proof fn lemma_fold_lookup(h: Fields, a: Seq<char>, b: Seq<char>)
    requires
        same_fold(a, b),
    ensures
        lookup(h, a) == lookup(h, b),
    decreases h.len(),
{
    if h.len() > 0 {
        lemma_fold_lookup(h.drop_first(), a, b);
    }
}

/// The backend learns who called: the address is put behind the chain of callers, and
/// alone in `X-Real-IP`; the host and the scheme are those of the client's request,
/// unless an earlier proxy reported others.
pub proof fn law_the_caller_is_reported(
    req: RequestView,
    ip: Seq<char>,
    host: Seq<char>,
    scheme: Seq<char>,
)
    ensures
        ({
            let h = req.headers;
            let f = requested(no_rules(true), req, ip, Some(host), scheme).headers;
            &&& lookup(f, "X-Forwarded-For"@) == Some(
                match lookup(h, "X-Forwarded-For"@) {
                    Some(x) => if trimmed(x).len() > 0 {
                        x + seq![',', ' '] + ip
                    } else {
                        ip
                    },
                    None => ip,
                },
            )
            &&& lookup(f, "X-Real-IP"@) == Some(ip)
            &&& lookup(f, "X-Forwarded-Host"@) == match lookup(h, "X-Forwarded-Host"@) {
                Some(x) => Some(x),
                None => Some(host),
            }
            &&& lookup(f, "X-Forwarded-Proto"@) == match lookup(h, "X-Forwarded-Proto"@) {
                Some(x) => Some(x),
                None => Some(scheme),
            }
            &&& requested(no_rules(false), req, ip, Some(host), scheme).headers == h
        }),
{
    let h = req.headers;
    let xff = "X-Forwarded-For"@;
    let xri = "X-Real-IP"@;
    let xfh = "X-Forwarded-Host"@;
    let xfp = "X-Forwarded-Proto"@;
    lemma_forwarded_names();
    reveal_strlit(", ");
    assert(", "@ =~= seq![',', ' ']);
    lemma_fold_lookup(h, "x-forwarded-for"@, xff);
    let v = chained(lookup(h, "x-forwarded-for"@), ip);
    let a = with_field(h, xff, v);
    law_set_field_reads_back(h, xff, v, xri);
    law_set_field_reads_back(h, xff, v, xfh);
    law_set_field_reads_back(h, xff, v, xfp);
    let b = with_field(a, xri, ip);
    law_set_field_reads_back(a, xri, ip, xff);
    law_set_field_reads_back(a, xri, ip, xfh);
    law_set_field_reads_back(a, xri, ip, xfp);
    lemma_fold_lookup(b, "x-forwarded-host"@, xfh);
    let c = with_default(b, xfh, "x-forwarded-host"@, host);
    law_set_field_reads_back(b, xfh, host, xff);
    law_set_field_reads_back(b, xfh, host, xri);
    law_set_field_reads_back(b, xfh, host, xfp);
    lemma_fold_lookup(c, "x-forwarded-proto"@, xfp);
    law_set_field_reads_back(c, xfp, scheme, xff);
    law_set_field_reads_back(c, xfp, scheme, xri);
    law_set_field_reads_back(c, xfp, scheme, xfh);
    let none = Seq::<Seq<char>>::empty();
    let f = requested(no_rules(true), req, ip, Some(host), scheme).headers;
    assert(f == injected(h, ip, Some(host), scheme));
}

/// A header that a rule sets has the rule's value alone, one that a rule removes is
/// gone, in a request and in a response, and other headers are left as they are.
pub proof fn law_header_rules_apply(
    req: RequestView,
    resp: ResponseView,
    name: Seq<char>,
    value: Seq<char>,
    other: Seq<char>,
    ip: Seq<char>,
    host: Option<Seq<char>>,
    scheme: Seq<char>,
)
    requires
        !same_fold(other, name),
    ensures
        ({
            let set = RulesView { set_headers: seq![(name, value)], ..no_rules(false) };
            let gone = RulesView { remove_headers: seq![name], ..no_rules(false) };
            let set_back = RulesView { set_resp_headers: seq![(name, value)], ..no_rules(false) };
            let gone_back = RulesView { remove_resp_headers: seq![name], ..no_rules(false) };
            let a = requested(set, req, ip, host, scheme).headers;
            let b = requested(gone, req, ip, host, scheme).headers;
            let c = responded(set_back, resp).headers;
            let d = responded(gone_back, resp).headers;
            &&& lookup(a, name) == Some(value) && occurrences(a, name) == 1
            &&& lookup(a, other) == lookup(req.headers, other)
            &&& lookup(b, name) is None && occurrences(b, name) == 0
            &&& lookup(b, other) == lookup(req.headers, other)
            &&& lookup(c, name) == Some(value) && occurrences(c, name) == 1
            &&& lookup(c, other) == lookup(resp.headers, other)
            &&& lookup(d, name) is None && occurrences(d, name) == 0
            &&& lookup(d, other) == lookup(resp.headers, other)
            &&& responded(set, resp) == resp
            &&& responded(gone, resp) == resp
            &&& requested(set_back, req, ip, host, scheme) == req
            &&& requested(gone_back, req, ip, host, scheme) == req
        }),
{
    let one = seq![(name, value)];
    let names = seq![name];
    assert(one.drop_last() =~= Seq::empty());
    assert(names.drop_last() =~= Seq::empty());
    law_set_field_reads_back(req.headers, name, value, other);
    law_set_field_reads_back(resp.headers, name, value, other);
    law_removed_field_is_gone(req.headers, name, other);
    law_removed_field_is_gone(resp.headers, name, other);
    assert(with_all(req.headers, one) == with_field(with_all(req.headers, one.drop_last()), name, value));
    assert(with_all(resp.headers, one) == with_field(with_all(resp.headers, one.drop_last()), name, value));
    assert(without_all(req.headers, names) == without(without_all(req.headers, names.drop_last()), name));
    assert(without_all(resp.headers, names) == without(without_all(resp.headers, names.drop_last()), name));
}

/// The headers that no rule may touch: those that frame a body or belong to one
/// connection, and the host.
pub proof fn law_some_headers_are_out_of_reach(name: Seq<char>)
    ensures
        is_protected(name) <==> same_fold(name, "Content-Length"@) || same_fold(
            name,
            "Transfer-Encoding"@,
        ) || same_fold(name, "Connection"@) || same_fold(name, "Host"@) || same_fold(
            name,
            "Upgrade"@,
        ) || same_fold(name, "TE"@) || same_fold(name, "Trailer"@),
{
    reveal_strlit("Content-Length");
    reveal_strlit("Transfer-Encoding");
    reveal_strlit("Connection");
    reveal_strlit("Host");
    reveal_strlit("Upgrade");
    reveal_strlit("TE");
    reveal_strlit("Trailer");
    reveal_strlit("content-length");
    reveal_strlit("transfer-encoding");
    reveal_strlit("connection");
    reveal_strlit("host");
    reveal_strlit("upgrade");
    reveal_strlit("te");
    reveal_strlit("trailer");
    assert(lower("Content-Length"@) =~= lower("content-length"@));
    assert(lower("Transfer-Encoding"@) =~= lower("transfer-encoding"@));
    assert(lower("Connection"@) =~= lower("connection"@));
    assert(lower("Host"@) =~= lower("host"@));
    assert(lower("Upgrade"@) =~= lower("upgrade"@));
    assert(lower("TE"@) =~= lower("te"@));
    assert(lower("Trailer"@) =~= lower("trailer"@));
}

proof fn lemma_first_control(s: Seq<char>)
    ensures
        first_control(s) is None <==> forall|k: int| 0 <= k < s.len() ==> !is_control(#[trigger] s[k]),
    decreases s.len(),
{
    if s.len() > 0 {
        let t = s.drop_first();
        lemma_first_control(t);
        assert forall|k: int| 0 < k < s.len() implies s[k] == t[k - 1] by {}
        if is_control(s[0]) {
            assert(!(forall|k: int| 0 <= k < s.len() ==> !is_control(#[trigger] s[k])));
        } else if first_control(t) is None {
            assert forall|k: int| 0 <= k < s.len() implies !is_control(#[trigger] s[k]) by {
                if k > 0 {
                    assert(s[k] == t[k - 1]);
                }
            }
        } else {
            let j = choose|j: int| 0 <= j < t.len() && is_control(#[trigger] t[j]);
            assert(is_control(s[j + 1]));
        }
    }
}

/// A value with a carriage return, a line feed or any other control character is
/// refused, and so is a protected name.
pub proof fn law_header_options_are_checked(key: Seq<char>, name: Seq<char>, value: Seq<char>)
    requires
        !has_char(name, ':'),
        trimmed(name) == name,
        trimmed(value) == value,
    ensures
        pair_of(key, name + seq![':'] + value) is Ok <==> name.len() > 0 && value.len() > 0
            && !is_protected(name) && is_token(name) && (forall|k: int|
            0 <= k < value.len() ==> !is_control(#[trigger] value[k])),
        pair_of(key, name + seq![':'] + value) matches Ok(p) ==> p == (name, value),
{
    let s = name + seq![':'] + value;
    lemma_first_index(name, ':');
    assert forall|k: int| 0 <= k < name.len() implies s[k] != ':' by {
        assert(s[k] == name[k]);
    }
    lemma_first_index_is(s, ':', name.len() as int);
    assert(s.take(name.len() as int) =~= name);
    assert(s.skip(name.len() as int + 1) =~= value);
    lemma_first_control(value);
}

// ---------------------------------------------------------------------------
// Options
// ---------------------------------------------------------------------------

proof fn lemma_one_option(r: RulesView, key: Seq<char>, value: Seq<char>)
    requires
        key.len() > 0,
        value.len() > 0,
        !has_char(key, '='),
        trimmed(key) == key,
        trimmed(value) == value,
    ensures
        step(r, key + seq!['='] + value) == apply(r, key, value),
{
    let s = key + seq!['='] + value;
    lemma_trimmed_ends(key);
    lemma_trimmed_ends(value);
    assert(s[0] == key[0]);
    assert(s.last() == value.last());
    lemma_nothing_to_trim(s);
    lemma_first_index(key, '=');
    assert forall|k: int| 0 <= k < key.len() implies s[k] != '=' by {
        assert(s[k] == key[k]);
    }
    lemma_first_index_is(s, '=', key.len() as int);
    assert(s.take(key.len() as int) =~= key);
    assert(s.skip(key.len() as int + 1) =~= value);
}

proof fn lemma_sole_option(opts: Seq<char>, forwarded: bool)
    requires
        !has_char(opts, ';'),
    ensures
        rules_of(opts, forwarded) == step(no_rules(forwarded), opts),
{
    lemma_first_index(opts, ';');
    let p = pieces(opts, ';');
    assert(p =~= seq![opts]);
    assert(p.drop_first() =~= Seq::empty());
    let r = step(no_rules(forwarded), opts);
    if r is Ok {
        assert(steps(r->Ok_0, p.drop_first()) == r);
    }
}

/// The options of a route: `prefix`, `host` and `strip` set what they name, a slash at
/// the end of `strip` counting for nothing.
pub proof fn law_options_set_what_they_name(value: Seq<char>, forwarded: bool)
    requires
        value.len() > 0,
        trimmed(value) == value,
        !has_char(value, ';'),
    ensures
        rules_of("prefix"@ + seq!['='] + value, forwarded) == Ok::<RulesView, Seq<char>>(
            RulesView { prefix: Some(value), ..no_rules(forwarded) },
        ),
        rules_of("host"@ + seq!['='] + value, forwarded) == Ok::<RulesView, Seq<char>>(
            RulesView { host: Some(value), ..no_rules(forwarded) },
        ),
        value.last() != '/' ==> rules_of("strip"@ + seq!['='] + value, forwarded) == Ok::<
            RulesView,
            Seq<char>,
        >(RulesView { strip: Some(value), ..no_rules(forwarded) }),
        value.last() != '/' && !has_char(value + seq!['/'], ';') ==> rules_of(
            "strip"@ + seq!['='] + (value + seq!['/']),
            forwarded,
        ) == Ok::<RulesView, Seq<char>>(RulesView { strip: Some(value), ..no_rules(forwarded) }),
{
    let none = no_rules(forwarded);
    reveal_strlit("prefix");
    reveal_strlit("host");
    reveal_strlit("strip");
    lemma_first_index_is("prefix"@, '=', 6);
    lemma_first_index_is("host"@, '=', 4);
    lemma_first_index_is("strip"@, '=', 5);
    lemma_nothing_to_trim("prefix"@);
    lemma_nothing_to_trim("host"@);
    lemma_nothing_to_trim("strip"@);
    assert("prefix"@.len() == 6 && "host"@.len() == 4 && "strip"@.len() == 5);
    lemma_one_option(none, "prefix"@, value);
    lemma_one_option(none, "host"@, value);
    lemma_one_option(none, "strip"@, value);
    lemma_no_semicolon("prefix"@, value);
    lemma_no_semicolon("host"@, value);
    lemma_no_semicolon("strip"@, value);
    lemma_sole_option("prefix"@ + seq!['='] + value, forwarded);
    lemma_sole_option("host"@ + seq!['='] + value, forwarded);
    lemma_sole_option("strip"@ + seq!['='] + value, forwarded);
    let slashed = value + seq!['/'];
    if value.last() != '/' && !has_char(slashed, ';') {
        lemma_trimmed_ends(value);
        assert(slashed[0] == value[0]);
        assert(slashed.last() == '/');
        lemma_nothing_to_trim(slashed);
        lemma_one_option(none, "strip"@, slashed);
        lemma_no_semicolon("strip"@, slashed);
        lemma_sole_option("strip"@ + seq!['='] + slashed, forwarded);
        assert(slashed.drop_last() =~= value);
        assert(dropped_end(slashed, '/') == value);
    }
}

proof fn lemma_no_semicolon(key: Seq<char>, value: Seq<char>)
    requires
        forall|k: int| 0 <= k < key.len() ==> key[k] != ';',
        !has_char(value, ';'),
    ensures
        !has_char(key + seq!['='] + value, ';'),
{
    let s = key + seq!['='] + value;
    lemma_first_index(value, ';');
    assert forall|k: int| 0 <= k < s.len() implies s[k] != ';' by {
        if k < key.len() {
            assert(s[k] == key[k]);
        } else if k > key.len() {
            assert(s[k] == value[k - key.len() - 1]);
        }
    }
    lemma_first_index_is(s, ';', s.len() as int);
}

/// An option sets one rule more: those before it stay.
pub proof fn law_header_options_add_a_rule(r: RulesView, name: Seq<char>, value: Seq<char>)
    requires
        free_pair((name, value)),
        !has_char(name, ':'),
        trimmed(name) == name,
        trimmed(value) == value,
    ensures
        apply(r, "set-header"@, name + seq![':'] + value) == Ok::<RulesView, Seq<char>>(
            RulesView { set_headers: r.set_headers.push((name, value)), ..r },
        ),
        apply(r, "set-resp-header"@, name + seq![':'] + value) == Ok::<RulesView, Seq<char>>(
            RulesView { set_resp_headers: r.set_resp_headers.push((name, value)), ..r },
        ),
        apply(r, "remove-header"@, name) == Ok::<RulesView, Seq<char>>(
            RulesView { remove_headers: r.remove_headers.push(name), ..r },
        ),
        apply(r, "remove-resp-header"@, name) == Ok::<RulesView, Seq<char>>(
            RulesView { remove_resp_headers: r.remove_resp_headers.push(name), ..r },
        ),
{
    lemma_first_control(value);
    law_header_options_are_checked("set-header"@, name, value);
    law_header_options_are_checked("set-resp-header"@, name, value);
    reveal_strlit("strip");
    reveal_strlit("prefix");
    reveal_strlit("host");
    reveal_strlit("set-header");
    reveal_strlit("set-resp-header");
    reveal_strlit("remove-header");
    reveal_strlit("remove-resp-header");
    assert("strip"@.len() == 5 && "prefix"@.len() == 6 && "host"@.len() == 4 && "set-header"@.len()
        == 10 && "set-resp-header"@.len() == 15 && "remove-header"@.len() == 13
        && "remove-resp-header"@.len() == 18);
}

} // verus!
