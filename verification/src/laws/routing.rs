//! Which route a request gets.

use vstd::prelude::*;

use super::{differ_at, first_named, law_a_lookup_gives_the_first_field, lemma_differ_elsewhere};
use super::message::law_ports_are_cut_off;
use crate::http::RequestView;
use crate::proxy::exchange::{gate_of_request, host_of, route_for, GateView};
use crate::router::{
    accepts, best, law_the_most_specific_route_wins, matchers_of, path_of, takes, MatchersView,
    PathView, RouteView,
};
use crate::security::Limits;
use crate::text::{
    before, first_index, has_char, is_alpha, last_index, lemma_first_index, lemma_first_index_is,
    lemma_last_index, lemma_last_index_is, lower, same_fold, starts, upper, without_prefix,
    without_suffix,
};

verus! {

// ---------------------------------------------------------------------------
// Hosts
// ---------------------------------------------------------------------------

/// A port in the `Host` of a request does not matter: the request with it and the one
/// without it get the same route and the same answer, and a route for the name takes
/// both, in any case.
pub proof fn law_the_port_of_a_host_does_not_matter(
    a: RequestView,
    b: RequestView,
    i: int,
    name: Seq<char>,
    port: Seq<char>,
    routes: Seq<RouteView>,
    limits: Limits,
)
    requires
        a == (RequestView { headers: a.headers, ..b }),
        differ_at(a.headers, b.headers, i),
        first_named(a.headers, "host"@, i),
        a.headers[i].1 == name + seq![':'] + port,
        b.headers[i].1 == name,
        !has_char(name, ':'),
        name.len() > 0 ==> name[0] != '[',
    ensures
        route_for(routes, a) == route_for(routes, b),
        match (gate_of_request(a, limits, routes), gate_of_request(b, limits, routes)) {
            (
                GateView::Pass { framing, keep, route, .. },
                GateView::Pass { framing: f, keep: k, route: r, .. },
            ) => framing == f && keep == k && route == r,
            (GateView::Refuse(x), GateView::Refuse(y)) => x == y,
            _ => false,
        },
        host_of(a.headers) == Some(name),
        forall|r: RouteView|
            r.host matches Some(h) && same_fold(h, name) && r.method is None && takes(
                r.path,
                before(a.target, '?'),
            ) ==> #[trigger] accepts(r, a.method, host_of(a.headers), before(a.target, '?')),
{
    law_ports_are_cut_off(name, port);
    assert(first_named(b.headers, "host"@, i)) by {
        assert forall|k: int| 0 <= k < i implies !same_fold((#[trigger] b.headers[k]).0, "host"@) by {
            assert(a.headers[k] == b.headers[k]);
            assert(!same_fold(a.headers[k].0, "host"@));
        }
    }
    law_a_lookup_gives_the_first_field(a.headers, "host"@, i);
    law_a_lookup_gives_the_first_field(b.headers, "host"@, i);
    reveal_strlit("host");
    reveal_strlit("content-length");
    reveal_strlit("transfer-encoding");
    reveal_strlit("connection");
    assert(lower("host"@).len() == 4);
    assert(lower("content-length"@).len() == 14);
    assert(lower("transfer-encoding"@).len() == 17);
    assert(lower("connection"@).len() == 10);
    lemma_differ_elsewhere(a.headers, b.headers, i, "content-length"@);
    lemma_differ_elsewhere(a.headers, b.headers, i, "transfer-encoding"@);
    lemma_differ_elsewhere(a.headers, b.headers, i, "connection"@);
}

/// A route takes a request where its host, its method and its path do: hosts and
/// methods are equal up to case, and what is not named is not asked for.
pub proof fn law_a_route_takes_what_it_names(
    r: RouteView,
    method: Seq<char>,
    host: Option<Seq<char>>,
    path: Seq<char>,
)
    ensures
        r.host is Some && host is None ==> !accepts(r, method, host, path),
        r.host is Some && host is Some && !same_fold(r.host->0, host->0) ==> !accepts(
            r,
            method,
            host,
            path,
        ),
        r.method is Some && !same_fold(r.method->0, method) ==> !accepts(r, method, host, path),
        !takes(r.path, path) ==> !accepts(r, method, host, path),
        takes(r.path, path) && (r.host is None || (host is Some && same_fold(r.host->0, host->0)))
            && (r.method is None || same_fold(r.method->0, method)) ==> accepts(
            r,
            method,
            host,
            path,
        ),
{
}

// ---------------------------------------------------------------------------
// Paths
// ---------------------------------------------------------------------------

proof fn lemma_suffix(a: Seq<char>, b: Seq<char>)
    ensures
        without_suffix(a + b, b) == Some(a),
{
    assert((a + b).skip(a.len() as int) =~= b);
    assert((a + b).take(a.len() as int) =~= a);
}

proof fn lemma_prefix(a: Seq<char>, b: Seq<char>)
    ensures
        starts(a + b, a),
        without_prefix(a + b, a) == Some(b),
{
    assert((a + b).take(a.len() as int) =~= a);
    assert((a + b).skip(a.len() as int) =~= b);
}

/// `dir/**` takes everything below the directory, at any depth, and nothing else.
pub proof fn law_double_stars_take_what_is_below(dir: Seq<char>, rest: Seq<char>, path: Seq<char>)
    ensures
        takes(path_of(dir + seq!['/', '*', '*']), dir + seq!['/'] + rest),
        path.len() <= dir.len() || path.take(dir.len() as int + 1) != dir + seq!['/'] ==> !takes(
            path_of(dir + seq!['/', '*', '*']),
            path,
        ),
{
    reveal_strlit("/**");
    reveal_strlit("/");
    assert("/**"@ =~= seq!['/', '*', '*']);
    assert("/"@ =~= seq!['/']);
    lemma_suffix(dir, "/**"@);
    lemma_prefix(dir + seq!['/'], rest);
}

/// `dir/*` takes what is one segment below the directory, and nothing deeper.
pub proof fn law_a_star_takes_one_segment(dir: Seq<char>, seg: Seq<char>)
    ensures
        seg.len() > 0 && !has_char(seg, '/') ==> takes(
            path_of(dir + seq!['/', '*']),
            dir + seq!['/'] + seg,
        ),
        seg.len() == 0 || has_char(seg, '/') ==> !takes(
            path_of(dir + seq!['/', '*']),
            dir + seq!['/'] + seg,
        ),
{
    reveal_strlit("/**");
    reveal_strlit("/*");
    reveal_strlit("/");
    let e = dir + seq!['/', '*'];
    assert("/*"@ =~= seq!['/', '*']);
    assert("/"@ =~= seq!['/']);
    lemma_suffix(dir, "/*"@);
    assert(e.len() >= 2);
    assert(without_suffix(e, "/**"@) is None) by {
        if e.len() >= 3 && e.skip(e.len() - 3) == "/**"@ {
            assert(e.skip(e.len() - 3)[1] == e[e.len() - 2]);
            assert(e[e.len() - 2] == '/');
            assert("/**"@[1] == '*');
        }
    }
    assert(e != "/"@);
    lemma_prefix(dir + seq!['/'], seg);
}

/// `/` takes every path; a path without a star at its end takes itself alone.
pub proof fn law_other_paths_take_themselves(expr: Seq<char>, path: Seq<char>)
    requires
        expr.len() > 0,
        expr.last() != '*',
    ensures
        expr == seq!['/'] ==> takes(path_of(expr), path),
        expr != seq!['/'] ==> (takes(path_of(expr), path) <==> path == expr),
{
    reveal_strlit("/**");
    reveal_strlit("/*");
    reveal_strlit("/");
    assert("/"@ =~= seq!['/']);
    assert(without_suffix(expr, "/**"@) is None) by {
        if expr.len() >= 3 && expr.skip(expr.len() - 3) == "/**"@ {
            assert(expr.skip(expr.len() - 3)[2] == expr.last());
        }
    }
    assert(without_suffix(expr, "/*"@) is None) by {
        if expr.len() >= 2 && expr.skip(expr.len() - 2) == "/*"@ {
            assert(expr.skip(expr.len() - 2)[1] == expr.last());
        }
    }
}

// ---------------------------------------------------------------------------
// Precedence
// ---------------------------------------------------------------------------

/// How two paths of one kind compare.
pub open spec fn as_long(a: PathView, b: PathView) -> bool {
    match (a, b) {
        (PathView::Prefix(x), PathView::Prefix(y)) => x.len() >= y.len(),
        (PathView::Wildcard(x), PathView::Wildcard(y)) => x.len() >= y.len(),
        _ => true,
    }
}

/// Two paths of one kind and, where that counts, of one length.
pub open spec fn alike(a: PathView, b: PathView) -> bool {
    match (a, b) {
        (PathView::Prefix(x), PathView::Prefix(y)) => x.len() == y.len(),
        (PathView::Wildcard(x), PathView::Wildcard(y)) => x.len() == y.len(),
        (PathView::Exact(_), PathView::Exact(_)) => true,
        (PathView::Regex(_), PathView::Regex(_)) => true,
        (PathView::Any, PathView::Any) => true,
        _ => false,
    }
}

/// Of the routes that take a request, an exact path comes first, then a single star,
/// then a prefix, then an expression, then the catch-all; within a kind the longest
/// comes first. Only between paths that are alike a host counts, then a method, and
/// then the order of declaration.
pub proof fn law_precedence(
    v: Seq<RouteView>,
    method: Seq<char>,
    host: Option<Seq<char>>,
    path: Seq<char>,
    i: int,
)
    requires
        0 <= i < v.len(),
        accepts(v[i], method, host, path),
    ensures
        best(v, v.len() as int, method, host, path) is Some,
        ({
            let b = best(v, v.len() as int, method, host, path)->0;
            let w = v[b];
            &&& 0 <= b < v.len() && accepts(w, method, host, path)
            &&& v[i].path is Exact ==> w.path is Exact
            &&& v[i].path is Wildcard ==> w.path is Exact || w.path is Wildcard
            &&& v[i].path is Prefix ==> !(w.path is Regex) && !(w.path is Any)
            &&& v[i].path is Regex ==> !(w.path is Any)
            &&& as_long(w.path, v[i].path)
            &&& alike(w.path, v[i].path) && v[i].host is Some ==> w.host is Some
            &&& alike(w.path, v[i].path) && w.host is Some == v[i].host is Some
                && v[i].method is Some ==> w.method is Some
            &&& alike(w.path, v[i].path) && w.host is Some == v[i].host is Some && w.method is Some
                == v[i].method is Some ==> b <= i
        }),
{
    law_the_most_specific_route_wins(v, v.len() as int, method, host, path);
}

/// A request that no route takes has none.
pub proof fn law_what_no_route_takes_has_none(
    v: Seq<RouteView>,
    method: Seq<char>,
    host: Option<Seq<char>>,
    path: Seq<char>,
)
    requires
        forall|i: int| 0 <= i < v.len() ==> !accepts(#[trigger] v[i], method, host, path),
    ensures
        best(v, v.len() as int, method, host, path) is None,
{
    law_the_most_specific_route_wins(v, v.len() as int, method, host, path);
}

/// A route is looked for by the path without its query.
pub proof fn law_the_query_does_not_route(routes: Seq<RouteView>, req: RequestView, path: Seq<char>, query: Seq<char>)
    requires
        !has_char(path, '?'),
    ensures
        route_for(routes, RequestView { target: path + seq!['?'] + query, ..req }) == route_for(
            routes,
            RequestView { target: path, ..req },
        ),
{
    let s = path + seq!['?'] + query;
    lemma_first_index(path, '?');
    assert forall|k: int| 0 <= k < path.len() implies s[k] != '?' by {
        assert(s[k] == path[k]);
    }
    lemma_first_index_is(s, '?', path.len() as int);
    assert(s.take(path.len() as int) =~= path);
    assert(path.take(path.len() as int) =~= path);
}

// ---------------------------------------------------------------------------
// Declarations
// ---------------------------------------------------------------------------

/// No character of a text is one of those that separate the parts of a declaration.
pub open spec fn unseparated(s: Seq<char>) -> bool {
    !has_char(s, ';') && !has_char(s, '=') && !has_char(s, ' ')
}

proof fn lemma_no_char_in(s: Seq<char>, c: char, k: int)
    requires
        !has_char(s, c),
        0 <= k < s.len(),
    ensures
        s[k] != c,
{
    lemma_first_index(s, c);
}

/// A declaration `[METHOD ]host/path=target[;options]` is taken apart: the host in
/// lower case, the method in upper case, the path with its stars, the target and the
/// options.
pub proof fn law_declarations_are_read(
    method: Seq<char>,
    host: Seq<char>,
    path: Seq<char>,
    target: Seq<char>,
    options: Seq<char>,
)
    requires
        unseparated(host),
        unseparated(path),
        !has_char(host, '/'),
        host.len() > 0 ==> host[0] != '~',
        path.len() > 0,
        path[0] == '/',
        target.len() > 0,
        !has_char(target, '='),
        !has_char(target, ';'),
        forall|k: int| 0 <= k < method.len() ==> is_alpha(#[trigger] method[k]),
    ensures
        ({
            let lead = if method.len() > 0 {
                method + seq![' ']
            } else {
                Seq::empty()
            };
            let spec = lead + (host + path) + seq!['='] + target;
            let want = MatchersView {
                host: if host.len() > 0 {
                    Some(lower(host))
                } else {
                    None
                },
                method: if method.len() > 0 {
                    Some(upper(method))
                } else {
                    None
                },
                path: path_of(path),
                target,
                options: Seq::empty(),
            };
            &&& matchers_of(spec) == Ok::<MatchersView, Seq<char>>(want)
            &&& matchers_of(spec + seq![';'] + options) == Ok::<MatchersView, Seq<char>>(
                MatchersView { options, ..want },
            )
        }),
{
    let lead = if method.len() > 0 {
        method + seq![' ']
    } else {
        Seq::empty()
    };
    let place = host + path;
    let m = lead + place;
    let base = m + seq!['='] + target;
    let full = base + seq![';'] + options;
    reveal_strlit("~");
    lemma_first_index(base, ';');
    assert forall|k: int| 0 <= k < m.len() implies m[k] != ';' && m[k] != '=' by {
        if k < lead.len() {
            assert(m[k] == lead[k]);
            if k < method.len() {
                assert(is_alpha(method[k]));
            }
        } else {
            let j = k - lead.len();
            assert(m[k] == place[j]);
            if j < host.len() {
                assert(place[j] == host[j]);
                lemma_no_char_in(host, ';', j);
                lemma_no_char_in(host, '=', j);
            } else {
                assert(place[j] == path[j - host.len()]);
                lemma_no_char_in(path, ';', j - host.len());
                lemma_no_char_in(path, '=', j - host.len());
            }
        }
    }
    assert forall|k: int| 0 <= k < base.len() implies base[k] != ';' by {
        if k < m.len() {
            assert(base[k] == m[k]);
        } else if k > m.len() {
            assert(base[k] == target[k - m.len() - 1]);
            lemma_no_char_in(target, ';', k - m.len() - 1);
        }
    }
    lemma_first_index_is(base, ';', base.len() as int);
    assert forall|k: int| 0 <= k < base.len() implies full[k] != ';' by {
        assert(full[k] == base[k]);
    }
    assert(full[base.len() as int] == ';');
    lemma_first_index_is(full, ';', base.len() as int);
    assert(full.take(base.len() as int) =~= base);
    assert(full.skip(base.len() as int + 1) =~= options);
    assert forall|k: int| m.len() < k < base.len() implies base[k] != '=' by {
        assert(base[k] == target[k - m.len() - 1]);
        lemma_no_char_in(target, '=', k - m.len() - 1);
    }
    assert(base[m.len() as int] == '=');
    lemma_last_index_is(base, '=', m.len() as int);
    assert(base.take(m.len() as int) =~= m);
    assert(base.skip(m.len() as int + 1) =~= target);
    assert forall|k: int| 0 <= k < place.len() implies place[k] != ' ' by {
        if k < host.len() {
            assert(place[k] == host[k]);
            lemma_no_char_in(host, ' ', k);
        } else {
            assert(place[k] == path[k - host.len()]);
            lemma_no_char_in(path, ' ', k - host.len());
        }
    }
    if method.len() > 0 {
        assert forall|k: int| 0 <= k < method.len() implies m[k] != ' ' by {
            assert(is_alpha(method[k]));
            assert(m[k] == method[k]);
        }
        assert(m[method.len() as int] == ' ');
        lemma_first_index_is(m, ' ', method.len() as int);
        assert(m.take(method.len() as int) =~= method);
        assert(m.skip(method.len() as int + 1) =~= place);
    } else {
        assert(m =~= place);
        lemma_first_index_is(m, ' ', m.len() as int);
    }
    assert(without_prefix(place, "~"@) is None) by {
        if host.len() > 0 {
            assert(place[0] == host[0]);
        } else {
            assert(place[0] == path[0]);
        }
        if place.len() >= 1 {
            assert(place.take(1)[0] == place[0]);
            assert("~"@[0] == '~');
        }
    }
    assert forall|k: int| 0 <= k < host.len() implies place[k] != '/' by {
        assert(place[k] == host[k]);
        lemma_no_char_in(host, '/', k);
    }
    assert(place[host.len() as int] == path[0]);
    lemma_first_index_is(place, '/', host.len() as int);
    assert(place.take(host.len() as int) =~= host);
    assert(place.skip(host.len() as int) =~= path);
}

/// A declaration without a target is refused.
pub proof fn law_declarations_need_a_target(spec: Seq<char>)
    requires
        !has_char(spec, '='),
    ensures
        matchers_of(spec) is Err,
        !has_char(spec, ';') ==> matchers_of(spec + seq!['=']) is Err,
{
    lemma_first_index(spec, '=');
    lemma_first_index(spec, ';');
    let base = if first_index(spec, ';') < spec.len() {
        spec.take(first_index(spec, ';'))
    } else {
        spec
    };
    lemma_last_index(base, '=');
    if last_index(base, '=') >= 0 {
        assert(base[last_index(base, '=')] == spec[last_index(base, '=')]);
    }
    let s = spec + seq!['='];
    if !has_char(spec, ';') {
        assert forall|k: int| 0 <= k < s.len() implies s[k] != ';' by {
            if k < spec.len() {
                assert(s[k] == spec[k]);
            }
        }
        lemma_first_index_is(s, ';', s.len() as int);
        assert(s[spec.len() as int] == '=');
        lemma_last_index_is(s, '=', spec.len() as int);
        assert(s.skip(s.len() as int).len() == 0);
    }
}

/// An expression takes every path in which it is found.
pub proof fn law_expressions_take_what_they_match(pattern: Seq<char>, path: Seq<char>)
    ensures
        takes(PathView::Regex(pattern), path) <==> crate::pattern::regex_finds(pattern, path),
{
}

} // verus!
