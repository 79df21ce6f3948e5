//! Routing: which pool serves a request.
//!
//! Several routes usually match one request, and the most specific of them wins.
//! How a route matches the path counts first; of two routes with the same path the
//! one that also names a host, or else a method, is the more specific one; between
//! equals the route that was declared first wins.

use vstd::prelude::*;
use vstd::string::{StrSliceExecFns, StringExecFns};

use crate::balancer::breaker::{change, default_health, BreakerState};
use crate::balancer::spec::{host_port, is_built, is_host_port};
use crate::balancer::{
    chosen, default_pool, moved_on, released, taken, Algorithm, Lease, PoolView, Upstream,
};
use crate::fault::{bad_input, Fault, FaultKind, Outcome};
use crate::ip::IpAddr;
use crate::middleware::options::{
    is_l6_key, l6_key, no_options, number_texts, numbers_in, options_of, readings, summary_parts,
    OptionsView,
};
use crate::middleware::{MiddlewareConfig, Number};
use crate::pattern::{regex_error, regex_finds, Pattern};
use crate::rewrite::{is_l5_key, l5_key, no_rules, rules_of, RewriteRules, RulesView};
use crate::text::{
    alpha, chars_of, contains_char, cut, debug_text, find_from, first_index, has_char, is_alpha,
    join, joined, lemma_first_index, lemma_first_index_is, lower, lowercase, maybe, own, pieces, push_text, quoted, rcut, rsplit_once, same,
    same_fold, same_ignoring_case, slice, slices, split, split_once, starts, starts_with,
    strip_prefix, strip_suffix, texts, trim, trimmed, upper, uppercase, without_prefix,
    without_suffix,
};
use crate::time::Instant;

verus! {

// ---------------------------------------------------------------------------
// Paths
// ---------------------------------------------------------------------------

/// How a route matches the path of a request.
#[derive(Debug)]
pub enum PathMatcher {
    /// This path alone.
    Exact(String),
    /// Every path that starts so.
    Prefix(String),
    /// Every path that starts so and goes on with one segment.
    Wildcard(String),
    /// Every path in which the expression matches.
    Regex(Pattern),
    /// Every path.
    Any,
}

/// What a matcher is.
pub enum PathView {
    Exact(Seq<char>),
    Prefix(Seq<char>),
    Wildcard(Seq<char>),
    Regex(Seq<char>),
    Any,
}

impl View for PathMatcher {
    type V = PathView;

    open spec fn view(&self) -> PathView {
        match *self {
            PathMatcher::Exact(p) => PathView::Exact(p@),
            PathMatcher::Prefix(p) => PathView::Prefix(p@),
            PathMatcher::Wildcard(p) => PathView::Wildcard(p@),
            PathMatcher::Regex(re) => PathView::Regex(re@),
            PathMatcher::Any => PathView::Any,
        }
    }
}

/// The matcher takes the path.
pub open spec fn takes(m: PathView, path: Seq<char>) -> bool {
    match m {
        PathView::Exact(p) => path == p,
        PathView::Prefix(p) => starts(path, p),
        PathView::Wildcard(p) => match without_prefix(path, p) {
            Some(rest) => rest.len() > 0 && !has_char(rest, '/'),
            None => false,
        },
        PathView::Regex(p) => regex_finds(p, path),
        PathView::Any => true,
    }
}

/// How specific the kind of a matcher is.
pub open spec fn rank(m: PathView) -> int {
    match m {
        PathView::Exact(_) => 4,
        PathView::Wildcard(_) => 3,
        PathView::Prefix(_) => 2,
        PathView::Regex(_) => 1,
        PathView::Any => 0,
    }
}

/// The length that tells matchers of one kind apart: the longest prefix wins.
pub open spec fn reach(m: PathView) -> nat {
    match m {
        PathView::Wildcard(p) => p.len(),
        PathView::Prefix(p) => p.len(),
        _ => 0,
    }
}

/// A matcher for the startup banner.
pub open spec fn path_text(m: PathView) -> Seq<char> {
    match m {
        PathView::Exact(p) => "path="@ + p,
        PathView::Prefix(p) => "prefix="@ + p,
        PathView::Wildcard(p) => "wildcard="@ + p + "*"@,
        PathView::Regex(p) => "regex="@ + p,
        PathView::Any => "any"@,
    }
}

impl PathMatcher {
    /// Does the matcher take the path?
    pub fn matches(&self, path: &str) -> (r: bool)
        ensures
            r == takes(self@, path@),
    {
        match self {
            PathMatcher::Exact(p) => same(path, p.as_str()),
            PathMatcher::Prefix(p) => starts_with(path, p.as_str()),
            PathMatcher::Wildcard(p) => match strip_prefix(path, p.as_str()) {
                Some(rest) => rest.unicode_len() > 0 && !contains_char(rest, '/'),
                None => false,
            },
            PathMatcher::Regex(re) => re.is_match(path),
            PathMatcher::Any => true,
        }
    }

    /// How specific the matcher is: its kind, and the length within the kind.
    pub fn specificity(&self) -> (r: (u8, usize))
        ensures
            r.0 == rank(self@),
            r.1 == reach(self@),
    {
        match self {
            PathMatcher::Exact(_) => (4, 0),
            PathMatcher::Wildcard(p) => (3, p.as_str().unicode_len()),
            PathMatcher::Prefix(p) => (2, p.as_str().unicode_len()),
            PathMatcher::Regex(_) => (1, 0),
            PathMatcher::Any => (0, 0),
        }
    }

    /// The matcher for the startup banner.
    pub fn describe(&self) -> (r: String)
        ensures
            r@ == path_text(self@),
    {
        match self {
            PathMatcher::Exact(p) => own("path=").concat(p.as_str()),
            PathMatcher::Prefix(p) => own("prefix=").concat(p.as_str()),
            PathMatcher::Wildcard(p) => own("wildcard=").concat(p.as_str()).concat("*"),
            PathMatcher::Regex(re) => own("regex=").concat(re.as_str()),
            PathMatcher::Any => own("any"),
        }
    }
}

// ---------------------------------------------------------------------------
// Routes
// ---------------------------------------------------------------------------

/// The pool of a route.
#[derive(Debug)]
pub enum Target {
    /// A declared pool, by its place among them: routes with the same place share
    /// the pool and its counters.
    Declared(usize),
    /// A pool of one server, of this route alone.
    Own(Upstream),
}

/// What the pool of a route is.
pub enum TargetView {
    Declared(usize),
    Own(PoolView),
}

impl View for Target {
    type V = TargetView;

    open spec fn view(&self) -> TargetView {
        match *self {
            Target::Declared(i) => TargetView::Declared(i),
            Target::Own(u) => TargetView::Own(u@),
        }
    }
}

/// One routing rule.
#[derive(Debug)]
pub struct Route {
    /// The host that a request must ask for, in any case; without one, any host.
    pub host: Option<String>,
    /// The method that a request must have; without one, any method.
    pub method: Option<String>,
    pub path: PathMatcher,
    pub upstream: Target,
    /// How requests and responses of the route are rewritten.
    pub rules: RewriteRules,
    /// The layers that requests of the route pass.
    pub chain: MiddlewareConfig,
}

/// What a route is.
pub struct RouteView {
    pub host: Option<Seq<char>>,
    pub method: Option<Seq<char>>,
    pub path: PathView,
    pub upstream: TargetView,
    pub rules: RulesView,
    pub chain: OptionsView,
}

impl View for Route {
    type V = RouteView;

    open spec fn view(&self) -> RouteView {
        RouteView {
            host: maybe(self.host),
            method: maybe(self.method),
            path: self.path@,
            upstream: self.upstream@,
            rules: self.rules@,
            chain: self.chain@,
        }
    }
}

/// What routes are.
pub open spec fn route_views(v: Seq<Route>) -> Seq<RouteView> {
    Seq::new(v.len(), |i: int| v[i]@)
}

/// The route takes a request of that method, host and path.
pub open spec fn accepts(
    r: RouteView,
    method: Seq<char>,
    host: Option<Seq<char>>,
    path: Seq<char>,
) -> bool {
    &&& match r.host {
        Some(h) => host is Some && same_fold(host->0, h),
        None => true,
    }
    &&& match r.method {
        Some(m) => same_fold(method, m),
        None => true,
    }
    &&& takes(r.path, path)
}

/// How narrow a route is beside its path: a host counts more than a method.
pub open spec fn scope(r: RouteView) -> int {
    (if r.host is Some {
        2int
    } else {
        0
    }) + (if r.method is Some {
        1int
    } else {
        0
    })
}

/// The one route is more specific than the other: by its kind of path, then by the
/// length of its path, then by its scope.
pub open spec fn outranks(a: RouteView, b: RouteView) -> bool {
    ||| rank(a.path) > rank(b.path)
    ||| rank(a.path) == rank(b.path) && reach(a.path) > reach(b.path)
    ||| rank(a.path) == rank(b.path) && reach(a.path) == reach(b.path) && scope(a) > scope(b)
}

/// Of the first `n` routes, the most specific one that takes a request; of equals
/// the first.
pub open spec fn best(
    v: Seq<RouteView>,
    n: int,
    method: Seq<char>,
    host: Option<Seq<char>>,
    path: Seq<char>,
) -> Option<int>
    decreases n,
{
    if n <= 0 {
        None
    } else {
        let b = best(v, n - 1, method, host, path);
        if accepts(v[n - 1], method, host, path) && (b is None || outranks(v[n - 1], v[b->0])) {
            Some(n - 1)
        } else {
            b
        }
    }
}

impl Route {
    /// A route that takes every request and serves it from one server.
    pub fn catch_all(backend: &str) -> (r: Route)
        ensures
            r@.host is None,
            r@.method is None,
            r@.path is Any,
            r@.rules == no_rules(true),
            r@.chain == no_options(true, true),
            r.upstream is Own,
            is_single(r.upstream->Own_0, backend@),
    {
        Route {
            host: None,
            method: None,
            path: PathMatcher::Any,
            upstream: Target::Own(Upstream::single(backend)),
            rules: RewriteRules::default(),
            chain: default_chain(true, true),
        }
    }

    /// Does the route take a request of that method, host and path?
    pub fn matches(&self, method: &str, host: Option<&str>, path: &str) -> (r: bool)
        ensures
            r == accepts(self@, method@, slice(host), path@),
    {
        if let Some(h) = &self.host {
            match host {
                Some(asked) => {
                    if !same_ignoring_case(asked, h.as_str()) {
                        return false;
                    }
                },
                None => {
                    return false;
                },
            }
        }
        if let Some(m) = &self.method {
            if !same_ignoring_case(method, m.as_str()) {
                return false;
            }
        }
        self.path.matches(path)
    }

    /// How specific the route is: its path, and then its scope.
    pub fn specificity(&self) -> (r: (u8, usize, u8))
        ensures
            r.0 == rank(self@.path),
            r.1 == reach(self@.path),
            r.2 == scope(self@),
    {
        let (kind, len) = self.path.specificity();
        let mut s: u8 = 0;
        if self.host.is_some() {
            s = s + 2;
        }
        if self.method.is_some() {
            s = s + 1;
        }
        (kind, len, s)
    }
}

/// The pool of one server at that address.
pub open spec fn is_single(u: Upstream, addr: Seq<char>) -> bool {
    &&& u.wf()
    &&& is_built(
        u@,
        addr,
        Algorithm::RoundRobin,
        seq![(addr, 1u32)],
        default_health(),
        default_pool(),
    )
}

/// The layers of a route without options.
pub fn default_chain(request_id: bool, access_log: bool) -> (r: MiddlewareConfig)
    ensures
        r@ == no_options(request_id, access_log),
{
    MiddlewareConfig::plain(request_id, access_log)
}

// ---------------------------------------------------------------------------
// The table
// ---------------------------------------------------------------------------

/// The routes, and the pools that were declared for them.
#[derive(Debug)]
pub struct RouteTable {
    pub routes: Vec<Route>,
    pub pools: Vec<Upstream>,
}

/// What a table holds.
pub struct TableView {
    pub routes: Seq<RouteView>,
    pub pools: Seq<PoolView>,
}

impl View for RouteTable {
    type V = TableView;

    open spec fn view(&self) -> TableView {
        TableView {
            routes: route_views(self.routes@),
            pools: Seq::new(self.pools@.len(), |k: int| self.pools@[k]@),
        }
    }
}

/// The pool of the route at a place.
pub open spec fn pool_at(t: TableView, i: int) -> PoolView {
    match t.routes[i].upstream {
        TargetView::Declared(k) => t.pools[k as int],
        TargetView::Own(u) => u,
    }
}

/// The table with another pool for the route at a place, and for all routes that
/// share it.
pub open spec fn with_pool(t: TableView, i: int, p: PoolView) -> TableView {
    match t.routes[i].upstream {
        TargetView::Declared(k) => TableView { pools: t.pools.update(k as int, p), ..t },
        TargetView::Own(_) => TableView {
            routes: t.routes.update(i, RouteView { upstream: TargetView::Own(p), ..t.routes[i] }),
            ..t
        },
    }
}

/// A route among the first `n` has that declared pool.
pub open spec fn refers(v: Seq<RouteView>, n: int, pool: usize) -> bool {
    exists|j: int| 0 <= j < n && (#[trigger] v[j]).upstream == TargetView::Declared(pool)
}

/// Of the first `n` routes, those with a pool that no route before them has.
pub open spec fn firsts(v: Seq<RouteView>, n: int) -> Seq<usize>
    decreases n,
{
    if n <= 0 {
        Seq::empty()
    } else {
        let r = firsts(v, n - 1);
        match v[n - 1].upstream {
            TargetView::Declared(i) => if refers(v, n - 1, i) {
                r
            } else {
                r.push((n - 1) as usize)
            },
            TargetView::Own(_) => r.push((n - 1) as usize),
        }
    }
}

/// The text of an option, or a star.
pub open spec fn or_star(s: Option<Seq<char>>) -> Seq<char> {
    match s {
        Some(t) => t,
        None => "*"@,
    }
}

/// A pool for the startup banner.
pub open spec fn pool_text(p: PoolView) -> Seq<char> {
    "["@ + p.algorithm.tag_text() + "] "@ + joined(
        Seq::new(p.servers.len(), |i: int| p.servers[i].addr),
        ", "@,
    )
}

/// A route for the startup banner.
pub open spec fn route_text(r: RouteView, pool: PoolView, rate: Seq<char>, burst: Seq<char>) -> Seq<
    char,
> {
    or_star(r.method) + " "@ + or_star(r.host) + " "@ + path_text(r.path) + " -> "@ + pool_text(
        pool,
    ) + " (middleware: "@ + joined(summary_parts(r.chain, rate, burst), ", "@) + ")"@
}

impl RouteTable {
    /// Every route's pool exists, and every pool is well formed.
    pub open spec fn wf(&self) -> bool {
        &&& forall|i: int|
            0 <= i < self.routes@.len() ==> match (#[trigger] self.routes@[i]).upstream {
                Target::Declared(k) => k < self.pools@.len(),
                Target::Own(u) => u.wf(),
            }
        &&& forall|k: int| 0 <= k < self.pools@.len() ==> (#[trigger] self.pools@[k]).wf()
    }

    /// The table of those routes, with the declared pools.
    pub fn new(routes: Vec<Route>, pools: Vec<Upstream>) -> (t: RouteTable)
        requires
            (RouteTable { routes, pools }).wf(),
        ensures
            t.wf(),
            t.routes@ == routes@,
            t.pools@ == pools@,
    {
        RouteTable { routes, pools }
    }

    /// The most specific route that takes a request, by its place.
    pub fn find_route(&self, method: &str, host: Option<&str>, path: &str) -> (r: Option<usize>)
        ensures
            match r {
                Some(i) => i < self.routes@.len() && best(
                    route_views(self.routes@),
                    self.routes@.len() as int,
                    method@,
                    slice(host),
                    path@,
                ) == Some(i as int),
                None => best(
                    route_views(self.routes@),
                    self.routes@.len() as int,
                    method@,
                    slice(host),
                    path@,
                ) is None,
            },
    {
        let mut found: Option<usize> = None;
        let mut i: usize = 0;
        let ghost v = route_views(self.routes@);
        while i < self.routes.len()
            invariant
                i <= self.routes@.len(),
                v == route_views(self.routes@),
                match found {
                    Some(b) => b < i && best(v, i as int, method@, slice(host), path@) == Some(
                        b as int,
                    ),
                    None => best(v, i as int, method@, slice(host), path@) is None,
                },
            decreases self.routes.len() - i,
        {
            assert(v[i as int] == self.routes@[i as int]@);
            if self.routes[i].matches(method, host, path) {
                match found {
                    Some(b) => {
                        assert(v[b as int] == self.routes@[b as int]@);
                        let x = self.routes[i].specificity();
                        let y = self.routes[b].specificity();
                        if x.0 > y.0 || (x.0 == y.0 && (x.1 > y.1 || (x.1 == y.1 && x.2 > y.2))) {
                            found = Some(i);
                        }
                    },
                    None => {
                        found = Some(i);
                    },
                }
            }
            i = i + 1;
        }
        found
    }

    /// The pool of the route at a place.
    pub fn pool(&self, i: usize) -> (r: &Upstream)
        requires
            self.wf(),
            i < self.routes@.len(),
        ensures
            r@ == pool_at(self@, i as int),
            r.wf(),
    {
        assert(self@.routes[i as int] == self.routes@[i as int]@);
        match &self.routes[i].upstream {
            Target::Declared(k) => &self.pools[*k],
            Target::Own(u) => u,
        }
    }

    /// The pool for a request: that of its route.
    pub fn find(&self, method: &str, host: Option<&str>, path: &str) -> (r: Option<&Upstream>)
        requires
            self.wf(),
        ensures
            match best(
                route_views(self.routes@),
                self.routes@.len() as int,
                method@,
                slice(host),
                path@,
            ) {
                Some(i) => r is Some && r->0@ == pool_at(self@, i) && r->0.wf(),
                None => r is None,
            },
    {
        match self.find_route(method, host, path) {
            Some(i) => Some(self.pool(i)),
            None => None,
        }
    }

    /// Picks a server of the pool of the route at a place, and counts the request as
    /// in flight.
    pub fn pick(&mut self, i: usize, ip: IpAddr, roll: u64, now: Instant) -> (r: Option<Lease>)
        requires
            old(self).wf(),
            i < old(self).routes@.len(),
        ensures
            final(self).wf(),
            final(self).routes@.len() == old(self).routes@.len(),
            ({
                let p = pool_at(old(self)@, i as int);
                match r {
                    Some(l) => {
                        &&& chosen(p, ip, roll) == Some(l.server as int)
                        &&& l.server < p.servers.len()
                        &&& l == (Lease {
                            server: l.server,
                            started: now,
                            served: false,
                            outcome: None,
                        })
                        &&& final(self)@ == with_pool(
                            old(self)@,
                            i as int,
                            taken(moved_on(p), l.server as int),
                        )
                    },
                    None => {
                        &&& chosen(p, ip, roll) is None
                        &&& final(self)@ == with_pool(old(self)@, i as int, moved_on(p))
                    },
                }
            }),
    {
        let ghost was = self@;
        assert(was.routes[i as int] == self.routes@[i as int]@);
        let r = match &mut self.routes[i].upstream {
            Target::Declared(k) => self.pools[*k].pick(ip, roll, now),
            Target::Own(u) => u.pick(ip, roll, now),
        };
        proof {
            let want = with_pool(was, i as int, pool_at(self@, i as int));
            assert(self@.routes[i as int] == self.routes@[i as int]@);
            if let Target::Declared(k) = self.routes@[i as int].upstream {
                assert(self@.pools[k as int] == self.pools@[k as int]@);
                assert(was.pools[k as int] == old(self).pools@[k as int]@);
            }
            assert(self@.routes =~= want.routes);
            assert(self@.pools =~= want.pools);
        }
        r
    }

    /// Releases a lease on a server of the pool of the route at a place, and returns
    /// the change of the server's breaker.
    pub fn release(&mut self, i: usize, lease: Lease, now: Instant) -> (r: Option<
        (BreakerState, BreakerState),
    >)
        requires
            old(self).wf(),
            i < old(self).routes@.len(),
            lease.server < pool_at(old(self)@, i as int).servers.len(),
        ensures
            final(self).wf(),
            final(self).routes@.len() == old(self).routes@.len(),
            final(self)@ == with_pool(
                old(self)@,
                i as int,
                released(pool_at(old(self)@, i as int), lease, now),
            ),
            r == change(
                pool_at(old(self)@, i as int).servers[lease.server as int].breaker,
                pool_at(final(self)@, i as int).servers[lease.server as int].breaker,
            ),
    {
        let ghost was = self@;
        assert(was.routes[i as int] == self.routes@[i as int]@);
        let r = match &mut self.routes[i].upstream {
            Target::Declared(k) => self.pools[*k].release(lease, now),
            Target::Own(u) => u.release(lease, now),
        };
        proof {
            let want = with_pool(was, i as int, pool_at(self@, i as int));
            assert(self@.routes =~= want.routes);
            assert(self@.pools =~= want.pools);
        }
        r
    }

    fn referred(&self, n: usize, pool: usize) -> (r: bool)
        requires
            n <= self.routes@.len(),
        ensures
            r == refers(route_views(self.routes@), n as int, pool),
    {
        let ghost v = route_views(self.routes@);
        let mut j: usize = 0;
        while j < n
            invariant
                j <= n <= self.routes@.len(),
                v == route_views(self.routes@),
                forall|k: int|
                    0 <= k < j ==> (#[trigger] v[k]).upstream != TargetView::Declared(pool),
            decreases n - j,
        {
            assert(v[j as int] == self.routes@[j as int]@);
            if let Target::Declared(k) = &self.routes[j].upstream {
                if *k == pool {
                    return true;
                }
            }
            j = j + 1;
        }
        false
    }

    /// Every pool of the table once, by the place of the first route that has it.
    pub fn upstreams(&self) -> (r: Vec<usize>)
        ensures
            r@ == firsts(route_views(self.routes@), self.routes@.len() as int),
    {
        let ghost v = route_views(self.routes@);
        let mut r: Vec<usize> = Vec::new();
        let mut i: usize = 0;
        while i < self.routes.len()
            invariant
                i <= self.routes@.len(),
                v == route_views(self.routes@),
                r@ == firsts(v, i as int),
            decreases self.routes.len() - i,
        {
            assert(v[i as int] == self.routes@[i as int]@);
            let seen = match &self.routes[i].upstream {
                Target::Declared(k) => self.referred(i, *k),
                Target::Own(_) => false,
            };
            if !seen {
                r.push(i);
            }
            i = i + 1;
        }
        r
    }

    /// The route at a place for the startup banner. `rate` and `burst` are its
    /// limiter's numbers, as they are shown.
    pub fn describe_route(&self, i: usize, rate: &str, burst: &str) -> (r: String)
        requires
            self.wf(),
            i < self.routes@.len(),
        ensures
            r@ == route_text(
                self@.routes[i as int],
                pool_at(self@, i as int),
                rate@,
                burst@,
            ),
    {
        let route = &self.routes[i];
        assert(self@.routes[i as int] == route@);
        let method = match &route.method {
            Some(m) => own(m.as_str()),
            None => own("*"),
        };
        let host = match &route.host {
            Some(h) => own(h.as_str()),
            None => own("*"),
        };
        let path = route.path.describe();
        let up = self.pool(i);
        assert(up.algorithm == up@.algorithm);
        let pool = up.describe();
        let chain = route.chain.describe(rate, burst);
        method.concat(" ").concat(host.as_str()).concat(" ").concat(path.as_str()).concat(
            " -> ",
        ).concat(pool.as_str()).concat(" (middleware: ").concat(chain.as_str()).concat(")")
    }

    /// Every route for the startup banner; `shown` holds each one's numbers of its
    /// limiter, as they are shown.
    pub fn describe(&self, shown: &Vec<(String, String)>) -> (r: Vec<String>)
        requires
            self.wf(),
            shown@.len() == self.routes@.len(),
        ensures
            texts(r@) == Seq::new(
                self.routes@.len(),
                |i: int|
                    route_text(self@.routes[i], pool_at(self@, i), shown@[i].0@, shown@[i].1@),
            ),
    {
        let ghost want = Seq::new(
            self.routes@.len(),
            |i: int|
                route_text(self@.routes[i], pool_at(self@, i), shown@[i].0@, shown@[i].1@),
        );
        let mut r: Vec<String> = Vec::new();
        let mut i: usize = 0;
        assert(texts(r@) =~= want.take(0));
        while i < self.routes.len()
            invariant
                self.wf(),
                i <= self.routes@.len() == shown@.len(),
                want == Seq::new(
                    self.routes@.len(),
                    |i: int|
                        route_text(self@.routes[i], pool_at(self@, i), shown@[i].0@, shown@[i].1@),
                ),
                texts(r@) == want.take(i as int),
            decreases self.routes.len() - i,
        {
            let line = self.describe_route(i, shown[i].0.as_str(), shown[i].1.as_str());
            assert(want.take(i + 1) =~= want.take(i as int).push(line@));
            push_text(&mut r, line);
            i = i + 1;
        }
        assert(want.take(i as int) =~= want);
        r
    }
}

/// The route that is found takes the request, no other route that takes it is more
/// specific, and none that was declared before it is as specific.
pub proof fn law_the_most_specific_route_wins(
    v: Seq<RouteView>,
    n: int,
    method: Seq<char>,
    host: Option<Seq<char>>,
    path: Seq<char>,
)
    requires
        0 <= n <= v.len(),
    ensures
        match best(v, n, method, host, path) {
            Some(b) => {
                &&& 0 <= b < n
                &&& accepts(v[b], method, host, path)
                &&& forall|j: int|
                    0 <= j < n && accepts(#[trigger] v[j], method, host, path) ==> !outranks(
                        v[j],
                        v[b],
                    )
                &&& forall|j: int|
                    0 <= j < b && accepts(#[trigger] v[j], method, host, path) ==> outranks(
                        v[b],
                        v[j],
                    )
            },
            None => forall|j: int| 0 <= j < n ==> !accepts(#[trigger] v[j], method, host, path),
        },
    decreases n,
{
    if n > 0 {
        law_the_most_specific_route_wins(v, n - 1, method, host, path);
    }
}

/// A route that takes a request and is more specific than every other one that does
/// is found, wherever it stands among them.
pub proof fn law_the_order_of_routes_does_not_matter(
    v: Seq<RouteView>,
    i: int,
    method: Seq<char>,
    host: Option<Seq<char>>,
    path: Seq<char>,
)
    requires
        0 <= i < v.len(),
        accepts(v[i], method, host, path),
        forall|j: int|
            0 <= j < v.len() && j != i && accepts(#[trigger] v[j], method, host, path) ==> outranks(
                v[i],
                v[j],
            ),
    ensures
        best(v, v.len() as int, method, host, path) == Some(i),
{
    law_the_most_specific_route_wins(v, v.len() as int, method, host, path);
}

// ---------------------------------------------------------------------------
// Route specs
// ---------------------------------------------------------------------------

/// The parts of a route spec, with the pool still a text.
#[derive(Debug)]
pub struct RouteMatchers {
    pub host: Option<String>,
    pub method: Option<String>,
    pub path: PathMatcher,
    pub target: String,
    /// The options behind the first semicolon.
    pub options: String,
}

/// What the parts of a route spec are.
pub struct MatchersView {
    pub host: Option<Seq<char>>,
    pub method: Option<Seq<char>>,
    pub path: PathView,
    pub target: Seq<char>,
    pub options: Seq<char>,
}

impl View for RouteMatchers {
    type V = MatchersView;

    open spec fn view(&self) -> MatchersView {
        MatchersView {
            host: maybe(self.host),
            method: maybe(self.method),
            path: self.path@,
            target: self.target@,
            options: self.options@,
        }
    }
}

/// Letters alone, and at least one.
pub open spec fn is_word(s: Seq<char>) -> bool {
    s.len() > 0 && forall|i: int| 0 <= i < s.len() ==> is_alpha(#[trigger] s[i])
}

/// The part of a spec before its options, and the options. They are severed first,
/// because they hold equal signs of their own.
pub open spec fn severed(spec: Seq<char>) -> (Seq<char>, Seq<char>) {
    match cut(spec, ';') {
        Some(parts) => parts,
        None => (spec, Seq::empty()),
    }
}

/// The method in front of a path, and the rest.
pub open spec fn method_and_rest(matchers: Seq<char>) -> (Option<Seq<char>>, Seq<char>) {
    match cut(matchers, ' ') {
        Some((m, r)) => if is_word(m) {
            (Some(upper(m)), r)
        } else {
            (None, matchers)
        },
        None => (None, matchers),
    }
}

/// The matcher that a path stands for.
pub open spec fn path_of(expr: Seq<char>) -> PathView {
    match without_suffix(expr, "/**"@) {
        Some(p) => PathView::Prefix(p + "/"@),
        None => if expr == "/"@ {
            PathView::Any
        } else {
            match without_suffix(expr, "/*"@) {
                Some(p) => PathView::Wildcard(p + "/"@),
                None => PathView::Exact(expr),
            }
        },
    }
}

/// The refusal of a spec, which is quoted.
pub open spec fn spec_refused(m: Seq<char>, spec: Seq<char>) -> Seq<char> {
    m + ": "@ + debug_text(spec)
}

/// The host and path of a spec without method: an expression behind a tilde, or a
/// path with the host in front of its first slash.
pub open spec fn place_in(rest: Seq<char>, spec: Seq<char>) -> Outcome<
    (Option<Seq<char>>, PathView),
> {
    match without_prefix(rest, "~"@) {
        Some(pattern) => match regex_error(pattern) {
            Some(e) => Err(spec_refused("invalid regex ("@ + e + ")"@, spec)),
            None => Ok((None, PathView::Regex(pattern))),
        },
        None => {
            let slash = first_index(rest, '/');
            if slash >= rest.len() {
                Err(spec_refused("path must contain '/'"@, spec))
            } else if slash == 0 {
                Ok((None, path_of(rest.skip(slash))))
            } else {
                Ok((Some(lower(rest.take(slash))), path_of(rest.skip(slash))))
            }
        },
    }
}

/// The parts of a route spec: `[METHOD ][host]path=target[;options]`.
pub open spec fn matchers_of(spec: Seq<char>) -> Outcome<MatchersView> {
    let (base, options) = severed(spec);
    match rcut(base, '=') {
        None => Err(spec_refused("route spec missing '=TARGET'"@, spec)),
        Some((matchers, target)) => if target.len() == 0 {
            Err(spec_refused("empty target"@, spec))
        } else {
            let (method, rest) = method_and_rest(matchers);
            match place_in(rest, spec) {
                Err(e) => Err(e),
                Ok((host, path)) => Ok(MatchersView { host, method, path, target, options }),
            }
        },
    }
}

fn refuse(m: &str, spec: &str) -> (e: Fault)
    ensures
        e.kind == FaultKind::InvalidInput,
        e.message@ == spec_refused(m@, spec@),
{
    let q = quoted(spec);
    bad_input(own(m).concat(": ").concat(q.as_str()))
}

fn word(s: &str) -> (r: bool)
    ensures
        r == is_word(s@),
{
    let v = chars_of(s);
    let mut i: usize = 0;
    while i < v.len()
        invariant
            v@ == s@,
            i <= v@.len(),
            forall|k: int| 0 <= k < i ==> is_alpha(#[trigger] v@[k]),
        decreases v.len() - i,
    {
        if !alpha(v[i]) {
            return false;
        }
        i = i + 1;
    }
    v.len() > 0
}

fn parse_path(expr: &str) -> (m: PathMatcher)
    ensures
        m@ == path_of(expr@),
{
    match strip_suffix(expr, "/**") {
        Some(p) => PathMatcher::Prefix(own(p).concat("/")),
        None => if same(expr, "/") {
            PathMatcher::Any
        } else {
            match strip_suffix(expr, "/*") {
                Some(p) => PathMatcher::Wildcard(own(p).concat("/")),
                None => PathMatcher::Exact(own(expr)),
            }
        },
    }
}

fn parse_place(rest: &str, spec: &str) -> (r: Result<(Option<String>, PathMatcher), Fault>)
    ensures
        match r {
            Ok(x) => place_in(rest@, spec@) == Ok::<(Option<Seq<char>>, PathView), Seq<char>>(
                (maybe(x.0), x.1@),
            ),
            Err(e) => e.kind == FaultKind::InvalidInput && place_in(rest@, spec@) == Err::<
                (Option<Seq<char>>, PathView),
                Seq<char>,
            >(e.message@),
        },
{
    if let Some(pattern) = strip_prefix(rest, "~") {
        return match Pattern::new(pattern) {
            Ok(re) => Ok((None, PathMatcher::Regex(re))),
            Err(e) => {
                let m = own("invalid regex (").concat(e.as_str()).concat(")");
                Err(refuse(m.as_str(), spec))
            },
        };
    }
    let v = chars_of(rest);
    let slash: usize = find_from(v.as_slice(), '/', 0);
    assert(v@.skip(0) =~= v@);
    if slash >= v.len() {
        return Err(refuse("path must contain '/'", spec));
    }
    let expr = rest.substring_char(slash, v.len());
    assert(expr@ =~= rest@.skip(slash as int));
    let path = parse_path(expr);
    if slash == 0 {
        Ok((None, path))
    } else {
        let host = rest.substring_char(0, slash);
        assert(host@ =~= rest@.take(slash as int));
        Ok((Some(lowercase(host)), path))
    }
}

/// Parses a route spec into its parts.
pub fn parse_matchers(spec: &str) -> (r: Result<RouteMatchers, Fault>)
    ensures
        match r {
            Ok(m) => matchers_of(spec@) == Ok::<MatchersView, Seq<char>>(m@),
            Err(e) => e.kind == FaultKind::InvalidInput && matchers_of(spec@) == Err::<
                MatchersView,
                Seq<char>,
            >(e.message@),
        },
{
    let (base, options) = match split_once(spec, ';') {
        Some((b, o)) => (b, own(o)),
        None => {
            let none = String::new();
            assert(none@ =~= Seq::empty());
            (spec, none)
        },
    };
    let (matchers, target) = match rsplit_once(base, '=') {
        Some(x) => x,
        None => {
            return Err(refuse("route spec missing '=TARGET'", spec));
        },
    };
    if target.unicode_len() == 0 {
        return Err(refuse("empty target", spec));
    }
    let mut method: Option<String> = None;
    let mut rest = matchers;
    if let Some((m, r)) = split_once(matchers, ' ') {
        if word(m) {
            method = Some(uppercase(m));
            rest = r;
        }
    }
    match parse_place(rest, spec) {
        Err(e) => Err(e),
        Ok((host, path)) => Ok(
            RouteMatchers { host, method, path, target: own(target), options },
        ),
    }
}

/// The key of an option: the part before its equal sign, or the whole option.
pub open spec fn option_key(seg: Seq<char>) -> Seq<char> {
    match cut(seg, '=') {
        Some((k, _)) => trimmed(k),
        None => seg,
    }
}

/// Options sorted out, behind those that were sorted out before: those that rewrite,
/// and those of the layers. A key of neither family is refused.
pub open spec fn sorted_out(
    segs: Seq<Seq<char>>,
    rewriting: Seq<Seq<char>>,
    layers: Seq<Seq<char>>,
) -> Outcome<(Seq<Seq<char>>, Seq<Seq<char>>)>
    decreases segs.len(),
{
    if segs.len() == 0 {
        Ok((rewriting, layers))
    } else {
        let seg = trimmed(segs[0]);
        let rest = segs.drop_first();
        if seg.len() == 0 {
            sorted_out(rest, rewriting, layers)
        } else if is_l5_key(option_key(seg)) {
            sorted_out(rest, rewriting.push(seg), layers)
        } else if is_l6_key(option_key(seg)) {
            sorted_out(rest, rewriting, layers.push(seg))
        } else {
            Err("unknown route option "@ + debug_text(option_key(seg)))
        }
    }
}

/// The options of the two families, each between semicolons.
pub open spec fn families(opts: Seq<char>) -> Outcome<(Seq<char>, Seq<char>)> {
    match sorted_out(pieces(opts, ';'), Seq::empty(), Seq::empty()) {
        Ok((a, b)) => Ok((joined(a, ";"@), joined(b, ";"@))),
        Err(e) => Err(e),
    }
}

/// Splits the options of a route into those that rewrite and those of the layers.
pub fn partition_options(opts: &str) -> (r: Result<(String, String), Fault>)
    ensures
        match r {
            Ok(x) => families(opts@) == Ok::<(Seq<char>, Seq<char>), Seq<char>>((x.0@, x.1@)),
            Err(e) => e.kind == FaultKind::InvalidInput && families(opts@) == Err::<
                (Seq<char>, Seq<char>),
                Seq<char>,
            >(e.message@),
        },
{
    let mut a: Vec<String> = Vec::new();
    let mut b: Vec<String> = Vec::new();
    let segs = split(opts, ';');
    let mut i: usize = 0;
    let ghost all = sorted_out(pieces(opts@, ';'), Seq::empty(), Seq::empty());
    assert(slices(segs@).skip(0) =~= slices(segs@));
    assert(texts(a@) =~= Seq::empty());
    assert(texts(b@) =~= Seq::empty());
    while i < segs.len()
        invariant
            i <= segs@.len(),
            slices(segs@) == pieces(opts@, ';'),
            all == sorted_out(pieces(opts@, ';'), Seq::empty(), Seq::empty()),
            all == sorted_out(slices(segs@).skip(i as int), texts(a@), texts(b@)),
        decreases segs.len() - i,
    {
        let ghost rest = slices(segs@).skip(i as int);
        assert(rest[0] == segs@[i as int]@);
        assert(rest.drop_first() =~= slices(segs@).skip(i + 1));
        let seg = trim(segs[i]);
        if seg.unicode_len() > 0 {
            let key = match split_once(seg, '=') {
                Some((k, _)) => trim(k),
                None => seg,
            };
            assert(key@ == option_key(seg@));
            if l5_key(key) {
                push_text(&mut a, own(seg));
            } else if l6_key(key) {
                push_text(&mut b, own(seg));
            } else {
                let q = quoted(key);
                return Err(bad_input(own("unknown route option ").concat(q.as_str())));
            }
        }
        i = i + 1;
    }
    Ok((join(&a, ";"), join(&b, ";")))
}

/// The texts in a route spec that are read as numbers.
pub fn route_number_texts(spec: &str) -> (r: Vec<String>)
    ensures
        texts(r@) == numbers_in(pieces(severed(spec@).1, ';')),
{
    match split_once(spec, ';') {
        Some((_, o)) => number_texts(o),
        None => {
            let none = String::new();
            assert(none@ =~= Seq::empty());
            number_texts(none.as_str())
        },
    }
}

/// What a target is bound to.
pub enum Bound {
    /// The declared pool at that place.
    Pool(int),
    /// A pool of one server at that address.
    Server(Seq<char>),
}

/// What a route spec stands for.
pub struct PlanView {
    pub host: Option<Seq<char>>,
    pub method: Option<Seq<char>>,
    pub path: PathView,
    pub target: Bound,
    pub rules: RulesView,
    pub chain: OptionsView,
}

/// What a target is bound to: a declared name goes before an address.
pub open spec fn bound(target: Seq<char>, names: Seq<Seq<char>>) -> Outcome<Bound> {
    let i = first_index(names, target);
    if i < names.len() {
        Ok(Bound::Pool(i))
    } else if host_port(target) {
        Ok(Bound::Server(target))
    } else {
        Err(
            "unknown upstream "@ + debug_text(target)
                + " (not a declared --upstream name nor a host:port)"@,
        )
    }
}

/// What a route spec stands for, among pools of those names.
pub open spec fn plan_of(
    spec: Seq<char>,
    names: Seq<Seq<char>>,
    forwarded: bool,
    request_id: bool,
    access_log: bool,
    t: Seq<(Seq<char>, Option<Number>)>,
) -> Outcome<PlanView> {
    match matchers_of(spec) {
        Err(e) => Err(e),
        Ok(m) => match families(m.options) {
            Err(e) => Err(e),
            Ok((a, b)) => match rules_of(a, forwarded) {
                Err(e) => Err(e),
                Ok(rules) => match options_of(b, request_id, access_log, t) {
                    Err(e) => Err(e),
                    Ok(chain) => match bound(m.target, names) {
                        Err(e) => Err(e),
                        Ok(target) => Ok(
                            PlanView {
                                host: m.host,
                                method: m.method,
                                path: m.path,
                                target,
                                rules,
                                chain,
                            },
                        ),
                    },
                },
            },
        },
    }
}

/// The route is what a spec stands for.
pub open spec fn is_planned(r: Route, p: PlanView) -> bool {
    &&& r@.host == p.host
    &&& r@.method == p.method
    &&& r@.path == p.path
    &&& r@.rules == p.rules
    &&& r@.chain == p.chain
    &&& match p.target {
        Bound::Pool(i) => r.upstream is Declared && r.upstream->Declared_0 == i,
        Bound::Server(a) => r.upstream is Own && is_single(r.upstream->Own_0, a),
    }
}

fn find_name(names: &Vec<String>, s: &str) -> (i: usize)
    ensures
        i == first_index(texts(names@), s@),
        i <= names@.len(),
{
    let mut i: usize = 0;
    let ghost v = texts(names@);
    while i < names.len()
        invariant
            i <= names@.len(),
            v == texts(names@),
            forall|k: int| 0 <= k < i ==> #[trigger] v[k] != s@,
        decreases names.len() - i,
    {
        if same(names[i].as_str(), s) {
            assert(v[i as int] == s@);
            proof {
                lemma_first_index_is(v, s@, i as int);
            }
            return i;
        }
        assert(v[i as int] != s@);
        i = i + 1;
    }
    proof {
        lemma_first_index(v, s@);
    }
    i
}

/// Parses a route spec and binds its target to a pool, among declared pools of those
/// names. The three flags are the defaults of the route; `numbers` says what the
/// texts of [`route_number_texts`] were read as.
pub fn resolve_route(
    spec: &str,
    names: &Vec<String>,
    forwarded: bool,
    request_id: bool,
    access_log: bool,
    numbers: &Vec<(String, Option<Number>)>,
) -> (r: Result<Route, Fault>)
    ensures
        match (
            r,
            plan_of(
                spec@,
                texts(names@),
                forwarded,
                request_id,
                access_log,
                readings(numbers@),
            ),
        ) {
            (Ok(route), Ok(p)) => is_planned(route, p),
            (Err(e), Err(m)) => e.kind == FaultKind::InvalidInput && e.message@ == m,
            _ => false,
        },
{
    let m = match parse_matchers(spec) {
        Ok(m) => m,
        Err(e) => {
            return Err(e);
        },
    };
    let (a, b) = match partition_options(m.options.as_str()) {
        Ok(x) => x,
        Err(e) => {
            return Err(e);
        },
    };
    let rules = match RewriteRules::from_options(a.as_str(), forwarded) {
        Ok(x) => x,
        Err(e) => {
            return Err(e);
        },
    };
    let chain = match MiddlewareConfig::from_options(b.as_str(), request_id, access_log, numbers) {
        Ok(x) => x,
        Err(e) => {
            return Err(e);
        },
    };
    let i: usize = find_name(names, m.target.as_str());
    let upstream = if i < names.len() {
        Target::Declared(i)
    } else if is_host_port(m.target.as_str()) {
        Target::Own(Upstream::single(m.target.as_str()))
    } else {
        let q = quoted(m.target.as_str());
        return Err(
            bad_input(
                own("unknown upstream ").concat(q.as_str()).concat(
                    " (not a declared --upstream name nor a host:port)",
                ),
            ),
        );
    };
    Ok(Route { host: m.host, method: m.method, path: m.path, upstream, rules, chain })
}

} // verus!
