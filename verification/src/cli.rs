//! The command line: settings, pools and routes.

use vstd::prelude::*;
use vstd::string::{StrSliceExecFns, StringExecFns};

use crate::balancer::breaker::{default_health, HealthConfig, HealthView};
use crate::balancer::spec::{is_built, parsed, probe_path};
use crate::balancer::{default_pool, ring_covers, Algorithm, PoolConfig, Upstream};
use crate::fault::{bad_input, Fault, FaultKind, Outcome};
use crate::ip::IpAddr;
use crate::logging::{level_of, Level};
use crate::middleware::options::{no_options, readings};
use crate::middleware::Number;
use crate::proxy::DEFAULT_BACKEND_RESPONSE_TIMEOUT;
use crate::rewrite::no_rules;
use crate::router::{
    default_chain, is_planned, is_single, plan_of, resolve_route, Bound, PathView, PlanView, Route,
    RouteTable, Target,
};
use crate::security::{
    block_of, parse_size, size_of_text, Cidr, CidrList, Limits, DEFAULT_MAX_BODY,
    DEFAULT_MAX_CONNS, DEFAULT_MAX_CONNS_PER_IP, DEFAULT_MAX_HEADERS,
};
use crate::text::{
    contains_char, cut, debug_text, has_char, list_has, maybe, own, parse_u64, parse_usize, pieces,
    push_text, quoted, same, slices, split, split_once, strip_suffix, texts, trimmed, unsigned,
    without_suffix,
};
use crate::time::Duration;
use crate::tls::{auth_of, ArgsView, ClientAuth, TlsArgs};

verus! {

/// What a span of time is read as, or the refusal: seconds, or milliseconds with
/// `ms` behind them.
pub open spec fn duration_of(s: Seq<char>) -> Outcome<Duration> {
    let bad = "bad duration "@ + debug_text(s) + " (expected e.g. 2s or 500ms)"@;
    match without_suffix(s, "ms"@) {
        Some(ms) => match unsigned(ms, 10, u64::MAX as int) {
            Some(n) => Ok(Duration { nanos: (n * 1_000_000) as u128 }),
            None => Err(bad),
        },
        None => {
            let secs = match without_suffix(s, "s"@) {
                Some(t) => t,
                None => s,
            };
            match unsigned(secs, 10, u64::MAX as int) {
                Some(n) => Ok(Duration { nanos: (n * 1_000_000_000) as u128 }),
                None => Err(bad),
            }
        },
    }
}

/// Reads a span of time.
pub fn parse_duration(s: &str) -> (r: Result<Duration, Fault>)
    ensures
        match r {
            Ok(d) => duration_of(s@) == Ok::<Duration, Seq<char>>(d),
            Err(e) => e.kind == FaultKind::InvalidInput && duration_of(s@) == Err::<
                Duration,
                Seq<char>,
            >(e.message@),
        },
{
    let read = match strip_suffix(s, "ms") {
        Some(ms) => match parse_u64(ms) {
            Some(n) => Some(Duration::from_millis(n)),
            None => None,
        },
        None => {
            let secs = match strip_suffix(s, "s") {
                Some(t) => t,
                None => s,
            };
            match parse_u64(secs) {
                Some(n) => Some(Duration::from_secs(n)),
                None => None,
            }
        },
    };
    match read {
        Some(d) => Ok(d),
        None => {
            let q = quoted(s);
            Err(
                bad_input(
                    own("bad duration ").concat(q.as_str()).concat(" (expected e.g. 2s or 500ms)"),
                ),
            )
        },
    }
}

// ---------------------------------------------------------------------------
// Settings
// ---------------------------------------------------------------------------

/// Everything that the command line says.
#[derive(Debug)]
pub struct Settings {
    pub upstream_specs: Vec<String>,
    pub route_specs: Vec<String>,
    pub hc: HealthConfig,
    pub pool: PoolConfig,
    pub backend_timeout: Duration,
    pub tls: TlsArgs,
    pub max_conns: usize,
    pub max_conns_per_ip: usize,
    pub cidrs: CidrList,
    pub limits: Limits,
    pub forwarded: bool,
    pub request_id: bool,
    pub access_log: bool,
    pub log_level: Option<Level>,
    pub log_plain: bool,
    pub admin: Option<String>,
}

/// What the settings are.
pub struct SettingsView {
    pub upstream_specs: Seq<Seq<char>>,
    pub route_specs: Seq<Seq<char>>,
    pub hc: HealthView,
    pub pool: PoolConfig,
    pub backend_timeout: Duration,
    pub tls: ArgsView,
    pub max_conns: usize,
    pub max_conns_per_ip: usize,
    pub allow: Seq<Cidr>,
    pub deny: Seq<Cidr>,
    pub limits: Limits,
    pub forwarded: bool,
    pub request_id: bool,
    pub access_log: bool,
    pub log_level: Option<Level>,
    pub log_plain: bool,
    pub admin: Option<Seq<char>>,
}

impl View for Settings {
    type V = SettingsView;

    open spec fn view(&self) -> SettingsView {
        SettingsView {
            upstream_specs: texts(self.upstream_specs@),
            route_specs: texts(self.route_specs@),
            hc: self.hc@,
            pool: self.pool,
            backend_timeout: self.backend_timeout,
            tls: self.tls@,
            max_conns: self.max_conns,
            max_conns_per_ip: self.max_conns_per_ip,
            allow: self.cidrs.allow@,
            deny: self.cidrs.deny@,
            limits: self.limits,
            forwarded: self.forwarded,
            request_id: self.request_id,
            access_log: self.access_log,
            log_level: self.log_level,
            log_plain: self.log_plain,
            admin: maybe(self.admin),
        }
    }
}

/// The settings where the command line says nothing.
pub open spec fn no_settings() -> SettingsView {
    SettingsView {
        upstream_specs: Seq::empty(),
        route_specs: Seq::empty(),
        hc: default_health(),
        pool: default_pool(),
        backend_timeout: Duration { nanos: DEFAULT_BACKEND_RESPONSE_TIMEOUT },
        tls: ArgsView { cert: None, key: None, client_ca: None, client_auth: ClientAuth::Off },
        max_conns: DEFAULT_MAX_CONNS,
        max_conns_per_ip: DEFAULT_MAX_CONNS_PER_IP,
        allow: Seq::empty(),
        deny: Seq::empty(),
        limits: Limits { max_body: DEFAULT_MAX_BODY, max_headers: DEFAULT_MAX_HEADERS },
        forwarded: true,
        request_id: true,
        access_log: true,
        log_level: None,
        log_plain: false,
        admin: None,
    }
}

impl Settings {
    /// The blocks of addresses are well formed.
    pub open spec fn wf(&self) -> bool {
        self.cidrs.wf()
    }
}

impl Default for Settings {
    fn default() -> (s: Settings)
        ensures
            s@ == no_settings(),
            s.wf(),
    {
        let s = Settings {
            upstream_specs: Vec::new(),
            route_specs: Vec::new(),
            hc: HealthConfig::default(),
            pool: PoolConfig::default(),
            backend_timeout: Duration { nanos: DEFAULT_BACKEND_RESPONSE_TIMEOUT },
            tls: TlsArgs::default(),
            max_conns: DEFAULT_MAX_CONNS,
            max_conns_per_ip: DEFAULT_MAX_CONNS_PER_IP,
            cidrs: CidrList::default(),
            limits: Limits::default(),
            forwarded: true,
            request_id: true,
            access_log: true,
            log_level: None,
            log_plain: false,
            admin: None,
        };
        assert(s@.upstream_specs =~= Seq::empty());
        assert(s@.route_specs =~= Seq::empty());
        assert(s@.allow =~= Seq::empty());
        assert(s@.deny =~= Seq::empty());
        s
    }
}

/// What the texts of addresses were read as.
pub type Addresses = Seq<(Seq<char>, Option<IpAddr>)>;

/// What the texts of addresses were read as.
pub open spec fn addresses(t: Seq<(String, Option<IpAddr>)>) -> Addresses {
    Seq::new(t.len(), |i: int| (t[i].0@, t[i].1))
}

/// What a text was read as; a text without a reading is no address.
pub open spec fn address(t: Addresses, s: Seq<char>) -> Option<IpAddr>
    decreases t.len(),
{
    if t.len() == 0 {
        None
    } else if t[0].0 == s {
        t[0].1
    } else {
        address(t.drop_first(), s)
    }
}

fn find_address(t: &Vec<(String, Option<IpAddr>)>, s: &str) -> (r: Option<IpAddr>)
    ensures
        r == address(addresses(t@), s@),
{
    let mut i: usize = 0;
    let ghost all = addresses(t@);
    assert(all.skip(0) =~= all);
    while i < t.len()
        invariant
            i <= t@.len(),
            all == addresses(t@),
            address(all, s@) == address(all.skip(i as int), s@),
        decreases t.len() - i,
    {
        let ghost rest = all.skip(i as int);
        assert(rest[0] == (t@[i as int].0@, t@[i as int].1));
        assert(rest.drop_first() =~= all.skip(i + 1));
        if same(t[i].0.as_str(), s) {
            return t[i].1;
        }
        i = i + 1;
    }
    None
}

/// The part of a block's text that is an address.
pub open spec fn address_part(s: Seq<char>) -> Seq<char> {
    match cut(s, '/') {
        Some((a, _)) => trimmed(a),
        None => trimmed(s),
    }
}

/// The texts of addresses in arguments, if each argument were a list of blocks.
pub open spec fn address_parts(args: Seq<Seq<char>>) -> Seq<Seq<char>>
    decreases args.len(),
{
    if args.len() == 0 {
        Seq::empty()
    } else {
        address_parts(args.drop_last()) + Seq::new(
            pieces(args.last(), ',').len(),
            |i: int| address_part(pieces(args.last(), ',')[i]),
        )
    }
}

/// The texts in arguments that may have to be read as addresses.
pub fn address_texts(args: &Vec<String>) -> (r: Vec<String>)
    ensures
        texts(r@) == address_parts(texts(args@)),
{
    let mut r: Vec<String> = Vec::new();
    let mut i: usize = 0;
    assert(texts(args@).take(0) =~= Seq::empty());
    assert(texts(r@) =~= Seq::empty());
    while i < args.len()
        invariant
            i <= args@.len(),
            texts(r@) == address_parts(texts(args@).take(i as int)),
        decreases args.len() - i,
    {
        let ghost t = texts(args@).take(i + 1);
        assert(t.drop_last() =~= texts(args@).take(i as int));
        assert(t.last() == args@[i as int]@);
        let parts = split(args[i].as_str(), ',');
        let ghost front = texts(r@);
        let ghost want = Seq::new(
            pieces(args@[i as int]@, ',').len(),
            |k: int| address_part(pieces(args@[i as int]@, ',')[k]),
        );
        let mut j: usize = 0;
        assert(texts(r@) =~= front + want.take(0));
        while j < parts.len()
            invariant
                j <= parts@.len(),
                i < args@.len(),
                slices(parts@) == pieces(args@[i as int]@, ','),
                want == Seq::new(
                    pieces(args@[i as int]@, ',').len(),
                    |k: int| address_part(pieces(args@[i as int]@, ',')[k]),
                ),
                texts(r@) == front + want.take(j as int),
            decreases parts.len() - j,
        {
            let a = own(Cidr::address_text(parts[j]));
            assert(slices(parts@)[j as int] == parts@[j as int]@);
            assert(want[j as int] == a@);
            let ghost was = texts(r@);
            push_text(&mut r, a);
            assert(was.push(want[j as int]) =~= front + want.take(j + 1));
            j = j + 1;
        }
        assert(want.take(j as int) =~= want);
        i = i + 1;
    }
    assert(texts(args@).take(i as int) =~= texts(args@));
    r
}

/// The blocks of a list between commas, behind those before; or the refusal.
pub open spec fn blocks_of(parts: Seq<Seq<char>>, had: Seq<Cidr>, t: Addresses) -> Outcome<Seq<Cidr>>
    decreases parts.len(),
{
    if parts.len() == 0 {
        Ok(had)
    } else {
        match block_of(parts[0], address(t, address_part(parts[0]))) {
            Err(m) => Err(m),
            Ok(c) => blocks_of(parts.drop_first(), had.push(c), t),
        }
    }
}

fn push_blocks(list: &mut Vec<Cidr>, value: &str, t: &Vec<(String, Option<IpAddr>)>) -> (r: Result<
    (),
    Fault,
>)
    requires
        forall|i: int| 0 <= i < old(list)@.len() ==> (#[trigger] old(list)@[i]).wf(),
    ensures
        forall|i: int| 0 <= i < final(list)@.len() ==> (#[trigger] final(list)@[i]).wf(),
        match r {
            Ok(()) => blocks_of(pieces(value@, ','), old(list)@, addresses(t@)) == Ok::<
                Seq<Cidr>,
                Seq<char>,
            >(final(list)@),
            Err(e) => e.kind == FaultKind::InvalidInput && blocks_of(
                pieces(value@, ','),
                old(list)@,
                addresses(t@),
            ) == Err::<Seq<Cidr>, Seq<char>>(e.message@),
        },
{
    let parts = split(value, ',');
    let ghost all = blocks_of(pieces(value@, ','), list@, addresses(t@));
    let mut i: usize = 0;
    assert(slices(parts@).skip(0) =~= slices(parts@));
    while i < parts.len()
        invariant
            i <= parts@.len(),
            slices(parts@) == pieces(value@, ','),
            all == blocks_of(pieces(value@, ','), old(list)@, addresses(t@)),
            all == blocks_of(slices(parts@).skip(i as int), list@, addresses(t@)),
            forall|k: int| 0 <= k < list@.len() ==> (#[trigger] list@[k]).wf(),
        decreases parts.len() - i,
    {
        let ghost rest = slices(parts@).skip(i as int);
        assert(rest[0] == parts@[i as int]@);
        assert(rest.drop_first() =~= slices(parts@).skip(i + 1));
        let a = find_address(t, Cidr::address_text(parts[i]));
        match Cidr::parse(parts[i], a) {
            Ok(c) => {
                list.push(c);
            },
            Err(e) => {
                return Err(bad_input(e));
            },
        }
        i = i + 1;
    }
    Ok(())
}

/// A flag that stands alone.
pub open spec fn is_switch(a: Seq<char>) -> bool {
    a == "--no-forwarded"@ || a == "--no-request-id"@ || a == "--no-access-log"@ || a
        == "--log-plain"@
}

/// The settings after a flag that stands alone.
pub open spec fn switched(s: SettingsView, a: Seq<char>) -> SettingsView {
    if a == "--no-forwarded"@ {
        SettingsView { forwarded: false, ..s }
    } else if a == "--no-request-id"@ {
        SettingsView { request_id: false, ..s }
    } else if a == "--no-access-log"@ {
        SettingsView { access_log: false, ..s }
    } else {
        SettingsView { log_plain: true, ..s }
    }
}

/// A flag with a value behind it.
pub open spec fn takes_value(a: Seq<char>) -> bool {
    ||| a == "--upstream"@
    ||| a == "--hc-interval"@
    ||| a == "--hc-timeout"@
    ||| a == "--hc-backoff-base"@
    ||| a == "--hc-backoff-max"@
    ||| a == "--hc-fail"@
    ||| a == "--hc-success"@
    ||| a == "--pool-max-idle"@
    ||| a == "--pool-idle-timeout"@
    ||| a == "--backend-timeout"@
    ||| a == "--tls-cert"@
    ||| a == "--tls-key"@
    ||| a == "--tls-client-ca"@
    ||| a == "--tls-client-auth"@
    ||| a == "--max-conns"@
    ||| a == "--max-conns-per-ip"@
    ||| a == "--max-body"@
    ||| a == "--max-headers"@
    ||| a == "--allow-cidr"@
    ||| a == "--deny-cidr"@
    ||| a == "--log-level"@
    ||| a == "--admin"@
}

fn wants_value(a: &str) -> (r: bool)
    ensures
        r == takes_value(a@),
{
    same(a, "--upstream") || same(a, "--hc-interval") || same(a, "--hc-timeout") || same(
        a,
        "--hc-backoff-base",
    ) || same(a, "--hc-backoff-max") || same(a, "--hc-fail") || same(a, "--hc-success") || same(
        a,
        "--pool-max-idle",
    ) || same(a, "--pool-idle-timeout") || same(a, "--backend-timeout") || same(a, "--tls-cert")
        || same(a, "--tls-key") || same(a, "--tls-client-ca") || same(a, "--tls-client-auth")
        || same(a, "--max-conns") || same(a, "--max-conns-per-ip") || same(a, "--max-body") || same(
        a,
        "--max-headers",
    ) || same(a, "--allow-cidr") || same(a, "--deny-cidr") || same(a, "--log-level") || same(
        a,
        "--admin",
    )
}

/// A number after a flag, or the refusal that names the flag.
pub open spec fn number_after(flag: Seq<char>, v: Seq<char>) -> Outcome<usize> {
    match unsigned(v, 10, usize::MAX as int) {
        Some(n) => Ok(n as usize),
        None => Err(flag + " expects a number"@),
    }
}

fn parse_after(flag: &str, v: &str) -> (r: Result<usize, Fault>)
    ensures
        match r {
            Ok(n) => number_after(flag@, v@) == Ok::<usize, Seq<char>>(n),
            Err(e) => e.kind == FaultKind::InvalidInput && number_after(flag@, v@) == Err::<
                usize,
                Seq<char>,
            >(e.message@),
        },
{
    match parse_usize(v) {
        Some(n) => Ok(n),
        None => Err(bad_input(own(flag).concat(" expects a number"))),
    }
}

/// The settings after a flag of the health checks, or of the pools.
pub open spec fn set_health(s: SettingsView, a: Seq<char>, v: Seq<char>) -> Outcome<SettingsView> {
    if a == "--hc-interval"@ {
        match duration_of(v) {
            Err(m) => Err(m),
            Ok(d) => Ok(SettingsView { hc: HealthView { interval: d, ..s.hc }, ..s }),
        }
    } else if a == "--hc-timeout"@ {
        match duration_of(v) {
            Err(m) => Err(m),
            Ok(d) => Ok(SettingsView { hc: HealthView { timeout: d, ..s.hc }, ..s }),
        }
    } else if a == "--hc-backoff-base"@ {
        match duration_of(v) {
            Err(m) => Err(m),
            Ok(d) => Ok(SettingsView { hc: HealthView { backoff_base: d, ..s.hc }, ..s }),
        }
    } else if a == "--hc-backoff-max"@ {
        match duration_of(v) {
            Err(m) => Err(m),
            Ok(d) => Ok(SettingsView { hc: HealthView { backoff_max: d, ..s.hc }, ..s }),
        }
    } else if a == "--hc-fail"@ {
        match number_after(a, v) {
            Err(m) => Err(m),
            Ok(n) => Ok(SettingsView { hc: HealthView { fail_threshold: n, ..s.hc }, ..s }),
        }
    } else if a == "--hc-success"@ {
        match number_after(a, v) {
            Err(m) => Err(m),
            Ok(n) => Ok(SettingsView { hc: HealthView { success_threshold: n, ..s.hc }, ..s }),
        }
    } else if a == "--pool-max-idle"@ {
        match number_after(a, v) {
            Err(m) => Err(m),
            Ok(n) => Ok(SettingsView { pool: PoolConfig { max_idle: n, ..s.pool }, ..s }),
        }
    } else if a == "--pool-idle-timeout"@ {
        match duration_of(v) {
            Err(m) => Err(m),
            Ok(d) => Ok(SettingsView { pool: PoolConfig { idle_timeout: d, ..s.pool }, ..s }),
        }
    } else {
        match duration_of(v) {
            Err(m) => Err(m),
            Ok(d) => Ok(SettingsView { backend_timeout: d, ..s }),
        }
    }
}

/// A flag of the health checks, the pools, or the backends' time.
pub open spec fn is_health_flag(a: Seq<char>) -> bool {
    ||| a == "--hc-interval"@
    ||| a == "--hc-timeout"@
    ||| a == "--hc-backoff-base"@
    ||| a == "--hc-backoff-max"@
    ||| a == "--hc-fail"@
    ||| a == "--hc-success"@
    ||| a == "--pool-max-idle"@
    ||| a == "--pool-idle-timeout"@
    ||| a == "--backend-timeout"@
}

/// The settings after a flag with its value, or the refusal.
pub open spec fn set(s: SettingsView, a: Seq<char>, v: Seq<char>, t: Addresses) -> Outcome<SettingsView> {
    if a == "--upstream"@ {
        Ok(SettingsView { upstream_specs: s.upstream_specs.push(v), ..s })
    } else if is_health_flag(a) {
        set_health(s, a, v)
    } else if a == "--tls-cert"@ {
        Ok(SettingsView { tls: ArgsView { cert: Some(v), ..s.tls }, ..s })
    } else if a == "--tls-key"@ {
        Ok(SettingsView { tls: ArgsView { key: Some(v), ..s.tls }, ..s })
    } else if a == "--tls-client-ca"@ {
        Ok(SettingsView { tls: ArgsView { client_ca: Some(v), ..s.tls }, ..s })
    } else if a == "--tls-client-auth"@ {
        match auth_of(v) {
            Err(m) => Err(m),
            Ok(x) => Ok(SettingsView { tls: ArgsView { client_auth: x, ..s.tls }, ..s }),
        }
    } else if a == "--max-conns"@ {
        match number_after(a, v) {
            Err(m) => Err(m),
            Ok(n) => Ok(SettingsView { max_conns: n, ..s }),
        }
    } else if a == "--max-conns-per-ip"@ {
        match number_after(a, v) {
            Err(m) => Err(m),
            Ok(n) => Ok(SettingsView { max_conns_per_ip: n, ..s }),
        }
    } else if a == "--max-body"@ {
        match size_of_text(v) {
            Err(m) => Err(m),
            Ok(n) => Ok(SettingsView { limits: Limits { max_body: n, ..s.limits }, ..s }),
        }
    } else if a == "--max-headers"@ {
        match number_after(a, v) {
            Err(m) => Err(m),
            Ok(n) => Ok(SettingsView { limits: Limits { max_headers: n, ..s.limits }, ..s }),
        }
    } else if a == "--allow-cidr"@ {
        match blocks_of(pieces(v, ','), s.allow, t) {
            Err(m) => Err(m),
            Ok(l) => Ok(SettingsView { allow: l, ..s }),
        }
    } else if a == "--deny-cidr"@ {
        match blocks_of(pieces(v, ','), s.deny, t) {
            Err(m) => Err(m),
            Ok(l) => Ok(SettingsView { deny: l, ..s }),
        }
    } else if a == "--log-level"@ {
        match level_of(v) {
            Err(m) => Err(m),
            Ok(l) => Ok(SettingsView { log_level: Some(l), ..s }),
        }
    } else {
        Ok(SettingsView { admin: Some(v), ..s })
    }
}

/// The settings after the arguments, or the refusal of the first that is wrong.
/// Whatever is no flag is a route.
pub open spec fn settings_of(s: SettingsView, args: Seq<Seq<char>>, t: Addresses) -> Outcome<SettingsView>
    decreases args.len(),
{
    if args.len() == 0 {
        Ok(s)
    } else {
        let a = args[0];
        let rest = args.drop_first();
        if is_switch(a) {
            settings_of(switched(s, a), rest, t)
        } else if takes_value(a) {
            if rest.len() == 0 {
                Err(a + " requires a value"@)
            } else {
                match set(s, a, rest[0], t) {
                    Err(m) => Err(m),
                    Ok(next) => settings_of(next, rest.drop_first(), t),
                }
            }
        } else {
            settings_of(SettingsView { route_specs: s.route_specs.push(a), ..s }, rest, t)
        }
    }
}

impl Settings {
    fn set_health_flag(&mut self, a: &str, v: &str) -> (r: Result<(), Fault>)
        ensures
            final(self).cidrs == old(self).cidrs,
            match r {
                Ok(()) => set_health(old(self)@, a@, v@) == Ok::<SettingsView, Seq<char>>(
                    final(self)@,
                ),
                Err(e) => e.kind == FaultKind::InvalidInput && set_health(
                    old(self)@,
                    a@,
                    v@,
                ) == Err::<SettingsView, Seq<char>>(e.message@),
            },
    {
        if same(a, "--hc-interval") {
            match parse_duration(v) {
                Err(e) => Err(e),
                Ok(d) => {
                    self.hc.interval = d;
                    Ok(())
                },
            }
        } else if same(a, "--hc-timeout") {
            match parse_duration(v) {
                Err(e) => Err(e),
                Ok(d) => {
                    self.hc.timeout = d;
                    Ok(())
                },
            }
        } else if same(a, "--hc-backoff-base") {
            match parse_duration(v) {
                Err(e) => Err(e),
                Ok(d) => {
                    self.hc.backoff_base = d;
                    Ok(())
                },
            }
        } else if same(a, "--hc-backoff-max") {
            match parse_duration(v) {
                Err(e) => Err(e),
                Ok(d) => {
                    self.hc.backoff_max = d;
                    Ok(())
                },
            }
        } else if same(a, "--hc-fail") {
            match parse_after(a, v) {
                Err(e) => Err(e),
                Ok(n) => {
                    self.hc.fail_threshold = n;
                    Ok(())
                },
            }
        } else if same(a, "--hc-success") {
            match parse_after(a, v) {
                Err(e) => Err(e),
                Ok(n) => {
                    self.hc.success_threshold = n;
                    Ok(())
                },
            }
        } else if same(a, "--pool-max-idle") {
            match parse_after(a, v) {
                Err(e) => Err(e),
                Ok(n) => {
                    self.pool.max_idle = n;
                    Ok(())
                },
            }
        } else if same(a, "--pool-idle-timeout") {
            match parse_duration(v) {
                Err(e) => Err(e),
                Ok(d) => {
                    self.pool.idle_timeout = d;
                    Ok(())
                },
            }
        } else {
            match parse_duration(v) {
                Err(e) => Err(e),
                Ok(d) => {
                    self.backend_timeout = d;
                    Ok(())
                },
            }
        }
    }

    fn health_flag(a: &str) -> (r: bool)
        ensures
            r == is_health_flag(a@),
    {
        same(a, "--hc-interval") || same(a, "--hc-timeout") || same(a, "--hc-backoff-base") || same(
            a,
            "--hc-backoff-max",
        ) || same(a, "--hc-fail") || same(a, "--hc-success") || same(a, "--pool-max-idle") || same(
            a,
            "--pool-idle-timeout",
        ) || same(a, "--backend-timeout")
    }

    fn set_flag(&mut self, a: &str, v: &str, t: &Vec<(String, Option<IpAddr>)>) -> (r: Result<
        (),
        Fault,
    >)
        requires
            old(self).wf(),
        ensures
            final(self).wf(),
            match r {
                Ok(()) => set(old(self)@, a@, v@, addresses(t@)) == Ok::<SettingsView, Seq<char>>(
                    final(self)@,
                ),
                Err(e) => e.kind == FaultKind::InvalidInput && set(
                    old(self)@,
                    a@,
                    v@,
                    addresses(t@),
                ) == Err::<SettingsView, Seq<char>>(e.message@),
            },
    {
        if same(a, "--upstream") {
            push_text(&mut self.upstream_specs, own(v));
            Ok(())
        } else if Settings::health_flag(a) {
            self.set_health_flag(a, v)
        } else if same(a, "--tls-cert") {
            self.tls.cert = Some(own(v));
            Ok(())
        } else if same(a, "--tls-key") {
            self.tls.key = Some(own(v));
            Ok(())
        } else if same(a, "--tls-client-ca") {
            self.tls.client_ca = Some(own(v));
            Ok(())
        } else if same(a, "--tls-client-auth") {
            match ClientAuth::parse(v) {
                Err(e) => Err(e),
                Ok(x) => {
                    self.tls.client_auth = x;
                    Ok(())
                },
            }
        } else if same(a, "--max-conns") {
            match parse_after(a, v) {
                Err(e) => Err(e),
                Ok(n) => {
                    self.max_conns = n;
                    Ok(())
                },
            }
        } else if same(a, "--max-conns-per-ip") {
            match parse_after(a, v) {
                Err(e) => Err(e),
                Ok(n) => {
                    self.max_conns_per_ip = n;
                    Ok(())
                },
            }
        } else if same(a, "--max-body") {
            match parse_size(v) {
                Err(e) => Err(bad_input(e)),
                Ok(n) => {
                    self.limits.max_body = n;
                    Ok(())
                },
            }
        } else if same(a, "--max-headers") {
            match parse_after(a, v) {
                Err(e) => Err(e),
                Ok(n) => {
                    self.limits.max_headers = n;
                    Ok(())
                },
            }
        } else if same(a, "--allow-cidr") {
            push_blocks(&mut self.cidrs.allow, v, t)
        } else if same(a, "--deny-cidr") {
            push_blocks(&mut self.cidrs.deny, v, t)
        } else if same(a, "--log-level") {
            match Level::parse(v) {
                Err(e) => Err(bad_input(e)),
                Ok(l) => {
                    self.log_level = Some(l);
                    Ok(())
                },
            }
        } else {
            self.admin = Some(own(v));
            Ok(())
        }
    }

    fn set_switch(&mut self, a: &str) -> (r: bool)
        ensures
            r == is_switch(a@),
            final(self).cidrs == old(self).cidrs,
            final(self)@ == if is_switch(a@) {
                switched(old(self)@, a@)
            } else {
                old(self)@
            },
    {
        if same(a, "--no-forwarded") {
            self.forwarded = false;
            true
        } else if same(a, "--no-request-id") {
            self.request_id = false;
            true
        } else if same(a, "--no-access-log") {
            self.access_log = false;
            true
        } else if same(a, "--log-plain") {
            self.log_plain = true;
            true
        } else {
            false
        }
    }

    /// Reads the arguments behind the listen address. `t` says what the texts of
    /// [`address_texts`] were read as.
    pub fn from_args(args: &Vec<String>, t: &Vec<(String, Option<IpAddr>)>) -> (r: Result<
        Settings,
        Fault,
    >)
        ensures
            match r {
                Ok(s) => settings_of(no_settings(), texts(args@), addresses(t@)) == Ok::<
                    SettingsView,
                    Seq<char>,
                >(s@) && s.wf(),
                Err(e) => e.kind == FaultKind::InvalidInput && settings_of(
                    no_settings(),
                    texts(args@),
                    addresses(t@),
                ) == Err::<SettingsView, Seq<char>>(e.message@),
            },
    {
        let mut s = Settings::default();
        let ghost all = settings_of(no_settings(), texts(args@), addresses(t@));
        let mut i: usize = 0;
        assert(texts(args@).skip(0) =~= texts(args@));
        while i < args.len()
            invariant
                i <= args@.len(),
                s.wf(),
                all == settings_of(no_settings(), texts(args@), addresses(t@)),
                all == settings_of(s@, texts(args@).skip(i as int), addresses(t@)),
            decreases args.len() - i,
        {
            let a = args[i].as_str();
            let ghost rest = texts(args@).skip(i as int);
            assert(rest[0] == a@);
            assert(rest.drop_first() =~= texts(args@).skip(i + 1));
            if s.set_switch(a) {
                i = i + 1;
            } else if wants_value(a) {
                if i + 1 >= args.len() {
                    assert(rest.drop_first().len() == 0);
                    return Err(bad_input(own(a).concat(" requires a value")));
                }
                let v = args[i + 1].as_str();
                assert(rest.drop_first()[0] == v@);
                assert(rest.drop_first().drop_first() =~= texts(args@).skip(i + 2));
                if let Err(e) = s.set_flag(a, v, t) {
                    return Err(e);
                }
                i = i + 2;
            } else {
                push_text(&mut s.route_specs, own(a));
                i = i + 1;
            }
        }
        Ok(s)
    }
}

// ---------------------------------------------------------------------------
// Pools and routes
// ---------------------------------------------------------------------------

/// The name and the spec of a declared pool, after those names; or the refusal.
pub open spec fn declaration(decl: Seq<char>, names: Seq<Seq<char>>) -> Outcome<
    (Seq<char>, Seq<char>),
> {
    match cut(decl, '=') {
        None => Err("--upstream must be NAME=SPEC, got "@ + debug_text(decl)),
        Some((name, spec_text)) => if name.len() == 0 {
            Err("--upstream has empty name: "@ + debug_text(decl))
        } else if names.contains(name) {
            Err("duplicate upstream name "@ + debug_text(name))
        } else {
            Ok((name, spec_text))
        },
    }
}

/// The pool is what its spec says, with those tunables.
pub open spec fn is_declared(
    u: Upstream,
    name: Seq<char>,
    spec_text: Seq<char>,
    hc: HealthView,
    pool: PoolConfig,
) -> bool {
    probe_path(name, spec_text, hc.path) matches Ok((list, path)) && parsed(name, list) matches Ok(
        (algorithm, m),
    ) && u.wf() && is_built(u@, name, algorithm, m, HealthView { path, ..hc }, pool) && (algorithm
        == Algorithm::ConsistentHash ==> ring_covers(u@))
}

/// Why a pool's spec is refused, if it is.
pub open spec fn spec_refusal(name: Seq<char>, spec_text: Seq<char>, hc: HealthView) -> Option<
    Seq<char>,
> {
    match probe_path(name, spec_text, hc.path) {
        Err(m) => Some(m),
        Ok((list, _)) => match parsed(name, list) {
            Err(m) => Some(m),
            Ok(_) => None,
        },
    }
}

/// The names of declared pools, behind those before, with their specs; or the
/// refusal of the first that is wrong.
pub open spec fn declarations(
    decls: Seq<Seq<char>>,
    had: Seq<(Seq<char>, Seq<char>)>,
    hc: HealthView,
) -> Outcome<Seq<(Seq<char>, Seq<char>)>>
    decreases decls.len(),
{
    if decls.len() == 0 {
        Ok(had)
    } else {
        match declaration(decls[0], firsts_of(had)) {
            Err(m) => Err(m),
            Ok((name, spec_text)) => match spec_refusal(name, spec_text, hc) {
                Some(m) => Err(m),
                None => declarations(decls.drop_first(), had.push((name, spec_text)), hc),
            },
        }
    }
}

/// The first parts of pairs.
pub open spec fn firsts_of(v: Seq<(Seq<char>, Seq<char>)>) -> Seq<Seq<char>> {
    Seq::new(v.len(), |i: int| v[i].0)
}

/// The pools are what their specs say.
pub open spec fn are_declared(
    pools: Seq<Upstream>,
    v: Seq<(Seq<char>, Seq<char>)>,
    hc: HealthView,
    pool: PoolConfig,
) -> bool {
    pools.len() == v.len() && forall|i: int|
        0 <= i < v.len() ==> is_declared(#[trigger] pools[i], v[i].0, v[i].1, hc, pool)
}

fn declare(
    decls: &Vec<String>,
    hc: &HealthConfig,
    pool: PoolConfig,
) -> (r: Result<(Vec<String>, Vec<Upstream>), Fault>)
    ensures
        match (r, declarations(texts(decls@), Seq::empty(), hc@)) {
            (Ok(x), Ok(v)) => texts(x.0@) == firsts_of(v) && are_declared(x.1@, v, hc@, pool),
            (Err(e), Err(m)) => e.kind == FaultKind::InvalidInput && e.message@ == m,
            _ => false,
        },
{
    let mut names: Vec<String> = Vec::new();
    let mut pools: Vec<Upstream> = Vec::new();
    let ghost mut had: Seq<(Seq<char>, Seq<char>)> = Seq::empty();
    let ghost all = declarations(texts(decls@), Seq::empty(), hc@);
    let mut i: usize = 0;
    assert(texts(decls@).skip(0) =~= texts(decls@));
    assert(texts(names@) =~= firsts_of(had));
    while i < decls.len()
        invariant
            i <= decls@.len(),
            all == declarations(texts(decls@), Seq::empty(), hc@),
            all == declarations(texts(decls@).skip(i as int), had, hc@),
            texts(names@) == firsts_of(had),
            are_declared(pools@, had, hc@, pool),
        decreases decls.len() - i,
    {
        let ghost rest = texts(decls@).skip(i as int);
        assert(rest[0] == decls@[i as int]@);
        assert(rest.drop_first() =~= texts(decls@).skip(i + 1));
        let decl = decls[i].as_str();
        let (name, spec_text) = match split_once(decl, '=') {
            Some(x) => x,
            None => {
                let q = quoted(decl);
                return Err(
                    bad_input(own("--upstream must be NAME=SPEC, got ").concat(q.as_str())),
                );
            },
        };
        if name.unicode_len() == 0 {
            let q = quoted(decl);
            return Err(bad_input(own("--upstream has empty name: ").concat(q.as_str())));
        }
        if list_has(&names, name) {
            let q = quoted(name);
            return Err(bad_input(own("duplicate upstream name ").concat(q.as_str())));
        }
        match Upstream::from_spec_with_health(name, spec_text, hc, pool) {
            Err(e) => {
                return Err(e);
            },
            Ok(u) => {
                let ghost was = had;
                proof {
                    had = had.push((name@, spec_text@));
                }
                push_text(&mut names, own(name));
                let ghost before = pools@;
                pools.push(u);
                assert(firsts_of(had) =~= firsts_of(was).push(name@));
                assert forall|k: int| 0 <= k < had.len() implies is_declared(
                    #[trigger] pools@[k],
                    had[k].0,
                    had[k].1,
                    hc@,
                    pool,
                ) by {
                    if k < was.len() {
                        assert(is_declared(before[k], was[k].0, was[k].1, hc@, pool));
                    }
                }
            },
        }
        i = i + 1;
    }
    Ok((names, pools))
}

/// What the command line's routes stand for.
pub enum RoutesPlan {
    /// Everything goes to one server.
    All(Seq<char>),
    Each(Seq<PlanView>),
}

/// What each route stands for, behind those before; or the refusal of the first that
/// is wrong.
pub open spec fn plans(
    specs: Seq<Seq<char>>,
    had: Seq<PlanView>,
    names: Seq<Seq<char>>,
    forwarded: bool,
    request_id: bool,
    access_log: bool,
    t: Seq<(Seq<char>, Option<Number>)>,
) -> Outcome<Seq<PlanView>>
    decreases specs.len(),
{
    if specs.len() == 0 {
        Ok(had)
    } else {
        match plan_of(specs[0], names, forwarded, request_id, access_log, t) {
            Err(m) => Err(m),
            Ok(p) => plans(
                specs.drop_first(),
                had.push(p),
                names,
                forwarded,
                request_id,
                access_log,
                t,
            ),
        }
    }
}

/// What the routes stand for. No route at all, and a single bare address, are for
/// everything.
pub open spec fn routes_plan(
    specs: Seq<Seq<char>>,
    names: Seq<Seq<char>>,
    forwarded: bool,
    request_id: bool,
    access_log: bool,
    t: Seq<(Seq<char>, Option<Number>)>,
) -> Outcome<RoutesPlan> {
    if specs.len() == 0 {
        Ok(RoutesPlan::All("127.0.0.1:9000"@))
    } else if specs.len() == 1 && !has_char(specs[0], '=') {
        Ok(RoutesPlan::All(specs[0]))
    } else {
        match plans(specs, Seq::empty(), names, forwarded, request_id, access_log, t) {
            Ok(v) => Ok(RoutesPlan::Each(v)),
            Err(m) => Err(m),
        }
    }
}

/// The route takes everything to one server, and the flags reach it.
pub open spec fn is_catch_all(
    r: Route,
    addr: Seq<char>,
    forwarded: bool,
    request_id: bool,
    access_log: bool,
) -> bool {
    &&& r@.host is None
    &&& r@.method is None
    &&& r@.path == PathView::Any
    &&& r@.rules == no_rules(forwarded)
    &&& r@.chain == no_options(request_id, access_log)
    &&& r.upstream is Own
    &&& is_single(r.upstream->Own_0, addr)
}

/// The routes are what the plan says.
pub open spec fn are_planned(
    routes: Seq<Route>,
    p: RoutesPlan,
    forwarded: bool,
    request_id: bool,
    access_log: bool,
) -> bool {
    match p {
        RoutesPlan::All(addr) => routes.len() == 1 && is_catch_all(
            routes[0],
            addr,
            forwarded,
            request_id,
            access_log,
        ),
        RoutesPlan::Each(v) => routes.len() == v.len() && forall|i: int|
            0 <= i < v.len() ==> is_planned(#[trigger] routes[i], v[i]),
    }
}

fn catch_all(addr: &str, forwarded: bool, request_id: bool, access_log: bool) -> (r: Route)
    ensures
        is_catch_all(r, addr@, forwarded, request_id, access_log),
{
    let mut r = Route::catch_all(addr);
    r.rules.forwarded = forwarded;
    r.chain = default_chain(request_id, access_log);
    r
}

fn resolve_all(
    specs: &Vec<String>,
    names: &Vec<String>,
    forwarded: bool,
    request_id: bool,
    access_log: bool,
    numbers: &Vec<(String, Option<Number>)>,
) -> (r: Result<Vec<Route>, Fault>)
    ensures
        match (
            r,
            plans(
                texts(specs@),
                Seq::empty(),
                texts(names@),
                forwarded,
                request_id,
                access_log,
                readings(numbers@),
            ),
        ) {
            (Ok(routes), Ok(v)) => are_planned(
                routes@,
                RoutesPlan::Each(v),
                forwarded,
                request_id,
                access_log,
            ),
            (Err(e), Err(m)) => e.kind == FaultKind::InvalidInput && e.message@ == m,
            _ => false,
        },
{
    let mut routes: Vec<Route> = Vec::new();
    let ghost t = readings(numbers@);
    let ghost n = texts(names@);
    let ghost all = plans(
        texts(specs@),
        Seq::empty(),
        n,
        forwarded,
        request_id,
        access_log,
        t,
    );
    let ghost mut had: Seq<PlanView> = Seq::empty();
    let mut i: usize = 0;
    assert(texts(specs@).skip(0) =~= texts(specs@));
    while i < specs.len()
        invariant
            i <= specs@.len(),
            t == readings(numbers@),
            n == texts(names@),
            all == plans(
                texts(specs@),
                Seq::empty(),
                n,
                forwarded,
                request_id,
                access_log,
                t,
            ),
            all == plans(
                texts(specs@).skip(i as int),
                had,
                n,
                forwarded,
                request_id,
                access_log,
                t,
            ),
            routes@.len() == had.len(),
            forall|k: int| 0 <= k < had.len() ==> is_planned(#[trigger] routes@[k], had[k]),
        decreases specs.len() - i,
    {
        let ghost rest = texts(specs@).skip(i as int);
        assert(rest[0] == specs@[i as int]@);
        assert(rest.drop_first() =~= texts(specs@).skip(i + 1));
        match resolve_route(
            specs[i].as_str(),
            names,
            forwarded,
            request_id,
            access_log,
            numbers,
        ) {
            Err(e) => {
                return Err(e);
            },
            Ok(route) => {
                let ghost p = plan_of(
                    specs@[i as int]@,
                    n,
                    forwarded,
                    request_id,
                    access_log,
                    t,
                )->Ok_0;
                proof {
                    had = had.push(p);
                }
                routes.push(route);
            },
        }
        i = i + 1;
    }
    Ok(routes)
}

/// Makes the route table: first the declared pools, then the routes, each bound to a
/// declared pool or to an address. `numbers` says what the texts of the routes'
/// numbers were read as.
pub fn build_routes(
    upstream_specs: &Vec<String>,
    route_specs: &Vec<String>,
    hc: &HealthConfig,
    pool: PoolConfig,
    forwarded: bool,
    request_id: bool,
    access_log: bool,
    numbers: &Vec<(String, Option<Number>)>,
) -> (r: Result<RouteTable, Fault>)
    ensures
        match declarations(texts(upstream_specs@), Seq::empty(), hc@) {
            Err(m) => r matches Err(e) && e.kind == FaultKind::InvalidInput && e.message@ == m,
            Ok(v) => match routes_plan(
                texts(route_specs@),
                firsts_of(v),
                forwarded,
                request_id,
                access_log,
                readings(numbers@),
            ) {
                Err(m) => r matches Err(e) && e.kind == FaultKind::InvalidInput && e.message@
                    == m,
                Ok(p) => r matches Ok(t) && t.wf() && are_declared(t.pools@, v, hc@, pool)
                    && are_planned(t.routes@, p, forwarded, request_id, access_log),
            },
        },
{
    let (names, pools) = match declare(upstream_specs, hc, pool) {
        Ok(x) => x,
        Err(e) => {
            return Err(e);
        },
    };
    let ghost v = declarations(texts(upstream_specs@), Seq::empty(), hc@)->Ok_0;
    assert(texts(names@).len() == names@.len());
    assert(texts(route_specs@).len() == route_specs@.len());
    let mut routes: Vec<Route> = Vec::new();
    if route_specs.len() == 0 {
        routes.push(catch_all("127.0.0.1:9000", forwarded, request_id, access_log));
    } else if route_specs.len() == 1 && !contains_char(route_specs[0].as_str(), '=') {
        assert(texts(route_specs@)[0] == route_specs@[0]@);
        routes.push(
            catch_all(route_specs[0].as_str(), forwarded, request_id, access_log),
        );
    } else {
        if route_specs.len() == 1 {
            assert(texts(route_specs@)[0] == route_specs@[0]@);
        }
        routes = match resolve_all(
            route_specs,
            &names,
            forwarded,
            request_id,
            access_log,
            numbers,
        ) {
            Ok(x) => x,
            Err(e) => {
                return Err(e);
            },
        };
        proof {
            let plan = plans(
                texts(route_specs@),
                Seq::empty(),
                texts(names@),
                forwarded,
                request_id,
                access_log,
                readings(numbers@),
            )->Ok_0;
            lemma_plans_are_bound(
                texts(route_specs@),
                Seq::empty(),
                texts(names@),
                forwarded,
                request_id,
                access_log,
                readings(numbers@),
            );
            assert forall|i: int| 0 <= i < routes@.len() implies match (
            #[trigger] routes@[i]).upstream {
                Target::Declared(k) => k < pools@.len(),
                Target::Own(u) => u.wf(),
            } by {
                assert(is_planned(routes@[i], plan[i]));
                assert(is_bound(plan[i], names@.len() as int));
            }
        }
    }
    Ok(RouteTable::new(routes, pools))
}

/// The plan's pool is one of so many.
pub open spec fn is_bound(p: PlanView, n: int) -> bool {
    match p.target {
        Bound::Pool(i) => 0 <= i < n,
        Bound::Server(_) => true,
    }
}

proof fn lemma_plans_are_bound(
    specs: Seq<Seq<char>>,
    had: Seq<PlanView>,
    names: Seq<Seq<char>>,
    forwarded: bool,
    request_id: bool,
    access_log: bool,
    t: Seq<(Seq<char>, Option<Number>)>,
)
    requires
        forall|i: int| 0 <= i < had.len() ==> is_bound(#[trigger] had[i], names.len() as int),
    ensures
        plans(specs, had, names, forwarded, request_id, access_log, t) matches Ok(v) ==> forall|
            i: int,
        |
            0 <= i < v.len() ==> is_bound(#[trigger] v[i], names.len() as int),
    decreases specs.len(),
{
    if specs.len() > 0 {
        let p = plan_of(specs[0], names, forwarded, request_id, access_log, t);
        if let Ok(x) = p {
            let m = crate::router::matchers_of(specs[0])->Ok_0;
            crate::text::lemma_first_index(names, m.target);
            assert(is_bound(x, names.len() as int));
            lemma_plans_are_bound(
                specs.drop_first(),
                had.push(x),
                names,
                forwarded,
                request_id,
                access_log,
                t,
            );
        }
    }
}

/// No two declared pools have one name, and none has the empty name: a route that
/// names a pool is never in doubt.
pub proof fn law_pool_names_are_unique(
    decls: Seq<Seq<char>>,
    had: Seq<(Seq<char>, Seq<char>)>,
    hc: HealthView,
)
    requires
        declarations(decls, had, hc) is Ok,
        firsts_of(had).no_duplicates(),
        forall|i: int| 0 <= i < had.len() ==> (#[trigger] had[i]).0.len() > 0,
    ensures
        firsts_of(declarations(decls, had, hc)->Ok_0).no_duplicates(),
        forall|i: int|
            0 <= i < declarations(decls, had, hc)->Ok_0.len() ==> (#[trigger] declarations(
                decls,
                had,
                hc,
            )->Ok_0[i]).0.len() > 0,
    decreases decls.len(),
{
    if decls.len() > 0 {
        let (name, spec_text) = declaration(decls[0], firsts_of(had))->Ok_0;
        let next = had.push((name, spec_text));
        assert(firsts_of(next) =~= firsts_of(had).push(name));
        assert forall|i: int, j: int|
            0 <= i < next.len() && 0 <= j < next.len() && i != j implies firsts_of(next)[i]
            != firsts_of(next)[j] by {
            if i < had.len() {
                assert(firsts_of(had).contains(firsts_of(had)[i]));
            }
            if j < had.len() {
                assert(firsts_of(had).contains(firsts_of(had)[j]));
            }
        }
        law_pool_names_are_unique(decls.drop_first(), next, hc);
    }
}

/// Arguments behind others are read as if they stood alone, from the settings that
/// the others made: a config file's arguments come first, and the command line's own
/// behind them.
pub proof fn law_arguments_are_read_in_turn(
    s: SettingsView,
    a: Seq<Seq<char>>,
    b: Seq<Seq<char>>,
    t: Addresses,
)
    requires
        settings_of(s, a, t) is Ok,
    ensures
        settings_of(s, a + b, t) == settings_of(settings_of(s, a, t)->Ok_0, b, t),
    decreases a.len(),
{
    let all = a + b;
    if a.len() == 0 {
        assert(all =~= b);
    } else {
        let rest = a.drop_first();
        assert(all[0] == a[0]);
        assert(all.drop_first() =~= rest + b);
        if is_switch(a[0]) {
            law_arguments_are_read_in_turn(switched(s, a[0]), rest, b, t);
        } else if takes_value(a[0]) {
            assert((rest + b)[0] == rest[0]);
            assert((rest + b).drop_first() =~= rest.drop_first() + b);
            let next = set(s, a[0], rest[0], t)->Ok_0;
            law_arguments_are_read_in_turn(next, rest.drop_first(), b, t);
        } else {
            let next = SettingsView { route_specs: s.route_specs.push(a[0]), ..s };
            law_arguments_are_read_in_turn(next, rest, b, t);
        }
    }
}

/// Of two values of one flag the later one counts, whatever the first one was; so
/// the command line overrides a config file. Pools, routes and blocks of addresses
/// add up instead.
pub proof fn law_the_last_value_wins(
    s: SettingsView,
    flag: Seq<char>,
    first: Seq<char>,
    last: Seq<char>,
    t: Addresses,
)
    requires
        takes_value(flag),
        flag != "--upstream"@,
        flag != "--allow-cidr"@,
        flag != "--deny-cidr"@,
        set(s, flag, first, t) is Ok,
    ensures
        set(set(s, flag, first, t)->Ok_0, flag, last, t) == set(s, flag, last, t),
{
}

} // verus!
