//! How settings are read.

use vstd::prelude::*;

use super::lemma_nothing_to_trim;
use crate::balancer::breaker::HealthView;
use crate::balancer::PoolConfig;
use crate::cli::{
    blocks_of, duration_of, is_switch, no_settings, settings_of, switched, takes_value, Addresses,
    SettingsView,
};
use crate::config::{
    comment_start, is_switch_key, is_value_key, setting_line, uncommented, upstream_line, value_of,
    DraftView, ValueView,
};
use crate::logging::level_of;
use crate::middleware::auth::CredentialView;
use crate::middleware::options::{
    coherent, credential_of, layers_of, no_options, rate_of, reading, threshold_of, LayerView,
    OptionsView,
};
use crate::middleware::{Number, Rate};
use crate::security::{size_of_text, Limits};
use crate::text::{
    cut, decimal, has_char, is_digit, lemma_decimal, lemma_decimal_reads_back, lemma_first_index,
    lemma_first_index_is, lower, pieces, same_fold, trimmed, without_prefix, without_suffix,
};
use crate::time::Duration;
use crate::tls::{auth_of, checks, discord, exposure, ArgsView, ClientAuth};
use crate::waf::{mode_of, WafMode};

verus! {

// ---------------------------------------------------------------------------
// Spans of time
// ---------------------------------------------------------------------------

proof fn lemma_suffix_of(a: Seq<char>, b: Seq<char>)
    ensures
        without_suffix(a + b, b) == Some(a),
{
    assert((a + b).skip(a.len() as int) =~= b);
    assert((a + b).take(a.len() as int) =~= a);
}

proof fn lemma_prefix_of(a: Seq<char>, b: Seq<char>)
    ensures
        without_prefix(a + b, a) == Some(b),
{
    assert((a + b).take(a.len() as int) =~= a);
    assert((a + b).skip(a.len() as int) =~= b);
}

/// A span is a number of milliseconds behind which stands `ms`, or of seconds with or
/// without an `s`.
pub proof fn law_spans_have_their_unit(n: u64)
    ensures
        duration_of(decimal(n as nat) + seq!['m', 's']) == Ok::<Duration, Seq<char>>(
            Duration { nanos: (n * 1_000_000) as u128 },
        ),
        duration_of(decimal(n as nat) + seq!['s']) == Ok::<Duration, Seq<char>>(
            Duration { nanos: (n * 1_000_000_000) as u128 },
        ),
        duration_of(decimal(n as nat)) == Ok::<Duration, Seq<char>>(
            Duration { nanos: (n * 1_000_000_000) as u128 },
        ),
{
    let d = decimal(n as nat);
    lemma_decimal(n as nat);
    lemma_decimal_reads_back(n as nat, u64::MAX as int);
    reveal_strlit("ms");
    reveal_strlit("s");
    assert("ms"@ =~= seq!['m', 's']);
    assert("s"@ =~= seq!['s']);
    lemma_suffix_of(d, seq!['m', 's']);
    lemma_suffix_of(d, seq!['s']);
    assert(is_digit(d[d.len() - 1]));
    let s = d + seq!['s'];
    assert(without_suffix(s, "ms"@) is None) by {
        if s.len() >= 2 {
            assert(s.skip(s.len() - 2)[0] == d[d.len() - 1]);
        }
    }
    assert(without_suffix(d, "ms"@) is None) by {
        if d.len() >= 2 {
            assert(d.skip(d.len() - 2)[1] == d[d.len() - 1]);
        }
    }
    assert(without_suffix(d, "s"@) is None) by {
        assert(d.skip(d.len() - 1)[0] == d[d.len() - 1]);
    }
}

// ---------------------------------------------------------------------------
// The command line
// ---------------------------------------------------------------------------

/// The arguments of one flag with its value.
pub open spec fn flagged(flag: Seq<char>, value: Seq<char>) -> Seq<Seq<char>> {
    seq![flag, value]
}

proof fn lemma_flag(s: SettingsView, flag: Seq<char>, value: Seq<char>, t: Addresses)
    requires
        takes_value(flag),
        !is_switch(flag),
    ensures
        settings_of(s, flagged(flag, value), t) == crate::cli::set(s, flag, value, t),
{
    let args = flagged(flag, value);
    let rest = args.drop_first();
    assert(rest =~= seq![value]);
    assert(rest.drop_first() =~= Seq::empty());
    if crate::cli::set(s, flag, value, t) is Ok {
        assert(settings_of(crate::cli::set(s, flag, value, t)->Ok_0, rest.drop_first(), t) == crate::cli::set(
            s,
            flag,
            value,
            t,
        ));
    }
}

proof fn lemma_switch(s: SettingsView, flag: Seq<char>, t: Addresses)
    requires
        is_switch(flag),
    ensures
        settings_of(s, seq![flag], t) == Ok::<SettingsView, Seq<char>>(switched(s, flag)),
{
    assert(seq![flag].drop_first() =~= Seq::empty());
    assert(settings_of(switched(s, flag), seq![flag].drop_first(), t) == Ok::<
        SettingsView,
        Seq<char>,
    >(switched(s, flag)));
}

proof fn lemma_flags()
    ensures
        "--upstream"@.len() == 10 && "--upstream"@[2] == 'u' && "--upstream"@[5] == 't' && "--upstream"@[6] == 'r',
        "--hc-interval"@.len() == 13 && "--hc-interval"@[2] == 'h' && "--hc-interval"@[5] == 'i' && "--hc-interval"@[6] == 'n',
        "--hc-timeout"@.len() == 12 && "--hc-timeout"@[2] == 'h' && "--hc-timeout"@[5] == 't' && "--hc-timeout"@[6] == 'i',
        "--hc-backoff-base"@.len() == 17 && "--hc-backoff-base"@[2] == 'h' && "--hc-backoff-base"@[5] == 'b' && "--hc-backoff-base"@[6] == 'a',
        "--hc-backoff-max"@.len() == 16 && "--hc-backoff-max"@[2] == 'h' && "--hc-backoff-max"@[5] == 'b' && "--hc-backoff-max"@[6] == 'a',
        "--hc-fail"@.len() == 9 && "--hc-fail"@[2] == 'h' && "--hc-fail"@[5] == 'f' && "--hc-fail"@[6] == 'a',
        "--hc-success"@.len() == 12 && "--hc-success"@[2] == 'h' && "--hc-success"@[5] == 's' && "--hc-success"@[6] == 'u',
        "--pool-max-idle"@.len() == 15 && "--pool-max-idle"@[2] == 'p' && "--pool-max-idle"@[5] == 'l' && "--pool-max-idle"@[6] == '-',
        "--pool-idle-timeout"@.len() == 19 && "--pool-idle-timeout"@[2] == 'p' && "--pool-idle-timeout"@[5] == 'l' && "--pool-idle-timeout"@[6] == '-',
        "--backend-timeout"@.len() == 17 && "--backend-timeout"@[2] == 'b' && "--backend-timeout"@[5] == 'k' && "--backend-timeout"@[6] == 'e',
        "--tls-cert"@.len() == 10 && "--tls-cert"@[2] == 't' && "--tls-cert"@[5] == '-' && "--tls-cert"@[6] == 'c',
        "--tls-key"@.len() == 9 && "--tls-key"@[2] == 't' && "--tls-key"@[5] == '-' && "--tls-key"@[6] == 'k',
        "--tls-client-ca"@.len() == 15 && "--tls-client-ca"@[2] == 't' && "--tls-client-ca"@[5] == '-' && "--tls-client-ca"@[6] == 'c',
        "--tls-client-auth"@.len() == 17 && "--tls-client-auth"@[2] == 't' && "--tls-client-auth"@[5] == '-' && "--tls-client-auth"@[6] == 'c',
        "--max-conns"@.len() == 11 && "--max-conns"@[2] == 'm' && "--max-conns"@[5] == '-' && "--max-conns"@[6] == 'c',
        "--max-conns-per-ip"@.len() == 18 && "--max-conns-per-ip"@[2] == 'm' && "--max-conns-per-ip"@[5] == '-' && "--max-conns-per-ip"@[6] == 'c',
        "--max-body"@.len() == 10 && "--max-body"@[2] == 'm' && "--max-body"@[5] == '-' && "--max-body"@[6] == 'b',
        "--max-headers"@.len() == 13 && "--max-headers"@[2] == 'm' && "--max-headers"@[5] == '-' && "--max-headers"@[6] == 'h',
        "--allow-cidr"@.len() == 12 && "--allow-cidr"@[2] == 'a' && "--allow-cidr"@[5] == 'o' && "--allow-cidr"@[6] == 'w',
        "--deny-cidr"@.len() == 11 && "--deny-cidr"@[2] == 'd' && "--deny-cidr"@[5] == 'y' && "--deny-cidr"@[6] == '-',
        "--log-level"@.len() == 11 && "--log-level"@[2] == 'l' && "--log-level"@[5] == '-' && "--log-level"@[6] == 'l',
        "--admin"@.len() == 7 && "--admin"@[2] == 'a' && "--admin"@[5] == 'i' && "--admin"@[6] == 'n',
        "--no-forwarded"@.len() == 14 && "--no-forwarded"@[2] == 'n' && "--no-forwarded"@[5] == 'f' && "--no-forwarded"@[6] == 'o',
        "--no-request-id"@.len() == 15 && "--no-request-id"@[2] == 'n' && "--no-request-id"@[5] == 'r' && "--no-request-id"@[6] == 'e',
        "--no-access-log"@.len() == 15 && "--no-access-log"@[2] == 'n' && "--no-access-log"@[5] == 'a' && "--no-access-log"@[6] == 'c',
        "--log-plain"@.len() == 11 && "--log-plain"@[2] == 'l' && "--log-plain"@[5] == '-' && "--log-plain"@[6] == 'p',
{
    reveal_strlit("--upstream");
    reveal_strlit("--hc-interval");
    reveal_strlit("--hc-timeout");
    reveal_strlit("--hc-backoff-base");
    reveal_strlit("--hc-backoff-max");
    reveal_strlit("--hc-fail");
    reveal_strlit("--hc-success");
    reveal_strlit("--pool-max-idle");
    reveal_strlit("--pool-idle-timeout");
    reveal_strlit("--backend-timeout");
    reveal_strlit("--tls-cert");
    reveal_strlit("--tls-key");
    reveal_strlit("--tls-client-ca");
    reveal_strlit("--tls-client-auth");
    reveal_strlit("--max-conns");
    reveal_strlit("--max-conns-per-ip");
    reveal_strlit("--max-body");
    reveal_strlit("--max-headers");
    reveal_strlit("--allow-cidr");
    reveal_strlit("--deny-cidr");
    reveal_strlit("--log-level");
    reveal_strlit("--admin");
    reveal_strlit("--no-forwarded");
    reveal_strlit("--no-request-id");
    reveal_strlit("--no-access-log");
    reveal_strlit("--log-plain");
}

/// Flags of the health checks: each sets its own setting, with a number or a span.
pub proof fn law_flags_of_health_checks(s: SettingsView, n: u64, v: Seq<char>, t: Addresses)
    requires
        n <= usize::MAX,
    ensures
        ({
            let num = decimal(n as nat);
            let secs = decimal(n as nat) + seq!['s'];
            let span = Duration { nanos: (n * 1_000_000_000) as u128 };
            &&& settings_of(s, flagged("--hc-interval"@, secs), t) == Ok::<SettingsView, Seq<char>>(
                SettingsView { hc: HealthView { interval: span, ..s.hc }, ..s },
            )
            &&& settings_of(s, flagged("--hc-timeout"@, secs), t) == Ok::<SettingsView, Seq<char>>(
                SettingsView { hc: HealthView { timeout: span, ..s.hc }, ..s },
            )
            &&& settings_of(s, flagged("--hc-backoff-base"@, secs), t) == Ok::<SettingsView, Seq<char>>(
                SettingsView { hc: HealthView { backoff_base: span, ..s.hc }, ..s },
            )
            &&& settings_of(s, flagged("--hc-backoff-max"@, secs), t) == Ok::<SettingsView, Seq<char>>(
                SettingsView { hc: HealthView { backoff_max: span, ..s.hc }, ..s },
            )
        }),
{
    let num = decimal(n as nat);
    let secs = decimal(n as nat) + seq!['s'];
    lemma_flags();
    lemma_decimal_reads_back(n as nat, usize::MAX as int);
    law_spans_have_their_unit(n);
    lemma_flag(s, "--hc-interval"@, secs, t);
    lemma_flag(s, "--hc-timeout"@, secs, t);
    lemma_flag(s, "--hc-backoff-base"@, secs, t);
    lemma_flag(s, "--hc-backoff-max"@, secs, t);
}

/// Flags of thresholds and pools: each sets its own setting.
pub proof fn law_flags_of_thresholds(s: SettingsView, n: u64, v: Seq<char>, t: Addresses)
    requires
        n <= usize::MAX,
    ensures
        ({
            let num = decimal(n as nat);
            let secs = decimal(n as nat) + seq!['s'];
            let span = Duration { nanos: (n * 1_000_000_000) as u128 };
            &&& settings_of(s, flagged("--hc-fail"@, num), t) == Ok::<SettingsView, Seq<char>>(
                SettingsView { hc: HealthView { fail_threshold: n as usize, ..s.hc }, ..s },
            )
            &&& settings_of(s, flagged("--hc-success"@, num), t) == Ok::<SettingsView, Seq<char>>(
                SettingsView { hc: HealthView { success_threshold: n as usize, ..s.hc }, ..s },
            )
            &&& settings_of(s, flagged("--pool-max-idle"@, num), t) == Ok::<SettingsView, Seq<char>>(
                SettingsView { pool: PoolConfig { max_idle: n as usize, ..s.pool }, ..s },
            )
            &&& settings_of(s, flagged("--pool-idle-timeout"@, secs), t) == Ok::<SettingsView, Seq<char>>(
                SettingsView { pool: PoolConfig { idle_timeout: span, ..s.pool }, ..s },
            )
            &&& settings_of(s, flagged("--backend-timeout"@, secs), t) == Ok::<SettingsView, Seq<char>>(
                SettingsView { backend_timeout: span, ..s },
            )
        }),
{
    let num = decimal(n as nat);
    let secs = decimal(n as nat) + seq!['s'];
    lemma_flags();
    lemma_decimal_reads_back(n as nat, usize::MAX as int);
    law_spans_have_their_unit(n);
    lemma_flag(s, "--hc-fail"@, num, t);
    lemma_flag(s, "--hc-success"@, num, t);
    lemma_flag(s, "--pool-max-idle"@, num, t);
    lemma_flag(s, "--pool-idle-timeout"@, secs, t);
    lemma_flag(s, "--backend-timeout"@, secs, t);
}

/// Flags of TLS and of the admin plane: each sets its own setting.
pub proof fn law_flags_of_tls(s: SettingsView, n: u64, v: Seq<char>, t: Addresses)
    requires
        n <= usize::MAX,
    ensures
        ({
            let num = decimal(n as nat);
            let secs = decimal(n as nat) + seq!['s'];
            let span = Duration { nanos: (n * 1_000_000_000) as u128 };
            &&& settings_of(s, flagged("--upstream"@, v), t) == Ok::<SettingsView, Seq<char>>(
                SettingsView { upstream_specs: s.upstream_specs.push(v), ..s },
            )
            &&& settings_of(s, flagged("--tls-cert"@, v), t) == Ok::<SettingsView, Seq<char>>(
                SettingsView { tls: ArgsView { cert: Some(v), ..s.tls }, ..s },
            )
            &&& settings_of(s, flagged("--tls-key"@, v), t) == Ok::<SettingsView, Seq<char>>(
                SettingsView { tls: ArgsView { key: Some(v), ..s.tls }, ..s },
            )
            &&& settings_of(s, flagged("--tls-client-ca"@, v), t) == Ok::<SettingsView, Seq<char>>(
                SettingsView { tls: ArgsView { client_ca: Some(v), ..s.tls }, ..s },
            )
            &&& settings_of(s, flagged("--admin"@, v), t) == Ok::<SettingsView, Seq<char>>(
                SettingsView { admin: Some(v), ..s },
            )
        }),
{
    let num = decimal(n as nat);
    let secs = decimal(n as nat) + seq!['s'];
    lemma_flags();
    lemma_decimal_reads_back(n as nat, usize::MAX as int);
    law_spans_have_their_unit(n);
    lemma_flag(s, "--upstream"@, v, t);
    lemma_flag(s, "--tls-cert"@, v, t);
    lemma_flag(s, "--tls-key"@, v, t);
    lemma_flag(s, "--tls-client-ca"@, v, t);
    lemma_flag(s, "--admin"@, v, t);
}

/// Flags of limits: each sets its own setting.
pub proof fn law_flags_of_limits(s: SettingsView, n: u64, v: Seq<char>, t: Addresses)
    requires
        n <= usize::MAX,
    ensures
        ({
            let num = decimal(n as nat);
            let secs = decimal(n as nat) + seq!['s'];
            let span = Duration { nanos: (n * 1_000_000_000) as u128 };
            &&& settings_of(s, flagged("--max-conns"@, num), t) == Ok::<SettingsView, Seq<char>>(
                SettingsView { max_conns: n as usize, ..s },
            )
            &&& settings_of(s, flagged("--max-conns-per-ip"@, num), t) == Ok::<SettingsView, Seq<char>>(
                SettingsView { max_conns_per_ip: n as usize, ..s },
            )
            &&& settings_of(s, flagged("--max-headers"@, num), t) == Ok::<SettingsView, Seq<char>>(
                SettingsView { limits: Limits { max_headers: n as usize, ..s.limits }, ..s },
            )
        }),
{
    let num = decimal(n as nat);
    let secs = decimal(n as nat) + seq!['s'];
    lemma_flags();
    lemma_decimal_reads_back(n as nat, usize::MAX as int);
    law_spans_have_their_unit(n);
    lemma_flag(s, "--max-conns"@, num, t);
    lemma_flag(s, "--max-conns-per-ip"@, num, t);
    lemma_flag(s, "--max-headers"@, num, t);
}

/// Flags that stand alone: each switches its own setting.
pub proof fn law_switches(s: SettingsView, t: Addresses)
    ensures
        settings_of(s, seq!["--no-forwarded"@], t) == Ok::<SettingsView, Seq<char>>(
            SettingsView { forwarded: false, ..s },
        ),
        settings_of(s, seq!["--no-request-id"@], t) == Ok::<SettingsView, Seq<char>>(
            SettingsView { request_id: false, ..s },
        ),
        settings_of(s, seq!["--no-access-log"@], t) == Ok::<SettingsView, Seq<char>>(
            SettingsView { access_log: false, ..s },
        ),
        settings_of(s, seq!["--log-plain"@], t) == Ok::<SettingsView, Seq<char>>(
            SettingsView { log_plain: true, ..s },
        ),
{
    lemma_flags();
    lemma_switch(s, "--no-forwarded"@, t);
    lemma_switch(s, "--no-request-id"@, t);
    lemma_switch(s, "--no-access-log"@, t);
    lemma_switch(s, "--log-plain"@, t);
}

/// Flags of sizes, levels, checks and blocks: each sets its own setting to what its
/// value is read as.
pub proof fn law_flags_of_words(s: SettingsView, v: Seq<char>, t: Addresses)
    ensures
        size_of_text(v) matches Ok(size) ==> settings_of(s, flagged("--max-body"@, v), t) == Ok::<
            SettingsView,
            Seq<char>,
        >(SettingsView { limits: Limits { max_body: size, ..s.limits }, ..s }),
        level_of(v) matches Ok(l) ==> settings_of(s, flagged("--log-level"@, v), t) == Ok::<
            SettingsView,
            Seq<char>,
        >(SettingsView { log_level: Some(l), ..s }),
        auth_of(v) matches Ok(a) ==> settings_of(s, flagged("--tls-client-auth"@, v), t) == Ok::<
            SettingsView,
            Seq<char>,
        >(SettingsView { tls: ArgsView { client_auth: a, ..s.tls }, ..s }),
        blocks_of(pieces(v, ','), s.allow, t) matches Ok(l) ==> settings_of(
            s,
            flagged("--allow-cidr"@, v),
            t,
        ) == Ok::<SettingsView, Seq<char>>(SettingsView { allow: l, ..s }),
        blocks_of(pieces(v, ','), s.deny, t) matches Ok(l) ==> settings_of(
            s,
            flagged("--deny-cidr"@, v),
            t,
        ) == Ok::<SettingsView, Seq<char>>(SettingsView { deny: l, ..s }),
{
    lemma_flags();
    lemma_flag(s, "--max-body"@, v, t);
    lemma_flag(s, "--log-level"@, v, t);
    lemma_flag(s, "--tls-client-auth"@, v, t);
    lemma_flag(s, "--allow-cidr"@, v, t);
    lemma_flag(s, "--deny-cidr"@, v, t);
}

/// What is no flag is a route, in the order in which routes stand; a flag without its
/// value is refused.
pub proof fn law_what_is_no_flag_is_a_route(s: SettingsView, a: Seq<char>, t: Addresses)
    ensures
        a.len() > 0 && a[0] != '-' ==> settings_of(s, seq![a], t) == Ok::<SettingsView, Seq<char>>(
            SettingsView { route_specs: s.route_specs.push(a), ..s },
        ),
        settings_of(s, seq!["--admin"@], t) is Err,
        settings_of(s, seq!["--upstream"@], t) is Err,
{
    lemma_flags();
    reveal_strlit("--upstream");
    reveal_strlit("--hc-interval");
    reveal_strlit("--hc-timeout");
    reveal_strlit("--hc-backoff-base");
    reveal_strlit("--hc-backoff-max");
    reveal_strlit("--hc-fail");
    reveal_strlit("--hc-success");
    reveal_strlit("--pool-max-idle");
    reveal_strlit("--pool-idle-timeout");
    reveal_strlit("--backend-timeout");
    reveal_strlit("--tls-cert");
    reveal_strlit("--tls-key");
    reveal_strlit("--tls-client-ca");
    reveal_strlit("--tls-client-auth");
    reveal_strlit("--max-conns");
    reveal_strlit("--max-conns-per-ip");
    reveal_strlit("--max-body");
    reveal_strlit("--max-headers");
    reveal_strlit("--allow-cidr");
    reveal_strlit("--deny-cidr");
    reveal_strlit("--log-level");
    reveal_strlit("--admin");
    reveal_strlit("--no-forwarded");
    reveal_strlit("--no-request-id");
    reveal_strlit("--no-access-log");
    reveal_strlit("--log-plain");
    assert(seq![a].drop_first() =~= Seq::empty());
    assert(seq!["--admin"@].drop_first() =~= Seq::<Seq<char>>::empty());
    assert(seq!["--upstream"@].drop_first() =~= Seq::<Seq<char>>::empty());
    let next = SettingsView { route_specs: s.route_specs.push(a), ..s };
    assert(settings_of(next, seq![a].drop_first(), t) == Ok::<SettingsView, Seq<char>>(next));
}

/// Where nothing is said, requests are reported, numbered and logged as JSON, and
/// nothing else is asked for.
pub proof fn law_the_defaults_of_the_settings()
    ensures
        no_settings().forwarded && no_settings().request_id && no_settings().access_log,
        !no_settings().log_plain,
        no_settings().max_conns == 10_000,
        no_settings().max_conns_per_ip == 64,
        no_settings().limits.max_body == 10 * 1024 * 1024,
        no_settings().limits.max_headers == 100,
        no_settings().backend_timeout.nanos == 30 * 1_000_000_000,
        no_settings().tls.cert is None && no_settings().tls.key is None,
        no_settings().tls.client_auth == ClientAuth::Off,
        no_settings().allow.len() == 0 && no_settings().deny.len() == 0,
        no_settings().admin is None && no_settings().log_level is None,
{
}

// ---------------------------------------------------------------------------
// TLS
// ---------------------------------------------------------------------------

/// How clients are checked is read by name, in any case, and by no other word.
pub proof fn law_client_checks_are_read(s: Seq<char>)
    ensures
        same_fold(s, "off"@) || same_fold(s, "none"@) ==> auth_of(s) == Ok::<ClientAuth, Seq<char>>(
            ClientAuth::Off,
        ),
        same_fold(s, "optional"@) ==> auth_of(s) == Ok::<ClientAuth, Seq<char>>(
            ClientAuth::Optional,
        ),
        same_fold(s, "required"@) || same_fold(s, "require"@) ==> auth_of(s) == Ok::<
            ClientAuth,
            Seq<char>,
        >(ClientAuth::Required),
        !same_fold(s, "off"@) && !same_fold(s, "none"@) && !same_fold(s, "optional"@) && !same_fold(
            s,
            "required"@,
        ) && !same_fold(s, "require"@) ==> auth_of(s) is Err,
{
    reveal_strlit("off");
    reveal_strlit("none");
    reveal_strlit("optional");
    reveal_strlit("required");
    reveal_strlit("require");
    assert(lower("off"@) =~= "off"@);
    assert(lower("none"@) =~= "none"@);
    assert(lower("optional"@) =~= "optional"@);
    assert(lower("required"@) =~= "required"@);
    assert(lower("require"@) =~= "require"@);
    assert("off"@.len() == 3 && "none"@.len() == 4 && "optional"@.len() == 8 && "required"@.len()
        == 8 && "require"@.len() == 7);
    assert("optional"@[0] != "required"@[0]);
}

/// A certificate and its key go together, and so do authorities and a check of clients,
/// which need a certificate; and nothing at all is fine.
pub proof fn law_tls_settings_go_together(a: ArgsView)
    ensures
        discord(a) is None <==> (a.cert is None && a.key is None && a.client_ca is None
            && a.client_auth == ClientAuth::Off) || (a.cert is Some && a.key is Some && (
        a.client_ca is Some <==> a.client_auth != ClientAuth::Off)),
{
}

/// A key file is warned about exactly where its group or others can reach it.
pub proof fn law_exposed_keys_are_warned_about(path: Seq<char>, owner: u32, group: u32, others: u32)
    requires
        owner < 8,
        group < 8,
        others < 8,
    ensures
        exposure(path, (owner * 64 + group * 8 + others) as u32) is None <==> group == 0 && others
            == 0,
{
}

// ---------------------------------------------------------------------------
// The file
// ---------------------------------------------------------------------------

proof fn lemma_comment(a: Seq<char>, b: Seq<char>)
    requires
        forall|k: int| 0 <= k < a.len() ==> a[k] != '#' && a[k] != '"',
    ensures
        comment_start(a + seq!['#'] + b, false) == a.len(),
        comment_start(a, false) == a.len(),
    decreases a.len(),
{
    let s = a + seq!['#'] + b;
    if a.len() == 0 {
        assert(s[0] == '#');
    } else {
        let t = a.drop_first();
        assert(s[0] == a[0]);
        assert(s.drop_first() =~= t + seq!['#'] + b);
        assert forall|k: int| 0 <= k < t.len() implies t[k] != '#' && t[k] != '"' by {
            assert(t[k] == a[k + 1]);
        }
        lemma_comment(t, b);
    }
}

/// A comment goes from a hash outside quotes to the end of its line.
pub proof fn law_comments_are_dropped(a: Seq<char>, b: Seq<char>)
    requires
        forall|k: int| 0 <= k < a.len() ==> a[k] != '#' && a[k] != '"',
    ensures
        uncommented(a + seq!['#'] + b) == a,
        uncommented(a) == a,
{
    lemma_comment(a, b);
    assert((a + seq!['#'] + b).take(a.len() as int) =~= a);
    assert(a.take(a.len() as int) =~= a);
}

/// A value in quotes is what stands between them, a word is a truth, and digits are
/// digits.
pub proof fn law_values_are_read(v: Seq<char>, n: nat, line: int)
    requires
        !has_char(v, '"'),
    ensures
        value_of(seq!['"'] + v + seq!['"'], line) == Ok::<ValueView, Seq<char>>(ValueView::Text(v)),
        value_of("true"@, line) == Ok::<ValueView, Seq<char>>(ValueView::Truth(true)),
        value_of("false"@, line) == Ok::<ValueView, Seq<char>>(ValueView::Truth(false)),
        value_of(decimal(n), line) == Ok::<ValueView, Seq<char>>(ValueView::Digits(decimal(n))),
{
    let s = seq!['"'] + v + seq!['"'];
    reveal_strlit("\"");
    reveal_strlit("true");
    reveal_strlit("false");
    assert("\""@ =~= seq!['"']);
    assert(s[0] == '"' && s.last() == '"');
    lemma_nothing_to_trim(s);
    assert(s =~= seq!['"'] + (v + seq!['"']));
    lemma_prefix_of(seq!['"'], v + seq!['"']);
    lemma_suffix_of(v, seq!['"']);
    lemma_nothing_to_trim("true"@);
    lemma_nothing_to_trim("false"@);
    assert("true"@.take(1)[0] != '"');
    assert("false"@.take(1)[0] != '"');
    assert("true"@.len() != "false"@.len());
    let d = decimal(n);
    lemma_decimal(n);
    assert(is_digit(d[0]) && is_digit(d[d.len() - 1]));
    lemma_nothing_to_trim(d);
    assert(d.take(1)[0] == d[0]);
    assert(d != "true"@) by {
        assert(!is_digit("true"@[0]));
    }
    assert(d != "false"@) by {
        assert(!is_digit("false"@[0]));
    }
}

/// A setting of the file becomes the flag of its name with its value, a switch that is
/// on becomes the flag alone and one that is off becomes nothing, and `listen` is kept
/// apart; what was there before stays.
pub proof fn law_settings_become_flags(d: DraftView, line: int, key: Seq<char>, v: Seq<char>, n: nat)
    requires
        !has_char(v, '"'),
        !d.seen.contains(key),
    ensures
        is_value_key(key) && key != "listen"@ ==> setting_line(
            d,
            line,
            key,
            seq!['"'] + v + seq!['"'],
        ) == Ok::<DraftView, Seq<char>>(
            DraftView {
                flags: d.flags.push("--"@ + key).push(v),
                seen: d.seen.push(key),
                ..d
            },
        ),
        is_value_key(key) && key != "listen"@ ==> setting_line(d, line, key, decimal(n)) == Ok::<
            DraftView,
            Seq<char>,
        >(
            DraftView {
                flags: d.flags.push("--"@ + key).push(decimal(n)),
                seen: d.seen.push(key),
                ..d
            },
        ),
        key == "listen"@ ==> setting_line(d, line, key, seq!['"'] + v + seq!['"']) == Ok::<
            DraftView,
            Seq<char>,
        >(DraftView { listen: Some(v), seen: d.seen.push(key), ..d }),
        is_switch_key(key) && !is_value_key(key) && key != "listen"@ ==> setting_line(
            d,
            line,
            key,
            "true"@,
        ) == Ok::<DraftView, Seq<char>>(
            DraftView { flags: d.flags.push("--"@ + key), seen: d.seen.push(key), ..d },
        ) && setting_line(d, line, key, "false"@) == Ok::<DraftView, Seq<char>>(
            DraftView { seen: d.seen.push(key), ..d },
        ),
        !is_value_key(key) && !is_switch_key(key) && key != "listen"@ ==> setting_line(
            d,
            line,
            key,
            v,
        ) is Err,
        !d.seen.contains("upstream:"@ + key) ==> upstream_line(
            d,
            line,
            key,
            seq!['"'] + v + seq!['"'],
        ) == Ok::<DraftView, Seq<char>>(
            DraftView {
                upstreams: d.upstreams.push("--upstream"@).push(key + seq!['='] + v),
                seen: d.seen.push("upstream:"@ + key),
                ..d
            },
        ),
{
    law_values_are_read(v, n, line);
    reveal_strlit("=");
    assert("="@ =~= seq!['=']);
}

/// The settings that a file may hold.
pub proof fn law_the_file_knows_its_settings()
    ensures
        is_value_key("listen"@),
        is_value_key("admin"@),
        is_value_key("log-level"@),
        is_value_key("backend-timeout"@),
        is_value_key("pool-max-idle"@),
        is_value_key("pool-idle-timeout"@),
        is_value_key("hc-interval"@),
        is_value_key("hc-timeout"@),
        is_value_key("hc-backoff-base"@),
        is_value_key("hc-backoff-max"@),
        is_value_key("hc-fail"@),
        is_value_key("hc-success"@),
        is_value_key("tls-cert"@),
        is_value_key("tls-key"@),
        is_value_key("tls-client-ca"@),
        is_value_key("tls-client-auth"@),
        is_value_key("max-conns"@),
        is_value_key("max-conns-per-ip"@),
        is_value_key("max-body"@),
        is_value_key("max-headers"@),
        is_value_key("allow-cidr"@),
        is_value_key("deny-cidr"@),
        is_value_key("cache-max-bytes"@),
        is_value_key("cache-max-entries"@),
        is_value_key("cache-max-body"@),
        is_value_key("drain-timeout"@),
        is_switch_key("no-forwarded"@),
        is_switch_key("no-request-id"@),
        is_switch_key("no-access-log"@),
        is_switch_key("log-plain"@),
{
}

/// A repeated setting is refused.
pub proof fn law_settings_are_not_repeated(d: DraftView, line: int, key: Seq<char>, v: Seq<char>)
    ensures
        d.seen.contains(key) ==> setting_line(d, line, key, v) is Err,
        d.seen.contains("upstream:"@ + key) ==> upstream_line(d, line, key, v) is Err,
{
}

// ---------------------------------------------------------------------------
// The options of a route
// ---------------------------------------------------------------------------

proof fn lemma_cut_at(a: Seq<char>, b: Seq<char>, c: char)
    requires
        !has_char(a, c),
    ensures
        cut(a + seq![c] + b, c) == Some((a, b)),
{
    let s = a + seq![c] + b;
    lemma_first_index(a, c);
    assert forall|k: int| 0 <= k < a.len() implies s[k] != c by {
        assert(s[k] == a[k]);
    }
    lemma_first_index_is(s, c, a.len() as int);
    assert(s.take(a.len() as int) =~= a);
    assert(s.skip(a.len() as int + 1) =~= b);
}

/// `basic:USER:PASS` is a user with a password, which may hold colons, and
/// `bearer:TOKEN` a token; neither part may be missing.
pub proof fn law_credentials_are_read(user: Seq<char>, pass: Seq<char>, token: Seq<char>)
    requires
        !has_char(user, ':'),
    ensures
        user.len() > 0 && pass.len() > 0 ==> credential_of(
            "basic"@ + seq![':'] + (user + seq![':'] + pass),
        ) == Ok::<CredentialView, Seq<char>>(CredentialView::Basic { user, pass }),
        user.len() == 0 || pass.len() == 0 ==> credential_of(
            "basic"@ + seq![':'] + (user + seq![':'] + pass),
        ) is Err,
        token.len() > 0 ==> (credential_of("bearer"@ + seq![':'] + token) matches Ok(c)
            && c == (CredentialView::Bearer { token, label: "bearer"@ })),
        credential_of("bearer"@ + seq![':'] + Seq::<char>::empty()) is Err,
{
    reveal_strlit("basic");
    reveal_strlit("bearer");
    lemma_first_index_is("basic"@, ':', 5);
    lemma_first_index_is("bearer"@, ':', 6);
    lemma_cut_at("basic"@, user + seq![':'] + pass, ':');
    lemma_cut_at(user, pass, ':');
    lemma_cut_at("bearer"@, token, ':');
    lemma_cut_at("bearer"@, Seq::empty(), ':');
    assert("basic"@.len() == 5 && "bearer"@.len() == 6);
}

/// `N/s` is a rate for each second and `N/m` one for each minute; it is positive.
pub proof fn law_rates_have_their_unit(
    n: Seq<char>,
    unit: Seq<char>,
    t: Seq<(Seq<char>, Option<Number>)>,
    count: Number,
)
    requires
        !has_char(n, '/'),
        trimmed(n) == n,
        trimmed(unit) == unit,
        reading(t, n) == Some(count),
    ensures
        count.positive && unit == seq!['s'] ==> rate_of(n + seq!['/'] + unit, t) == Ok::<
            Rate,
            Seq<char>,
        >(Rate { count, per_minute: false }),
        count.positive && unit == seq!['m'] ==> rate_of(n + seq!['/'] + unit, t) == Ok::<
            Rate,
            Seq<char>,
        >(Rate { count, per_minute: true }),
        !count.positive || (unit != seq!['s'] && unit != seq!['m']) ==> rate_of(
            n + seq!['/'] + unit,
            t,
        ) is Err,
{
    lemma_cut_at(n, unit, '/');
    reveal_strlit("s");
    reveal_strlit("m");
    assert("s"@ =~= seq!['s']);
    assert("m"@ =~= seq!['m']);
}

/// A threshold is a whole number from 1 on, and the firewall blocks or detects.
pub proof fn law_firewall_options_are_read(n: u32, s: Seq<char>)
    ensures
        n > 0 ==> threshold_of(decimal(n as nat)) == Ok::<u32, Seq<char>>(n),
        threshold_of(decimal(0)) is Err,
        mode_of("block"@) == Ok::<WafMode, Seq<char>>(WafMode::Block),
        mode_of("detect"@) == Ok::<WafMode, Seq<char>>(WafMode::Detect),
        s != "block"@ && s != "detect"@ ==> mode_of(s) is Err,
{
    lemma_decimal_reads_back(n as nat, u32::MAX as int);
    lemma_decimal_reads_back(0, u32::MAX as int);
    reveal_strlit("block");
    reveal_strlit("detect");
    assert("block"@.len() != "detect"@.len());
}

/// Options that make no sense alone are refused: a required user without credentials, a
/// burst without a rate, a threshold without a firewall; all others are kept as they
/// are.
pub proof fn law_options_go_together(c: OptionsView)
    ensures
        coherent(c) is Ok <==> (c.require_user.len() > 0 ==> c.creds.len() > 0) && (c.burst is Some
            ==> c.rate is Some) && (c.waf_threshold is Some ==> c.waf is Some),
        coherent(c) is Ok ==> coherent(c) == Ok::<OptionsView, Seq<char>>(c),
{
}

/// A route has the layers that its options ask for: the log and the ids as they are
/// switched, the firewall where it has a mode, at ten points where nothing else is
/// said, the limiter where it has a rate, and the two checks of users where they have
/// somebody to check.
pub proof fn law_options_make_layers(c: OptionsView, plain: bool)
    ensures
        c.access_log ==> layers_of(c, plain).contains(LayerView::AccessLog { plain }),
        c.request_id ==> layers_of(c, plain).contains(LayerView::RequestId),
        c.waf matches Some(mode) ==> (c.waf_threshold is None ==> layers_of(c, plain).contains(
            LayerView::Waf(crate::waf::Waf { mode, threshold: 10 }),
        )) && (c.waf_threshold matches Some(n) ==> layers_of(c, plain).contains(
            LayerView::Waf(crate::waf::Waf { mode, threshold: n }),
        )),
        c.rate matches Some(rate) ==> layers_of(c, plain).contains(
            LayerView::RateLimit { rate, burst: c.burst },
        ),
        c.creds.len() > 0 ==> layers_of(c, plain).contains(
            LayerView::Auth { creds: c.creds, realm: c.realm },
        ),
        c.require_user.len() > 0 ==> layers_of(c, plain).contains(
            LayerView::Authz { allowed: c.require_user },
        ),
        layers_of(c, plain).len() == (if c.access_log {
            1int
        } else {
            0
        }) + (if c.request_id {
            1int
        } else {
            0
        }) + (if c.waf is Some {
            1int
        } else {
            0
        }) + (if c.rate is Some {
            1int
        } else {
            0
        }) + (if c.creds.len() > 0 {
            1int
        } else {
            0
        }) + (if c.require_user.len() > 0 {
            1int
        } else {
            0
        }),
{
    let v = layers_of(c, plain);
    let a: int = if c.access_log {
        1
    } else {
        0
    };
    let b: int = if c.request_id {
        a + 1
    } else {
        a
    };
    let w: int = if c.waf is Some {
        b + 1
    } else {
        b
    };
    let r: int = if c.rate is Some {
        w + 1
    } else {
        w
    };
    let u: int = if c.creds.len() > 0 {
        r + 1
    } else {
        r
    };
    if c.access_log {
        assert(v[0] == (LayerView::AccessLog { plain }));
    }
    if c.request_id {
        assert(v[a] == LayerView::RequestId);
    }
    if c.waf is Some {
        assert(v[b] is Waf);
        assert(v.contains(v[b]));
    }
    if c.rate is Some {
        assert(v[w] == (LayerView::RateLimit { rate: c.rate->0, burst: c.burst }));
    }
    if c.creds.len() > 0 {
        assert(v[r] == (LayerView::Auth { creds: c.creds, realm: c.realm }));
    }
    if c.require_user.len() > 0 {
        assert(v[u] == (LayerView::Authz { allowed: c.require_user }));
    }
}

/// Where a route has no options, its realm is `ferrum` and nobody is asked for anything.
pub proof fn law_the_defaults_of_a_route(request_id: bool, access_log: bool)
    ensures
        no_options(request_id, access_log).realm == "ferrum"@,
        no_options(request_id, access_log).creds.len() == 0,
        no_options(request_id, access_log).require_user.len() == 0,
        no_options(request_id, access_log).rate is None,
        no_options(request_id, access_log).waf is None,
        no_options(request_id, access_log).request_id == request_id,
        no_options(request_id, access_log).access_log == access_log,
{
}

} // verus!
