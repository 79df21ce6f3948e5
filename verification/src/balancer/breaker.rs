//! The circuit breaker of one server: the single source of truth for whether that
//! server gets traffic.
//!
//! Outcomes of real requests and of probes feed the same two functions. Every
//! function takes the time as an argument.

use vstd::prelude::*;

use crate::text::own;
use crate::time::{Duration, Instant};

verus! {

/// Tunables of the breaker and of the prober, one set for each pool.
#[derive(Debug)]
pub struct HealthConfig {
    /// Consecutive failures that open a closed breaker.
    pub fail_threshold: usize,
    /// Successes in the half-open state that close it again.
    pub success_threshold: usize,
    /// The first cooldown.
    pub backoff_base: Duration,
    /// The longest cooldown.
    pub backoff_max: Duration,
    /// The period of probes.
    pub interval: Duration,
    /// The deadline of one probe.
    pub timeout: Duration,
    /// The path that a probe asks for.
    pub path: String,
}

/// What health tunables say.
pub struct HealthView {
    pub fail_threshold: usize,
    pub success_threshold: usize,
    pub backoff_base: Duration,
    pub backoff_max: Duration,
    pub interval: Duration,
    pub timeout: Duration,
    pub path: Seq<char>,
}

impl View for HealthConfig {
    type V = HealthView;

    open spec fn view(&self) -> HealthView {
        HealthView {
            fail_threshold: self.fail_threshold,
            success_threshold: self.success_threshold,
            backoff_base: self.backoff_base,
            backoff_max: self.backoff_max,
            interval: self.interval,
            timeout: self.timeout,
            path: self.path@,
        }
    }
}

/// The tunables where nothing else is set: three failures open, two successes
/// close, and cooldowns run from 1 to 30 seconds.
pub open spec fn default_health() -> HealthView {
    HealthView {
        fail_threshold: 3,
        success_threshold: 2,
        backoff_base: Duration { nanos: 1_000_000_000 },
        backoff_max: Duration { nanos: 30_000_000_000 },
        interval: Duration { nanos: 2_000_000_000 },
        timeout: Duration { nanos: 1_000_000_000 },
        path: "/health"@,
    }
}

impl Default for HealthConfig {
    fn default() -> (c: HealthConfig)
        ensures
            c@ == default_health(),
    {
        HealthConfig {
            fail_threshold: 3,
            success_threshold: 2,
            backoff_base: Duration::from_secs(1),
            backoff_max: Duration::from_secs(30),
            interval: Duration::from_secs(2),
            timeout: Duration::from_secs(1),
            path: own("/health"),
        }
    }
}

impl HealthConfig {
    /// A copy of the tunables.
    pub fn copied(&self) -> (c: HealthConfig)
        ensures
            c@ == self@,
    {
        HealthConfig {
            fail_threshold: self.fail_threshold,
            success_threshold: self.success_threshold,
            backoff_base: self.backoff_base,
            backoff_max: self.backoff_max,
            interval: self.interval,
            timeout: self.timeout,
            path: own(self.path.as_str()),
        }
    }
}

/// The three states. A closed circuit conducts: it is the serving state.
#[derive(Debug, Clone, Copy, PartialEq, Eq, Structural)]
pub enum BreakerState {
    /// Serving. Failures add up toward the threshold.
    Closed,
    /// Tripped. No traffic until a cooldown has passed and a trial succeeded.
    Open,
    /// The cooldown has passed and trials go out, one at a time; clients are still
    /// kept away.
    HalfOpen,
}

/// What the prober does with a server now.
#[derive(Debug, Clone, Copy, PartialEq, Eq, Structural)]
pub enum ProbeAction {
    /// A routine probe of a serving server.
    Normal,
    /// A trial of a server that may have recovered.
    HalfOpenTrial,
}

/// The limits of a breaker.
#[derive(Debug, Clone, Copy, PartialEq, Eq, Structural)]
pub struct BreakerLimits {
    pub fail_threshold: usize,
    pub success_threshold: usize,
    /// The first cooldown in nanoseconds.
    pub base: u64,
    /// The longest cooldown in nanoseconds.
    pub max: u64,
}

/// The breaker of one server.
#[derive(Debug, Clone, Copy, PartialEq, Eq, Structural)]
pub struct Breaker {
    pub limits: BreakerLimits,
    pub state: BreakerState,
    /// When the cooldown ends, in nanoseconds of the clock.
    pub open_until: u64,
    /// The cooldown in nanoseconds: doubled by each failed trial, and reset by a
    /// recovery.
    pub backoff: u64,
    pub fails: usize,
    pub successes: usize,
    /// A trial is out and its outcome was not reported yet.
    pub trial: bool,
}

/// The low 64 bits of a count of nanoseconds.
pub open spec fn low64(n: u128) -> u64 {
    (n % 0x1_0000_0000_0000_0000) as u64
}

fn low_bits(n: u128) -> (r: u64)
    ensures
        r == low64(n),
{
    (n % 0x1_0000_0000_0000_0000) as u64
}

/// A sum that stops at the largest value.
pub open spec fn capped_sum(a: u64, b: u64) -> u64 {
    if a + b > u64::MAX {
        u64::MAX
    } else {
        (a + b) as u64
    }
}

/// Twice a cooldown, and at most `max`.
pub open spec fn doubled(backoff: u64, max: u64) -> u64 {
    if backoff * 2 <= max {
        (backoff * 2) as u64
    } else {
        max
    }
}

/// The limits that tunables set.
pub open spec fn limits_of(c: HealthView) -> BreakerLimits {
    BreakerLimits {
        fail_threshold: c.fail_threshold,
        success_threshold: c.success_threshold,
        base: low64(c.backoff_base.nanos),
        max: low64(c.backoff_max.nanos),
    }
}

/// A breaker that has seen nothing: it serves.
pub open spec fn fresh(limits: BreakerLimits) -> Breaker {
    Breaker {
        limits,
        state: BreakerState::Closed,
        open_until: 0,
        backoff: limits.base,
        fails: 0,
        successes: 0,
        trial: false,
    }
}

/// A breaker that trips at `now`, with that cooldown.
pub open spec fn tripped(b: Breaker, now: Instant, backoff: u64) -> Breaker {
    Breaker {
        state: BreakerState::Open,
        open_until: capped_sum(now.nanos, backoff),
        backoff,
        fails: 0,
        successes: 0,
        trial: false,
        ..b
    }
}

/// A breaker after one more failure. A closed one counts it, and trips at the
/// threshold; a half-open one trips again and waits longer; an open one ignores it.
pub open spec fn failed(b: Breaker, now: Instant) -> Breaker {
    match b.state {
        BreakerState::Closed => if b.fails + 1 >= b.limits.fail_threshold {
            tripped(b, now, b.backoff)
        } else {
            Breaker { fails: (b.fails + 1) as usize, ..b }
        },
        BreakerState::HalfOpen => tripped(b, now, doubled(b.backoff, b.limits.max)),
        BreakerState::Open => b,
    }
}

/// A breaker after one more success. A closed one forgets its failures, as only
/// consecutive ones count; a half-open one closes at the threshold, with its first
/// cooldown restored; an open one ignores it.
pub open spec fn succeeded(b: Breaker) -> Breaker {
    match b.state {
        BreakerState::Closed => Breaker { fails: 0, ..b },
        BreakerState::HalfOpen => if b.successes + 1 >= b.limits.success_threshold {
            Breaker {
                state: BreakerState::Closed,
                backoff: b.limits.base,
                fails: 0,
                successes: 0,
                trial: false,
                ..b
            }
        } else {
            Breaker { successes: (b.successes + 1) as usize, trial: false, ..b }
        },
        BreakerState::Open => b,
    }
}

/// Whether the server may be probed at `now`, and as what. It may not while it cools
/// down or has a trial out.
pub open spec fn due(b: Breaker, now: Instant) -> Option<ProbeAction> {
    match b.state {
        BreakerState::Closed => Some(ProbeAction::Normal),
        BreakerState::Open => if now.nanos >= b.open_until {
            Some(ProbeAction::HalfOpenTrial)
        } else {
            None
        },
        BreakerState::HalfOpen => if b.trial {
            None
        } else {
            Some(ProbeAction::HalfOpenTrial)
        },
    }
}

/// A breaker after it was asked for a probe: a trial that is let through is out, and
/// the first one behind a cooldown makes the breaker half-open.
pub open spec fn asked(b: Breaker, now: Instant) -> Breaker {
    if due(b, now) != Some(ProbeAction::HalfOpenTrial) {
        b
    } else if b.state == BreakerState::Open {
        Breaker { state: BreakerState::HalfOpen, successes: 0, trial: true, ..b }
    } else {
        Breaker { trial: true, ..b }
    }
}

/// The change of state between two breakers, if there is one.
pub open spec fn change(was: Breaker, now: Breaker) -> Option<(BreakerState, BreakerState)> {
    if was.state == now.state {
        None
    } else {
        Some((was.state, now.state))
    }
}

impl Breaker {
    /// The counts are below their thresholds, and only a half-open breaker has a
    /// trial out.
    pub open spec fn wf(&self) -> bool {
        &&& self.trial ==> self.state == BreakerState::HalfOpen
        &&& self.fails == 0 || self.fails < self.limits.fail_threshold
        &&& self.successes == 0 || self.successes < self.limits.success_threshold
    }

    /// A breaker that serves.
    pub fn new(cfg: &HealthConfig) -> (b: Breaker)
        ensures
            b == fresh(limits_of(cfg@)),
            b.wf(),
    {
        let base: u64 = low_bits(cfg.backoff_base.nanos);
        Breaker {
            limits: BreakerLimits {
                fail_threshold: cfg.fail_threshold,
                success_threshold: cfg.success_threshold,
                base,
                max: low_bits(cfg.backoff_max.nanos),
            },
            state: BreakerState::Closed,
            open_until: 0,
            backoff: base,
            fails: 0,
            successes: 0,
            trial: false,
        }
    }

    /// The state.
    pub fn state(&self) -> (r: BreakerState)
        ensures
            r == self.state,
    {
        self.state
    }

    /// Whether clients may be sent to the server: only a closed breaker lets them,
    /// as a recovery has to be confirmed first.
    pub fn allows_traffic(&self) -> (r: bool)
        ensures
            r == (self.state == BreakerState::Closed),
    {
        self.state == BreakerState::Closed
    }

    /// The present cooldown.
    pub fn cooldown(&self) -> (d: Duration)
        ensures
            d.nanos == self.backoff,
    {
        Duration::from_nanos(self.backoff)
    }

    fn trip_open(&mut self, now: Instant, double: bool)
        ensures
            *final(self) == tripped(
                *old(self),
                now,
                if double {
                    doubled(old(self).backoff, old(self).limits.max)
                } else {
                    old(self).backoff
                },
            ),
    {
        let mut backoff: u64 = self.backoff;
        if double {
            backoff = if backoff <= self.limits.max / 2 {
                backoff * 2
            } else {
                self.limits.max
            };
            self.backoff = backoff;
        }
        self.open_until = now.nanos.saturating_add(backoff);
        self.state = BreakerState::Open;
        self.fails = 0;
        self.successes = 0;
        self.trial = false;
    }

    /// Reports a failed exchange, and returns the change of state.
    pub fn record_failure(&mut self, now: Instant) -> (r: Option<(BreakerState, BreakerState)>)
        requires
            old(self).wf(),
        ensures
            final(self).wf(),
            *final(self) == failed(*old(self), now),
            r == change(*old(self), *final(self)),
    {
        match self.state {
            BreakerState::Closed => {
                let n: usize = self.fails;
                if self.limits.fail_threshold == 0 || n >= self.limits.fail_threshold - 1 {
                    self.trip_open(now, false);
                    Some((BreakerState::Closed, BreakerState::Open))
                } else {
                    self.fails = n + 1;
                    None
                }
            },
            BreakerState::HalfOpen => {
                self.trip_open(now, true);
                Some((BreakerState::HalfOpen, BreakerState::Open))
            },
            BreakerState::Open => None,
        }
    }

    /// Reports a successful exchange, and returns the change of state.
    pub fn record_success(&mut self, now: Instant) -> (r: Option<(BreakerState, BreakerState)>)
        requires
            old(self).wf(),
        ensures
            final(self).wf(),
            *final(self) == succeeded(*old(self)),
            r == change(*old(self), *final(self)),
    {
        match self.state {
            BreakerState::Closed => {
                self.fails = 0;
                None
            },
            BreakerState::HalfOpen => {
                let n: usize = self.successes;
                self.trial = false;
                if self.limits.success_threshold == 0 || n >= self.limits.success_threshold - 1 {
                    self.state = BreakerState::Closed;
                    self.backoff = self.limits.base;
                    self.fails = 0;
                    self.successes = 0;
                    Some((BreakerState::HalfOpen, BreakerState::Closed))
                } else {
                    self.successes = n + 1;
                    None
                }
            },
            BreakerState::Open => None,
        }
    }

    /// May the server be probed now, and as what? A failed trial starts a cooldown
    /// and there is one trial at a time, so that a dead server is not hammered.
    pub fn probe_due(&mut self, now: Instant) -> (r: Option<ProbeAction>)
        requires
            old(self).wf(),
        ensures
            final(self).wf(),
            r == due(*old(self), now),
            *final(self) == asked(*old(self), now),
    {
        match self.state {
            BreakerState::Closed => Some(ProbeAction::Normal),
            BreakerState::Open => {
                if now.nanos >= self.open_until {
                    self.state = BreakerState::HalfOpen;
                    self.successes = 0;
                    self.trial = true;
                    Some(ProbeAction::HalfOpenTrial)
                } else {
                    None
                }
            },
            BreakerState::HalfOpen => {
                if self.trial {
                    None
                } else {
                    self.trial = true;
                    Some(ProbeAction::HalfOpenTrial)
                }
            },
        }
    }
}

// ---------------------------------------------------------------------------
// Laws
// ---------------------------------------------------------------------------

/// A breaker after `n` failures in a row at `now`.
pub open spec fn failed_times(b: Breaker, now: Instant, n: nat) -> Breaker
    decreases n,
{
    if n == 0 {
        b
    } else {
        failed(failed_times(b, now, (n - 1) as nat), now)
    }
}

/// A breaker after `n` successes in a row.
pub open spec fn succeeded_times(b: Breaker, n: nat) -> Breaker
    decreases n,
{
    if n == 0 {
        b
    } else {
        succeeded(succeeded_times(b, (n - 1) as nat))
    }
}

/// A serving breaker without failures behind it goes on serving below the threshold
/// of consecutive failures, and trips when it is reached.
pub proof fn law_trips_at_the_threshold(b: Breaker, now: Instant, n: nat)
    requires
        b.state == BreakerState::Closed,
        b.fails == 0,
        1 <= n <= b.limits.fail_threshold,
    ensures
        failed_times(b, now, n).state == if n < b.limits.fail_threshold {
            BreakerState::Closed
        } else {
            BreakerState::Open
        },
        n < b.limits.fail_threshold ==> failed_times(b, now, n) == (Breaker {
            fails: n as usize,
            ..b
        }),
    decreases n,
{
    if n > 1 {
        law_trips_at_the_threshold(b, now, (n - 1) as nat);
    } else {
        assert(failed_times(b, now, 0) == b);
    }
}

/// A success forgets the failures before it: a serving breaker that succeeds is as
/// one that never failed.
pub proof fn law_a_success_clears_the_run(b: Breaker)
    requires
        b.state == BreakerState::Closed,
    ensures
        succeeded(b) == (Breaker { fails: 0, ..b }),
{
}

/// A tripped breaker lets no probe through before its cooldown has passed, then
/// exactly one, and none after that until the trial's outcome is reported: a failure
/// starts a cooldown, and a success that does not close the breaker lets the next
/// trial through. All the while clients are kept away.
pub proof fn law_one_trial_for_each_cooldown(b: Breaker, t: Instant, later: Instant)
    requires
        b.state == BreakerState::Open,
    ensures
        t.nanos < b.open_until ==> due(b, t) is None && asked(b, t) == b,
        t.nanos >= b.open_until ==> {
            let out = asked(b, t);
            &&& due(b, t) == Some(ProbeAction::HalfOpenTrial)
            &&& due(out, later) is None
            &&& asked(out, later) == out
            &&& due(failed(out, t), later) is Some <==> later.nanos >= failed(out, t).open_until
            &&& due(succeeded(out), later) is Some
        },
        asked(b, t).state != BreakerState::Closed,
{
}

/// A breaker after a probe at each of `times`, all of them successful.
pub open spec fn probed(b: Breaker, times: Seq<Instant>) -> Breaker
    decreases times.len(),
{
    if times.len() == 0 {
        b
    } else {
        succeeded(asked(probed(b, times.drop_last()), times.last()))
    }
}

/// Probes alone bring a server back: once the cooldown of a tripped breaker has
/// passed, each successful probe is followed by another as soon as one is asked for,
/// and the breaker closes with as many as the threshold asks for.
pub proof fn law_probes_alone_close_the_breaker(b: Breaker, times: Seq<Instant>, next: Instant)
    requires
        b.state == BreakerState::Open,
        1 <= times.len() <= b.limits.success_threshold,
        times[0].nanos >= b.open_until,
    ensures
        probed(b, times).limits == b.limits,
        times.len() < b.limits.success_threshold ==> probed(b, times).state
            == BreakerState::HalfOpen && probed(b, times).successes == times.len() && due(
            probed(b, times),
            next,
        ) == Some(ProbeAction::HalfOpenTrial),
        times.len() == b.limits.success_threshold ==> probed(b, times).state
            == BreakerState::Closed && probed(b, times).backoff == b.limits.base,
    decreases times.len(),
{
    let before = times.drop_last();
    if times.len() > 1 {
        assert(before[0] == times[0]);
        law_probes_alone_close_the_breaker(b, before, times.last());
    } else {
        assert(before.len() == 0);
        assert(probed(b, before) == b);
    }
}

/// A failed trial doubles the cooldown, up to the longest one, and starts it anew.
pub proof fn law_a_failed_trial_waits_longer(b: Breaker, now: Instant)
    requires
        b.state == BreakerState::HalfOpen,
    ensures
        failed(b, now).state == BreakerState::Open,
        failed(b, now).backoff == if 2 * b.backoff <= b.limits.max {
            2 * b.backoff
        } else {
            b.limits.max as int
        },
        now.nanos + failed(b, now).backoff <= u64::MAX ==> failed(b, now).open_until == now.nanos
            + failed(b, now).backoff,
{
}

/// Clients come back only after as many successful trials as the threshold asks
/// for; then the cooldown starts from its base again.
pub proof fn law_recovery_needs_the_threshold(b: Breaker, n: nat)
    requires
        b.state == BreakerState::HalfOpen,
        b.successes == 0,
        1 <= n <= b.limits.success_threshold,
    ensures
        succeeded_times(b, n).state == if n < b.limits.success_threshold {
            BreakerState::HalfOpen
        } else {
            BreakerState::Closed
        },
        n < b.limits.success_threshold ==> succeeded_times(b, n) == (Breaker {
            successes: n as usize,
            trial: false,
            ..b
        }),
        n == b.limits.success_threshold ==> succeeded_times(b, n).backoff == b.limits.base,
    decreases n,
{
    if n > 1 {
        law_recovery_needs_the_threshold(b, (n - 1) as nat);
    } else {
        assert(succeeded_times(b, 0) == b);
    }
}

/// A tripped breaker is closed by nothing but a trial: neither a stray success nor
/// a failure changes it.
pub proof fn law_an_open_breaker_ignores_outcomes(b: Breaker, now: Instant)
    requires
        b.state == BreakerState::Open,
    ensures
        succeeded(b) == b,
        failed(b, now) == b,
{
}

/// The cooldown stays between its base and its longest length.
pub proof fn law_cooldowns_are_bounded(b: Breaker, now: Instant)
    requires
        b.limits.base <= b.limits.max,
        b.limits.base <= b.backoff <= b.limits.max,
    ensures
        b.limits.base <= failed(b, now).backoff <= b.limits.max,
        b.limits.base <= succeeded(b).backoff <= b.limits.max,
        b.limits.base <= asked(b, now).backoff <= b.limits.max,
{
}

} // verus!
