//! The error log: levels, and the time stamp that both logs share.

use vstd::arithmetic::div_mod::{lemma_fundamental_div_mod, lemma_fundamental_div_mod_converse};
use vstd::prelude::*;
use vstd::string::StringExecFns;

use crate::text::{
    debug_text, decimal, lower, lowercase, own, padded, quoted, same, zero_padded,
};

verus! {

/// How urgent a line is.
#[derive(Debug, Clone, Copy, PartialEq, Eq, PartialOrd, Ord, Structural)]
pub enum Level {
    Error,
    Warn,
    Info,
    Debug,
}

/// The level that a text names, in any case.
pub open spec fn level_of(s: Seq<char>) -> Result<Level, Seq<char>> {
    if lower(s) == "error"@ {
        Ok(Level::Error)
    } else if lower(s) == "warn"@ {
        Ok(Level::Warn)
    } else if lower(s) == "info"@ {
        Ok(Level::Info)
    } else if lower(s) == "debug"@ {
        Ok(Level::Debug)
    } else {
        Err(
            "unknown log level "@ + debug_text(s) + " (expected error|warn|info|debug)"@,
        )
    }
}

impl Level {
    /// The order of levels: the most urgent is 0.
    pub open spec fn rank(self) -> int {
        match self {
            Level::Error => 0,
            Level::Warn => 1,
            Level::Info => 2,
            Level::Debug => 3,
        }
    }

    /// Reads a level.
    pub fn parse(s: &str) -> (r: Result<Level, String>)
        ensures
            match r {
                Ok(l) => level_of(s@) == Ok::<Level, Seq<char>>(l),
                Err(e) => level_of(s@) == Err::<Level, Seq<char>>(e@),
            },
    {
        let t = lowercase(s);
        if same(t.as_str(), "error") {
            Ok(Level::Error)
        } else if same(t.as_str(), "warn") {
            Ok(Level::Warn)
        } else if same(t.as_str(), "info") {
            Ok(Level::Info)
        } else if same(t.as_str(), "debug") {
            Ok(Level::Debug)
        } else {
            let q = quoted(s);
            Err(
                own("unknown log level ").concat(q.as_str()).concat(
                    " (expected error|warn|info|debug)",
                ),
            )
        }
    }

    fn number(self) -> (n: u8)
        ensures
            n == self.rank(),
    {
        match self {
            Level::Error => 0,
            Level::Warn => 1,
            Level::Info => 2,
            Level::Debug => 3,
        }
    }

    /// The level's name, padded to five characters.
    pub open spec fn padded_tag(self) -> Seq<char> {
        match self {
            Level::Error => "ERROR"@,
            Level::Warn => "WARN "@,
            Level::Info => "INFO "@,
            Level::Debug => "DEBUG"@,
        }
    }

    /// The level's name, padded to five characters.
    pub fn tag(self) -> (r: &'static str)
        ensures
            r@ == self.padded_tag(),
    {
        match self {
            Level::Error => "ERROR",
            Level::Warn => "WARN ",
            Level::Info => "INFO ",
            Level::Debug => "DEBUG",
        }
    }
}

/// The level down to which lines are written.
#[derive(Debug, Clone, Copy, PartialEq, Eq, Structural)]
pub struct LogState {
    pub level: Level,
}

/// The level down to which lines are written at first.
pub open spec fn first_level() -> Level {
    Level::Info
}

impl LogState {
    /// Operational events are visible, diagnostics of each request are not.
    pub fn new() -> (s: LogState)
        ensures
            s.level == first_level(),
    {
        LogState { level: Level::Info }
    }
}

/// Sets the level.
pub fn set_level(state: &mut LogState, l: Level)
    ensures
        final(state).level == l,
{
    state.level = l;
}

/// A line of the level `l` is written where lines are written down to `down_to`.
pub open spec fn shown(down_to: Level, l: Level) -> bool {
    l.rank() <= down_to.rank()
}

/// Whether a line of that level is written. It is asked before anything is
/// formatted.
pub fn enabled(state: &LogState, l: Level) -> (r: bool)
    ensures
        r == shown(state.level, l),
{
    l.number() <= state.level.number()
}

/// A line of the error log.
pub open spec fn log_text(stamp: Seq<char>, l: Level, message: Seq<char>) -> Seq<char> {
    stamp + " "@ + l.padded_tag() + " "@ + message
}

/// A line of the error log.
pub fn log_line(stamp: &str, l: Level, message: &str) -> (r: String)
    ensures
        r@ == log_text(stamp@, l, message@),
{
    own(stamp).concat(" ").concat(l.tag()).concat(" ").concat(message)
}

// ---------------------------------------------------------------------------
// The calendar
// ---------------------------------------------------------------------------

/// A leap year of the Gregorian calendar.
pub open spec fn leap(y: int) -> bool {
    y % 4 == 0 && (y % 100 != 0 || y % 400 == 0)
}

/// The length of a month.
pub open spec fn month_days(y: int, m: int) -> int {
    if m == 2 {
        if leap(y) {
            29
        } else {
            28
        }
    } else if m == 4 || m == 6 || m == 9 || m == 11 {
        30
    } else {
        31
    }
}

/// The days of a year before a month.
pub open spec fn days_before_month(y: int, m: int) -> int
    decreases m,
{
    if m <= 1 {
        0
    } else {
        days_before_month(y, m - 1) + month_days(y, m - 1)
    }
}

/// The days from the start of year 0 to the start of year `y`.
pub open spec fn days_before_year(y: int) -> int {
    365 * y + (y + 3) / 4 - (y + 99) / 100 + (y + 399) / 400
}

/// The number of a day, counted from 1970-01-01.
pub open spec fn day_number(y: int, m: int, d: int) -> int {
    days_before_year(y) + days_before_month(y, m) + (d - 1) - days_before_year(1970)
}

/// A date that the calendar has.
pub open spec fn valid_date(y: int, m: int, d: int) -> bool {
    1 <= m <= 12 && 1 <= d <= month_days(y, m)
}

/// The days from the first of March of year 0 to the first of March of year `y`.
spec fn days_before_march(y: int) -> int {
    365 * y + y / 4 - y / 100 + y / 400
}

/// Rounded up, a quotient is one more than rounded down, unless nothing is left.
proof fn lemma_rounded_up(y: int)
    ensures
        (y + 3) / 4 == y / 4 + if y % 4 == 0 {
            0int
        } else {
            1int
        },
        (y + 99) / 100 == y / 100 + if y % 100 == 0 {
            0int
        } else {
            1int
        },
        (y + 399) / 400 == y / 400 + if y % 400 == 0 {
            0int
        } else {
            1int
        },
        y % 400 == 0 ==> y % 100 == 0,
        y % 100 == 0 ==> y % 4 == 0,
{
}

/// Years have 365 days, and leap years 366.
pub proof fn law_years_have_their_length(y: int)
    ensures
        days_before_year(y + 1) - days_before_year(y) == if leap(y) {
            366int
        } else {
            365int
        },
{
    lemma_rounded_up(y);
    lemma_rounded_up(y + 1);
    assert((y + 1 + 3) / 4 == y / 4 + 1);
    assert((y + 1 + 99) / 100 == y / 100 + 1);
    assert((y + 1 + 399) / 400 == y / 400 + 1);
}

/// The first of March stands 60 days behind the start of year 0's calendar.
proof fn lemma_march(y: int)
    ensures
        days_before_year(y) + 59 + if leap(y) {
            1int
        } else {
            0int
        } == days_before_march(y) + 60,
        days_before_year(y + 1) == days_before_march(y) + 60 + 306,
{
    lemma_rounded_up(y);
    law_years_have_their_length(y);
}

/// As [`lemma_year_of_era`], with the leap year written out.
#[verifier::rlimit(50)]
proof fn lemma_year_of_era_in_numbers(doe: int, yoe: int)
    by (nonlinear_arith)
    requires
        0 <= doe < 146_097,
        yoe == (doe - doe / 1460 + doe / 36_524 - doe / 146_096) / 365,
    ensures
        0 <= yoe < 400,
        0 <= doe - (365 * yoe + yoe / 4 - yoe / 100) <= 365,
        doe - (365 * yoe + yoe / 4 - yoe / 100) == 365 ==> (yoe + 1) % 4 == 0 && ((yoe + 1) % 100
            != 0 || (yoe + 1) % 400 == 0),
{
}

/// The year of a day within an era of 400 years that starts on a first of March.
proof fn lemma_year_of_era(doe: int, yoe: int)
    requires
        0 <= doe < 146_097,
        yoe == (doe - doe / 1460 + doe / 36_524 - doe / 146_096) / 365,
    ensures
        0 <= yoe < 400,
        0 <= doe - (365 * yoe + yoe / 4 - yoe / 100),
        doe - (365 * yoe + yoe / 4 - yoe / 100) <= if leap(yoe + 1) {
            365int
        } else {
            364int
        },
{
    lemma_year_of_era_in_numbers(doe, yoe);
}

/// The month and the day of a day within a year that starts on a first of March.
proof fn lemma_month_of_year(doy: int, mp: int)
    requires
        0 <= doy <= 365,
        mp == (5 * doy + 2) / 153,
    ensures
        0 <= mp <= 11,
        0 <= doy - (153 * mp + 2) / 5,
        doy < (153 * (mp + 1) + 2) / 5,
{
}

/// The days before the months of a year, written out.
proof fn lemma_days_before_months(y: int)
    ensures
        days_before_month(y, 1) == 0,
        days_before_month(y, 2) == 31,
        ({
            let l: int = if leap(y) {
                1
            } else {
                0
            };
            &&& days_before_month(y, 3) == 59 + l
            &&& days_before_month(y, 4) == 90 + l
            &&& days_before_month(y, 5) == 120 + l
            &&& days_before_month(y, 6) == 151 + l
            &&& days_before_month(y, 7) == 181 + l
            &&& days_before_month(y, 8) == 212 + l
            &&& days_before_month(y, 9) == 243 + l
            &&& days_before_month(y, 10) == 273 + l
            &&& days_before_month(y, 11) == 304 + l
            &&& days_before_month(y, 12) == 334 + l
        }),
{
    reveal_with_fuel(days_before_month, 13);
}

/// Whole eras change the quotient by a part of 400, and leave the rest as it is.
proof fn lemma_eras_divide(n: int, era: int, k: int, q: int)
    requires
        k > 0,
        k * q == 400,
    ensures
        (n + era * 400) / k == n / k + era * q,
        (n + era * 400) % k == n % k,
{
    lemma_fundamental_div_mod(n, k);
    let a: int = n / k;
    let r: int = n % k;
    assert(n + era * 400 == (a + era * q) * k + r) by (nonlinear_arith)
        requires
            n == k * a + r,
            k * q == 400,
    ;
    lemma_fundamental_div_mod_converse(n + era * 400, k, a + era * q, r);
}

proof fn lemma_era(era: int, yoe: int)
    requires
        0 <= yoe < 400,
    ensures
        days_before_march(yoe + era * 400) == era * 146_097 + 365 * yoe + yoe / 4 - yoe / 100,
        leap(yoe + era * 400 + 1) == leap(yoe + 1),
{
    lemma_eras_divide(yoe, era, 4, 100);
    lemma_eras_divide(yoe, era, 100, 4);
    lemma_eras_divide(yoe, era, 400, 1);
    lemma_eras_divide(yoe + 1, era, 4, 100);
    lemma_eras_divide(yoe + 1, era, 100, 4);
    lemma_eras_divide(yoe + 1, era, 400, 1);
    assert(yoe + era * 400 + 1 == yoe + 1 + era * 400);
    assert(yoe / 400 == 0);
}

/// The date of a day within a year that starts on a first of March.
proof fn lemma_date_of_day(y: int, doy: int, mp: int, year: int, m: int, d: int)
    requires
        0 <= doy <= if leap(y + 1) {
            365int
        } else {
            364int
        },
        mp == (5 * doy + 2) / 153,
        d == doy - (153 * mp + 2) / 5 + 1,
        m == if mp < 10 {
            mp + 3
        } else {
            mp - 9
        },
        year == if m <= 2 {
            y + 1
        } else {
            y
        },
    ensures
        valid_date(year, m, d),
        day_number(year, m, d) == days_before_march(y) + doy - 719_468,
{
    lemma_month_of_year(doy, mp);
    lemma_march(y);
    lemma_days_before_months(y);
    lemma_days_before_months(y + 1);
    assert(days_before_year(1970) == 719_528);
    if mp == 0 {
    } else if mp == 1 {
    } else if mp == 2 {
    } else if mp == 3 {
    } else if mp == 4 {
    } else if mp == 5 {
    } else if mp == 6 {
    } else if mp == 7 {
    } else if mp == 8 {
    } else if mp == 9 {
    } else if mp == 10 {
    } else {
        assert(mp == 11);
    }
}

/// The date of a day number: the date of the calendar that has that number.
pub fn civil_from_days(days: i64) -> (r: (i64, u32, u32))
    requires
        days <= i64::MAX - 719_468,
    ensures
        valid_date(r.0 as int, r.1 as int, r.2 as int),
        day_number(r.0 as int, r.1 as int, r.2 as int) == days,
        days >= 0 ==> r.0 >= 0,
{
    let z: i64 = days + 719_468;
    let (era, doe): (i64, i64) = if z >= 0 {
        (z / 146_097, z % 146_097)
    } else {
        let below: i64 = -(z + 1);
        (-(below / 146_097) - 1, 146_096 - below % 146_097)
    };
    assert(z == era * 146_097 + doe && 0 <= doe < 146_097);
    assert(-64_000_000_000_000 <= era <= 64_000_000_000_000);
    let yoe: i64 = (doe - doe / 1460 + doe / 36_524 - doe / 146_096) / 365;
    proof {
        lemma_year_of_era(doe as int, yoe as int);
        lemma_era(era as int, yoe as int);
    }
    let y: i64 = yoe + era * 400;
    let doy: i64 = doe - (365 * yoe + yoe / 4 - yoe / 100);
    let mp: i64 = (5 * doy + 2) / 153;
    proof {
        lemma_month_of_year(doy as int, mp as int);
    }
    let d: u32 = (doy - (153 * mp + 2) / 5 + 1) as u32;
    let m: u32 = if mp < 10 {
        (mp + 3) as u32
    } else {
        (mp - 9) as u32
    };
    let year: i64 = if m <= 2 {
        y + 1
    } else {
        y
    };
    proof {
        lemma_date_of_day(y as int, doy as int, mp as int, year as int, m as int, d as int);
    }
    (year, m, d)
}

proof fn lemma_years_grow(a: int, b: int)
    requires
        a <= b,
    ensures
        days_before_year(a) <= days_before_year(b),
    decreases b - a,
{
    if a < b {
        lemma_years_grow(a, b - 1);
        law_years_have_their_length(b - 1);
    }
}

proof fn lemma_day_within_year(y: int, m: int, d: int)
    requires
        valid_date(y, m, d),
    ensures
        0 <= days_before_month(y, m) + d - 1 < days_before_year(y + 1) - days_before_year(y),
{
    lemma_days_before_months(y);
    law_years_have_their_length(y);
}

/// A day number belongs to one date alone.
pub proof fn law_dates_are_unique(a: (int, int, int), b: (int, int, int))
    requires
        valid_date(a.0, a.1, a.2),
        valid_date(b.0, b.1, b.2),
        day_number(a.0, a.1, a.2) == day_number(b.0, b.1, b.2),
    ensures
        a == b,
{
    lemma_day_within_year(a.0, a.1, a.2);
    lemma_day_within_year(b.0, b.1, b.2);
    if a.0 < b.0 {
        lemma_years_grow(a.0 + 1, b.0);
    } else if b.0 < a.0 {
        lemma_years_grow(b.0 + 1, a.0);
    }
    lemma_days_before_months(a.0);
}

/// A time stamp as text: a date, a time of day and milliseconds.
pub open spec fn stamp_text(y: nat, m: nat, d: nat, second: nat, millis: nat) -> Seq<char> {
    zero_padded(decimal(y), 4) + "-"@ + zero_padded(decimal(m), 2) + "-"@ + zero_padded(
        decimal(d),
        2,
    ) + "T"@ + zero_padded(decimal(second / 3600), 2) + ":"@ + zero_padded(
        decimal(second % 3600 / 60),
        2,
    ) + ":"@ + zero_padded(decimal(second % 60), 2) + "."@ + zero_padded(decimal(millis), 3) + "Z"@
}

/// A text is the RFC 3339 stamp of that time in UTC: it has the date whose day
/// number the time has, which is one date alone.
pub open spec fn is_stamp(text: Seq<char>, unix_secs: u64, millis: u32) -> bool {
    exists|y: nat, m: nat, d: nat|
        valid_date(y as int, m as int, d as int) && day_number(y as int, m as int, d as int)
            == unix_secs / 86_400 && text == #[trigger] stamp_text(
            y,
            m,
            d,
            (unix_secs % 86_400) as nat,
            millis as nat,
        )
}

/// A time as RFC 3339 text in UTC, with milliseconds.
pub fn rfc3339(unix_secs: u64, millis: u32) -> (r: String)
    ensures
        is_stamp(r@, unix_secs, millis),
{
    let days: i64 = (unix_secs / 86_400) as i64;
    let second: u64 = unix_secs % 86_400;
    let (y, m, d) = civil_from_days(days);
    let year = padded(y as u64, 4);
    let month = padded(m as u64, 2);
    let day = padded(d as u64, 2);
    let hours = padded(second / 3600, 2);
    let minutes = padded(second % 3600 / 60, 2);
    let seconds = padded(second % 60, 2);
    let thousandths = padded(millis as u64, 3);
    let r = year.concat("-").concat(month.as_str()).concat("-").concat(day.as_str()).concat(
        "T",
    ).concat(hours.as_str()).concat(":").concat(minutes.as_str()).concat(":").concat(
        seconds.as_str(),
    ).concat(".").concat(thousandths.as_str()).concat("Z");
    assert(r@ == stamp_text(y as nat, m as nat, d as nat, second as nat, millis as nat));
    r
}

/// The present time as RFC 3339 text. Which time that is, the clock says; the
/// milliseconds are below 1000.
pub fn rfc3339_now() -> (r: String)
    ensures
        exists|unix_secs: u64, millis: u32|
            millis < 1000 && #[trigger] is_stamp(r@, unix_secs, millis),
{
    let (secs, nanos) = crate::time::unix_now();
    let millis: u32 = nanos / 1_000_000;
    let r = rfc3339(secs, millis);
    assert(millis < 1000 && is_stamp(r@, secs, millis));
    r
}

} // verus!
