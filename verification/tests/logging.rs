//! Levels and time stamps.

use rproxy::logging::{
    civil_from_days, enabled, log_line, rfc3339, rfc3339_now, set_level, Level, LogState,
};

#[test]
fn level_ordering_gates_correctly() {
    let mut state = LogState::new();
    set_level(&mut state, Level::Warn);
    assert!(enabled(&state, Level::Error));
    assert!(enabled(&state, Level::Warn));
    assert!(!enabled(&state, Level::Info));
    assert!(!enabled(&state, Level::Debug));
    set_level(&mut state, Level::Info);
    assert!(enabled(&state, Level::Info));
}

#[test]
fn level_parse() {
    assert_eq!(Level::parse("DEBUG").unwrap(), Level::Debug);
    assert_eq!(Level::parse("warn").unwrap(), Level::Warn);
    assert!(Level::parse("verbose").is_err());
}

#[test]
fn rfc3339_known_instants() {
    assert_eq!(rfc3339(0, 0), "1970-01-01T00:00:00.000Z");
    assert_eq!(rfc3339(1_787_616_000, 7), "2026-08-25T00:00:00.007Z");
    // A leap day.
    assert_eq!(rfc3339(1_709_208_000, 999), "2024-02-29T12:00:00.999Z");
    // A century that is no leap year.
    assert_eq!(rfc3339(4_107_542_400, 0), "2100-03-01T00:00:00.000Z");
}

#[test]
fn days_have_their_dates() {
    assert_eq!(civil_from_days(0), (1970, 1, 1));
    assert_eq!(civil_from_days(-1), (1969, 12, 31));
    assert_eq!(civil_from_days(11_016), (2000, 2, 29));
    assert_eq!(civil_from_days(11_017), (2000, 3, 1));
}

#[test]
fn lines_have_stamp_level_and_message() {
    assert_eq!(log_line("T", Level::Warn, "hello"), "T WARN  hello");
    assert_eq!(log_line("T", Level::Error, "hello"), "T ERROR hello");
}

#[test]
fn the_present_has_the_form_of_a_stamp() {
    let now = rfc3339_now();
    assert_eq!(now.len(), 24);
    assert!(now.ends_with('Z'));
    assert!(now > "2020-01-01T00:00:00.000Z".to_string());
}

#[test]
fn unknown_levels_are_quoted() {
    assert_eq!(
        Level::parse("verbose").unwrap_err(),
        "unknown log level \"verbose\" (expected error|warn|info|debug)"
    );
}

#[test]
fn every_day_has_one_date() {
    let mut last = civil_from_days(-800_000);
    for d in -799_999..800_000 {
        let next = civil_from_days(d);
        assert!(next > last, "{last:?} {next:?}");
        last = next;
    }
}
