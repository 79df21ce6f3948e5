//! Counters, the gauge and the histograms.

use rproxy::metrics::{escape_label, signed_of, ConnGauge, Histogram, Metrics};
use rproxy::time::Duration;

fn m() -> Metrics {
    Metrics::new(&["api".to_string(), "static".to_string()])
}

fn millis(n: u64) -> Duration {
    Duration::from_millis(n)
}

#[test]
fn upstream_id_resolves_declared_names() {
    let m = m();
    assert!(m.upstream_id("api").0.is_some());
    assert!(m.upstream_id("static").0.is_some());
    assert!(m.upstream_id("nope").0.is_none());
}

#[test]
fn counter_lands_in_status_class() {
    let mut m = m();
    let id = m.upstream_id("api");
    m.record_request(id, 200, millis(3));
    m.record_request(id, 204, millis(3));
    m.record_request(id, 502, millis(3));
    let text = m.render();
    assert!(text.contains(r#"ferrum_requests_total{upstream="api",code="2xx"} 2"#));
    assert!(text.contains(r#"ferrum_requests_total{upstream="api",code="5xx"} 1"#));
    assert!(!text.contains(r#"upstream="api",code="3xx""#));
    assert!(!text.contains(r#"upstream="static",code="2xx""#));
}

#[test]
fn out_of_range_status_is_clamped_not_panicking() {
    let mut m = m();
    let id = m.unrouted_id();
    m.record_request(id, 0, millis(0));
    let id = m.unrouted_id();
    m.record_request(id, 999, millis(0));
    let text = m.render();
    assert!(text.contains(r#"ferrum_requests_total{upstream="-",code="1xx"} 1"#));
    assert!(text.contains(r#"ferrum_requests_total{upstream="-",code="5xx"} 1"#));
}

#[test]
fn histogram_buckets_observations_at_boundaries() {
    let mut h = Histogram::new();
    h.observe(millis(1));
    h.observe(Duration::from_nanos(1_001_000));
    h.observe(Duration::from_secs(10));
    let (cum, sum_micros, count) = h.snapshot();
    assert_eq!(cum[0], 1);
    assert_eq!(cum[1], 2);
    assert_eq!(cum[7], 2);
    assert_eq!(cum[8], 3);
    assert_eq!(count, 3);
    let sum = sum_micros as f64 / 1e6;
    assert!((sum - 10.002002).abs() < 1e-6);
    assert_eq!(sum_micros, 10_002_001);
}

#[test]
fn histogram_render_is_cumulative_and_inf_equals_count() {
    let mut m = m();
    let id = m.upstream_id("api");
    m.record_request(id, 200, millis(2));
    let id = m.upstream_id("api");
    m.record_request(id, 200, millis(80));
    let text = m.render();
    assert!(text.contains(r#"_bucket{upstream="api",le="0.001"} 0"#));
    assert!(text.contains(r#"_bucket{upstream="api",le="0.005"} 1"#));
    assert!(text.contains(r#"_bucket{upstream="api",le="0.1"} 2"#));
    assert!(text.contains(r#"_bucket{upstream="api",le="+Inf"} 2"#));
    assert!(text.contains(r#"_count{upstream="api"} 2"#));
}

#[test]
fn gauge_moves_both_ways() {
    let mut m = m();
    m.conn_opened();
    m.conn_opened();
    m.conn_closed();
    assert_eq!(m.active_connections(), 1);
    assert!(m.render().contains("ferrum_active_connections 1\n"));
}

#[test]
fn rejections_label_by_middleware_with_other_fallback() {
    let mut m = m();
    m.record_rejection("auth");
    m.record_rejection("auth");
    m.record_rejection("some-future-middleware");
    let text = m.render();
    assert!(text.contains(r#"ferrum_rejected_total{by="auth"} 2"#));
    assert!(text.contains(r#"ferrum_rejected_total{by="other"} 1"#));
}

#[test]
fn label_escaping() {
    assert_eq!(escape_label(r#"a"b\c"#), r#"a\"b\\c"#);
    assert_eq!(escape_label("x\ny"), r#"x\ny"#);
}

#[test]
fn many_requests_are_all_counted() {
    let mut m = m();
    let id = m.upstream_id("api");
    for _ in 0..80_000 {
        m.record_request(id, 200, millis(1));
    }
    assert!(m.render().contains(r#"ferrum_requests_total{upstream="api",code="2xx"} 80000"#));
}

#[test]
fn connect_errors_are_counted() {
    let mut m = m();
    let id = m.upstream_id("static");
    m.record_connect_error(id);
    let text = m.render();
    assert!(text.contains("upstream=\"static\"} 1\n"), "{text}");
}

#[test]
fn sums_are_exact_seconds() {
    let mut m = m();
    let id = m.upstream_id("api");
    m.record_request(id, 200, Duration::from_nanos(1_500_000_000));
    let text = m.render();
    assert!(text.contains("_sum{upstream=\"api\"} 1.5\n"), "{text}");
}

#[test]
fn signed_numbers_are_written() {
    assert_eq!(signed_of(0), "0");
    assert_eq!(signed_of(-7), "-7");
    assert_eq!(signed_of(i64::MIN), "-9223372036854775808");
}

#[test]
fn open_connections_are_gauged() {
    let mut m = m();
    let a = ConnGauge::open(&mut m);
    let b = ConnGauge::open(&mut m);
    assert_eq!(m.active_connections(), 2);
    a.close(&mut m);
    assert_eq!(m.active_connections(), 1);
    b.close(&mut m);
    assert_eq!(m.active_connections(), 0);
}

#[test]
fn counts_never_fall_as_bounds_rise() {
    let mut h = Histogram::new();
    for n in [0, 3, 3, 70, 400, 9_000, 60_000] {
        h.observe(millis(n));
    }
    let (cumulative, _, count) = h.snapshot();
    assert_eq!(cumulative, vec![1, 3, 3, 3, 4, 5, 5, 5, 7]);
    assert!(cumulative.windows(2).all(|w| w[0] <= w[1]));
    assert_eq!(count, 7);
}

#[test]
fn series_without_counts_have_no_line() {
    let mut m = m();
    let id = m.upstream_id("api");
    m.record_connect_error(id);
    m.record_rejection("auth");
    let text = m.render();
    assert!(text.contains("ferrum_connect_errors_total{upstream=\"api\"} 1\n"));
    assert!(!text.contains("ferrum_connect_errors_total{upstream=\"static\"}"));
    assert!(text.contains("ferrum_rejected_total{by=\"auth\"} 1\n"));
    assert!(!text.contains("ferrum_rejected_total{by=\"authz\"}"));
    assert!(!text.contains("ferrum_requests_total{"));
}
