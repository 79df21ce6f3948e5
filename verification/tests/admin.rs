//! The admin plane.

use rproxy::admin::{answer, health_json};
use rproxy::balancer::breaker::HealthConfig;
use rproxy::balancer::{PoolConfig, Upstream};
use rproxy::cache::Cache;
use rproxy::metrics::Metrics;
use rproxy::time::Instant;

fn upstream(name: &str, spec: &str) -> Upstream {
    Upstream::from_spec_with_health(name, spec, &HealthConfig::default(), PoolConfig::default())
        .unwrap()
}

#[test]
fn health_json_ok_shape() {
    let mut m = Metrics::new(&vec!["api".to_string()]);
    m.conn_opened();
    let up = upstream("api", "127.0.0.1:9001,127.0.0.1:9002");
    let (body, degraded) = health_json(&m, &vec![&up]);
    assert!(!degraded);
    assert_eq!(
        body,
        "{\"status\":\"ok\",\"upstreams\":{\"api\":{\"healthy\":2,\"total\":2}},\
         \"active_connections\":1}\n"
    );
}

#[test]
fn health_json_degrades_when_an_upstream_is_empty() {
    let m = Metrics::new(&vec!["api".to_string()]);
    let mut up = upstream("api", "127.0.0.1:9001");
    let now = Instant { nanos: 1 };
    for _ in 0..HealthConfig::default().fail_threshold {
        up.servers[0].record_failure(now);
    }
    let (body, degraded) = health_json(&m, &vec![&up]);
    assert!(degraded);
    assert!(body.contains("\"status\":\"degraded\""));
    assert!(body.contains("\"healthy\":0,\"total\":1"));
}

#[test]
fn pools_are_separated_by_commas() {
    let m = Metrics::new(&vec![]);
    let a = upstream("a", "127.0.0.1:1");
    let b = upstream("b\"", "127.0.0.1:2");
    let (body, _) = health_json(&m, &vec![&a, &b]);
    assert!(body.contains(
        "{\"a\":{\"healthy\":1,\"total\":1},\"b\\\"\":{\"healthy\":1,\"total\":1}}"
    ));
}

fn ask(head: &[u8]) -> String {
    let m = Metrics::new(&vec!["api".to_string()]);
    let c = Cache::new(1024, 16, 64);
    let up = upstream("api", "127.0.0.1:9001");
    String::from_utf8(answer(head, &m, &c, &vec![&up]).unwrap()).unwrap()
}

#[test]
fn two_paths_are_answered() {
    let r = ask(b"GET /metrics?x=1 HTTP/1.1\r\n\r\n");
    assert!(r.starts_with(
        "HTTP/1.1 200 OK\r\nContent-Type: text/plain; version=0.0.4\r\nContent-Length: "
    ));
    assert!(r.contains("# TYPE ferrum_cache_events_total counter\n"));
    let r = ask(b"GET /health HTTP/1.1\r\n\r\n");
    assert!(r.contains("Content-Type: application/json\r\n"));
    assert!(r.contains("Connection: close\r\n\r\n{\"status\":\"ok\""));
}

#[test]
fn everything_else_is_refused() {
    assert_eq!(
        ask(b"POST /metrics HTTP/1.1\r\n\r\n"),
        "HTTP/1.1 405 Method Not Allowed\r\nContent-Type: text/plain\r\nContent-Length: 4\r\nConnection: close\r\n\r\n405\n"
    );
    assert_eq!(
        ask(b"GET /secret HTTP/1.1\r\n\r\n"),
        "HTTP/1.1 404 Not Found\r\nContent-Type: text/plain\r\nContent-Length: 4\r\nConnection: close\r\n\r\n404\n"
    );
    let m = Metrics::new(&vec![]);
    let c = Cache::new(1024, 16, 64);
    assert!(answer(b"nonsense\r\n\r\n", &m, &c, &vec![]).is_err());
}
