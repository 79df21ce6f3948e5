//! The config file.

use rproxy::config::{parse, FileConfig, STARTUP_ONLY_KEYS};
use rproxy::fault::Fault;

fn p(text: &str) -> Result<FileConfig, Fault> {
    parse(text)
}

#[test]
fn full_file_lowers_in_cli_order() {
    let cfg = p(r#"
# ferrum.toml
listen = "127.0.0.1:8080"
admin = "127.0.0.1:9100"     # observability plane
max-conns = 5000
no-access-log = true
log-plain = false

[upstreams]
api = "127.0.0.1:9001,127.0.0.1:9002;health=/health"

routes = [
  "/api/**=api;cache=60",
  "/=api",
]
"#)
    .unwrap();
    assert_eq!(cfg.listen.as_deref(), Some("127.0.0.1:8080"));
    assert_eq!(
        cfg.args,
        vec![
            "--admin",
            "127.0.0.1:9100",
            "--max-conns",
            "5000",
            "--no-access-log",
            "--upstream",
            "api=127.0.0.1:9001,127.0.0.1:9002;health=/health",
            "/api/**=api;cache=60",
            "/=api",
        ]
    );
}

#[test]
fn single_line_routes_array() {
    let cfg = p(r#"routes = ["/a=127.0.0.1:9001", "/b=127.0.0.1:9002"]"#).unwrap();
    assert_eq!(cfg.args, vec!["/a=127.0.0.1:9001", "/b=127.0.0.1:9002"]);
}

#[test]
fn duplicate_key_is_an_error_not_last_wins() {
    let e = p("max-conns = 1\nmax-conns = 2\n").unwrap_err().message;
    assert!(e.contains("line 2"), "{e}");
    assert!(e.contains("duplicate"), "{e}");
}

#[test]
fn duplicate_upstream_is_an_error() {
    let e = p("[upstreams]\napi = \"127.0.0.1:1\"\napi = \"127.0.0.1:2\"\n").unwrap_err().message;
    assert!(e.contains("duplicate upstream"), "{e}");
}

#[test]
fn unknown_key_and_section_are_loud() {
    let e = p("max_conns = 1\n").unwrap_err().message;
    assert!(e.contains("unknown key"), "{e}");
    let e = p("[middleware]\n").unwrap_err().message;
    assert!(e.contains("unknown section"), "{e}");
}

#[test]
fn value_shapes() {
    assert!(p("max-conns = true\n").unwrap_err().message.contains("takes a value"));
    assert!(p("no-access-log = \"yes\"\n").unwrap_err().message.contains("switch"));
    let cfg = p("max-body = \"64m\"\nbackend-timeout = \"30s\"\n").unwrap();
    assert_eq!(cfg.args, vec!["--max-body", "64m", "--backend-timeout", "30s"]);
    assert!(p("max-body = 64m\n").unwrap_err().message.contains("not a quoted string"));
}

#[test]
fn comments_and_hash_inside_strings() {
    let cfg = p("listen = \"127.0.0.1:8080\" # the front door\n").unwrap();
    assert_eq!(cfg.listen.as_deref(), Some("127.0.0.1:8080"));
    let cfg = p(r##"routes = ["/x=127.0.0.1:9001;realm=a#b"]"##).unwrap();
    assert_eq!(cfg.args, vec!["/x=127.0.0.1:9001;realm=a#b"]);
}

#[test]
fn unterminated_forms() {
    assert!(p("listen = \"127.0.0.1\n").unwrap_err().message.contains("unterminated"));
    let e = p("routes = [\n  \"/a=127.0.0.1:9001\",\n").unwrap_err().message;
    assert!(e.contains("never closed"), "{e}");
}

#[test]
fn switch_false_is_a_noop() {
    let cfg = p("no-request-id = false\n").unwrap();
    assert!(cfg.args.is_empty());
}

#[test]
fn error_carries_line_number() {
    let e = p("listen = \"ok\"\n\nbogus-key = 1\n").unwrap_err().message;
    assert!(e.contains("line 3"), "{e}");
}

#[test]
fn blank_lines_and_comments_change_nothing() {
    let a = p("max-conns = 5\n").unwrap();
    let b = p("\n# note\n   \nmax-conns = 5\n\n").unwrap();
    assert_eq!(a.args, b.args);
}

#[test]
fn routes_are_taken_once() {
    let e = p("routes = [\"/a=b:1\"]\nroutes = [\"/c=d:1\"]\n").unwrap_err().message;
    assert!(e.contains("duplicate"), "{e}");
}

#[test]
fn startup_keys_are_named() {
    assert!(STARTUP_ONLY_KEYS.contains(&"listen"));
    assert!(STARTUP_ONLY_KEYS.contains(&"tls-cert"));
}
