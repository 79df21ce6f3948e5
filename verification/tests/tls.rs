//! TLS settings and files.

use rproxy::proxy::HEAD_READ_TIMEOUT;
use rproxy::tls::{
    build_server_config, key_warning, load_certs, load_private_key, load_root_store, ClientAuth,
    FileBytes, TlsArgs, TlsFiles, TLS_HANDSHAKE_TIMEOUT,
};

fn missing() -> FileBytes {
    FileBytes::Unopened("No such file or directory (os error 2)".into())
}

fn files() -> TlsFiles {
    TlsFiles { cert: missing(), key: missing(), client_ca: missing() }
}

fn path(s: &str) -> Option<String> {
    Some(s.to_string())
}

#[test]
fn client_auth_parses_accepted_spellings() {
    assert_eq!(ClientAuth::parse("off").unwrap(), ClientAuth::Off);
    assert_eq!(ClientAuth::parse("none").unwrap(), ClientAuth::Off);
    assert_eq!(ClientAuth::parse("optional").unwrap(), ClientAuth::Optional);
    assert_eq!(ClientAuth::parse("required").unwrap(), ClientAuth::Required);
    assert_eq!(ClientAuth::parse("require").unwrap(), ClientAuth::Required);
    assert_eq!(ClientAuth::parse("REQUIRED").unwrap(), ClientAuth::Required);
}

#[test]
fn client_auth_rejects_unknown() {
    assert!(ClientAuth::parse("requried").is_err());
    assert!(ClientAuth::parse("yes").is_err());
    assert!(ClientAuth::parse("").is_err());
}

#[test]
fn needs_ca_only_for_verifying_modes() {
    assert!(!ClientAuth::Off.needs_ca());
    assert!(ClientAuth::Optional.needs_ca());
    assert!(ClientAuth::Required.needs_ca());
}

#[test]
fn no_tls_flags_builds_nothing() {
    let args = TlsArgs::default();
    assert!(!args.requested());
    assert!(args.build(&files()).unwrap().is_none());
}

#[test]
fn cert_without_key_is_a_startup_error() {
    let args = TlsArgs { cert: path("/nonexistent/c.pem"), ..Default::default() };
    assert!(args.requested());
    let e = args.build(&files()).unwrap_err().message;
    assert!(e.contains("--tls-key"), "unexpected message: {e}");
}

#[test]
fn key_without_cert_is_a_startup_error() {
    let args = TlsArgs { key: path("/nonexistent/k.pem"), ..Default::default() };
    let e = args.build(&files()).unwrap_err().message;
    assert!(e.contains("--tls-cert"), "unexpected message: {e}");
}

#[test]
fn client_auth_without_ca_is_a_startup_error() {
    let args = TlsArgs {
        cert: path("/nonexistent/c.pem"),
        key: path("/nonexistent/k.pem"),
        client_auth: ClientAuth::Required,
        client_ca: None,
    };
    let e = args.build(&files()).unwrap_err().message;
    assert!(e.contains("--tls-client-ca"), "unexpected message: {e}");
}

#[test]
fn ca_without_client_auth_is_a_startup_error() {
    let args = TlsArgs {
        cert: path("/nonexistent/c.pem"),
        key: path("/nonexistent/k.pem"),
        client_ca: path("/nonexistent/ca.pem"),
        client_auth: ClientAuth::Off,
    };
    let e = args.build(&files()).unwrap_err().message;
    assert!(e.contains("never be consulted"), "unexpected message: {e}");
}

#[test]
fn client_auth_alone_names_the_missing_cert() {
    let args = TlsArgs { client_auth: ClientAuth::Optional, ..Default::default() };
    let e = args.build(&files()).unwrap_err().message;
    assert!(e.contains("--tls-cert"), "unexpected message: {e}");
}

#[test]
fn missing_cert_file_names_the_path() {
    let args = TlsArgs {
        cert: path("/nonexistent/ferrum-test-cert.pem"),
        key: path("/nonexistent/ferrum-test-key.pem"),
        ..Default::default()
    };
    let e = args.build(&files()).unwrap_err().message;
    assert!(e.contains("ferrum-test-cert.pem"), "unexpected message: {e}");
    assert!(e.contains("certificate"), "unexpected message: {e}");
}

#[test]
fn empty_cert_file_is_rejected() {
    let file = FileBytes::Whole(b"not a pem file\n".to_vec());
    let e = load_certs(&file, "ferrum-empty-cert.pem").unwrap_err().message;
    assert!(e.contains("no CERTIFICATE block"), "unexpected: {e}");
}

#[test]
fn empty_key_file_is_rejected() {
    let file = FileBytes::Whole(b"nothing here\n".to_vec());
    let e = load_private_key(&file, "ferrum-empty-key.pem").map(|_| ()).unwrap_err().message;
    assert!(e.contains("no PRIVATE KEY block"), "unexpected: {e}");
}

#[test]
fn handshake_deadline_is_tighter_than_head_deadline() {
    assert!(TLS_HANDSHAKE_TIMEOUT < HEAD_READ_TIMEOUT);
}

fn block(label: &str, base64: &str) -> FileBytes {
    FileBytes::Whole(
        format!("-----BEGIN {label}-----\n{base64}\n-----END {label}-----\n").into_bytes(),
    )
}

#[test]
fn certificates_are_read_from_their_blocks() {
    let file = block("CERTIFICATE", "AQID");
    assert_eq!(load_certs(&file, "c").unwrap(), vec![vec![1, 2, 3]]);
    let e = load_certs(&block("CERTIFICATE", "!!!!"), "c.pem").unwrap_err().message;
    assert!(e.starts_with("tls: bad certificate PEM c.pem: "), "{e}");
    let e = load_certs(&FileBytes::Unread("broken".into()), "c.pem").unwrap_err().message;
    assert_eq!(e, "tls: bad certificate PEM c.pem: broken");
}

#[test]
fn keys_are_read_from_their_blocks() {
    let key = load_private_key(&block("RSA PRIVATE KEY", "AQID"), "k").unwrap();
    assert_eq!(key.format, rproxy::tls::KeyFormat::Pkcs1);
    assert_eq!(key.der, vec![1, 2, 3]);
    let key = load_private_key(&block("PRIVATE KEY", "AQID"), "k").unwrap();
    assert_eq!(key.format, rproxy::tls::KeyFormat::Pkcs8);
    let key = load_private_key(&block("EC PRIVATE KEY", "AQID"), "k").unwrap();
    assert_eq!(key.format, rproxy::tls::KeyFormat::Sec1);
}

#[test]
fn unusable_authorities_are_counted() {
    let e = load_root_store(&block("CERTIFICATE", "AQID"), "ca.pem").map(|_| ()).unwrap_err();
    assert_eq!(e.message, "tls: 1 of 1 certificates in ca.pem are not valid trust anchors");
    let e = load_root_store(&FileBytes::Whole(vec![]), "ca.pem").map(|_| ()).unwrap_err();
    assert_eq!(e.message, "tls: no CERTIFICATE block found in client CA bundle ca.pem");
    let e = load_root_store(&missing(), "ca.pem").map(|_| ()).unwrap_err();
    assert!(e.message.starts_with("tls: cannot read client CA bundle ca.pem: "), "{}", e.message);
}

#[test]
fn pairs_that_do_not_fit_are_refused() {
    let f = TlsFiles {
        cert: block("CERTIFICATE", "AQID"),
        key: block("PRIVATE KEY", "AQID"),
        client_ca: missing(),
    };
    let e = build_server_config("c.pem", "k.pem", "", ClientAuth::Off, &f)
        .map(|_| ())
        .unwrap_err()
        .message;
    assert!(
        e.starts_with("tls: certificate c.pem and key k.pem do not form a usable pair: "),
        "{e}"
    );
    let e = build_server_config("c.pem", "k.pem", "ca.pem", ClientAuth::Required, &f)
        .map(|_| ())
        .unwrap_err()
        .message;
    assert!(e.starts_with("tls: cannot read client CA bundle ca.pem"), "{e}");
}

#[test]
fn exposed_keys_are_warned_about() {
    assert_eq!(key_warning("k.pem", 0o100600), None);
    assert_eq!(
        key_warning("k.pem", 0o100644).unwrap(),
        "private key k.pem is mode 644 — readable beyond its owner; chmod 600 it"
    );
    assert_eq!(
        key_warning("k.pem", 0o007).unwrap(),
        "private key k.pem is mode 7 — readable beyond its owner; chmod 600 it"
    );
}

/// A self-signed certificate for `localhost`, for these tests alone.
const CERT: &str = "MIIBPjCB5qADAgECAgEBMAoGCCqGSM49BAMCMBQxEjAQBgNVBAMMCWxvY2FsaG9zdDAeFw0yNTAxMDEwMDAwMDBaFw00NTAxMDEwMDAwMDBaMBQxEjAQBgNVBAMMCWxvY2FsaG9zdDBZMBMGByqGSM49AgEGCCqGSM49AwEHA0IABGtxgnEvy0fyh6fSbj6UJs2mbZB34PZgnvxtne9JFQ455HyBnAGWKaqB+s0ki0MDvT4G+sPixLnU+oQxCM9CoaOjKTAnMA8GA1UdEwEB/wQFMAMBAf8wFAYDVR0RBA0wC4IJbG9jYWxob3N0MAoGCCqGSM49BAMCA0cAMEQCIHpQb1wYO6FVm/gunNvX7rxupJGrV+R6W/cMlrZ3d4vNAiBI7yZ44DZZQJ2YzlTi7SDaS4N+/evZLfSJEdO3LefFuA==";

/// The key of that certificate.
const KEY: &str = "MIGHAgEAMBMGByqGSM49AgEGCCqGSM49AwEHBG0wawIBAQQgdigdCaEBHTq3pJ2yPyYJ4IpDw+lzJIrQJQin9y6PYfehRANCAARrcYJxL8tH8oen0m4+lCbNpm2Qd+D2YJ78bZ3vSRUOOeR8gZwBlimqgfrNJItDA70+BvrD4sS51PqEMQjPQqGj";

#[test]
fn clients_are_checked_as_it_was_set() {
    let f = TlsFiles {
        cert: block("CERTIFICATE", CERT),
        key: block("PRIVATE KEY", KEY),
        client_ca: block("CERTIFICATE", CERT),
    };
    let shown = |auth: ClientAuth| {
        let args = TlsArgs {
            cert: path("c.pem"),
            key: path("k.pem"),
            client_ca: if auth.needs_ca() { path("ca.pem") } else { None },
            client_auth: auth,
        };
        format!("{:?}", args.build(&f).unwrap().unwrap())
    };
    let off = shown(ClientAuth::Off);
    assert!(off.contains("verifier: NoClientAuth"), "{off}");
    let optional = shown(ClientAuth::Optional);
    assert!(optional.contains("verifier: WebPkiClientVerifier"), "{optional}");
    assert!(optional.contains("anonymous_policy: Allow"), "{optional}");
    assert!(optional.contains("(1 roots)"), "{optional}");
    let required = shown(ClientAuth::Required);
    assert!(required.contains("verifier: WebPkiClientVerifier"), "{required}");
    assert!(required.contains("anonymous_policy: Deny"), "{required}");
    assert!(required.contains("(1 roots)"), "{required}");
    let der = load_certs(&f.cert, "c.pem").unwrap().remove(0);
    let hex: String = der.iter().map(|b| format!("{b:02x}")).collect();
    for text in [off, optional, required] {
        assert!(text.contains(&hex), "{text}");
    }
}

#[test]
fn fitting_files_make_a_configuration() {
    let f = TlsFiles {
        cert: block("CERTIFICATE", CERT),
        key: block("PRIVATE KEY", KEY),
        client_ca: block("CERTIFICATE", CERT),
    };
    for auth in [ClientAuth::Off, ClientAuth::Optional, ClientAuth::Required] {
        let c = build_server_config("c.pem", "k.pem", "ca.pem", auth, &f).unwrap();
        assert_eq!(c.alpn_protocols, vec![b"http/1.1".to_vec()]);
    }
    let args = TlsArgs { cert: path("c.pem"), key: path("k.pem"), ..Default::default() };
    assert!(args.build(&f).unwrap().is_some());
    assert_eq!(load_root_store(&f.client_ca, "ca.pem").unwrap().roots.len(), 1);
}
