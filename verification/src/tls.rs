//! TLS on the listener: which settings go together, and what is made of the files.
//!
//! The program around the library reads the files; here their bytes become the
//! configuration of `rustls`, or a refusal that names the file.

use std::sync::Arc;

use rustls::crypto::ring::default_provider;
use rustls::server::WebPkiClientVerifier;
use rustls::{RootCertStore, ServerConfig};
use rustls_pki_types::{CertificateDer, PrivateKeyDer};
use vstd::prelude::*;
use vstd::string::StringExecFns;

use crate::fault::{bad_input, Fault, FaultKind, Outcome};
use crate::text::{debug_text, decimal, decimal_of, lower, lowercase, maybe, own, quoted, same};

verus! {

/// How long a client may take for the handshake, in nanoseconds: 10 seconds.
pub const TLS_HANDSHAKE_TIMEOUT: u128 = 10_000_000_000;

/// Whether clients show a certificate.
#[derive(Debug, Clone, Copy, PartialEq, Eq, Structural)]
pub enum ClientAuth {
    /// They are not asked.
    Off,
    /// They are asked, and admitted without one.
    Optional,
    /// They are refused without one.
    Required,
}

/// What a setting says, in lower case.
pub open spec fn auth_of(s: Seq<char>) -> Outcome<ClientAuth> {
    let t = lower(s);
    if t == "off"@ || t == "none"@ {
        Ok(ClientAuth::Off)
    } else if t == "optional"@ {
        Ok(ClientAuth::Optional)
    } else if t == "required"@ || t == "require"@ {
        Ok(ClientAuth::Required)
    } else {
        Err(
            "unknown --tls-client-auth "@ + debug_text(t)
                + " (expected off, optional, or required)"@,
        )
    }
}

/// The name of a setting.
pub open spec fn auth_name(a: ClientAuth) -> Seq<char> {
    match a {
        ClientAuth::Off => "Off"@,
        ClientAuth::Optional => "Optional"@,
        ClientAuth::Required => "Required"@,
    }
}

/// The setting checks certificates.
pub open spec fn checks(a: ClientAuth) -> bool {
    a == ClientAuth::Optional || a == ClientAuth::Required
}

impl Default for ClientAuth {
    fn default() -> (a: ClientAuth)
        ensures
            a == ClientAuth::Off,
    {
        ClientAuth::Off
    }
}

impl ClientAuth {
    /// Reads a setting. An unknown one is refused: a slip of the pen must not turn
    /// authentication off.
    pub fn parse(s: &str) -> (r: Result<ClientAuth, Fault>)
        ensures
            match r {
                Ok(a) => auth_of(s@) == Ok::<ClientAuth, Seq<char>>(a),
                Err(e) => e.kind == FaultKind::InvalidInput && auth_of(s@) == Err::<
                    ClientAuth,
                    Seq<char>,
                >(e.message@),
            },
    {
        let t = lowercase(s);
        if same(t.as_str(), "off") || same(t.as_str(), "none") {
            Ok(ClientAuth::Off)
        } else if same(t.as_str(), "optional") {
            Ok(ClientAuth::Optional)
        } else if same(t.as_str(), "required") || same(t.as_str(), "require") {
            Ok(ClientAuth::Required)
        } else {
            let q = quoted(t.as_str());
            Err(
                bad_input(
                    own("unknown --tls-client-auth ").concat(q.as_str()).concat(
                        " (expected off, optional, or required)",
                    ),
                ),
            )
        }
    }

    /// Does the setting need authorities to check against?
    pub fn needs_ca(self) -> (r: bool)
        ensures
            r == checks(self),
    {
        match self {
            ClientAuth::Off => false,
            _ => true,
        }
    }

    /// The name of the setting.
    pub fn name(&self) -> (r: &'static str)
        ensures
            r@ == auth_name(*self),
    {
        match self {
            ClientAuth::Off => "Off",
            ClientAuth::Optional => "Optional",
            ClientAuth::Required => "Required",
        }
    }
}

/// The settings of the listener, with the paths of the files.
#[derive(Debug)]
pub struct TlsArgs {
    pub cert: Option<String>,
    pub key: Option<String>,
    pub client_ca: Option<String>,
    pub client_auth: ClientAuth,
}

/// What the settings say.
pub struct ArgsView {
    pub cert: Option<Seq<char>>,
    pub key: Option<Seq<char>>,
    pub client_ca: Option<Seq<char>>,
    pub client_auth: ClientAuth,
}

impl View for TlsArgs {
    type V = ArgsView;

    open spec fn view(&self) -> ArgsView {
        ArgsView {
            cert: maybe(self.cert),
            key: maybe(self.key),
            client_ca: maybe(self.client_ca),
            client_auth: self.client_auth,
        }
    }
}

/// What became of reading a file.
#[derive(Debug)]
pub enum FileBytes {
    /// It could not be opened, for that reason.
    Unopened(String),
    /// It could not be read to its end, for that reason.
    Unread(String),
    Whole(Vec<u8>),
}

/// What became of reading the files of the settings.
#[derive(Debug)]
pub struct TlsFiles {
    pub cert: FileBytes,
    pub key: FileBytes,
    pub client_ca: FileBytes,
}

/// A setting of the listener was given.
pub open spec fn asked_for(a: ArgsView) -> bool {
    a.cert is Some || a.key is Some || a.client_ca is Some || a.client_auth != ClientAuth::Off
}

/// Why settings do not go together, if they do not.
pub open spec fn discord(a: ArgsView) -> Option<Seq<char>> {
    if !asked_for(a) {
        None
    } else if a.cert is Some && a.key is None {
        Some("--tls-cert requires --tls-key"@)
    } else if a.cert is None && a.key is Some {
        Some("--tls-key requires --tls-cert"@)
    } else if a.cert is None {
        Some("--tls-client-auth/--tls-client-ca require --tls-cert and --tls-key"@)
    } else if checks(a.client_auth) && a.client_ca is None {
        Some(
            "--tls-client-auth "@ + auth_name(a.client_auth)
                + " requires --tls-client-ca (there is nothing to validate client certificates against without it)"@,
        )
    } else if a.client_ca is Some && !checks(a.client_auth) {
        Some(
            "--tls-client-ca given without --tls-client-auth optional|required (the CA would never be consulted)"@,
        )
    } else {
        None
    }
}

/// Settings that go together and ask for a client's certificate have authorities to
/// check it against, and authorities are never given in vain; the listener has an
/// identity of its own whenever any setting is given.
pub proof fn law_accepted_settings_are_whole(a: ArgsView)
    requires
        discord(a) is None,
    ensures
        asked_for(a) ==> a.cert is Some && a.key is Some,
        checks(a.client_auth) <==> a.client_ca is Some,
{
}

// ---------------------------------------------------------------------------
// The outside crates
// ---------------------------------------------------------------------------

/// The configuration of a TLS server in the `rustls` crate.
#[verifier::external_type_specification]
#[verifier::external_body]
pub struct ExServerConfig(rustls::ServerConfig);

/// A collection of trusted authorities in the `rustls` crate.
#[verifier::external_type_specification]
#[verifier::external_body]
pub struct ExRootCertStore(rustls::RootCertStore);

/// The encoding of a private key.
#[derive(Debug, Clone, Copy, PartialEq, Eq, Structural)]
pub enum KeyFormat {
    Pkcs1,
    Sec1,
    Pkcs8,
}

/// A private key.
pub struct PrivateKey {
    pub format: KeyFormat,
    pub der: Vec<u8>,
}

/// What a private key is.
pub struct KeyBytes {
    pub format: KeyFormat,
    pub der: Seq<u8>,
}

impl View for PrivateKey {
    type V = KeyBytes;

    open spec fn view(&self) -> KeyBytes {
        KeyBytes { format: self.format, der: self.der@ }
    }
}

/// The step at which a configuration failed.
#[derive(Debug, Clone, Copy, PartialEq, Eq, Structural)]
pub enum Stage {
    /// The protocol versions.
    Versions,
    /// The check of clients.
    Verifier,
    /// The certificate with its key.
    Pair,
}

/// What is kept of an authority's certificate.
pub struct Anchor {
    pub subject: Seq<u8>,
    pub public_key: Seq<u8>,
    pub name_constraints: Option<Seq<u8>>,
}

/// The bytes of certificates.
pub open spec fn ders(v: Seq<Vec<u8>>) -> Seq<Seq<u8>> {
    Seq::new(v.len(), |i: int| v[i]@)
}

/// What `rustls_pemfile::certs` finds in bytes: the certificates, or the text of its
/// first error.
pub uninterp spec fn pem_certs(bytes: Seq<u8>) -> Result<Seq<Seq<u8>>, Seq<char>>;

/// What `rustls_pemfile::private_key` finds in bytes: the first private key, if
/// there is one, or the text of its error.
pub uninterp spec fn pem_key(bytes: Seq<u8>) -> Result<Option<KeyBytes>, Seq<char>>;

/// How many certificates `RootCertStore::add_parsable_certificates` leaves out.
pub uninterp spec fn unusable(certs: Seq<Seq<u8>>) -> nat;

/// The authorities that `RootCertStore::add_parsable_certificates` takes from
/// certificates, in order.
pub uninterp spec fn trust_in(certs: Seq<Seq<u8>>) -> Seq<Anchor>;

/// The authorities in a collection, in the field `roots`.
pub uninterp spec fn anchors(store: rustls::RootCertStore) -> Seq<Anchor>;

/// Where, and with what text, a `rustls` configuration fails that does not ask
/// clients for a certificate.
pub uninterp spec fn open_failure(certs: Seq<Seq<u8>>, key: KeyBytes) -> Option<
    (Stage, Seq<char>),
>;

/// Where, and with what text, a `rustls` configuration fails that asks clients for a
/// certificate and admits them without one.
pub uninterp spec fn optional_failure(
    certs: Seq<Seq<u8>>,
    key: KeyBytes,
    roots: Seq<Anchor>,
) -> Option<(Stage, Seq<char>)>;

/// Where, and with what text, a `rustls` configuration fails that refuses clients
/// without a certificate.
pub uninterp spec fn required_failure(
    certs: Seq<Seq<u8>>,
    key: KeyBytes,
    roots: Seq<Anchor>,
) -> Option<(Stage, Seq<char>)>;

/// The protocols that a configuration offers, in the field `alpn_protocols`.
pub uninterp spec fn offered(c: rustls::ServerConfig) -> Seq<Seq<u8>>;

/// The certificate chain that a configuration presents to every client, the server's
/// own certificate first. The key that goes with it is not kept as bytes.
pub uninterp spec fn presented(c: rustls::ServerConfig) -> Seq<Seq<u8>>;

/// How a configuration checks clients: not at all; or whether a client may come
/// without a certificate, and the authorities that a certificate is held against.
pub uninterp spec fn client_check(c: rustls::ServerConfig) -> Option<(bool, Seq<Anchor>)>;

/// `rustls_pemfile::certs` yields the certificates in PEM text, and an error where a
/// block is damaged; the first error is handed on as text.
#[verifier::external_body]
fn read_certs(bytes: &Vec<u8>) -> (r: Result<Vec<Vec<u8>>, String>)
    ensures
        match r {
            Ok(v) => pem_certs(bytes@) == Ok::<Seq<Seq<u8>>, Seq<char>>(ders(v@)),
            Err(e) => pem_certs(bytes@) == Err::<Seq<Seq<u8>>, Seq<char>>(e@),
        },
{
    rustls_pemfile::certs(&mut bytes.as_slice())
        .map(|c| c.map(|der| der.to_vec()).map_err(|e| e.to_string()))
        .collect()
}

/// `rustls_pemfile::private_key` yields the first private key in PEM text, in one of
/// three encodings, or nothing; an error is handed on as text. Its type is open to
/// further encodings, of which that function gives none.
#[verifier::external_body]
fn read_key(bytes: &Vec<u8>) -> (r: Result<Option<PrivateKey>, String>)
    ensures
        match r {
            Ok(None) => pem_key(bytes@) == Ok::<Option<KeyBytes>, Seq<char>>(None),
            Ok(Some(k)) => pem_key(bytes@) == Ok::<Option<KeyBytes>, Seq<char>>(Some(k@)),
            Err(e) => pem_key(bytes@) == Err::<Option<KeyBytes>, Seq<char>>(e@),
        },
{
    let key = rustls_pemfile::private_key(&mut bytes.as_slice()).map_err(|e| e.to_string())?;
    Ok(key.map(|k| PrivateKey {
        format: match k {
            PrivateKeyDer::Pkcs1(_) => KeyFormat::Pkcs1,
            PrivateKeyDer::Sec1(_) => KeyFormat::Sec1,
            _ => KeyFormat::Pkcs8,
        },
        der: k.secret_der().to_vec(),
    }))
}

/// `RootCertStore::add_parsable_certificates` fills an empty collection with the
/// certificates that it can use, of each its subject, its public key and its name
/// constraints, and counts those that it leaves out.
#[verifier::external_body]
fn root_store(certs: &Vec<Vec<u8>>) -> (r: (RootCertStore, usize))
    ensures
        r.1 == unusable(ders(certs@)),
        r.1 <= certs@.len(),
        anchors(r.0) == trust_in(ders(certs@)),
{
    let mut store = RootCertStore::empty();
    let (_, ignored) = store.add_parsable_certificates(
        certs.iter().map(|der| CertificateDer::from(der.as_slice())),
    );
    (store, ignored)
}

/// `ServerConfig::builder_with_provider` with the `ring` provider, the safe protocol
/// versions, no check of clients, and one certificate chain with its key: a
/// configuration that presents that chain and does not ask clients for a certificate,
/// or the step that failed with the text of its error.
#[verifier::external_body]
fn open_config(certs: Vec<Vec<u8>>, key: PrivateKey) -> (r: Result<ServerConfig, (Stage, String)>)
    ensures
        match r {
            Ok(c) => open_failure(ders(certs@), key@) is None && presented(c) == ders(certs@)
                && client_check(c) is None,
            Err(e) => open_failure(ders(certs@), key@) == Some((e.0, e.1@)),
        },
{
    let key = match key.format {
        KeyFormat::Pkcs1 => PrivateKeyDer::Pkcs1(key.der.into()),
        KeyFormat::Sec1 => PrivateKeyDer::Sec1(key.der.into()),
        KeyFormat::Pkcs8 => PrivateKeyDer::Pkcs8(key.der.into()),
    };
    ServerConfig::builder_with_provider(Arc::new(default_provider()))
        .with_safe_default_protocol_versions()
        .map_err(|e| (Stage::Versions, e.to_string()))?
        .with_no_client_auth()
        .with_single_cert(certs.into_iter().map(CertificateDer::from).collect(), key)
        .map_err(|e| (Stage::Pair, e.to_string()))
}

/// As [`open_config`], with a `WebPkiClientVerifier` for those authorities that
/// allows clients without a certificate.
#[verifier::external_body]
fn optional_config(certs: Vec<Vec<u8>>, key: PrivateKey, roots: RootCertStore) -> (r: Result<
    ServerConfig,
    (Stage, String),
>)
    ensures
        match r {
            Ok(c) => optional_failure(ders(certs@), key@, anchors(roots)) is None && presented(c)
                == ders(certs@) && client_check(c) == Some((true, anchors(roots))),
            Err(e) => optional_failure(ders(certs@), key@, anchors(roots)) == Some((e.0, e.1@)),
        },
{
    let provider = Arc::new(default_provider());
    let key = match key.format {
        KeyFormat::Pkcs1 => PrivateKeyDer::Pkcs1(key.der.into()),
        KeyFormat::Sec1 => PrivateKeyDer::Sec1(key.der.into()),
        KeyFormat::Pkcs8 => PrivateKeyDer::Pkcs8(key.der.into()),
    };
    let versions = ServerConfig::builder_with_provider(provider.clone())
        .with_safe_default_protocol_versions().map_err(|e| (Stage::Versions, e.to_string()))?;
    let verifier = WebPkiClientVerifier::builder_with_provider(Arc::new(roots), provider)
        .allow_unauthenticated().build().map_err(|e| (Stage::Verifier, e.to_string()))?;
    versions.with_client_cert_verifier(verifier)
        .with_single_cert(certs.into_iter().map(CertificateDer::from).collect(), key)
        .map_err(|e| (Stage::Pair, e.to_string()))
}

/// As [`open_config`], with a `WebPkiClientVerifier` for those authorities that
/// refuses clients without a certificate.
#[verifier::external_body]
fn required_config(certs: Vec<Vec<u8>>, key: PrivateKey, roots: RootCertStore) -> (r: Result<
    ServerConfig,
    (Stage, String),
>)
    ensures
        match r {
            Ok(c) => required_failure(ders(certs@), key@, anchors(roots)) is None && presented(c)
                == ders(certs@) && client_check(c) == Some((false, anchors(roots))),
            Err(e) => required_failure(ders(certs@), key@, anchors(roots)) == Some((e.0, e.1@)),
        },
{
    let provider = Arc::new(default_provider());
    let key = match key.format {
        KeyFormat::Pkcs1 => PrivateKeyDer::Pkcs1(key.der.into()),
        KeyFormat::Sec1 => PrivateKeyDer::Sec1(key.der.into()),
        KeyFormat::Pkcs8 => PrivateKeyDer::Pkcs8(key.der.into()),
    };
    let versions = ServerConfig::builder_with_provider(provider.clone())
        .with_safe_default_protocol_versions().map_err(|e| (Stage::Versions, e.to_string()))?;
    let verifier = WebPkiClientVerifier::builder_with_provider(Arc::new(roots), provider)
        .build().map_err(|e| (Stage::Verifier, e.to_string()))?;
    versions.with_client_cert_verifier(verifier)
        .with_single_cert(certs.into_iter().map(CertificateDer::from).collect(), key)
        .map_err(|e| (Stage::Pair, e.to_string()))
}

/// Sets the field `alpn_protocols` of a `ServerConfig`: the protocols that are
/// offered in the handshake. The other fields stay as they are, and with them the
/// chain that is presented and the check of clients.
#[verifier::external_body]
fn offer(config: ServerConfig, protocols: Vec<Vec<u8>>) -> (r: ServerConfig)
    ensures
        offered(r) == ders(protocols@),
        presented(r) == presented(config),
        client_check(r) == client_check(config),
{
    let mut config = config;
    config.alpn_protocols = protocols;
    config
}

// ---------------------------------------------------------------------------
// Files
// ---------------------------------------------------------------------------

/// The refusal of a file that could not be opened.
pub open spec fn unreadable(what: Seq<char>, path: Seq<char>, why: Seq<char>) -> Seq<char> {
    "tls: cannot read "@ + what + " "@ + path + ": "@ + why
}

/// The refusal of a file that is no proper PEM text.
pub open spec fn bad_pem(what: Seq<char>, path: Seq<char>, why: Seq<char>) -> Seq<char> {
    "tls: bad "@ + what + " PEM "@ + path + ": "@ + why
}

/// The certificates of a file: at least one.
pub open spec fn certs_in(f: FileBytes, path: Seq<char>) -> Outcome<Seq<Seq<u8>>> {
    match f {
        FileBytes::Unopened(e) => Err(unreadable("certificate"@, path, e@)),
        FileBytes::Unread(e) => Err(bad_pem("certificate"@, path, e@)),
        FileBytes::Whole(b) => match pem_certs(b@) {
            Err(e) => Err(bad_pem("certificate"@, path, e)),
            Ok(v) => if v.len() == 0 {
                Err("tls: no CERTIFICATE block found in "@ + path)
            } else {
                Ok(v)
            },
        },
    }
}

/// The private key of a file.
pub open spec fn key_in(f: FileBytes, path: Seq<char>) -> Outcome<KeyBytes> {
    match f {
        FileBytes::Unopened(e) => Err(unreadable("private key"@, path, e@)),
        FileBytes::Unread(e) => Err(bad_pem("private key"@, path, e@)),
        FileBytes::Whole(b) => match pem_key(b@) {
            Err(e) => Err(bad_pem("private key"@, path, e)),
            Ok(None) => Err("tls: no PRIVATE KEY block found in "@ + path),
            Ok(Some(k)) => Ok(k),
        },
    }
}

/// The authorities of a file: at least one, and each usable.
pub open spec fn roots_in(f: FileBytes, path: Seq<char>) -> Outcome<Seq<Anchor>> {
    match f {
        FileBytes::Unopened(e) => Err(unreadable("client CA bundle"@, path, e@)),
        FileBytes::Unread(e) => Err(bad_pem("client CA"@, path, e@)),
        FileBytes::Whole(b) => match pem_certs(b@) {
            Err(e) => Err(bad_pem("client CA"@, path, e)),
            Ok(v) => if v.len() == 0 {
                Err("tls: no CERTIFICATE block found in client CA bundle "@ + path)
            } else if unusable(v) > 0 {
                Err(
                    "tls: "@ + decimal(unusable(v)) + " of "@ + decimal(v.len())
                        + " certificates in "@ + path + " are not valid trust anchors"@,
                )
            } else {
                Ok(trust_in(v))
            },
        },
    }
}

fn unopened(what: &str, path: &str, why: &str) -> (e: Fault)
    ensures
        e.kind == FaultKind::InvalidInput,
        e.message@ == unreadable(what@, path@, why@),
{
    bad_input(
        own("tls: cannot read ").concat(what).concat(" ").concat(path).concat(": ").concat(why),
    )
}

fn no_pem(what: &str, path: &str, why: &str) -> (e: Fault)
    ensures
        e.kind == FaultKind::InvalidInput,
        e.message@ == bad_pem(what@, path@, why@),
{
    bad_input(
        own("tls: bad ").concat(what).concat(" PEM ").concat(path).concat(": ").concat(why),
    )
}

/// The certificates of a file.
pub fn load_certs(file: &FileBytes, path: &str) -> (r: Result<Vec<Vec<u8>>, Fault>)
    ensures
        match r {
            Ok(v) => certs_in(*file, path@) == Ok::<Seq<Seq<u8>>, Seq<char>>(ders(v@)),
            Err(e) => e.kind == FaultKind::InvalidInput && certs_in(*file, path@) == Err::<
                Seq<Seq<u8>>,
                Seq<char>,
            >(e.message@),
        },
{
    match file {
        FileBytes::Unopened(e) => Err(unopened("certificate", path, e.as_str())),
        FileBytes::Unread(e) => Err(no_pem("certificate", path, e.as_str())),
        FileBytes::Whole(b) => match read_certs(b) {
            Err(e) => Err(no_pem("certificate", path, e.as_str())),
            Ok(v) => {
                assert(ders(v@).len() == v@.len());
                if v.len() == 0 {
                    Err(bad_input(own("tls: no CERTIFICATE block found in ").concat(path)))
                } else {
                    Ok(v)
                }
            },
        },
    }
}

/// The private key of a file.
pub fn load_private_key(file: &FileBytes, path: &str) -> (r: Result<PrivateKey, Fault>)
    ensures
        match r {
            Ok(k) => key_in(*file, path@) == Ok::<KeyBytes, Seq<char>>(k@),
            Err(e) => e.kind == FaultKind::InvalidInput && key_in(*file, path@) == Err::<
                KeyBytes,
                Seq<char>,
            >(e.message@),
        },
{
    match file {
        FileBytes::Unopened(e) => Err(unopened("private key", path, e.as_str())),
        FileBytes::Unread(e) => Err(no_pem("private key", path, e.as_str())),
        FileBytes::Whole(b) => match read_key(b) {
            Err(e) => Err(no_pem("private key", path, e.as_str())),
            Ok(None) => Err(bad_input(own("tls: no PRIVATE KEY block found in ").concat(path))),
            Ok(Some(k)) => Ok(k),
        },
    }
}

/// The authorities of a file. A bundle with one unusable certificate is refused: the
/// clients of that authority would be turned away for no visible reason.
pub fn load_root_store(file: &FileBytes, path: &str) -> (r: Result<RootCertStore, Fault>)
    ensures
        match r {
            Ok(s) => roots_in(*file, path@) == Ok::<Seq<Anchor>, Seq<char>>(anchors(s)),
            Err(e) => e.kind == FaultKind::InvalidInput && roots_in(*file, path@) == Err::<
                Seq<Anchor>,
                Seq<char>,
            >(e.message@),
        },
{
    match file {
        FileBytes::Unopened(e) => Err(unopened("client CA bundle", path, e.as_str())),
        FileBytes::Unread(e) => Err(no_pem("client CA", path, e.as_str())),
        FileBytes::Whole(b) => match read_certs(b) {
            Err(e) => Err(no_pem("client CA", path, e.as_str())),
            Ok(v) => {
                assert(ders(v@).len() == v@.len());
                if v.len() == 0 {
                    return Err(
                        bad_input(
                            own("tls: no CERTIFICATE block found in client CA bundle ").concat(
                                path,
                            ),
                        ),
                    );
                }
                let (store, ignored) = root_store(&v);
                if ignored > 0 {
                    let n = decimal_of(ignored as u64);
                    let all = decimal_of(v.len() as u64);
                    return Err(
                        bad_input(
                            own("tls: ").concat(n.as_str()).concat(" of ").concat(
                                all.as_str(),
                            ).concat(" certificates in ").concat(path).concat(
                                " are not valid trust anchors",
                            ),
                        ),
                    );
                }
                Ok(store)
            },
        },
    }
}

/// The refusal of a configuration.
pub open spec fn failure_text(
    f: (Stage, Seq<char>),
    cert: Seq<char>,
    key: Seq<char>,
    ca: Seq<char>,
) -> Seq<char> {
    match f.0 {
        Stage::Versions => "tls: "@ + f.1,
        Stage::Verifier => "tls: bad client CA bundle "@ + ca + ": "@ + f.1,
        Stage::Pair => "tls: certificate "@ + cert + " and key "@ + key
            + " do not form a usable pair: "@ + f.1,
    }
}

/// Why the files make no configuration, if they do not. `ca` is the path of the
/// authorities.
pub open spec fn refusal(
    files: TlsFiles,
    cert: Seq<char>,
    key: Seq<char>,
    ca: Seq<char>,
    auth: ClientAuth,
) -> Option<Seq<char>> {
    match certs_in(files.cert, cert) {
        Err(e) => Some(e),
        Ok(c) => match key_in(files.key, key) {
            Err(e) => Some(e),
            Ok(k) => match auth {
                ClientAuth::Off => match open_failure(c, k) {
                    Some(f) => Some(failure_text(f, cert, key, ca)),
                    None => None,
                },
                _ => match roots_in(files.client_ca, ca) {
                    Err(e) => Some(e),
                    Ok(roots) => match if auth == ClientAuth::Optional {
                        optional_failure(c, k, roots)
                    } else {
                        required_failure(c, k, roots)
                    } {
                        Some(f) => Some(failure_text(f, cert, key, ca)),
                        None => None,
                    },
                },
            },
        },
    }
}

/// How a listener checks clients: as it was set, against the authorities of the file
/// that was named.
pub open spec fn check_of(files: TlsFiles, ca: Seq<char>, auth: ClientAuth) -> Option<
    (bool, Seq<Anchor>),
> {
    match auth {
        ClientAuth::Off => None,
        ClientAuth::Optional => Some((true, roots_in(files.client_ca, ca)->Ok_0)),
        ClientAuth::Required => Some((false, roots_in(files.client_ca, ca)->Ok_0)),
    }
}

/// A configuration presents the certificates of its file, checks clients as it was
/// set, and offers HTTP/1.1 alone.
pub open spec fn is_made_from(
    c: rustls::ServerConfig,
    files: TlsFiles,
    cert: Seq<char>,
    ca: Seq<char>,
    auth: ClientAuth,
) -> bool {
    &&& presented(c) == certs_in(files.cert, cert)->Ok_0
    &&& client_check(c) == check_of(files, ca, auth)
    &&& offered(c) == seq![http11()]
}

fn failure(f: (Stage, String), cert: &str, key: &str, ca: &str) -> (e: Fault)
    ensures
        e.kind == FaultKind::InvalidInput,
        e.message@ == failure_text((f.0, f.1@), cert@, key@, ca@),
{
    let why = f.1;
    bad_input(
        match f.0 {
            Stage::Versions => own("tls: ").concat(why.as_str()),
            Stage::Verifier => own("tls: bad client CA bundle ").concat(ca).concat(": ").concat(
                why.as_str(),
            ),
            Stage::Pair => own("tls: certificate ").concat(cert).concat(" and key ").concat(
                key,
            ).concat(" do not form a usable pair: ").concat(why.as_str()),
        },
    )
}

/// The one protocol that is offered.
pub open spec fn http11() -> Seq<u8> {
    seq![104u8, 116, 116, 112, 47, 49, 46, 49]
}

/// Makes the configuration of a listener from its files: with the `ring` provider,
/// TLS 1.3 and 1.2, the certificates of the file, the check of clients that was set,
/// and HTTP/1.1 as the one protocol that is offered.
pub fn build_server_config(
    cert_path: &str,
    key_path: &str,
    client_ca_path: &str,
    client_auth: ClientAuth,
    files: &TlsFiles,
) -> (r: Result<ServerConfig, Fault>)
    ensures
        match r {
            Ok(c) => refusal(*files, cert_path@, key_path@, client_ca_path@, client_auth) is None
                && is_made_from(c, *files, cert_path@, client_ca_path@, client_auth),
            Err(e) => e.kind == FaultKind::InvalidInput && refusal(
                *files,
                cert_path@,
                key_path@,
                client_ca_path@,
                client_auth,
            ) == Some(e.message@),
        },
{
    let certs = match load_certs(&files.cert, cert_path) {
        Ok(c) => c,
        Err(e) => {
            return Err(e);
        },
    };
    let key = match load_private_key(&files.key, key_path) {
        Ok(k) => k,
        Err(e) => {
            return Err(e);
        },
    };
    let built = if client_auth.needs_ca() {
        let roots = match load_root_store(&files.client_ca, client_ca_path) {
            Ok(s) => s,
            Err(e) => {
                return Err(e);
            },
        };
        if client_auth == ClientAuth::Optional {
            optional_config(certs, key, roots)
        } else {
            required_config(certs, key, roots)
        }
    } else {
        open_config(certs, key)
    };
    match built {
        Err(f) => Err(failure(f, cert_path, key_path, client_ca_path)),
        Ok(c) => {
            let name: Vec<u8> = vec![104u8, 116, 116, 112, 47, 49, 46, 49];
            assert(name@ =~= http11());
            let mut protocols: Vec<Vec<u8>> = Vec::new();
            protocols.push(name);
            assert(ders(protocols@) =~= seq![http11()]);
            Ok(offer(c, protocols))
        },
    }
}

impl Default for TlsArgs {
    fn default() -> (a: TlsArgs)
        ensures
            a@ == (ArgsView {
                cert: None,
                key: None,
                client_ca: None,
                client_auth: ClientAuth::Off,
            }),
    {
        TlsArgs { cert: None, key: None, client_ca: None, client_auth: ClientAuth::Off }
    }
}

impl TlsArgs {
    /// Was any setting given?
    pub fn requested(&self) -> (r: bool)
        ensures
            r == asked_for(self@),
    {
        self.cert.is_some() || self.key.is_some() || self.client_ca.is_some() || self.client_auth
            != ClientAuth::Off
    }

    /// Do the settings go together?
    pub fn check(&self) -> (r: Result<(), Fault>)
        ensures
            match r {
                Ok(()) => discord(self@) is None,
                Err(e) => e.kind == FaultKind::InvalidInput && discord(self@) == Some(e.message@),
            },
    {
        if !self.requested() {
            return Ok(());
        }
        if self.cert.is_some() && self.key.is_none() {
            return Err(bad_input(own("--tls-cert requires --tls-key")));
        }
        if self.cert.is_none() && self.key.is_some() {
            return Err(bad_input(own("--tls-key requires --tls-cert")));
        }
        if self.cert.is_none() {
            return Err(
                bad_input(
                    own("--tls-client-auth/--tls-client-ca require --tls-cert and --tls-key"),
                ),
            );
        }
        if self.client_auth.needs_ca() && self.client_ca.is_none() {
            return Err(
                bad_input(
                    own("--tls-client-auth ").concat(self.client_auth.name()).concat(
                        " requires --tls-client-ca (there is nothing to validate client certificates against without it)",
                    ),
                ),
            );
        }
        if self.client_ca.is_some() && !self.client_auth.needs_ca() {
            return Err(
                bad_input(
                    own(
                        "--tls-client-ca given without --tls-client-auth optional|required (the CA would never be consulted)",
                    ),
                ),
            );
        }
        Ok(())
    }

    /// Makes the configuration of the listener, or none where no setting was given.
    /// `files` are the files that the settings name; of a setting that is not given
    /// nothing is looked at.
    pub fn build(&self, files: &TlsFiles) -> (r: Result<Option<ServerConfig>, Fault>)
        ensures
            match r {
                Ok(None) => !asked_for(self@),
                Ok(Some(c)) => asked_for(self@) && discord(self@) is None && refusal(
                    *files,
                    self@.cert->0,
                    self@.key->0,
                    path_or_empty(self@.client_ca),
                    self.client_auth,
                ) is None && is_made_from(
                    c,
                    *files,
                    self@.cert->0,
                    path_or_empty(self@.client_ca),
                    self.client_auth,
                ),
                Err(e) => e.kind == FaultKind::InvalidInput && asked_for(self@) && match discord(
                    self@,
                ) {
                    Some(m) => e.message@ == m,
                    None => refusal(
                        *files,
                        self@.cert->0,
                        self@.key->0,
                        path_or_empty(self@.client_ca),
                        self.client_auth,
                    ) == Some(e.message@),
                },
            },
    {
        if !self.requested() {
            return Ok(None);
        }
        if let Err(e) = self.check() {
            return Err(e);
        }
        let ca = match &self.client_ca {
            Some(p) => own(p.as_str()),
            None => {
                let none = String::new();
                assert(none@ =~= Seq::empty());
                none
            },
        };
        match (&self.cert, &self.key) {
            (Some(cert), Some(key)) => {
                match build_server_config(
                    cert.as_str(),
                    key.as_str(),
                    ca.as_str(),
                    self.client_auth,
                    files,
                ) {
                    Ok(c) => Ok(Some(c)),
                    Err(e) => Err(e),
                }
            },
            _ => {
                assert(false);
                Ok(None)
            },
        }
    }
}

/// A path, or the empty text.
pub open spec fn path_or_empty(p: Option<Seq<char>>) -> Seq<char> {
    match p {
        Some(t) => t,
        None => Seq::empty(),
    }
}

/// A number below 512 in octal digits, without leading zeros.
pub open spec fn octal(n: int) -> Seq<char> {
    (if n >= 64 {
        decimal((n / 64) as nat)
    } else {
        Seq::empty()
    }) + (if n >= 8 {
        decimal((n / 8 % 8) as nat)
    } else {
        Seq::empty()
    }) + decimal((n % 8) as nat)
}

/// What is said of a key file that others than its owner can reach, by the bits of
/// its mode.
pub open spec fn exposure(path: Seq<char>, mode: u32) -> Option<Seq<char>> {
    if mode % 64 != 0 {
        Some(
            "private key "@ + path + " is mode "@ + octal(mode as int % 512)
                + " — readable beyond its owner; chmod 600 it"@,
        )
    } else {
        None
    }
}

/// The warning for a key file that others than its owner can reach.
pub fn key_warning(path: &str, mode: u32) -> (r: Option<String>)
    ensures
        maybe(r) == exposure(path@, mode),
{
    if mode % 64 == 0 {
        return None;
    }
    let n: u32 = mode % 512;
    let empty = String::new();
    assert(empty@ =~= Seq::empty());
    let none = String::new();
    assert(none@ =~= Seq::empty());
    let a = if n >= 64 {
        decimal_of((n / 64) as u64)
    } else {
        empty
    };
    let b = if n >= 8 {
        decimal_of((n / 8 % 8) as u64)
    } else {
        none
    };
    let c = decimal_of((n % 8) as u64);
    let o = a.concat(b.as_str()).concat(c.as_str());
    Some(
        own("private key ").concat(path).concat(" is mode ").concat(o.as_str()).concat(
            " — readable beyond its owner; chmod 600 it",
        ),
    )
}

} // verus!
