//! Authentication and authorisation.
//!
//! Two layers that answer two questions. Authentication asks who the client is,
//! and refuses with a 401 and a challenge. Authorisation asks whether that client
//! may, and refuses with a 403.

use vstd::arithmetic::div_mod::lemma_fundamental_div_mod_converse;
use vstd::prelude::*;
use vstd::string::StringExecFns;
use vstd::utf8::encode_utf8;

use super::{
    verdict, CtxView, Decision, Middleware, Rejection, RejectionView, ReqCtx, Shared,
};
use crate::http::{header, lookup, Fields, RequestHead, ResponseHead};
use crate::text::{
    cut, first_index, lemma_first_index_is, list_has, maybe, own, pairs, same_fold,
    same_ignoring_case, slice, split_once, texts, trim, trimmed,
};

verus! {

// ---------------------------------------------------------------------------
// Base64
// ---------------------------------------------------------------------------

/// The value of a letter of the base64 alphabet; 64 where `b` is none.
pub open spec fn sextet(b: u8) -> int {
    if 65 <= b <= 90 {
        b - 65
    } else if 97 <= b <= 122 {
        b - 97 + 26
    } else if 48 <= b <= 57 {
        b - 48 + 52
    } else if b == 43 {
        62
    } else if b == 47 {
        63
    } else {
        64
    }
}

fn sextet_of(b: u8) -> (r: u32)
    ensures
        r == sextet(b),
        r <= 64,
{
    if 65 <= b && b <= 90 {
        (b - 65) as u32
    } else if 97 <= b && b <= 122 {
        (b - 97) as u32 + 26
    } else if 48 <= b && b <= 57 {
        (b - 48) as u32 + 52
    } else if b == 43 {
        62
    } else if b == 47 {
        63
    } else {
        64
    }
}

/// The three bytes of four sextets.
pub open spec fn triple(a: int, b: int, c: int, d: int) -> Seq<u8> {
    let n: int = ((a * 64 + b) * 64 + c) * 64 + d;
    seq![(n / 65536) as u8, (n / 256 % 256) as u8, (n % 256) as u8]
}

/// The bytes of one group of four letters; padding is legal only in the last group,
/// and there only at its end.
#[verifier::opaque]
pub open spec fn group(g: Seq<u8>, last: bool) -> Option<Seq<u8>> {
    let (a, b, c, d) = (sextet(g[0]), sextet(g[1]), sextet(g[2]), sextet(g[3]));
    if a == 64 || b == 64 {
        None
    } else if c < 64 && d < 64 {
        Some(triple(a, b, c, d))
    } else if last && c < 64 && g[3] == 61 {
        Some(triple(a, b, c, 0).take(2))
    } else if last && g[2] == 61 && g[3] == 61 {
        Some(triple(a, b, 0, 0).take(1))
    } else {
        None
    }
}

/// The bytes of groups of four letters.
pub open spec fn groups(s: Seq<u8>) -> Option<Seq<u8>>
    decreases s.len(),
{
    if s.len() < 4 {
        Some(Seq::empty())
    } else {
        match group(s.take(4), s.len() == 4) {
            None => None,
            Some(head) => match groups(s.skip(4)) {
                None => None,
                Some(rest) => Some(head + rest),
            },
        }
    }
}

/// The bytes that a base64 text stands for: groups of four letters, at least one.
pub open spec fn decoded(s: Seq<u8>) -> Option<Seq<u8>> {
    if s.len() == 0 || s.len() % 4 != 0 {
        None
    } else {
        groups(s)
    }
}

/// Bytes put before those of an outcome.
pub open spec fn led_by(a: Seq<u8>, r: Option<Seq<u8>>) -> Option<Seq<u8>> {
    match r {
        Some(b) => Some(a + b),
        None => None,
    }
}

fn decode_group(p: u8, q: u8, r: u8, s: u8, last: bool) -> (out: Option<Vec<u8>>)
    ensures
        match out {
            Some(v) => group(seq![p, q, r, s], last) == Some(v@),
            None => group(seq![p, q, r, s], last) is None,
        },
{
    proof {
        reveal(group);
    }
    let ghost g = seq![p, q, r, s];
    assert(g[0] == p && g[1] == q && g[2] == r && g[3] == s);
    let a: u32 = sextet_of(p);
    let b: u32 = sextet_of(q);
    let c: u32 = sextet_of(r);
    let d: u32 = sextet_of(s);
    if a == 64 || b == 64 {
        return None;
    }
    let mut v: Vec<u8> = Vec::new();
    if c < 64 && d < 64 {
        let n: u32 = ((a * 64 + b) * 64 + c) * 64 + d;
        v.push((n / 65536) as u8);
        v.push((n / 256 % 256) as u8);
        v.push((n % 256) as u8);
        assert(v@ =~= triple(a as int, b as int, c as int, d as int));
        Some(v)
    } else if last && c < 64 && s == 61 {
        let n: u32 = ((a * 64 + b) * 64 + c) * 64;
        v.push((n / 65536) as u8);
        v.push((n / 256 % 256) as u8);
        assert(v@ =~= triple(a as int, b as int, c as int, 0).take(2));
        Some(v)
    } else if last && r == 61 && s == 61 {
        let n: u32 = (a * 64 + b) * 4096;
        v.push((n / 65536) as u8);
        assert(v@ =~= triple(a as int, b as int, 0, 0).take(1));
        Some(v)
    } else {
        None
    }
}

/// Decodes standard base64. Any invalid input is refused: leniency in a decoder
/// that guards authentication is how it is bypassed.
pub fn base64_decode(s: &str) -> (r: Option<Vec<u8>>)
    ensures
        match r {
            Some(v) => decoded(encode_utf8(s@)) == Some(v@),
            None => decoded(encode_utf8(s@)) is None,
        },
{
    let b = s.as_bytes();
    let n: usize = b.len();
    if n == 0 || n % 4 != 0 {
        return None;
    }
    let mut out: Vec<u8> = Vec::new();
    let mut i: usize = 0;
    assert(b@.skip(0) =~= b@);
    assert(led_by(out@, groups(b@)) == groups(b@)) by {
        if groups(b@) is Some {
            assert(out@ + groups(b@)->Some_0 =~= groups(b@)->Some_0);
        }
    }
    while i < n
        invariant
            i <= n == b@.len(),
            b@ == encode_utf8(s@),
            n > 0,
            n % 4 == 0,
            i % 4 == 0,
            decoded(b@) == led_by(out@, groups(b@.skip(i as int))),
        decreases n - i,
    {
        let ghost rest = b@.skip(i as int);
        let ghost sofar = out@;
        let ghost tail = groups(rest.skip(4));
        assert(rest.skip(4) =~= b@.skip(i + 4));
        assert(rest.len() >= 4);
        assert(rest.take(4) =~= seq![b@[i as int], b@[i + 1], b@[i + 2], b@[i + 3]]);
        match decode_group(b[i], b[i + 1], b[i + 2], b[i + 3], n - i == 4) {
            None => {
                return None;
            },
            Some(mut bytes) => {
                let ghost head = bytes@;
                out.append(&mut bytes);
                assert(tail is Some ==> sofar + (head + tail->Some_0) =~= out@ + tail->Some_0);
            },
        }
        i = i + 4;
    }
    assert(b@.skip(i as int) =~= Seq::<u8>::empty());
    assert(out@ + Seq::<u8>::empty() =~= out@);
    Some(out)
}

/// The letter of a value below 64.
pub open spec fn letter(v: int) -> u8 {
    if v < 26 {
        (65 + v) as u8
    } else if v < 52 {
        (97 + v - 26) as u8
    } else if v < 62 {
        (48 + v - 52) as u8
    } else if v == 62 {
        43
    } else {
        47
    }
}

/// The standard base64 text of bytes, with padding.
pub open spec fn encoded(x: Seq<u8>) -> Seq<u8>
    decreases x.len(),
{
    if x.len() == 0 {
        Seq::empty()
    } else if x.len() == 1 {
        seq![letter((x[0] / 4) as int), letter(x[0] % 4 * 16), 61u8, 61u8]
    } else if x.len() == 2 {
        seq![
            letter((x[0] / 4) as int),
            letter(x[0] % 4 * 16 + x[1] / 16),
            letter(x[1] % 16 * 4),
            61u8,
        ]
    } else {
        seq![
            letter((x[0] / 4) as int),
            letter(x[0] % 4 * 16 + x[1] / 16),
            letter(x[1] % 16 * 4 + x[2] / 64),
            letter((x[2] % 64) as int),
        ] + encoded(x.skip(3))
    }
}

proof fn lemma_letter(v: int)
    requires
        0 <= v < 64,
    ensures
        sextet(letter(v)) == v,
        letter(v) != 61,
{
}

proof fn lemma_encoded_len(x: Seq<u8>)
    ensures
        encoded(x).len() % 4 == 0,
        x.len() > 0 ==> encoded(x).len() >= 4,
        x.len() <= 3 && x.len() > 0 ==> encoded(x).len() == 4,
        x.len() > 3 ==> encoded(x).len() > 4,
    decreases x.len(),
{
    if x.len() > 3 {
        lemma_encoded_len(x.skip(3));
    } else if x.len() == 3 {
        assert(x.skip(3) =~= Seq::empty());
        assert(encoded(x.skip(3)).len() == 0);
    }
}

proof fn lemma_bytes_of(n: int, x: int, y: int, z: int)
    requires
        0 <= x < 256,
        0 <= y < 256,
        0 <= z < 256,
        n == x * 65536 + y * 256 + z,
    ensures
        n / 65536 == x,
        n / 256 % 256 == y,
        n % 256 == z,
{
    lemma_fundamental_div_mod_converse(n, 65536, x, y * 256 + z);
    lemma_fundamental_div_mod_converse(n, 256, x * 256 + y, z);
    lemma_fundamental_div_mod_converse(x * 256 + y, 256, x, y);
}

proof fn lemma_triple_packs(x: u8, y: u8, z: u8)
    ensures
        triple((x / 4) as int, x % 4 * 16 + y / 16, y % 16 * 4 + z / 64, (z % 64) as int) =~= seq![
            x,
            y,
            z,
        ],
{
    let n: int = (((x / 4) * 64 + (x % 4 * 16 + y / 16)) * 64 + (y % 16 * 4 + z / 64)) * 64 + z
        % 64;
    assert(n == x * 65536 + y * 256 + z);
    lemma_bytes_of(n, x as int, y as int, z as int);
}

proof fn lemma_full_group(x: u8, y: u8, z: u8, last: bool)
    ensures
        group(
            seq![
                letter((x / 4) as int),
                letter(x % 4 * 16 + y / 16),
                letter(y % 16 * 4 + z / 64),
                letter((z % 64) as int),
            ],
            last,
        ) == Some(seq![x, y, z]),
{
    reveal(group);
    lemma_triple_packs(x, y, z);
    lemma_letter((x / 4) as int);
    lemma_letter(x % 4 * 16 + y / 16);
    lemma_letter(y % 16 * 4 + z / 64);
    lemma_letter((z % 64) as int);
}

proof fn lemma_group_of_two(x: u8, y: u8)
    ensures
        group(
            seq![letter((x / 4) as int), letter(x % 4 * 16 + y / 16), letter(y % 16 * 4), 61u8],
            true,
        ) == Some(seq![x, y]),
{
    reveal(group);
    lemma_triple_packs(x, y, 0);
    lemma_letter((x / 4) as int);
    lemma_letter(x % 4 * 16 + y / 16);
    lemma_letter(y % 16 * 4);
    assert(seq![x, y, 0u8].take(2) =~= seq![x, y]);
}

proof fn lemma_group_of_one(x: u8)
    ensures
        group(seq![letter((x / 4) as int), letter(x % 4 * 16), 61u8, 61u8], true) == Some(seq![x]),
{
    reveal(group);
    lemma_triple_packs(x, 0, 0);
    lemma_letter((x / 4) as int);
    lemma_letter(x % 4 * 16);
    assert(seq![x, 0u8, 0u8].take(1) =~= seq![x]);
}

proof fn lemma_one_group(e: Seq<u8>, x: Seq<u8>)
    requires
        e.len() == 4,
        group(e, true) == Some(x),
    ensures
        groups(e) == Some(x),
{
    assert(e.take(4) =~= e);
    assert(e.skip(4) =~= Seq::empty());
    assert(groups(e.skip(4)) == Some(Seq::<u8>::empty()));
    assert(x + Seq::<u8>::empty() =~= x);
}

proof fn lemma_groups_read_back(x: Seq<u8>)
    ensures
        groups(encoded(x)) == Some(x),
    decreases x.len(),
{
    let e = encoded(x);
    if x.len() == 0 {
        assert(x =~= Seq::empty());
    } else if x.len() == 1 {
        lemma_group_of_one(x[0]);
        assert(seq![x[0]] =~= x);
        lemma_one_group(e, x);
    } else if x.len() == 2 {
        lemma_group_of_two(x[0], x[1]);
        assert(seq![x[0], x[1]] =~= x);
        lemma_one_group(e, x);
    } else {
        let y = x.skip(3);
        let last = e.len() == 4;
        lemma_groups_read_back(y);
        lemma_full_group(x[0], x[1], x[2], last);
        let head = seq![
            letter((x[0] / 4) as int),
            letter(x[0] % 4 * 16 + x[1] / 16),
            letter(x[1] % 16 * 4 + x[2] / 64),
            letter((x[2] % 64) as int),
        ];
        assert(e.take(4) =~= head);
        assert(e.skip(4) =~= encoded(y));
        assert(seq![x[0], x[1], x[2]] + y =~= x);
    }
}

/// Decoding the standard base64 text of bytes gives the bytes back.
pub proof fn law_base64_reads_back(x: Seq<u8>)
    requires
        x.len() > 0,
    ensures
        decoded(encoded(x)) == Some(x),
{
    lemma_encoded_len(x);
    lemma_groups_read_back(x);
}

// ---------------------------------------------------------------------------
// Comparison of secrets
// ---------------------------------------------------------------------------

/// Compares two byte strings without leaving at the first difference, so that the
/// running time does not tell where a guess went wrong. The length is no secret.
pub fn ct_eq(a: &[u8], b: &[u8]) -> (r: bool)
    ensures
        r == (a@ == b@),
{
    if a.len() != b.len() {
        return false;
    }
    let mut diff: u8 = 0;
    let mut i: usize = 0;
    while i < a.len()
        invariant
            i <= a@.len() == b@.len(),
            diff == 0 <==> (forall|k: int| 0 <= k < i ==> a@[k] == b@[k]),
        decreases a.len() - i,
    {
        let x: u8 = a[i];
        let y: u8 = b[i];
        let was: u8 = diff;
        diff = was | (x ^ y);
        assert(diff == 0 <==> (was == 0 && x == y)) by (bit_vector)
            requires
                diff == was | (x ^ y),
        ;
        i = i + 1;
    }
    if diff == 0 {
        assert(a@ =~= b@);
    }
    diff == 0
}

// ---------------------------------------------------------------------------
// Authentication
// ---------------------------------------------------------------------------

/// One accepted credential. A bearer token has a label, so that the identity is a
/// name and not the token.
#[derive(Debug)]
pub enum Credential {
    Basic { user: String, pass: String },
    Bearer { token: String, label: String },
}

/// What a credential says.
pub enum CredentialView {
    Basic { user: Seq<char>, pass: Seq<char> },
    Bearer { token: Seq<char>, label: Seq<char> },
}

impl View for Credential {
    type V = CredentialView;

    open spec fn view(&self) -> CredentialView {
        match self {
            Credential::Basic { user, pass } => CredentialView::Basic { user: user@, pass: pass@ },
            Credential::Bearer { token, label } => CredentialView::Bearer {
                token: token@,
                label: label@,
            },
        }
    }
}

/// What credentials say.
pub open spec fn credentials(v: Seq<Credential>) -> Seq<CredentialView> {
    Seq::new(v.len(), |i: int| v[i]@)
}

/// The user of the first basic credential with that user and password.
pub open spec fn basic_identity(
    creds: Seq<CredentialView>,
    name: Seq<u8>,
    secret: Seq<u8>,
) -> Option<Seq<char>>
    decreases creds.len(),
{
    if creds.len() == 0 {
        None
    } else {
        match creds[0] {
            CredentialView::Basic { user, pass } => if encode_utf8(user) == name && encode_utf8(pass)
                == secret {
                Some(user)
            } else {
                basic_identity(creds.drop_first(), name, secret)
            },
            _ => basic_identity(creds.drop_first(), name, secret),
        }
    }
}

/// The label of the first bearer credential with that token.
pub open spec fn bearer_identity(creds: Seq<CredentialView>, given: Seq<char>) -> Option<Seq<char>>
    decreases creds.len(),
{
    if creds.len() == 0 {
        None
    } else {
        match creds[0] {
            CredentialView::Bearer { token, label } => if token == given {
                Some(label)
            } else {
                bearer_identity(creds.drop_first(), given)
            },
            _ => bearer_identity(creds.drop_first(), given),
        }
    }
}

/// The identity that the `Authorization` header proves. A basic credential is split
/// at its first colon, so that a password may hold colons.
pub open spec fn identity_of(creds: Seq<CredentialView>, h: Fields) -> Option<Seq<char>> {
    match lookup(h, "authorization"@) {
        None => None,
        Some(value) => match cut(value, ' ') {
            None => None,
            Some((scheme, rest)) => {
                let given = trimmed(rest);
                if same_fold(scheme, "basic"@) {
                    match decoded(encode_utf8(given)) {
                        None => None,
                        Some(bytes) => {
                            let i: int = first_index(bytes, 58u8);
                            if i < bytes.len() {
                                basic_identity(creds, bytes.take(i), bytes.skip(i + 1))
                            } else {
                                None
                            }
                        },
                    }
                } else if same_fold(scheme, "bearer"@) {
                    bearer_identity(creds, given)
                } else {
                    None
                }
            },
        },
    }
}

/// Checks the `Authorization` header against accepted credentials.
#[derive(Debug)]
pub struct Auth {
    pub creds: Vec<Credential>,
    pub realm: String,
}

/// The one refusal for every failure: telling a wrong user from a wrong password
/// would help a guesser.
pub open spec fn challenge(realm: Seq<char>) -> RejectionView {
    RejectionView {
        status: 401,
        reason: "Unauthorized"@,
        headers: seq![("WWW-Authenticate"@, "Basic realm=\""@ + realm + "\""@)],
        body: "401 Unauthorized\n"@,
    }
}

proof fn lemma_encoding_is_injective(a: Seq<char>, b: Seq<char>)
    ensures
        encode_utf8(a) == encode_utf8(b) <==> a == b,
{
    vstd::utf8::encode_utf8_decode_utf8(a);
    vstd::utf8::encode_utf8_decode_utf8(b);
}

impl Auth {
    fn reject_401(&self) -> (d: Decision)
        ensures
            verdict(d) == Some(challenge(self.realm@)),
    {
        let value = own("Basic realm=\"").concat(self.realm.as_str()).concat("\"");
        let mut headers: Vec<(String, String)> = Vec::new();
        headers.push((own("WWW-Authenticate"), value));
        assert(pairs(headers@) =~= challenge(self.realm@).headers);
        Decision::Reject(
            Rejection {
                status: 401,
                reason: "Unauthorized",
                headers,
                body: own("401 Unauthorized\n"),
            },
        )
    }

    fn find_basic(&self, name: &[u8], secret: &[u8]) -> (r: Option<String>)
        ensures
            maybe(r) == basic_identity(credentials(self.creds@), name@, secret@),
    {
        let mut i: usize = 0;
        let ghost all = credentials(self.creds@);
        assert(all.skip(0) =~= all);
        while i < self.creds.len()
            invariant
                i <= self.creds@.len(),
                all == credentials(self.creds@),
                basic_identity(all, name@, secret@) == basic_identity(
                    all.skip(i as int),
                    name@,
                    secret@,
                ),
            decreases self.creds.len() - i,
        {
            assert(all.skip(i as int).drop_first() =~= all.skip(i + 1));
            assert(all.skip(i as int)[0] == self.creds@[i as int]@);
            if let Credential::Basic { user, pass } = &self.creds[i] {
                let user_ok = ct_eq(user.as_str().as_bytes(), name);
                let pass_ok = ct_eq(pass.as_str().as_bytes(), secret);
                if user_ok && pass_ok {
                    return Some(user.clone());
                }
            }
            i = i + 1;
        }
        None
    }

    fn find_bearer(&self, given: &str) -> (r: Option<String>)
        ensures
            maybe(r) == bearer_identity(credentials(self.creds@), given@),
    {
        let mut i: usize = 0;
        let ghost all = credentials(self.creds@);
        assert(all.skip(0) =~= all);
        while i < self.creds.len()
            invariant
                i <= self.creds@.len(),
                all == credentials(self.creds@),
                bearer_identity(all, given@) == bearer_identity(all.skip(i as int), given@),
            decreases self.creds.len() - i,
        {
            assert(all.skip(i as int).drop_first() =~= all.skip(i + 1));
            assert(all.skip(i as int)[0] == self.creds@[i as int]@);
            if let Credential::Bearer { token, label } = &self.creds[i] {
                proof {
                    lemma_encoding_is_injective(token@, given@);
                }
                if ct_eq(token.as_str().as_bytes(), given.as_bytes()) {
                    return Some(label.clone());
                }
            }
            i = i + 1;
        }
        None
    }

    /// The identity that a request's `Authorization` header proves.
    pub fn identify(&self, headers: &[(String, String)]) -> (r: Option<String>)
        ensures
            maybe(r) == identity_of(credentials(self.creds@), pairs(headers@)),
    {
        let value = match header(headers, "authorization") {
            Some(v) => v,
            None => {
                return None;
            },
        };
        let (scheme, given) = match split_once(value, ' ') {
            Some((s, c)) => (s, trim(c)),
            None => {
                return None;
            },
        };
        if same_ignoring_case(scheme, "basic") {
            let bytes = match base64_decode(given) {
                Some(b) => b,
                None => {
                    return None;
                },
            };
            let n: usize = bytes.len();
            let mut i: usize = 0;
            while i < n && bytes[i] != 58
                invariant
                    i <= n == bytes@.len(),
                    forall|k: int| 0 <= k < i ==> bytes@[k] != 58,
                decreases n - i,
            {
                i = i + 1;
            }
            proof {
                lemma_first_index_is(bytes@, 58u8, i as int);
            }
            if i >= n {
                return None;
            }
            let name = vstd::slice::slice_subrange(bytes.as_slice(), 0, i);
            let secret = vstd::slice::slice_subrange(bytes.as_slice(), i + 1, n);
            assert(name@ =~= bytes@.take(i as int));
            assert(secret@ =~= bytes@.skip(i + 1));
            self.find_basic(name, secret)
        } else if same_ignoring_case(scheme, "bearer") {
            self.find_bearer(given)
        } else {
            None
        }
    }
}

impl Middleware for Auth {
    open spec fn label(&self) -> Seq<char> {
        "auth"@
    }

    /// A proved identity is recorded; every other request gets the same challenge.
    open spec fn inbound(
        was: Auth,
        req: RequestHead,
        ctx: ReqCtx,
        shared: Shared,
        now: Auth,
        req_now: RequestHead,
        ctx_now: ReqCtx,
        shared_now: Shared,
        d: Decision,
    ) -> bool {
        &&& now == was
        &&& req_now == req
        &&& shared_now == shared
        &&& match identity_of(credentials(was.creds@), req@.headers) {
            Some(id) => verdict(d) is None && ctx_now@ == (CtxView {
                identity: Some(id),
                ..ctx@
            }),
            None => verdict(d) == Some(challenge(was.realm@)) && ctx_now == ctx,
        }
    }

    open spec fn outbound(&self, ctx: ReqCtx, resp: ResponseHead, resp_now: ResponseHead) -> bool {
        resp_now == resp
    }

    fn name(&self) -> (r: &'static str) {
        "auth"
    }

    fn on_request(
        &mut self,
        req: &mut RequestHead,
        ctx: &mut ReqCtx,
        shared: &mut Shared,
    ) -> (d: Decision) {
        match self.identify(req.headers.as_slice()) {
            Some(id) => {
                ctx.identity = Some(id);
                Decision::Continue
            },
            None => self.reject_401(),
        }
    }

    fn on_response(&self, ctx: &ReqCtx, resp: &mut ResponseHead) {
    }
}

/// Whatever is wrong with two requests' credentials, they are refused alike.
pub proof fn law_refusals_do_not_tell_why(
    layer: Auth,
    req: (RequestHead, RequestHead),
    ctx: (ReqCtx, ReqCtx),
    shared: (Shared, Shared),
    after: (Auth, Auth),
    req_now: (RequestHead, RequestHead),
    ctx_now: (ReqCtx, ReqCtx),
    shared_now: (Shared, Shared),
    d: (Decision, Decision),
)
    requires
        Auth::inbound(
            layer,
            req.0,
            ctx.0,
            shared.0,
            after.0,
            req_now.0,
            ctx_now.0,
            shared_now.0,
            d.0,
        ),
        Auth::inbound(
            layer,
            req.1,
            ctx.1,
            shared.1,
            after.1,
            req_now.1,
            ctx_now.1,
            shared_now.1,
            d.1,
        ),
        verdict(d.0) is Some,
        verdict(d.1) is Some,
    ensures
        verdict(d.0) == verdict(d.1),
{
}

// ---------------------------------------------------------------------------
// Authorisation
// ---------------------------------------------------------------------------

/// Checks the identity that authentication set against a list.
#[derive(Debug)]
pub struct Authz {
    pub allowed: Vec<String>,
}

/// The refusal of an identity that may not.
pub open spec fn not_allowed() -> RejectionView {
    RejectionView {
        status: 403,
        reason: "Forbidden"@,
        headers: Seq::empty(),
        body: "403 Forbidden\n"@,
    }
}

/// The identity is on the list. Without an identity nobody is.
pub open spec fn is_allowed(allowed: Seq<Seq<char>>, identity: Option<Seq<char>>) -> bool {
    identity matches Some(id) && allowed.contains(id)
}

/// The 403 that names no cause.
pub fn forbidden() -> (r: Rejection)
    ensures
        r@ == not_allowed(),
{
    let r = Rejection {
        status: 403,
        reason: "Forbidden",
        headers: Vec::new(),
        body: own("403 Forbidden\n"),
    };
    assert(r@.headers =~= Seq::empty());
    r
}

impl Middleware for Authz {
    open spec fn label(&self) -> Seq<char> {
        "authz"@
    }

    /// Nothing changes; the request goes on where its identity is on the list.
    open spec fn inbound(
        was: Authz,
        req: RequestHead,
        ctx: ReqCtx,
        shared: Shared,
        now: Authz,
        req_now: RequestHead,
        ctx_now: ReqCtx,
        shared_now: Shared,
        d: Decision,
    ) -> bool {
        &&& now == was
        &&& req_now == req
        &&& ctx_now == ctx
        &&& shared_now == shared
        &&& verdict(d) == if is_allowed(texts(was.allowed@), ctx@.identity) {
            None
        } else {
            Some(not_allowed())
        }
    }

    open spec fn outbound(&self, ctx: ReqCtx, resp: ResponseHead, resp_now: ResponseHead) -> bool {
        resp_now == resp
    }

    fn name(&self) -> (r: &'static str) {
        "authz"
    }

    fn on_request(
        &mut self,
        req: &mut RequestHead,
        ctx: &mut ReqCtx,
        shared: &mut Shared,
    ) -> (d: Decision) {
        let ok = match &ctx.identity {
            Some(id) => list_has(&self.allowed, id.as_str()),
            None => false,
        };
        if ok {
            Decision::Continue
        } else {
            Decision::Reject(forbidden())
        }
    }

    fn on_response(&self, ctx: &ReqCtx, resp: &mut ResponseHead) {
    }
}

} // verus!
