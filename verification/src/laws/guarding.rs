//! Who gets in: limits, address blocks, credentials and rates.

use vstd::arithmetic::power2::pow2;
use vstd::prelude::*;
use vstd::utf8::encode_utf8;

use super::{
    absent, first_named, law_a_lookup_gives_the_first_field, law_a_lookup_of_nothing_gives_nothing,
    lemma_nothing_to_trim,
};
use crate::http::Fields;
use crate::ip::IpAddr;
use crate::middleware::auth::{
    basic_identity, bearer_identity, challenge, decoded, encoded, identity_of, is_allowed,
    law_base64_reads_back, not_allowed, CredentialView,
};
use crate::middleware::ratelimit::{too_many, IDLE_EVICT_NANOS, SHARD_CAP};
use crate::security::{
    admitted, block_of, holds, law_a_block_is_its_first_bits, lets_in, plain_address, released,
    size_of_text, size_parts, Cidr, LimiterView, Refusal, DEFAULT_MAX_BODY, DEFAULT_MAX_CONNS,
    DEFAULT_MAX_CONNS_PER_IP, DEFAULT_MAX_HEADERS,
};
use crate::text::{
    cut, decimal, first_index, has_char, is_digit, lemma_decimal, lemma_decimal_reads_back,
    lemma_first_index, lemma_first_index_is, lower, lower_char, same_fold, trimmed, without_suffix,
};

verus! {

// ---------------------------------------------------------------------------
// Connections
// ---------------------------------------------------------------------------

/// A connection is let in exactly where fewer are open than the limit for all and, from
/// its address, than the limit for one; a full proxy says so before a busy address. An
/// open connection counts for its own address alone.
pub proof fn law_connections_are_limited(l: LimiterView, ip: IpAddr, other: IpAddr)
    ensures
        admitted(l, ip).1 is Ok <==> l.open.len() < l.max_total && l.open.count(ip) < l.max_per_ip,
        l.open.len() >= l.max_total ==> admitted(l, ip).1 == Err::<(), Refusal>(
            Refusal::GlobalLimit,
        ),
        l.open.len() < l.max_total && l.open.count(ip) >= l.max_per_ip ==> admitted(l, ip).1
            == Err::<(), Refusal>(Refusal::PerIpLimit),
        admitted(l, ip).1 is Ok ==> admitted(l, ip).0.open.len() == l.open.len() + 1 && admitted(
            l,
            ip,
        ).0.open.count(ip) == l.open.count(ip) + 1,
        other != ip ==> admitted(l, ip).0.open.count(other) == l.open.count(other),
        l.open.count(ip) > 0 ==> released(l, ip).open.count(ip) == l.open.count(ip) - 1 && released(
            l,
            ip,
        ).open.len() == l.open.len() - 1,
        other != ip ==> released(l, ip).open.count(other) == l.open.count(other),
        admitted(l, ip).0.max_total == l.max_total && admitted(l, ip).0.max_per_ip == l.max_per_ip,
{
    broadcast use vstd::multiset::group_multiset_axioms;

}

// ---------------------------------------------------------------------------
// Address blocks
// ---------------------------------------------------------------------------

/// The number of an address.
pub open spec fn value_of(ip: IpAddr) -> nat {
    match ip {
        IpAddr::V4(a) => a as nat,
        IpAddr::V6(a) => a as nat,
    }
}

/// The bits of an address.
pub open spec fn bits_of(ip: IpAddr) -> nat {
    match ip {
        IpAddr::V4(_) => 32,
        IpAddr::V6(_) => 128,
    }
}

/// `address/n` is the block of the addresses that share its first `n` bits, and no
/// other; a block longer than the address is refused.
pub proof fn law_a_block_shares_its_first_bits(
    text: Seq<char>,
    addr: IpAddr,
    n: u8,
    ip: IpAddr,
)
    requires
        !has_char(text, '/'),
    ensures
        ({
            let s = text + seq!['/'] + decimal(n as nat);
            let b = block_of(s, Some(addr));
            &&& b is Ok <==> n <= bits_of(addr)
            &&& n <= bits_of(addr) ==> (holds(b->Ok_0, ip) <==> (addr is V4) == (ip is V4)
                && value_of(ip) / pow2((bits_of(addr) - n) as nat) == value_of(addr) / pow2(
                (bits_of(addr) - n) as nat,
            ))
            &&& block_of(s, None) is Err
        }),
{
    let d = decimal(n as nat);
    let s = text + seq!['/'] + d;
    lemma_first_index(text, '/');
    assert forall|k: int| 0 <= k < text.len() implies s[k] != '/' by {
        assert(s[k] == text[k]);
    }
    lemma_first_index_is(s, '/', text.len() as int);
    assert(s.take(text.len() as int) =~= text);
    assert(s.skip(text.len() as int + 1) =~= d);
    lemma_decimal(n as nat);
    lemma_decimal_reads_back(n as nat, 255);
    assert(is_digit(d[0]) && is_digit(d[d.len() - 1]));
    lemma_nothing_to_trim(d);
    if n <= bits_of(addr) {
        law_a_block_is_its_first_bits(addr, n, ip);
    }
}

/// An address without a length is a block of its own.
pub proof fn law_a_bare_address_is_a_block(text: Seq<char>, addr: IpAddr, ip: IpAddr)
    requires
        !has_char(text, '/'),
    ensures
        block_of(text, Some(addr)) is Ok,
        holds(block_of(text, Some(addr))->Ok_0, ip) <==> ip == addr,
        block_of(text, None) is Err,
{
    lemma_first_index(text, '/');
    law_a_block_is_its_first_bits(addr, bits_of(addr) as u8, ip);
    vstd::arithmetic::power2::lemma2_to64();
    assert(pow2(0) == 1);
}

/// A denied address stays out, whatever is allowed; where anything is allowed, the rest
/// stays out; and where nothing is named, everybody gets in.
pub proof fn law_denied_addresses_stay_out(allow: Seq<Cidr>, deny: Seq<Cidr>, ip: IpAddr, i: int)
    ensures
        0 <= i < deny.len() && holds(deny[i], ip) ==> !lets_in(allow, deny, ip),
        allow.len() > 0 && (forall|k: int| 0 <= k < allow.len() ==> !holds(#[trigger] allow[k], ip))
            ==> !lets_in(allow, deny, ip),
        0 <= i < allow.len() && holds(allow[i], ip) && (forall|k: int|
            0 <= k < deny.len() ==> !holds(#[trigger] deny[k], ip)) ==> lets_in(allow, deny, ip),
        allow.len() == 0 && (forall|k: int| 0 <= k < deny.len() ==> !holds(#[trigger] deny[k], ip))
            ==> lets_in(allow, deny, ip),
{
}

/// An IPv4 address that comes as an IPv6 one, `::ffff:a.b.c.d`, is the IPv4 address;
/// every other address is itself.
pub proof fn law_mapped_addresses_are_plain(a: u32, ip: IpAddr)
    ensures
        plain_address(IpAddr::V6((0xffff_0000_0000 + a) as u128)) == IpAddr::V4(a),
        plain_address(IpAddr::V4(a)) == IpAddr::V4(a),
        ip matches IpAddr::V6(x) && (x < 0xffff_0000_0000 || x > 0xffff_ffff_ffff) ==> plain_address(
            ip,
        ) == ip,
{
}

// ---------------------------------------------------------------------------
// Sizes
// ---------------------------------------------------------------------------

/// A suffix of a size: its factor, and the letter in lower case, or none.
pub open spec fn factor(c: char) -> int {
    if c == 'k' || c == 'K' {
        1024
    } else if c == 'm' || c == 'M' {
        1_048_576
    } else {
        1_073_741_824
    }
}

proof fn lemma_digits_stay(d: Seq<char>)
    requires
        d.len() > 0,
        forall|k: int| 0 <= k < d.len() ==> is_digit(#[trigger] d[k]),
    ensures
        lower(d) == d,
        trimmed(d) == d,
{
    assert(is_digit(d[0]) && is_digit(d[d.len() - 1]));
    lemma_nothing_to_trim(d);
    assert forall|k: int| 0 <= k < d.len() implies lower(d)[k] == d[k] by {
        assert(is_digit(d[k]));
    }
    assert(lower(d) =~= d);
}

/// A size is a number of bytes, or of KiB, MiB or GiB behind `k`, `m` and `g`, in any
/// case, also with a `b`.
pub proof fn law_sizes_have_their_unit(n: u64, c: char, b: char)
    requires
        c == 'k' || c == 'K' || c == 'm' || c == 'M' || c == 'g' || c == 'G',
        b == 'b' || b == 'B',
    ensures
        size_of_text(decimal(n as nat)) == Ok::<u64, Seq<char>>(n),
        ({
            let plain = size_of_text(decimal(n as nat) + seq![c]);
            let long = size_of_text(decimal(n as nat) + seq![c, b]);
            if n * factor(c) <= u64::MAX {
                plain == Ok::<u64, Seq<char>>((n * factor(c)) as u64) && long == plain
            } else {
                plain is Err && long is Err
            }
        }),
{
    let d = decimal(n as nat);
    lemma_decimal(n as nat);
    lemma_decimal_reads_back(n as nat, u64::MAX as int);
    lemma_digits_stay(d);
    reveal_strlit("b");
    reveal_strlit("k");
    reveal_strlit("m");
    reveal_strlit("g");
    let bs = "b"@;
    assert(is_digit(d[d.len() - 1]));
    lemma_no_suffix(d, "b"@);
    lemma_no_suffix(d, "k"@);
    lemma_no_suffix(d, "m"@);
    lemma_no_suffix(d, "g"@);
    assert(size_parts(d) == (d, 1int));
    assert(lower(trimmed(d)) == d);
    assert(n as int * 1 == n);
    let s = d + seq![c];
    let t = d + seq![c, b];
    assert(is_digit(d[0]));
    assert(s[0] == d[0] && t[0] == d[0]);
    assert(s.last() == c && t.last() == b);
    lemma_nothing_to_trim(s);
    lemma_nothing_to_trim(t);
    let lc = lower_char(c);
    let ls = lower(s);
    let lt = lower(t);
    assert forall|k: int| 0 <= k < d.len() implies ls[k] == d[k] && lt[k] == d[k] by {
        assert(is_digit(d[k]));
        assert(s[k] == d[k] && t[k] == d[k]);
    }
    assert(ls =~= d + seq![lc]);
    assert(lt =~= ls + seq!['b']);
    lemma_suffix_of(ls, seq!['b']);
    assert("b"@ =~= seq!['b']);
    assert("k"@ =~= seq!['k']);
    assert("m"@ =~= seq!['m']);
    assert("g"@ =~= seq!['g']);
    lemma_suffix_of(d, seq![lc]);
    lemma_other_suffix(ls, lc, 'b');
    lemma_other_suffix(ls, lc, 'k');
    lemma_other_suffix(ls, lc, 'm');
    lemma_other_suffix(ls, lc, 'g');
    assert(size_parts(ls) == (d, factor(c)));
    assert(size_parts(lt) == (d, factor(c)));
}

proof fn lemma_suffix_of(a: Seq<char>, b: Seq<char>)
    ensures
        without_suffix(a + b, b) == Some(a),
{
    assert((a + b).skip(a.len() as int) =~= b);
    assert((a + b).take(a.len() as int) =~= a);
}

proof fn lemma_no_suffix(d: Seq<char>, p: Seq<char>)
    requires
        d.len() > 0,
        is_digit(d.last()),
        p.len() == 1,
        !is_digit(p[0]),
    ensures
        without_suffix(d, p) is None,
{
    assert(d.skip(d.len() - 1)[0] == d.last());
}

proof fn lemma_other_suffix(s: Seq<char>, last: char, c: char)
    requires
        s.len() > 0,
        s.last() == last,
    ensures
        last != c ==> without_suffix(s, seq![c]) is None,
{
    assert(s.skip(s.len() - 1)[0] == s.last());
}

// ---------------------------------------------------------------------------
// Credentials
// ---------------------------------------------------------------------------

proof fn lemma_basic_found(creds: Seq<CredentialView>, user: Seq<char>, pass: Seq<char>, i: int)
    requires
        0 <= i < creds.len(),
        creds[i] == (CredentialView::Basic { user, pass }),
    ensures
        basic_identity(creds, encode_utf8(user), encode_utf8(pass)) == Some(user),
    decreases creds.len(),
{
    vstd::utf8::encode_utf8_decode_utf8(user);
    if i > 0 {
        let t = creds.drop_first();
        assert(t[i - 1] == creds[i]);
        lemma_basic_found(t, user, pass, i - 1);
        if let CredentialView::Basic { user: u, pass: p } = creds[0] {
            vstd::utf8::encode_utf8_decode_utf8(u);
        }
    }
}

proof fn lemma_basic_known(creds: Seq<CredentialView>, name: Seq<u8>, secret: Seq<u8>)
    ensures
        basic_identity(creds, name, secret) matches Some(id) ==> exists|i: int|
            0 <= i < creds.len() && (#[trigger] creds[i] matches CredentialView::Basic {
                user,
                pass,
            } && user == id && encode_utf8(user) == name && encode_utf8(pass) == secret),
    decreases creds.len(),
{
    if creds.len() > 0 {
        let t = creds.drop_first();
        lemma_basic_known(t, name, secret);
        if let Some(id) = basic_identity(t, name, secret) {
            let j = choose|j: int|
                0 <= j < t.len() && (#[trigger] t[j] matches CredentialView::Basic { user, pass }
                    && user == id && encode_utf8(user) == name && encode_utf8(pass) == secret);
            assert(creds[j + 1] == t[j]);
        }
    }
}

proof fn lemma_bearer_known(creds: Seq<CredentialView>, given: Seq<char>)
    ensures
        bearer_identity(creds, given) matches Some(id) ==> exists|i: int|
            0 <= i < creds.len() && (#[trigger] creds[i] matches CredentialView::Bearer {
                token,
                label,
            } && label == id && token == given),
        bearer_identity(creds, given) is None ==> forall|i: int|
            0 <= i < creds.len() ==> !(#[trigger] creds[i] matches CredentialView::Bearer {
                token,
                ..
            } && token == given),
    decreases creds.len(),
{
    if creds.len() > 0 {
        let t = creds.drop_first();
        lemma_bearer_known(t, given);
        assert forall|i: int| 0 < i < creds.len() implies creds[i] == t[i - 1] by {}
        if let Some(id) = bearer_identity(t, given) {
            let j = choose|j: int|
                0 <= j < t.len() && (#[trigger] t[j] matches CredentialView::Bearer {
                    token,
                    label,
                } && label == id && token == given);
            assert(creds[j + 1] == t[j]);
        }
    }
}

/// The value of an `Authorization` header.
pub open spec fn authorization(h: Fields, i: int, scheme: Seq<char>, given: Seq<char>) -> bool {
    &&& first_named(h, "authorization"@, i)
    &&& h[i].1 == scheme + seq![' '] + given
    &&& trimmed(given) == given
}

proof fn lemma_authorization(h: Fields, i: int, scheme: Seq<char>, given: Seq<char>)
    requires
        authorization(h, i, scheme, given),
        !has_char(scheme, ' '),
    ensures
        crate::http::lookup(h, "authorization"@) == Some(h[i].1),
        cut(h[i].1, ' ') == Some((scheme, given)),
{
    law_a_lookup_gives_the_first_field(h, "authorization"@, i);
    let s = h[i].1;
    lemma_first_index(scheme, ' ');
    assert forall|k: int| 0 <= k < scheme.len() implies s[k] != ' ' by {
        assert(s[k] == scheme[k]);
    }
    lemma_first_index_is(s, ' ', scheme.len() as int);
    assert(s.take(scheme.len() as int) =~= scheme);
    assert(s.skip(scheme.len() as int + 1) =~= given);
}

/// A user who sends an accepted name and password, in base64 with a colon between them,
/// is that user.
pub proof fn law_accepted_users_get_in(
    creds: Seq<CredentialView>,
    h: Fields,
    i: int,
    scheme: Seq<char>,
    given: Seq<char>,
    user: Seq<char>,
    pass: Seq<char>,
    k: int,
)
    requires
        0 <= k < creds.len(),
        creds[k] == (CredentialView::Basic { user, pass }),
        authorization(h, i, scheme, given),
        same_fold(scheme, "Basic"@),
        !has_char(scheme, ' '),
        forall|j: int| 0 <= j < encode_utf8(user).len() ==> encode_utf8(user)[j] != 58,
        encode_utf8(given) == encoded(encode_utf8(user) + seq![58u8] + encode_utf8(pass)),
    ensures
        identity_of(creds, h) == Some(user),
{
    lemma_authorization(h, i, scheme, given);
    reveal_strlit("Basic");
    reveal_strlit("basic");
    assert(lower("Basic"@) =~= lower("basic"@));
    let name = encode_utf8(user);
    let secret = encode_utf8(pass);
    let bytes = name + seq![58u8] + secret;
    law_base64_reads_back(bytes);
    assert forall|j: int| 0 <= j < name.len() implies bytes[j] != 58 by {
        assert(bytes[j] == name[j]);
    }
    assert(bytes[name.len() as int] == 58);
    lemma_first_index_is(bytes, 58u8, name.len() as int);
    assert(bytes.take(name.len() as int) =~= name);
    assert(bytes.skip(name.len() as int + 1) =~= secret);
    lemma_basic_found(creds, user, pass, k);
}

/// A bearer of an accepted token is known by its label.
pub proof fn law_accepted_tokens_get_in(
    creds: Seq<CredentialView>,
    h: Fields,
    i: int,
    scheme: Seq<char>,
    token: Seq<char>,
)
    requires
        authorization(h, i, scheme, token),
        same_fold(scheme, "Bearer"@),
        !has_char(scheme, ' '),
    ensures
        (exists|k: int|
            0 <= k < creds.len() && (#[trigger] creds[k] matches CredentialView::Bearer {
                token: t,
                ..
            } && t == token)) <==> identity_of(creds, h) is Some,
        identity_of(creds, h) matches Some(id) ==> exists|k: int|
            0 <= k < creds.len() && (#[trigger] creds[k] matches CredentialView::Bearer {
                token: t,
                label,
            } && t == token && label == id),
{
    lemma_authorization(h, i, scheme, token);
    reveal_strlit("Bearer");
    reveal_strlit("bearer");
    reveal_strlit("basic");
    assert(lower("Bearer"@) =~= lower("bearer"@));
    assert(lower("bearer"@).len() == 6 && lower("basic"@).len() == 5);
    lemma_bearer_known(creds, token);
}

/// Nobody gets in without an `Authorization` header, with one of an unknown scheme, or
/// by a name and password that are not accepted together.
pub proof fn law_nobody_else_gets_in(
    creds: Seq<CredentialView>,
    h: Fields,
    i: int,
    scheme: Seq<char>,
    given: Seq<char>,
)
    ensures
        absent(h, "authorization"@) ==> identity_of(creds, h) is None,
        authorization(h, i, scheme, given) && !has_char(scheme, ' ') && !same_fold(scheme, "Basic"@)
            && !same_fold(scheme, "Bearer"@) ==> identity_of(creds, h) is None,
        authorization(h, i, scheme, given) && !has_char(scheme, ' ') && same_fold(scheme, "Basic"@)
            ==> (identity_of(creds, h) matches Some(id) ==> exists|k: int|
            0 <= k < creds.len() && (#[trigger] creds[k] matches CredentialView::Basic {
                user,
                pass,
            } && user == id && decoded(encode_utf8(given)) == Some(
                encode_utf8(user) + seq![58u8] + encode_utf8(pass),
            ))),
{
    reveal_strlit("Basic");
    reveal_strlit("basic");
    reveal_strlit("Bearer");
    reveal_strlit("bearer");
    assert(lower("Basic"@) =~= lower("basic"@));
    assert(lower("Bearer"@) =~= lower("bearer"@));
    if absent(h, "authorization"@) {
        law_a_lookup_of_nothing_gives_nothing(h, "authorization"@);
    }
    if authorization(h, i, scheme, given) && !has_char(scheme, ' ') {
        lemma_authorization(h, i, scheme, given);
        if same_fold(scheme, "Basic"@) {
            if let Some(id) = identity_of(creds, h) {
                let bytes = decoded(encode_utf8(given))->0;
                let at: int = first_index(bytes, 58u8);
                lemma_first_index(bytes, 58u8);
                lemma_basic_known(creds, bytes.take(at), bytes.skip(at + 1));
                assert(bytes =~= bytes.take(at) + seq![58u8] + bytes.skip(at + 1));
            }
        }
    }
}

/// Who is not known gets a 401 with a challenge for the realm; who is known but not on
/// the list gets a 403; and who is on it passes.
pub proof fn law_refusals_of_credentials(realm: Seq<char>, allowed: Seq<Seq<char>>, id: Seq<char>)
    ensures
        challenge(realm).status == 401,
        challenge(realm).headers.len() == 1,
        challenge(realm).headers[0].0 == "WWW-Authenticate"@,
        challenge(realm).headers[0].1 == "Basic realm=\""@ + realm + "\""@,
        not_allowed().status == 403,
        !is_allowed(allowed, None),
        is_allowed(allowed, Some(id)) <==> exists|i: int| 0 <= i < allowed.len() && allowed[i] == id,
{
}

// ---------------------------------------------------------------------------
// Rates and limits
// ---------------------------------------------------------------------------

/// A client without tokens gets a 429 that says in how many seconds to come again.
pub proof fn law_too_many_requests_are_told_when(secs: u64)
    ensures
        too_many(secs).status == 429,
        too_many(secs).headers == seq![("Retry-After"@, decimal(secs as nat))],
{
}

/// The limits of the table: 4096 buckets in each part, and a minute of idleness; and of
/// a request, where nothing is set: 10 MiB of body and 100 fields; and 10000
/// connections, 64 from one address.
pub proof fn law_the_limits_of_requests()
    ensures
        SHARD_CAP == 4096,
        IDLE_EVICT_NANOS == 60 * 1_000_000_000,
        DEFAULT_MAX_BODY == 10 * 1024 * 1024,
        DEFAULT_MAX_HEADERS == 100,
        DEFAULT_MAX_CONNS == 10_000,
        DEFAULT_MAX_CONNS_PER_IP == 64,
{
}

} // verus!
