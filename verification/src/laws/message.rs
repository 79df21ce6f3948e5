//! Heads and the framing of bodies.

use vstd::prelude::*;

use super::{
    absent, first_named, law_a_lookup_gives_the_first_field, law_a_lookup_of_nothing_gives_nothing,
};
use crate::http::{
    field, host_name, keep_alive, request_framing, response_framing, status_line, BodyFraming,
    Fields, Version,
};
use crate::text::{
    all_digits, decimal, digit_value, has_char, is_digit, is_space, lemma_decimal,
    lemma_decimal_reads_back, lemma_first_index, lemma_first_index_is, same_fold, trimmed,
    trimmed_end, trimmed_start,
};

verus! {

/// A response to HEAD, one with a status from 100 to 199, a 204 and a 304 have no body,
/// whatever their headers say: the proxy never waits for one.
pub proof fn law_some_responses_have_no_body(method: Seq<char>, status: u16, h: Fields)
    requires
        same_fold(method, "HEAD"@) || 100 <= status <= 199 || status == 204 || status == 304,
    ensures
        response_framing(method, status, h) == Ok::<BodyFraming, Seq<char>>(BodyFraming::Empty),
{
}

/// Every other response without a length and a transfer coding runs until the server
/// closes.
pub proof fn law_other_responses_run_until_the_end(method: Seq<char>, status: u16, h: Fields)
    requires
        !same_fold(method, "HEAD"@),
        status < 100 || status > 199,
        status != 204,
        status != 304,
        absent(h, "transfer-encoding"@),
        absent(h, "content-length"@),
    ensures
        response_framing(method, status, h) == Ok::<BodyFraming, Seq<char>>(
            BodyFraming::UntilClose,
        ),
{
    law_a_lookup_of_nothing_gives_nothing(h, "transfer-encoding"@);
    law_a_lookup_of_nothing_gives_nothing(h, "content-length"@);
}

/// A request without a length and a transfer coding has no body.
pub proof fn law_a_request_without_a_framing_has_no_body(h: Fields)
    requires
        absent(h, "transfer-encoding"@),
        absent(h, "content-length"@),
    ensures
        request_framing(h) == Ok::<BodyFraming, Seq<char>>(BodyFraming::Empty),
{
    law_a_lookup_of_nothing_gives_nothing(h, "transfer-encoding"@);
    law_a_lookup_of_nothing_gives_nothing(h, "content-length"@);
}

/// The body of a head of so many bytes.
pub open spec fn body_of_length(n: u64) -> BodyFraming {
    if n == 0 {
        BodyFraming::Empty
    } else {
        BodyFraming::Length(n)
    }
}

/// A body is as long as its `Content-Length` says, in a request and in a response that
/// may have one.
pub proof fn law_a_length_is_believed(method: Seq<char>, status: u16, h: Fields, i: int, n: u64)
    requires
        absent(h, "transfer-encoding"@),
        first_named(h, "content-length"@, i),
        h[i].1 == decimal(n as nat),
    ensures
        request_framing(h) == Ok::<BodyFraming, Seq<char>>(body_of_length(n)),
        !same_fold(method, "HEAD"@) && (status < 100 || status > 199) && status != 204 && status
            != 304 ==> response_framing(method, status, h) == Ok::<BodyFraming, Seq<char>>(
            body_of_length(n),
        ),
{
    law_a_lookup_of_nothing_gives_nothing(h, "transfer-encoding"@);
    law_a_lookup_gives_the_first_field(h, "content-length"@, i);
    lemma_decimal_reads_back(n as nat, u64::MAX as int);
}

/// A `Content-Length` with anything but digits in it is refused, in a request and in a
/// response that may have a body.
pub proof fn law_a_malformed_length_is_refused(
    method: Seq<char>,
    status: u16,
    h: Fields,
    i: int,
    k: int,
)
    requires
        absent(h, "transfer-encoding"@),
        first_named(h, "content-length"@, i),
        0 <= k < h[i].1.len(),
        !('0' <= h[i].1[k] <= '9'),
        k == 0 ==> h[i].1[0] != '+',
    ensures
        request_framing(h) is Err,
        !same_fold(method, "HEAD"@) && (status < 100 || status > 199) && status != 204 && status
            != 304 ==> response_framing(method, status, h) is Err,
{
    law_a_lookup_of_nothing_gives_nothing(h, "transfer-encoding"@);
    law_a_lookup_gives_the_first_field(h, "content-length"@, i);
    let s = h[i].1;
    let t = if s.len() > 0 && s[0] == '+' {
        s.drop_first()
    } else {
        s
    };
    let at: int = if s[0] == '+' {
        k - 1
    } else {
        k
    };
    assert(t[at] == s[k]);
    assert(digit_value(t[at]) >= 10);
    assert(!all_digits(t, 10));
}

/// A chunked body is chunked in a request and in a response that may have one, there
/// also beside a length; a request with both is refused.
pub proof fn law_chunked_bodies_are_chunked(method: Seq<char>, status: u16, h: Fields, i: int)
    requires
        first_named(h, "transfer-encoding"@, i),
        same_fold(h[i].1, "chunked"@),
    ensures
        absent(h, "content-length"@) ==> request_framing(h) == Ok::<BodyFraming, Seq<char>>(
            BodyFraming::Chunked,
        ),
        !same_fold(method, "HEAD"@) && (status < 100 || status > 199) && status != 204 && status
            != 304 ==> response_framing(method, status, h) == Ok::<BodyFraming, Seq<char>>(
            BodyFraming::Chunked,
        ),
{
    law_a_lookup_gives_the_first_field(h, "transfer-encoding"@, i);
    if absent(h, "content-length"@) {
        law_a_lookup_of_nothing_gives_nothing(h, "content-length"@);
    }
}

/// A request that states its length twice over, by a length and by a transfer coding,
/// is refused, and so is a transfer coding that the proxy does not know.
pub proof fn law_unclear_framings_are_refused(
    method: Seq<char>,
    status: u16,
    h: Fields,
    te: int,
    cl: int,
)
    requires
        first_named(h, "transfer-encoding"@, te),
    ensures
        first_named(h, "content-length"@, cl) ==> request_framing(h) is Err,
        !same_fold(h[te].1, "chunked"@) ==> request_framing(h) is Err,
        !same_fold(h[te].1, "chunked"@) && !same_fold(method, "HEAD"@) && (status < 100 || status
            > 199) && status != 204 && status != 304 ==> response_framing(
            method,
            status,
            h,
        ) is Err,
{
    law_a_lookup_gives_the_first_field(h, "transfer-encoding"@, te);
    if first_named(h, "content-length"@, cl) {
        law_a_lookup_gives_the_first_field(h, "content-length"@, cl);
    }
}

/// A connection is kept where the peer asks for it, is closed where it asks for that,
/// and else is kept with HTTP/1.1 and closed with HTTP/1.0.
pub proof fn law_persistence_is_asked_for(version: Version, h: Fields, i: int)
    ensures
        absent(h, "connection"@) ==> keep_alive(version, h) == (version == Version::Http11),
        first_named(h, "connection"@, i) && same_fold(h[i].1, "close"@) ==> !keep_alive(version, h),
        first_named(h, "connection"@, i) && same_fold(h[i].1, "keep-alive"@) ==> keep_alive(
            version,
            h,
        ),
        first_named(h, "connection"@, i) && !same_fold(h[i].1, "close"@) && !same_fold(
            h[i].1,
            "keep-alive"@,
        ) ==> keep_alive(version, h) == (version == Version::Http11),
{
    if absent(h, "connection"@) {
        law_a_lookup_of_nothing_gives_nothing(h, "connection"@);
    }
    if first_named(h, "connection"@, i) {
        law_a_lookup_gives_the_first_field(h, "connection"@, i);
        reveal_strlit("close");
        reveal_strlit("keep-alive");
        assert(crate::text::lower("close"@).len() == 5);
        assert(crate::text::lower("keep-alive"@).len() == 10);
    }
}

/// A port is no part of a host's name, whatever it is; a name without one is left as it
/// is.
pub proof fn law_ports_are_cut_off(name: Seq<char>, port: Seq<char>)
    requires
        !has_char(name, ':'),
        name.len() > 0 ==> name[0] != '[',
    ensures
        host_name(name + seq![':'] + port) == name,
        host_name(name) == name,
{
    let s = name + seq![':'] + port;
    lemma_first_index(name, ':');
    assert forall|k: int| 0 <= k < name.len() implies s[k] != ':' by {
        assert(s[k] == name[k]);
    }
    if name.len() > 0 {
        assert(s[0] == name[0]);
    } else {
        assert(s[0] == ':');
    }
    lemma_first_index_is(s, ':', name.len() as int);
    assert(s.take(name.len() as int) =~= name);
    assert(name.take(name.len() as int) =~= name);
}

/// An address in brackets keeps its colons, and loses what stands behind the brackets.
pub proof fn law_bracketed_hosts_keep_their_colons(address: Seq<char>, tail: Seq<char>)
    requires
        !has_char(address, ']'),
    ensures
        host_name(seq!['['] + address + seq![']'] + tail) == seq!['['] + address + seq![']'],
{
    let s = seq!['['] + address + seq![']'] + tail;
    let n: int = address.len() as int + 1;
    lemma_first_index(address, ']');
    assert forall|k: int| 0 <= k < n implies s[k] != ']' by {
        if k > 0 {
            assert(s[k] == address[k - 1]);
        }
    }
    lemma_first_index_is(s, ']', n);
    assert(s.take(n + 1) =~= seq!['['] + address + seq![']']);
}

proof fn lemma_trims_start(pad: Seq<char>, s: Seq<char>)
    requires
        forall|k: int| 0 <= k < pad.len() ==> is_space(#[trigger] pad[k]),
        s.len() > 0 ==> !is_space(s[0]),
    ensures
        trimmed_start(pad + s) == s,
    decreases pad.len(),
{
    if pad.len() == 0 {
        assert(pad + s =~= s);
    } else {
        assert(is_space(pad[0]));
        assert((pad + s).drop_first() =~= pad.drop_first() + s);
        lemma_trims_start(pad.drop_first(), s);
    }
}

proof fn lemma_trims_end(s: Seq<char>, pad: Seq<char>)
    requires
        forall|k: int| 0 <= k < pad.len() ==> is_space(#[trigger] pad[k]),
        s.len() > 0 ==> !is_space(s.last()),
    ensures
        trimmed_end(s + pad) == s,
    decreases pad.len(),
{
    if pad.len() == 0 {
        assert(s + pad =~= s);
    } else {
        assert(is_space(pad.last()));
        assert((s + pad).drop_last() =~= s + pad.drop_last());
        lemma_trims_end(s, pad.drop_last());
    }
}

/// White space around a text is dropped, and nothing else.
pub proof fn law_white_space_around_is_dropped(pad: Seq<char>, s: Seq<char>, tail: Seq<char>)
    requires
        forall|k: int| 0 <= k < pad.len() ==> is_space(#[trigger] pad[k]),
        forall|k: int| 0 <= k < tail.len() ==> is_space(#[trigger] tail[k]),
        s.len() > 0,
        !is_space(s[0]),
        !is_space(s.last()),
    ensures
        trimmed(pad + s + tail) == s,
{
    assert(pad + s + tail =~= pad + (s + tail));
    assert((s + tail)[0] == s[0]);
    lemma_trims_start(pad, s + tail);
    lemma_trims_end(s, tail);
}

/// A header line gives its name as it is and its value without the white space around
/// it.
pub proof fn law_header_lines_are_read(
    name: Seq<char>,
    pad: Seq<char>,
    value: Seq<char>,
    tail: Seq<char>,
)
    requires
        name.len() > 0,
        !has_char(name, ':'),
        !has_char(name, ' '),
        forall|k: int| 0 <= k < pad.len() ==> is_space(#[trigger] pad[k]),
        forall|k: int| 0 <= k < tail.len() ==> is_space(#[trigger] tail[k]),
        value.len() > 0,
        !is_space(value[0]),
        !is_space(value.last()),
    ensures
        field(name + seq![':'] + (pad + value + tail)) == Ok::<
            (Seq<char>, Seq<char>),
            Seq<char>,
        >((name, value)),
{
    let rest = pad + value + tail;
    let s = name + seq![':'] + rest;
    lemma_first_index(name, ':');
    assert forall|k: int| 0 <= k < name.len() implies s[k] != ':' by {
        assert(s[k] == name[k]);
    }
    lemma_first_index_is(s, ':', name.len() as int);
    assert(s.take(name.len() as int) =~= name);
    assert(s.skip(name.len() as int + 1) =~= rest);
    law_white_space_around_is_dropped(pad, value, tail);
}

/// A header line without a colon, without a name or with a space in its name is
/// refused.
pub proof fn law_bad_header_lines_are_refused(name: Seq<char>, rest: Seq<char>)
    requires
        !has_char(name, ':'),
    ensures
        field(name) is Err,
        name.len() == 0 || has_char(name, ' ') ==> field(name + seq![':'] + rest) is Err,
{
    let s = name + seq![':'] + rest;
    lemma_first_index(name, ':');
    assert forall|k: int| 0 <= k < name.len() implies s[k] != ':' by {
        assert(s[k] == name[k]);
    }
    lemma_first_index_is(s, ':', name.len() as int);
    assert(s.take(name.len() as int) =~= name);
}

/// A status line gives its status, from 100 to 599 and no other.
pub proof fn law_statuses_are_read(version: Version, status: u16, reason: Seq<char>)
    ensures
        match status_line(version.token() + seq![' '] + decimal(status as nat) + seq![' '] + reason) {
            Ok(r) => 100 <= status <= 599 && r == (version, status, reason),
            Err(_) => status < 100 || status > 599,
        },
{
    reveal_strlit("HTTP/1.0");
    reveal_strlit("HTTP/1.1");
    let v = version.token();
    let d = decimal(status as nat);
    let s = v + seq![' '] + d + seq![' '] + reason;
    assert("HTTP/1.0"@[7] != "HTTP/1.1"@[7]);
    lemma_decimal(status as nat);
    lemma_decimal_reads_back(status as nat, u16::MAX as int);
    assert forall|k: int| 0 <= k < 8 implies s[k] != ' ' by {
        assert(s[k] == v[k]);
    }
    assert(s[8] == ' ');
    lemma_first_index_is(s, ' ', 8);
    assert(s.take(8) =~= v);
    let rest = s.skip(9);
    assert(rest =~= d + seq![' '] + reason);
    assert forall|k: int| 0 <= k < d.len() implies rest[k] != ' ' by {
        assert(is_digit(d[k]));
        assert(rest[k] == d[k]);
    }
    lemma_first_index_is(rest, ' ', d.len() as int);
    assert(rest.take(d.len() as int) =~= d);
    assert(rest.skip(d.len() as int + 1) =~= reason);
}

} // verus!
