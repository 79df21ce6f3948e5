//! The web application firewall: normalise, match and score, remember offenders.
//!
//! Decode first, judge after: evasion is mostly encoding games. Each rule adds
//! points, and only a score at the threshold convicts. Convictions become
//! strikes, and strikes a temporary ban whose term doubles.

use vstd::prelude::*;
use vstd::string::{StrSliceExecFns, StringExecFns};
use vstd::utf8::{encode_utf8, is_ascii_chars};

use crate::count::{bump, bumped};
use crate::http::{header, lookup, RequestHead, RequestView, ResponseHead};
use crate::ip::{IpAddr, IpTable};
use crate::middleware::auth::{forbidden, not_allowed};
use crate::middleware::{verdict, CtxView, Decision, Middleware, RejectionView, ReqCtx, Shared};
use crate::pattern::{regex_error, regex_finds, Pattern};
use crate::text::{
    bytes_text, chars_of, contains, contains_char, cut, debug_text, decimal, decimal_of, digit_of,
    digit_value, has_char, is_space, join, joined, lemma_first_index, lemma_joined_pieces,
    lemma_pieces_are_cut, lemma_pieces_lead, lower, occurs, own, pieces, purged, push_text,
    quoted, read_bytes, remove_char, replace, replaced, same, slices, space, split, split_once,
    texts,
};
use crate::time::{elapsed, Duration, Instant, MAX_NANOS};

verus! {

// ---------------------------------------------------------------------------
// Trusted: the parts of std's text that normalisation calls.
// ---------------------------------------------------------------------------

/// What `str::to_lowercase` makes of a text.
pub uninterp spec fn unicode_lower(s: Seq<char>) -> Seq<char>;

/// A text without ASCII capitals.
pub open spec fn no_capitals(s: Seq<char>) -> bool {
    forall|i: int| 0 <= i < s.len() ==> !('A' <= #[trigger] s[i] <= 'Z')
}

/// `str::to_lowercase` gives the Unicode lower case of a text: no ASCII capital is
/// left in it, and of an ASCII text it is the ASCII lower case.
#[verifier::external_body]
fn to_lower(s: &str) -> (r: String)
    ensures
        r@ == unicode_lower(s@),
        is_ascii_chars(s@) ==> r@ == lower(s@),
        no_capitals(r@),
{
    s.to_lowercase()
}

// ---------------------------------------------------------------------------
// Normalisation
// ---------------------------------------------------------------------------

/// Evasion flags raised by normalisation: each is worth points of its own.
#[derive(Debug, Clone, Copy, PartialEq, Eq, Structural)]
pub struct NormFlags {
    pub double_encoded: bool,
    pub null_byte: bool,
    /// A `..` segment tried to climb above the root.
    pub traversal_attempt: bool,
}

/// A percent escape stands at the start: `%` and two hex digits.
pub open spec fn escape_leads(b: Seq<u8>) -> bool {
    b.len() >= 3 && b[0] == 37 && digit_value(b[1] as char) < 16 && digit_value(b[2] as char) < 16
}

/// Bytes with every percent escape decoded once, and `+` as a space where it
/// means one. Broken escapes stay as they are.
pub open spec fn unescaped(b: Seq<u8>, plus: bool) -> Seq<u8>
    decreases b.len(),
{
    if b.len() == 0 {
        b
    } else if escape_leads(b) {
        seq![(digit_value(b[1] as char) * 16 + digit_value(b[2] as char)) as u8] + unescaped(
            b.skip(3),
            plus,
        )
    } else if b[0] == 43 && plus {
        seq![32u8] + unescaped(b.skip(1), plus)
    } else {
        seq![b[0]] + unescaped(b.skip(1), plus)
    }
}

/// Whether decoding once changes anything.
pub open spec fn has_escape(b: Seq<u8>, plus: bool) -> bool
    decreases b.len(),
{
    if b.len() == 0 {
        false
    } else if escape_leads(b) || (b[0] == 43 && plus) {
        true
    } else {
        has_escape(b.skip(1), plus)
    }
}

fn hex_of(b: u8) -> (r: u8)
    ensures
        r == digit_value(b as char),
        r <= 16,
{
    digit_of(b as char)
}

/// Decodes percent escapes once, on bytes.
pub fn unescape(bytes: &[u8], plus_is_space: bool) -> (r: (Vec<u8>, bool))
    ensures
        r.0@ == unescaped(bytes@, plus_is_space),
        r.1 == has_escape(bytes@, plus_is_space),
{
    let n: usize = bytes.len();
    let mut out: Vec<u8> = Vec::new();
    let mut changed: bool = false;
    let mut i: usize = 0;
    assert(bytes@.skip(0) =~= bytes@);
    assert(out@ + unescaped(bytes@, plus_is_space) =~= unescaped(bytes@, plus_is_space));
    while i < n
        invariant
            i <= n == bytes@.len(),
            out@ + unescaped(bytes@.skip(i as int), plus_is_space) == unescaped(
                bytes@,
                plus_is_space,
            ),
            has_escape(bytes@, plus_is_space) == (changed || has_escape(
                bytes@.skip(i as int),
                plus_is_space,
            )),
        decreases n - i,
    {
        let ghost rest = bytes@.skip(i as int);
        let ghost sofar = out@;
        if n - i >= 3 && bytes[i] == 37 && hex_of(bytes[i + 1]) < 16 && hex_of(bytes[i + 2]) < 16 {
            let b: u8 = hex_of(bytes[i + 1]) * 16 + hex_of(bytes[i + 2]);
            out.push(b);
            changed = true;
            assert(rest.skip(3) =~= bytes@.skip(i + 3));
            assert(sofar + (seq![b] + unescaped(rest.skip(3), plus_is_space)) =~= out@ + unescaped(
                rest.skip(3),
                plus_is_space,
            ));
            i = i + 3;
        } else if bytes[i] == 43 && plus_is_space {
            out.push(32);
            changed = true;
            assert(rest.skip(1) =~= bytes@.skip(i + 1));
            assert(sofar + (seq![32u8] + unescaped(rest.skip(1), plus_is_space)) =~= out@
                + unescaped(rest.skip(1), plus_is_space));
            i = i + 1;
        } else {
            out.push(bytes[i]);
            assert(!escape_leads(rest));
            assert(rest.skip(1) =~= bytes@.skip(i + 1));
            assert(sofar + (seq![rest[0]] + unescaped(rest.skip(1), plus_is_space)) =~= out@
                + unescaped(rest.skip(1), plus_is_space));
            i = i + 1;
        }
    }
    assert(bytes@.skip(i as int) =~= Seq::<u8>::empty());
    assert(out@ + Seq::<u8>::empty() =~= out@);
    (out, changed)
}

/// A text with its percent escapes decoded once.
pub open spec fn percent_decoded(s: Seq<char>, plus: bool) -> Seq<char> {
    bytes_text(unescaped(encode_utf8(s), plus))
}

fn percent_decode_once(s: &str, plus_is_space: bool) -> (r: (String, bool))
    ensures
        r.0@ == percent_decoded(s@, plus_is_space),
        r.1 == has_escape(encode_utf8(s@), plus_is_space),
{
    let (out, changed) = unescape(s.as_bytes(), plus_is_space);
    (read_bytes(out.as_slice()), changed)
}

/// A text with the HTML entities decoded that hide angle brackets and quotes.
pub open spec fn entities_decoded(s: Seq<char>) -> Seq<char> {
    let a = replaced(s, "&lt;"@, "<"@);
    let b = replaced(a, "&gt;"@, ">"@);
    let c = replaced(b, "&quot;"@, "\""@);
    let d = replaced(c, "&apos;"@, "'"@);
    let e = replaced(d, "&#x27;"@, "'"@);
    let f = replaced(e, "&#39;"@, "'"@);
    let g = replaced(f, "&#x3c;"@, "<"@);
    let h = replaced(g, "&#60;"@, "<"@);
    let i = replaced(h, "&#x3e;"@, ">"@);
    replaced(i, "&#62;"@, ">"@)
}

/// Decodes the HTML entities that hide angle brackets and quotes.
pub fn entity_decode(s: &str) -> (r: String)
    ensures
        r@ == entities_decoded(s@),
{
    proof {
        reveal_strlit("&lt;");
        reveal_strlit("&gt;");
        reveal_strlit("&quot;");
        reveal_strlit("&apos;");
        reveal_strlit("&#x27;");
        reveal_strlit("&#39;");
        reveal_strlit("&#x3c;");
        reveal_strlit("&#60;");
        reveal_strlit("&#x3e;");
        reveal_strlit("&#62;");
    }
    let a = replace(s, "&lt;", "<");
    let b = replace(a.as_str(), "&gt;", ">");
    let c = replace(b.as_str(), "&quot;", "\"");
    let d = replace(c.as_str(), "&apos;", "'");
    let e = replace(d.as_str(), "&#x27;", "'");
    let f = replace(e.as_str(), "&#39;", "'");
    let g = replace(f.as_str(), "&#x3c;", "<");
    let h = replace(g.as_str(), "&#60;", "<");
    let i = replace(h.as_str(), "&#x3e;", ">");
    replace(i.as_str(), "&#62;", ">")
}

/// A text with every run of white space as one space; `after_space` says that a
/// space has just been written.
pub open spec fn collapsed(s: Seq<char>, after_space: bool) -> Seq<char>
    decreases s.len(),
{
    if s.len() == 0 {
        s
    } else if is_space(s[0]) {
        if after_space {
            collapsed(s.drop_first(), true)
        } else {
            seq![' '] + collapsed(s.drop_first(), true)
        }
    } else {
        seq![s[0]] + collapsed(s.drop_first(), false)
    }
}

fn collapse(s: &str) -> (out: String)
    ensures
        out@ == collapsed(s@, false),
{
    let v = chars_of(s);
    let mut out = String::new();
    let mut last_ws: bool = false;
    let mut i: usize = 0;
    assert(v@.skip(0) =~= v@);
    assert(out@ + collapsed(v@, false) =~= collapsed(v@, false));
    while i < v.len()
        invariant
            i <= v@.len(),
            v@ == s@,
            out@ + collapsed(v@.skip(i as int), last_ws) == collapsed(v@, false),
        decreases v.len() - i,
    {
        let c = v[i];
        let ghost sofar = out@;
        let ghost tail = v@.skip(i + 1);
        assert(v@.skip(i as int).drop_first() =~= tail);
        if space(c) {
            if !last_ws {
                out.push(' ');
                assert(sofar + (seq![' '] + collapsed(tail, true)) =~= out@ + collapsed(tail, true));
            }
            last_ws = true;
        } else {
            out.push(c);
            assert(sofar + (seq![c] + collapsed(tail, false)) =~= out@ + collapsed(tail, false));
            last_ws = false;
        }
        i = i + 1;
    }
    assert(v@.skip(i as int) =~= Seq::<char>::empty());
    assert(out@ + Seq::<char>::empty() =~= out@);
    out
}

/// What is left of a text in lower case: no NUL in it, and white space collapsed.
pub open spec fn tidied(s: Seq<char>) -> Seq<char> {
    collapsed(purged(s, '\0'), false)
}

/// Drops NULs and collapses white space; says whether there was a NUL.
pub fn tidy(text: &str) -> (r: (String, bool))
    ensures
        r.0@ == tidied(text@),
        r.1 == has_char(text@, '\0'),
{
    let nul = contains_char(text, '\0');
    let bare = remove_char(text, '\0');
    (collapse(bare.as_str()), nul)
}

/// A text decoded twice, without entities and in lower case.
pub open spec fn uncloaked(raw: Seq<char>, plus: bool) -> Seq<char> {
    unicode_lower(entities_decoded(percent_decoded(percent_decoded(raw, plus), false)))
}

/// The normalised form of a text.
pub open spec fn normalized(raw: Seq<char>, plus: bool) -> Seq<char> {
    tidied(uncloaked(raw, plus))
}

/// The flags that normalising a text raises.
pub open spec fn raised(raw: Seq<char>, plus: bool) -> NormFlags {
    NormFlags {
        double_encoded: has_escape(encode_utf8(percent_decoded(raw, plus)), false),
        null_byte: has_char(uncloaked(raw, plus), '\0'),
        traversal_attempt: false,
    }
}

proof fn lemma_tidying_adds_no_capitals(s: Seq<char>, after_space: bool)
    requires
        no_capitals(s),
    ensures
        no_capitals(purged(s, '\0')),
        no_capitals(collapsed(s, after_space)),
    decreases s.len(),
{
    if s.len() > 0 {
        let t = s.drop_first();
        assert(no_capitals(t)) by {
            assert forall|i: int| 0 <= i < t.len() implies !('A' <= #[trigger] t[i] <= 'Z') by {
                assert(t[i] == s[i + 1]);
            }
        }
        assert(!('A' <= s[0] <= 'Z'));
        lemma_tidying_adds_no_capitals(t, false);
        lemma_tidying_adds_no_capitals(t, true);
    }
}

/// Full normalisation: percent escapes decoded twice (a second pass that changes
/// something is double encoding), entities decoded, lower case, NULs dropped and
/// flagged, white space collapsed. No ASCII capital is left, so that rules in lower
/// case match whatever the case of the request.
pub fn normalize(raw: &str, plus_is_space: bool) -> (r: (String, NormFlags))
    ensures
        r.0@ == normalized(raw@, plus_is_space),
        no_capitals(r.0@),
        r.1 == raised(raw@, plus_is_space),
{
    let (once, _) = percent_decode_once(raw, plus_is_space);
    let (twice, again) = percent_decode_once(once.as_str(), false);
    let plain = entity_decode(twice.as_str());
    let lowered = to_lower(plain.as_str());
    let (text, nul) = tidy(lowered.as_str());
    proof {
        lemma_tidying_adds_no_capitals(lowered@, false);
        lemma_tidying_adds_no_capitals(purged(lowered@, '\0'), false);
    }
    (text, NormFlags { double_encoded: again, null_byte: nul, traversal_attempt: false })
}

/// The segments of a path with `.` and `..` resolved, behind those of `stack`; and
/// whether a `..` tried to climb above the root.
pub open spec fn resolved(segs: Seq<Seq<char>>, stack: Seq<Seq<char>>, climbed: bool) -> (
    Seq<Seq<char>>,
    bool,
)
    decreases segs.len(),
{
    if segs.len() == 0 {
        (stack, climbed)
    } else {
        let s = segs[0];
        let rest = segs.drop_first();
        if s.len() == 0 || s == "."@ {
            resolved(rest, stack, climbed)
        } else if s == ".."@ {
            if stack.len() == 0 {
                resolved(rest, stack, true)
            } else {
                resolved(rest, stack.drop_last(), climbed)
            }
        } else {
            resolved(rest, stack.push(s), climbed)
        }
    }
}

/// The canonical form of a path.
pub open spec fn canonical(path: Seq<char>) -> Seq<char> {
    "/"@ + joined(resolved(pieces(path, '/'), Seq::empty(), false).0, "/"@)
}

/// A path has a `..` that tries to climb above the root.
pub open spec fn climbs(path: Seq<char>) -> bool {
    resolved(pieces(path, '/'), Seq::empty(), false).1
}

/// Resolves the `.` and `..` segments of a decoded path, and says whether one
/// tried to climb above the root.
pub fn canonicalize_path(path: &str) -> (r: (String, bool))
    ensures
        r.0@ == canonical(path@),
        r.1 == climbs(path@),
{
    let segs = split(path, '/');
    let mut stack: Vec<String> = Vec::new();
    let mut climbed: bool = false;
    let mut i: usize = 0;
    let ghost all = resolved(pieces(path@, '/'), Seq::empty(), false);
    assert(slices(segs@).skip(0) =~= slices(segs@));
    assert(texts(stack@) =~= Seq::empty());
    while i < segs.len()
        invariant
            i <= segs@.len(),
            all == resolved(slices(segs@).skip(i as int), texts(stack@), climbed),
        decreases segs.len() - i,
    {
        let s = segs[i];
        assert(slices(segs@).skip(i as int).drop_first() =~= slices(segs@).skip(i + 1));
        if s.unicode_len() == 0 || same(s, ".") {
        } else if same(s, "..") {
            let ghost was = stack@;
            match stack.pop() {
                Some(_) => {
                    assert(texts(stack@) =~= texts(was).drop_last());
                },
                None => {
                    climbed = true;
                },
            }
        } else {
            push_text(&mut stack, own(s));
        }
        i = i + 1;
    }
    assert(slices(segs@).skip(i as int) =~= Seq::<Seq<char>>::empty());
    let tail = join(&stack, "/");
    (own("/").concat(tail.as_str()), climbed)
}

/// A segment that a canonical path can hold.
pub open spec fn real_segment(s: Seq<char>) -> bool {
    s.len() > 0 && s != "."@ && s != ".."@
}

/// Every segment is one that a canonical path can hold.
pub open spec fn real_segments(v: Seq<Seq<char>>) -> bool {
    forall|i: int| 0 <= i < v.len() ==> real_segment(#[trigger] v[i])
}

proof fn lemma_resolved_segments_are_real(
    segs: Seq<Seq<char>>,
    stack: Seq<Seq<char>>,
    climbed: bool,
)
    requires
        real_segments(stack),
    ensures
        real_segments(resolved(segs, stack, climbed).0),
    decreases segs.len(),
{
    if segs.len() > 0 {
        let s = segs[0];
        let rest = segs.drop_first();
        if s.len() == 0 || s == "."@ {
            lemma_resolved_segments_are_real(rest, stack, climbed);
        } else if s == ".."@ {
            if stack.len() == 0 {
                lemma_resolved_segments_are_real(rest, stack, true);
            } else {
                assert(real_segments(stack.drop_last()));
                lemma_resolved_segments_are_real(rest, stack.drop_last(), climbed);
            }
        } else {
            assert(real_segments(stack.push(s)));
            lemma_resolved_segments_are_real(rest, stack.push(s), climbed);
        }
    }
}

/// No segment holds a slash.
spec fn slash_free(v: Seq<Seq<char>>) -> bool {
    forall|i: int| 0 <= i < v.len() ==> !has_char(#[trigger] v[i], '/')
}

proof fn lemma_resolved_segments_stay_cut(
    segs: Seq<Seq<char>>,
    stack: Seq<Seq<char>>,
    climbed: bool,
)
    requires
        slash_free(segs),
        slash_free(stack),
    ensures
        slash_free(resolved(segs, stack, climbed).0),
    decreases segs.len(),
{
    if segs.len() > 0 {
        let s = segs[0];
        let rest = segs.drop_first();
        assert(!has_char(s, '/'));
        assert forall|i: int| 0 <= i < rest.len() implies !has_char(#[trigger] rest[i], '/') by {
            assert(rest[i] == segs[i + 1]);
        }
        if s.len() == 0 || s == "."@ {
            lemma_resolved_segments_stay_cut(rest, stack, climbed);
        } else if s == ".."@ {
            if stack.len() == 0 {
                lemma_resolved_segments_stay_cut(rest, stack, true);
            } else {
                assert(slash_free(stack.drop_last()));
                lemma_resolved_segments_stay_cut(rest, stack.drop_last(), climbed);
            }
        } else {
            assert(slash_free(stack.push(s)));
            lemma_resolved_segments_stay_cut(rest, stack.push(s), climbed);
        }
    }
}

/// Segments that a canonical path can hold are resolved to themselves.
proof fn lemma_real_segments_stay(v: Seq<Seq<char>>, stack: Seq<Seq<char>>, climbed: bool)
    requires
        real_segments(v),
    ensures
        resolved(v, stack, climbed) == (stack + v, climbed),
    decreases v.len(),
{
    if v.len() == 0 {
        assert(stack + v =~= stack);
    } else {
        let rest = v.drop_first();
        assert(real_segment(v[0]));
        assert forall|i: int| 0 <= i < rest.len() implies real_segment(#[trigger] rest[i]) by {
            assert(rest[i] == v[i + 1]);
        }
        lemma_real_segments_stay(rest, stack.push(v[0]), climbed);
        assert(stack.push(v[0]) + rest =~= stack + v);
    }
}

/// The segments of a canonical path: behind the first slash they are those that were
/// resolved, or one empty one for the root alone.
proof fn lemma_canonical_segments(path: Seq<char>)
    ensures
        ({
            let v = resolved(pieces(path, '/'), Seq::empty(), false).0;
            &&& real_segments(v)
            &&& slash_free(v)
            &&& pieces(canonical(path), '/') == seq![Seq::<char>::empty()] + if v.len() == 0 {
                seq![Seq::<char>::empty()]
            } else {
                v
            }
        }),
{
    let v = resolved(pieces(path, '/'), Seq::empty(), false).0;
    let e = Seq::<char>::empty();
    reveal_strlit("/");
    assert("/"@ =~= seq!['/']);
    lemma_resolved_segments_are_real(pieces(path, '/'), Seq::empty(), false);
    lemma_pieces_are_cut(path, '/');
    lemma_resolved_segments_stay_cut(pieces(path, '/'), Seq::empty(), false);
    let x = joined(v, "/"@);
    assert(canonical(path) =~= e + seq!['/'] + x);
    lemma_first_index(e, '/');
    lemma_pieces_lead(e, x, '/');
    if v.len() == 0 {
        assert(x =~= e);
        assert(pieces(x, '/') =~= seq![e]);
    } else {
        lemma_joined_pieces(v, '/');
    }
}

/// A canonical path starts with a slash; it is the root, or each of its segments is
/// neither empty nor `.` nor `..`, so that it does not end in a slash.
pub proof fn law_canonical_paths_hold_no_dots(path: Seq<char>)
    ensures
        ({
            let segs = pieces(canonical(path), '/');
            &&& canonical(path).len() > 0 && canonical(path)[0] == '/'
            &&& segs[0].len() == 0
            &&& canonical(path) == "/"@ || real_segments(segs.drop_first())
            &&& canonical(path) == "/"@ || canonical(path).last() != '/'
        }),
{
    let v = resolved(pieces(path, '/'), Seq::empty(), false).0;
    reveal_strlit("/");
    lemma_canonical_segments(path);
    let segs = pieces(canonical(path), '/');
    if v.len() == 0 {
        assert(canonical(path) =~= "/"@);
    } else {
        assert(segs.drop_first() =~= v);
        let last = v.last();
        assert(real_segment(last) && !has_char(last, '/'));
        lemma_first_index(last, '/');
        let x = joined(v, "/"@);
        assert(x.len() > 0 && x.last() == last.last());
        assert(canonical(path).last() == x.last());
    }
}

/// A canonical path is its own canonical form, and does not climb.
pub proof fn law_canonical_paths_stay_as_they_are(path: Seq<char>)
    ensures
        canonical(canonical(path)) == canonical(path),
        !climbs(canonical(path)),
{
    let none = Seq::<Seq<char>>::empty();
    let e = Seq::<char>::empty();
    let v = resolved(pieces(path, '/'), none, false).0;
    lemma_canonical_segments(path);
    let segs = pieces(canonical(path), '/');
    let rest = segs.drop_first();
    assert(resolved(segs, none, false) == resolved(rest, none, false));
    if v.len() == 0 {
        assert(rest =~= seq![e]);
        assert(rest.drop_first() =~= none);
        assert(resolved(rest.drop_first(), none, false) == (none, false));
        assert(v =~= none);
    } else {
        assert(rest =~= v);
        lemma_real_segments_stay(v, none, false);
        assert(none + v =~= v);
    }
}

/// How many of the segments are `..`.
pub open spec fn ups(v: Seq<Seq<char>>) -> nat
    decreases v.len(),
{
    if v.len() == 0 {
        0
    } else {
        ups(v.drop_first()) + if v[0] == ".."@ {
            1nat
        } else {
            0
        }
    }
}

/// How many of the segments are ordinary ones.
pub open spec fn downs(v: Seq<Seq<char>>) -> nat
    decreases v.len(),
{
    if v.len() == 0 {
        0
    } else {
        downs(v.drop_first()) + if real_segment(v[0]) {
            1nat
        } else {
            0
        }
    }
}

/// In the first `n` segments there are more `..` than ordinary ones and `depth` more.
pub open spec fn overshoots(segs: Seq<Seq<char>>, depth: nat, n: int) -> bool {
    0 <= n <= segs.len() && ups(segs.take(n)) > depth + downs(segs.take(n))
}

proof fn lemma_climb_stays(segs: Seq<Seq<char>>, stack: Seq<Seq<char>>)
    ensures
        resolved(segs, stack, true).1,
    decreases segs.len(),
{
    if segs.len() > 0 {
        let s = segs[0];
        let rest = segs.drop_first();
        if s.len() == 0 || s == "."@ {
            lemma_climb_stays(rest, stack);
        } else if s == ".."@ {
            if stack.len() == 0 {
                lemma_climb_stays(rest, stack);
            } else {
                lemma_climb_stays(rest, stack.drop_last());
            }
        } else {
            lemma_climb_stays(rest, stack.push(s));
        }
    }
}

proof fn lemma_overshoot_step(segs: Seq<Seq<char>>, depth: nat, next: nat)
    requires
        segs.len() > 0,
        next == depth + (if real_segment(segs[0]) {
            1int
        } else {
            0
        }) - (if segs[0] == ".."@ {
            1int
        } else {
            0
        }),
    ensures
        (exists|n: int| overshoots(segs, depth, n)) <==> (exists|n: int|
            overshoots(segs.drop_first(), next, n)),
{
    let rest = segs.drop_first();
    assert forall|n: int| 1 <= n <= segs.len() implies overshoots(segs, depth, n) == overshoots(
        rest,
        next,
        n - 1,
    ) by {
        assert(segs.take(n).drop_first() =~= rest.take(n - 1));
    }
    if exists|n: int| overshoots(segs, depth, n) {
        let n = choose|n: int| overshoots(segs, depth, n);
        assert(n >= 1) by {
            assert(segs.take(0).len() == 0);
        }
        assert(overshoots(rest, next, n - 1));
    }
    if exists|n: int| overshoots(rest, next, n) {
        let n = choose|n: int| overshoots(rest, next, n);
        assert(overshoots(segs, depth, n + 1));
    }
}

proof fn lemma_climbs(segs: Seq<Seq<char>>, stack: Seq<Seq<char>>)
    ensures
        resolved(segs, stack, false).1 <==> exists|n: int| overshoots(segs, stack.len(), n),
    decreases segs.len(),
{
    reveal_strlit(".");
    reveal_strlit("..");
    if segs.len() == 0 {
        assert forall|n: int| !overshoots(segs, stack.len(), n) by {
            if 0 <= n <= segs.len() {
                assert(segs.take(n).len() == 0);
            }
        }
    } else {
        let s = segs[0];
        let rest = segs.drop_first();
        if s.len() == 0 || s == "."@ {
            assert("."@.len() == 1);
            assert(".."@.len() == 2);
            assert(s.len() < 2);
            lemma_climbs(rest, stack);
            lemma_overshoot_step(segs, stack.len(), stack.len());
        } else if s == ".."@ {
            if stack.len() == 0 {
                lemma_climb_stays(rest, stack);
                let one = segs.take(1);
                assert(one[0] == s);
                assert(one.drop_first().len() == 0);
                assert(ups(one) == 1 && downs(one) == 0) by {
                    assert(ups(one.drop_first()) == 0);
                    assert(downs(one.drop_first()) == 0);
                }
                assert(overshoots(segs, stack.len(), 1));
            } else {
                lemma_climbs(rest, stack.drop_last());
                lemma_overshoot_step(segs, stack.len(), stack.drop_last().len());
            }
        } else {
            lemma_climbs(rest, stack.push(s));
            lemma_overshoot_step(segs, stack.len(), stack.push(s).len());
        }
    }
}

/// A path climbs exactly where, in some leading part of its segments, `..` outnumbers
/// the ordinary ones; what comes behind does not make up for it.
pub proof fn law_a_path_climbs_where_it_leaves_the_root(path: Seq<char>)
    ensures
        climbs(path) <==> exists|n: int|
            0 <= n <= pieces(path, '/').len() && #[trigger] ups(pieces(path, '/').take(n)) > downs(
                pieces(path, '/').take(n),
            ),
{
    let segs = pieces(path, '/');
    lemma_climbs(segs, Seq::empty());
    if climbs(path) {
        let n = choose|n: int| overshoots(segs, 0, n);
        assert(ups(segs.take(n)) > downs(segs.take(n)));
    }
    if exists|n: int| 0 <= n <= segs.len() && #[trigger] ups(segs.take(n)) > downs(segs.take(n)) {
        let n = choose|n: int|
            0 <= n <= segs.len() && #[trigger] ups(segs.take(n)) > downs(segs.take(n));
        assert(overshoots(segs, 0, n));
    }
}

// ---------------------------------------------------------------------------
// Rules
// ---------------------------------------------------------------------------

/// How a rule matches the normalised text.
pub enum Pat {
    /// The text occurs.
    Sub(&'static str),
    /// Both texts occur, in either order.
    Both(&'static str, &'static str),
    /// The regular expression matches somewhere.
    Re(&'static str),
}

/// One signature: its name, its points, and what it matches.
pub struct Rule {
    pub name: &'static str,
    pub points: u32,
    pub pat: Pat,
}

/// How a rule matches, in a specification.
pub enum PatView {
    Sub(Seq<char>),
    Both(Seq<char>, Seq<char>),
    Re(Seq<char>),
}

/// What a rule says.
pub struct RuleView {
    pub name: Seq<char>,
    pub points: int,
    pub pat: PatView,
}

impl View for Rule {
    type V = RuleView;

    open spec fn view(&self) -> RuleView {
        RuleView {
            name: self.name@,
            points: self.points as int,
            pat: match self.pat {
                Pat::Sub(s) => PatView::Sub(s@),
                Pat::Both(a, b) => PatView::Both(a@, b@),
                Pat::Re(p) => PatView::Re(p@),
            },
        }
    }
}

/// A rule of the table.
pub open spec fn a_rule(name: &str, points: int, pat: PatView) -> RuleView {
    RuleView { name: name@, points, pat }
}

/// The number of rules.
pub const RULE_COUNT: usize = 15;

/// The points of all rules together.
pub const RULE_POINTS: u32 = 112;

/// The rule table: its entries in order. Patterns that occur in harmless traffic
/// score low, unambiguous attack grammar scores at or near the threshold.
pub open spec fn rule_table() -> Seq<RuleView> {
    seq![
        a_rule("sqli:union-select", 10, PatView::Both("union"@, "select"@)),
        a_rule("sqli:comment-seq", 4, PatView::Re(r"(--|#|/\*)\s*$|/\*.*\*/"@)),
        a_rule(
            "sqli:tautology",
            8,
            PatView::Re(r"\b(or|and)\s+(\d+\s*=\s*\d+|'[^']*'\s*=\s*'[^']*')"@),
        ),
        a_rule(
            "sqli:stacked-query",
            10,
            PatView::Re(r";\s*(drop|insert|update|delete|create|alter)\b"@),
        ),
        a_rule(
            "sqli:sleep-bench",
            8,
            PatView::Re(r"\b(sleep|benchmark|pg_sleep|waitfor)\s*\("@),
        ),
        a_rule("sqli:info-schema", 6, PatView::Sub("information_schema"@)),
        a_rule("sqli:quote", 2, PatView::Sub("'"@)),
        a_rule("xss:script-tag", 10, PatView::Sub("<script"@)),
        a_rule(
            "xss:event-handler",
            8,
            PatView::Re(r"\bon(error|load|click|mouseover|focus|submit)\s*="@),
        ),
        a_rule("xss:js-url", 8, PatView::Sub("javascript:"@)),
        a_rule("xss:vector-tag", 6, PatView::Re(r"<(img|svg|iframe|object|embed|body)\b"@)),
        a_rule(
            "xss:eval-family",
            6,
            PatView::Re(
                r"\b(eval|settimeout|setinterval|document\.cookie|window\.location)\b"@,
            ),
        ),
        a_rule("traversal:dotdot", 8, PatView::Sub("../"@)),
        a_rule(
            "traversal:sensitive-file",
            8,
            PatView::Re(r"/etc/(passwd|shadow|hosts)|(^|/)proc/self|boot\.ini|win\.ini"@),
        ),
        a_rule(
            "scanner:tool-ua",
            10,
            PatView::Re(
                r"\b(sqlmap|nikto|nessus|acunetix|dirbuster|gobuster|wpscan|masscan|zgrab)\b"@,
            ),
        ),
    ]
}

/// The rules of a table that was made.
pub open spec fn rules_of(v: Seq<Rule>) -> Seq<RuleView> {
    Seq::new(v.len(), |i: int| v[i]@)
}

/// The rule table.
pub fn rules() -> (v: Vec<Rule>)
    ensures
        rules_of(v@) == rule_table(),
        v@.len() == RULE_COUNT,
{
    let v = vec![
        Rule { name: "sqli:union-select", points: 10, pat: Pat::Both("union", "select") },
        Rule { name: "sqli:comment-seq", points: 4, pat: Pat::Re(r"(--|#|/\*)\s*$|/\*.*\*/") },
        Rule {
            name: "sqli:tautology",
            points: 8,
            pat: Pat::Re(r"\b(or|and)\s+(\d+\s*=\s*\d+|'[^']*'\s*=\s*'[^']*')"),
        },
        Rule {
            name: "sqli:stacked-query",
            points: 10,
            pat: Pat::Re(r";\s*(drop|insert|update|delete|create|alter)\b"),
        },
        Rule {
            name: "sqli:sleep-bench",
            points: 8,
            pat: Pat::Re(r"\b(sleep|benchmark|pg_sleep|waitfor)\s*\("),
        },
        Rule { name: "sqli:info-schema", points: 6, pat: Pat::Sub("information_schema") },
        Rule { name: "sqli:quote", points: 2, pat: Pat::Sub("'") },
        Rule { name: "xss:script-tag", points: 10, pat: Pat::Sub("<script") },
        Rule {
            name: "xss:event-handler",
            points: 8,
            pat: Pat::Re(r"\bon(error|load|click|mouseover|focus|submit)\s*="),
        },
        Rule { name: "xss:js-url", points: 8, pat: Pat::Sub("javascript:") },
        Rule {
            name: "xss:vector-tag",
            points: 6,
            pat: Pat::Re(r"<(img|svg|iframe|object|embed|body)\b"),
        },
        Rule {
            name: "xss:eval-family",
            points: 6,
            pat: Pat::Re(r"\b(eval|settimeout|setinterval|document\.cookie|window\.location)\b"),
        },
        Rule { name: "traversal:dotdot", points: 8, pat: Pat::Sub("../") },
        Rule {
            name: "traversal:sensitive-file",
            points: 8,
            pat: Pat::Re(r"/etc/(passwd|shadow|hosts)|(^|/)proc/self|boot\.ini|win\.ini"),
        },
        Rule {
            name: "scanner:tool-ua",
            points: 10,
            pat: Pat::Re(
                r"\b(sqlmap|nikto|nessus|acunetix|dirbuster|gobuster|wpscan|masscan|zgrab)\b",
            ),
        },
    ];
    assert(rules_of(v@) =~= rule_table());
    v
}

/// The rules with their regular expressions compiled.
pub struct RuleSet {
    rules: Vec<Rule>,
    compiled: Vec<Option<Pattern>>,
}

/// A rule and its compiled expression belong together.
pub open spec fn compiled_as(re: Option<Pattern>, pat: PatView) -> bool {
    match pat {
        PatView::Re(p) => re matches Some(x) && x@ == p,
        _ => re is None,
    }
}

/// The first rule of the table from `i` on whose expression is refused.
pub open spec fn refused_rule(table: Seq<RuleView>, i: int) -> Option<(int, Seq<char>)>
    decreases table.len() - i,
{
    if i < 0 || i >= table.len() {
        None
    } else {
        match table[i].pat {
            PatView::Re(p) => match regex_error(p) {
                Some(m) => Some((i, m)),
                None => refused_rule(table, i + 1),
            },
            _ => refused_rule(table, i + 1),
        }
    }
}

impl RuleSet {
    /// The rules are those of the table, each with its own expression.
    pub closed spec fn wf(&self) -> bool {
        &&& rules_of(self.rules@) == rule_table()
        &&& self.rules@.len() == RULE_COUNT
        &&& self.compiled@.len() == RULE_COUNT
        &&& forall|i: int|
            0 <= i < RULE_COUNT ==> compiled_as(#[trigger] self.compiled@[i], rule_table()[i].pat)
    }

    /// Compiles the rule table. Where the regular expression crate refuses one of
    /// its patterns, the refusal's text is returned.
    pub fn compiled() -> (r: Result<RuleSet, String>)
        ensures
            match r {
                Ok(set) => set.wf() && refused_rule(rule_table(), 0) is None,
                Err(m) => refused_rule(rule_table(), 0) matches Some((_, e)) && m@ == e,
            },
    {
        let rules = rules();
        let mut compiled: Vec<Option<Pattern>> = Vec::new();
        let mut i: usize = 0;
        while i < rules.len()
            invariant
                i <= rules@.len() == RULE_COUNT,
                compiled@.len() == i,
                rules_of(rules@) == rule_table(),
                refused_rule(rule_table(), 0) == refused_rule(rule_table(), i as int),
                forall|k: int|
                    0 <= k < i ==> compiled_as(#[trigger] compiled@[k], rule_table()[k].pat),
            decreases rules.len() - i,
        {
            assert(rules_of(rules@)[i as int] == rules@[i as int]@);
            match &rules[i].pat {
                Pat::Re(p) => {
                    match Pattern::new(p) {
                        Ok(re) => {
                            compiled.push(Some(re));
                        },
                        Err(m) => {
                            return Err(m);
                        },
                    }
                },
                _ => {
                    compiled.push(None);
                },
            }
            i = i + 1;
        }
        Ok(RuleSet { rules, compiled })
    }
}

/// The verdict on one request: the points, and the names of the rules that hit.
/// The names go to the error log, never to the client.
#[derive(Debug)]
pub struct Verdict {
    pub score: u32,
    pub hits: Vec<&'static str>,
}

/// What a verdict says.
pub struct VerdictView {
    pub score: int,
    pub hits: Seq<Seq<char>>,
}

impl View for Verdict {
    type V = VerdictView;

    open spec fn view(&self) -> VerdictView {
        VerdictView { score: self.score as int, hits: slices(self.hits@) }
    }
}

/// No points and no hits.
pub open spec fn clean() -> VerdictView {
    VerdictView { score: 0, hits: Seq::empty() }
}

/// A verdict with one more hit.
pub open spec fn charged(v: VerdictView, name: Seq<char>, points: int) -> VerdictView {
    VerdictView { score: v.score + points, hits: v.hits.push(name) }
}

/// A verdict with one more hit where `on` holds.
pub open spec fn charged_if(v: VerdictView, on: bool, name: Seq<char>, points: int) -> VerdictView {
    if on {
        charged(v, name, points)
    } else {
        v
    }
}

impl Verdict {
    fn add(&mut self, name: &'static str, points: u32)
        requires
            old(self).score + points <= u32::MAX,
        ensures
            final(self)@ == charged(old(self)@, name@, points as int),
    {
        self.score = self.score + points;
        self.hits.push(name);
        assert(slices(self.hits@) =~= slices(old(self).hits@).push(name@));
    }
}

/// Whether a rule hits a text, when its expression matches just where `found` says.
pub open spec fn hits_given(pat: PatView, text: Seq<char>, found: bool) -> bool {
    match pat {
        PatView::Sub(s) => occurs(text, s),
        PatView::Both(a, b) => occurs(text, a) && occurs(text, b),
        PatView::Re(_) => found,
    }
}

/// A verdict after the rules from `i` on were held against a text; `found` says of
/// each rule whether its expression matches.
pub open spec fn tallied(
    v: VerdictView,
    text: Seq<char>,
    found: Seq<bool>,
    i: int,
) -> VerdictView
    decreases rule_table().len() - i,
{
    if i < 0 || i >= rule_table().len() {
        v
    } else {
        let r = rule_table()[i];
        tallied(charged_if(v, hits_given(r.pat, text, found[i]), r.name, r.points), text, found, i + 1)
    }
}

/// The points of the rules from `i` on.
pub open spec fn points_from(i: int) -> int
    decreases rule_table().len() - i,
{
    if i < 0 || i >= rule_table().len() {
        0
    } else {
        rule_table()[i].points + points_from(i + 1)
    }
}

proof fn lemma_points()
    ensures
        points_from(0) == RULE_POINTS,
        rule_table().len() == RULE_COUNT,
        forall|i: int| 0 <= i < RULE_COUNT ==> 0 < (#[trigger] rule_table()[i]).points <= 10,
{
    assert(rule_table().len() == 15);
    assert(points_from(15) == 0);
    assert(points_from(14) == 10);
    assert(points_from(13) == 18);
    assert(points_from(12) == 26);
    assert(points_from(11) == 32);
    assert(points_from(10) == 38);
    assert(points_from(9) == 46);
    assert(points_from(8) == 54);
    assert(points_from(7) == 64);
    assert(points_from(6) == 66);
    assert(points_from(5) == 72);
    assert(points_from(4) == 80);
    assert(points_from(3) == 90);
    assert(points_from(2) == 98);
    assert(points_from(1) == 102);
    assert(points_from(0) == 112);
}

/// Holds the rules against one normalised text, with the answers of the regular
/// expressions at hand, and adds the points of those that hit.
pub fn tally(set: &RuleSet, text: &str, found: &Vec<bool>, verdict: &mut Verdict)
    requires
        set.wf(),
        found@.len() == RULE_COUNT,
        old(verdict).score + RULE_POINTS <= u32::MAX,
    ensures
        final(verdict)@ == tallied(old(verdict)@, text@, found@, 0),
        final(verdict).score <= old(verdict).score + RULE_POINTS,
{
    proof {
        lemma_points();
    }
    let mut i: usize = 0;
    let ghost start = verdict@;
    while i < set.rules.len()
        invariant
            i <= RULE_COUNT,
            set.wf(),
            found@.len() == RULE_COUNT,
            start.score + RULE_POINTS <= u32::MAX,
            rule_table().len() == RULE_COUNT,
            verdict.score + points_from(i as int) <= start.score + RULE_POINTS,
            0 <= points_from(i as int),
            forall|k: int| 0 <= k < RULE_COUNT ==> 0 < (#[trigger] rule_table()[k]).points <= 10,
            tallied(start, text@, found@, 0) == tallied(verdict@, text@, found@, i as int),
        decreases RULE_COUNT - i,
    {
        let ghost r = rule_table()[i as int];
        assert(rules_of(set.rules@)[i as int] == set.rules@[i as int]@);
        proof {
            lemma_points_positive(i + 1);
        }
        let hit = match &set.rules[i].pat {
            Pat::Sub(s) => contains(text, s),
            Pat::Both(a, b) => contains(text, a) && contains(text, b),
            Pat::Re(_) => found[i],
        };
        if hit {
            verdict.add(set.rules[i].name, set.rules[i].points);
        }
        i = i + 1;
    }
}

proof fn lemma_points_positive(i: int)
    ensures
        0 <= points_from(i),
    decreases rule_table().len() - i,
{
    if 0 <= i < rule_table().len() {
        lemma_points_positive(i + 1);
        lemma_points();
    }
}

/// Of each rule whether its expression matches a text.
pub open spec fn answers(text: Seq<char>) -> Seq<bool> {
    Seq::new(
        rule_table().len(),
        |i: int|
            match rule_table()[i].pat {
                PatView::Re(p) => regex_finds(p, text),
                _ => false,
            },
    )
}

/// A verdict after the rules were held against a text.
pub open spec fn scanned(v: VerdictView, text: Seq<char>) -> VerdictView {
    tallied(v, text, answers(text), 0)
}

fn scan(set: &RuleSet, text: &str, verdict: &mut Verdict)
    requires
        set.wf(),
        old(verdict).score + RULE_POINTS <= u32::MAX,
    ensures
        final(verdict)@ == scanned(old(verdict)@, text@),
        final(verdict).score <= old(verdict).score + RULE_POINTS,
{
    let mut found: Vec<bool> = Vec::new();
    let mut i: usize = 0;
    proof {
        lemma_points();
    }
    while i < set.compiled.len()
        invariant
            i <= RULE_COUNT,
            set.wf(),
            rule_table().len() == RULE_COUNT,
            found@.len() == i,
            forall|k: int| 0 <= k < i ==> found@[k] == #[trigger] answers(text@)[k],
        decreases RULE_COUNT - i,
    {
        assert(compiled_as(set.compiled@[i as int], rule_table()[i as int].pat));
        let yes = match &set.compiled[i] {
            Some(re) => re.is_match(text),
            None => false,
        };
        found.push(yes);
        i = i + 1;
    }
    assert(found@ =~= answers(text@));
    tally(set, text, &found, verdict);
}

// ---------------------------------------------------------------------------
// Inspecting a request
// ---------------------------------------------------------------------------

/// The points of an escape that only the second pass decodes.
pub const DOUBLE_ENCODED_POINTS: u32 = 4;

/// The points of a NUL.
pub const NULL_BYTE_POINTS: u32 = 6;

/// The points of a path that climbs above the root.
pub const CLIMB_POINTS: u32 = 8;

/// The points of a request without a user agent.
pub const NO_UA_POINTS: u32 = 1;

/// A verdict with the points of the flags that normalising a text raised.
pub open spec fn flagged(v: VerdictView, f: NormFlags) -> VerdictView {
    charged_if(
        charged_if(v, f.double_encoded, "evasion:double-encoding"@, DOUBLE_ENCODED_POINTS as int),
        f.null_byte,
        "evasion:null-byte"@,
        NULL_BYTE_POINTS as int,
    )
}

/// A verdict after the path was inspected: decoded, then canonicalised. Both forms
/// are held against the rules where they differ.
pub open spec fn path_judged(v: VerdictView, raw: Seq<char>) -> VerdictView {
    let text = normalized(raw, false);
    let first = scanned(
        charged_if(
            flagged(v, raised(raw, false)),
            climbs(text),
            "traversal:climb-above-root"@,
            CLIMB_POINTS as int,
        ),
        text,
    );
    if canonical(text) != text {
        scanned(first, canonical(text))
    } else {
        first
    }
}

/// A verdict after the query was inspected, if there is one.
pub open spec fn query_judged(v: VerdictView, raw: Option<Seq<char>>) -> VerdictView {
    match raw {
        Some(q) => scanned(flagged(v, raised(q, true)), normalized(q, true)),
        None => v,
    }
}

/// A verdict after the user agent was inspected. A missing one is a nuisance point,
/// which never convicts alone.
pub open spec fn agent_judged(v: VerdictView, agent: Option<Seq<char>>) -> VerdictView {
    match agent {
        Some(ua) => scanned(v, normalized(ua, false)),
        None => charged(v, "scanner:no-ua"@, NO_UA_POINTS as int),
    }
}

/// A verdict after the referer was inspected, if there is one.
pub open spec fn referer_judged(v: VerdictView, referer: Option<Seq<char>>) -> VerdictView {
    match referer {
        Some(r) => scanned(v, normalized(r, false)),
        None => v,
    }
}

/// The verdict on a request head: path, query, user agent and referer.
pub open spec fn inspected(req: RequestView) -> VerdictView {
    let (path, query) = match cut(req.target, '?') {
        Some((p, q)) => (p, Some(q)),
        None => (req.target, None),
    };
    referer_judged(
        agent_judged(
            query_judged(path_judged(clean(), path), query),
            lookup(req.headers, "user-agent"@),
        ),
        lookup(req.headers, "referer"@),
    )
}

fn add_flags(verdict: &mut Verdict, flags: NormFlags)
    requires
        old(verdict).score + 10 <= u32::MAX,
    ensures
        final(verdict)@ == flagged(old(verdict)@, flags),
        final(verdict).score <= old(verdict).score + 10,
{
    if flags.double_encoded {
        verdict.add("evasion:double-encoding", DOUBLE_ENCODED_POINTS);
    }
    if flags.null_byte {
        verdict.add("evasion:null-byte", NULL_BYTE_POINTS);
    }
}

/// Inspects a request head: each surface is normalised once and scanned once, and
/// one verdict is accumulated.
pub fn inspect(set: &RuleSet, req: &RequestHead) -> (verdict: Verdict)
    requires
        set.wf(),
    ensures
        verdict@ == inspected(req@),
        verdict.score <= 1000,
{
    let mut verdict = Verdict { score: 0, hits: Vec::new() };
    assert(verdict@.hits =~= Seq::empty());
    let (raw_path, raw_query) = match split_once(req.target.as_str(), '?') {
        Some((p, q)) => (p, Some(q)),
        None => (req.target.as_str(), None),
    };
    let (text, flags) = normalize(raw_path, false);
    let (canon, climbed) = canonicalize_path(text.as_str());
    add_flags(&mut verdict, flags);
    if climbed {
        verdict.add("traversal:climb-above-root", CLIMB_POINTS);
    }
    scan(set, text.as_str(), &mut verdict);
    if !same(canon.as_str(), text.as_str()) {
        scan(set, canon.as_str(), &mut verdict);
    }
    assert(verdict@ == path_judged(clean(), raw_path@));
    if let Some(q) = raw_query {
        let (text, flags) = normalize(q, true);
        add_flags(&mut verdict, flags);
        scan(set, text.as_str(), &mut verdict);
    }
    match header(req.headers.as_slice(), "user-agent") {
        Some(ua) => {
            let (text, _) = normalize(ua, false);
            scan(set, text.as_str(), &mut verdict);
        },
        None => {
            verdict.add("scanner:no-ua", NO_UA_POINTS);
        },
    }
    if let Some(r) = header(req.headers.as_slice(), "referer") {
        let (text, _) = normalize(r, false);
        scan(set, text.as_str(), &mut verdict);
    }
    verdict
}

// ---------------------------------------------------------------------------
// Reputation
// ---------------------------------------------------------------------------

/// What is remembered of one source.
#[derive(Debug, Clone, Copy, PartialEq, Eq, Structural)]
pub struct Offender {
    pub strikes: u32,
    pub last_strike: Instant,
    /// The end of the ban, in nanoseconds of the clock.
    pub banned_until: Option<u128>,
    /// How often it was banned: each ban doubles the next term.
    pub bans: u32,
}

/// The counters of the firewall.
#[derive(Debug, Clone, Copy, PartialEq, Eq, Structural)]
pub struct WafStats {
    pub convicted: u64,
    pub detected: u64,
    pub banned: u64,
    pub ban_refused: u64,
}

/// Strikes and bans of each source. It lives as long as the process, and one store
/// serves every route: a source that probes two routes is one offender.
pub struct Reputation {
    pub table: IpTable<Offender>,
    /// How many strikes make a ban.
    pub ban_after: u32,
    /// The first ban's term.
    pub ban_base: Duration,
    /// Strikes older than this stop counting.
    pub decay: Duration,
    pub stats: WafStats,
}

/// The longest ban: one hour.
pub const BAN_CAP_NANOS: u128 = 3_600_000_000_000;

/// How many strikes make a ban, where nothing else is set.
pub const DEFAULT_BAN_AFTER: u32 = 3;

/// The first ban's term in nanoseconds, where nothing else is set: 60 seconds.
pub const DEFAULT_BAN_BASE: u64 = 60_000_000_000;

/// The factor of a term after so many bans: it doubles six times.
pub open spec fn backoff(bans: int) -> int
    decreases bans,
{
    if bans <= 0 {
        1
    } else if bans >= 6 {
        64
    } else {
        2 * backoff(bans - 1)
    }
}

fn backoff_factor(bans: u32) -> (r: u32)
    ensures
        r == backoff(bans as int),
{
    proof {
        reveal_with_fuel(backoff, 7);
    }
    if bans == 0 {
        1
    } else if bans == 1 {
        2
    } else if bans == 2 {
        4
    } else if bans == 3 {
        8
    } else if bans == 4 {
        16
    } else if bans == 5 {
        32
    } else {
        64
    }
}

/// The term of a ban after so many bans before it: the base, doubled for each of
/// them, and at most an hour.
pub open spec fn ban_term(base: int, bans: int) -> int {
    if base * backoff(bans) <= BAN_CAP_NANOS {
        base * backoff(bans)
    } else {
        BAN_CAP_NANOS as int
    }
}

/// The span after which strikes stop counting: ten times the base.
pub open spec fn decay_of(base: int) -> int {
    if base * 10 <= MAX_NANOS {
        base * 10
    } else {
        MAX_NANOS as int
    }
}

/// Strikes with one more, up to the largest count.
pub open spec fn more(n: u32) -> u32 {
    if n == u32::MAX {
        n
    } else {
        (n + 1) as u32
    }
}

/// A source whose ban has not ended yet.
pub open spec fn is_banned_at(o: Offender, now: Instant) -> bool {
    o.banned_until matches Some(until) && now.nanos < until
}

/// A source after a look at it: an ended ban is lifted and clears the strikes, and
/// strikes outside the window are dropped. The count of bans stays.
pub open spec fn settled(o: Offender, now: Instant, decay: int) -> Offender {
    if is_banned_at(o, now) {
        o
    } else {
        Offender {
            banned_until: None,
            strikes: if o.banned_until is Some || elapsed(now, o.last_strike) > decay {
                0
            } else {
                o.strikes
            },
            ..o
        }
    }
}

/// The strikes of a source with one more at `now`.
pub open spec fn struck_count(o: Offender, now: Instant, decay: int) -> u32 {
    if elapsed(now, o.last_strike) > decay {
        1
    } else {
        more(o.strikes)
    }
}

/// A source after one more strike at `now`: it is banned where bans are enforced
/// and the strikes reach the limit.
pub open spec fn struck(
    o: Offender,
    now: Instant,
    enforce: bool,
    ban_after: u32,
    base: int,
) -> Offender {
    let n = struck_count(o, now, decay_of(base));
    if enforce && n >= ban_after {
        Offender {
            strikes: 0,
            last_strike: now,
            banned_until: Some((now.nanos + ban_term(base, o.bans as int)) as u128),
            bans: more(o.bans),
        }
    } else {
        Offender { strikes: n, last_strike: now, ..o }
    }
}

/// A source that was never seen before, seen at `now`.
pub open spec fn newcomer(now: Instant) -> Offender {
    Offender { strikes: 0, last_strike: now, banned_until: None, bans: 0 }
}

/// The record of a source, or that of a newcomer.
pub open spec fn record(o: Option<Offender>, now: Instant) -> Offender {
    match o {
        Some(x) => x,
        None => newcomer(now),
    }
}

impl Reputation {
    /// What is remembered of a source.
    pub open spec fn at(&self, ip: IpAddr) -> Option<Offender> {
        self.table.at(ip)
    }

    /// How many strikes make a ban.
    pub open spec fn limit(&self) -> u32 {
        self.ban_after
    }

    /// The first ban's term in nanoseconds.
    pub open spec fn base(&self) -> int {
        self.ban_base.nanos as int
    }

    /// The window is ten times the base.
    pub open spec fn wf(&self) -> bool {
        self.decay.nanos == decay_of(self.ban_base.nanos as int)
    }

    /// Everything but the counters and the source `ip` is as it was.
    pub open spec fn same_but(&self, was: Reputation, ip: IpAddr) -> bool {
        &&& self.limit() == was.limit()
        &&& self.base() == was.base()
        &&& self.wf() == was.wf()
        &&& forall|other: IpAddr|
            other != ip ==> #[trigger] self.table.at(other) == was.table.at(other)
    }

    /// A store that remembers nothing.
    pub fn new(ban_after: u32, ban_base: Duration) -> (r: Reputation)
        ensures
            r.wf(),
            r.limit() == ban_after,
            r.base() == ban_base.nanos,
            forall|ip: IpAddr| (#[trigger] r.at(ip)) is None,
            r.stats == (WafStats { convicted: 0, detected: 0, banned: 0, ban_refused: 0 }),
    {
        Reputation {
            table: IpTable::new(),
            ban_after,
            ban_base,
            decay: ban_base.saturating_mul(10),
            stats: WafStats { convicted: 0, detected: 0, banned: 0, ban_refused: 0 },
        }
    }

    /// Is this source banned now? An ended ban is lifted, stale strikes decay.
    pub fn is_banned(&mut self, ip: IpAddr, now: Instant) -> (r: bool)
        requires
            old(self).wf(),
        ensures
            final(self).wf(),
            final(self).same_but(*old(self), ip),
            final(self).stats == old(self).stats,
            match old(self).at(ip) {
                Some(o) => r == is_banned_at(o, now) && final(self).at(ip) == Some(
                    settled(o, now, decay_of(old(self).base())),
                ),
                None => !r && final(self).at(ip) is None,
            },
    {
        let mut o = match self.table.get(ip) {
            Some(o) => *o,
            None => {
                return false;
            },
        };
        if let Some(until) = o.banned_until {
            if (now.nanos as u128) < until {
                return true;
            }
            o.banned_until = None;
            o.strikes = 0;
        }
        let idle = now.since(o.last_strike);
        if idle.nanos > self.decay.nanos {
            o.strikes = 0;
        }
        self.table.put(ip, o);
        false
    }

    /// Records a conviction, and returns the ban's term where this strike tipped
    /// the limit. Watching is not punishing: without `enforce` there is no ban.
    pub fn strike(&mut self, ip: IpAddr, now: Instant, enforce: bool) -> (r: Option<Duration>)
        requires
            old(self).wf(),
        ensures
            final(self).wf(),
            final(self).same_but(*old(self), ip),
            final(self).at(ip) == Some(
                struck(
                    record(old(self).at(ip), now),
                    now,
                    enforce,
                    old(self).limit(),
                    old(self).base(),
                ),
            ),
            match r {
                Some(d) => enforce && struck_count(
                    record(old(self).at(ip), now),
                    now,
                    decay_of(old(self).base()),
                ) >= old(self).limit() && d.nanos == ban_term(
                    old(self).base(),
                    record(old(self).at(ip), now).bans as int,
                ) && final(self).stats == (WafStats {
                    banned: bumped(old(self).stats.banned),
                    ..old(self).stats
                }),
                None => !(enforce && struck_count(
                    record(old(self).at(ip), now),
                    now,
                    decay_of(old(self).base()),
                ) >= old(self).limit()) && final(self).stats == old(self).stats,
            },
    {
        let mut o = match self.table.get(ip) {
            Some(o) => *o,
            None => Offender { strikes: 0, last_strike: now, banned_until: None, bans: 0 },
        };
        let ghost was = o;
        let idle = now.since(o.last_strike);
        if idle.nanos > self.decay.nanos {
            o.strikes = 0;
        }
        if o.strikes < u32::MAX {
            o.strikes = o.strikes + 1;
        }
        o.last_strike = now;
        assert(o.strikes == struck_count(was, now, decay_of(self.base())));
        if enforce && o.strikes >= self.ban_after {
            let factor: u32 = backoff_factor(o.bans);
            let grown = self.ban_base.saturating_mul(factor);
            let term = if grown.nanos <= BAN_CAP_NANOS {
                grown
            } else {
                Duration { nanos: BAN_CAP_NANOS }
            };
            assert(term.nanos == ban_term(self.base(), was.bans as int));
            o.banned_until = Some(now.nanos as u128 + term.nanos);
            if o.bans < u32::MAX {
                o.bans = o.bans + 1;
            }
            o.strikes = 0;
            self.table.put(ip, o);
            self.stats.banned = bump(self.stats.banned);
            return Some(term);
        }
        self.table.put(ip, o);
        None
    }
}

/// One line of the counters, which is left out while the count is 0.
pub open spec fn event_line(label: Seq<char>, n: u64) -> Seq<char> {
    if n > 0 {
        "ferrum_waf_events_total{result=\""@ + label + "\"} "@ + decimal(n as nat) + "\n"@
    } else {
        Seq::empty()
    }
}

/// The counters as Prometheus text.
pub open spec fn stats_text(s: WafStats) -> Seq<char> {
    "# HELP ferrum_waf_events_total WAF activity by outcome.\n# TYPE ferrum_waf_events_total counter\n"@
        + event_line("convicted"@, s.convicted) + event_line("detected"@, s.detected) + event_line(
        "banned"@,
        s.banned,
    ) + event_line("ban_refused"@, s.ban_refused)
}

fn append_event(out: String, label: &str, n: u64) -> (r: String)
    ensures
        r@ == out@ + event_line(label@, n),
{
    if n > 0 {
        let d = decimal_of(n);
        let line = own("ferrum_waf_events_total{result=\"").concat(label).concat("\"} ").concat(
            d.as_str(),
        ).concat("\n");
        out.concat(line.as_str())
    } else {
        assert(out@ + event_line(label@, n) =~= out@);
        out
    }
}

impl Reputation {
    /// The counters as Prometheus text.
    pub fn render_prometheus(&self) -> (r: String)
        ensures
            r@ == stats_text(self.stats),
    {
        let a = own(
            "# HELP ferrum_waf_events_total WAF activity by outcome.\n# TYPE ferrum_waf_events_total counter\n",
        );
        let b = append_event(a, "convicted", self.stats.convicted);
        let c = append_event(b, "detected", self.stats.detected);
        let d = append_event(c, "banned", self.stats.banned);
        append_event(d, "ban_refused", self.stats.ban_refused)
    }
}

/// Sets up the store that all routes share. Only the first call counts: the routes
/// may be built anew, and what the store remembers stays.
pub fn configure_reputation(slot: &mut Option<Reputation>, ban_after: u32, ban_base: Duration)
    ensures
        *old(slot) is Some ==> *final(slot) == *old(slot),
        *old(slot) is None ==> (*final(slot) matches Some(r) && r.wf() && r.limit() == ban_after
            && r.base() == ban_base.nanos && (forall|ip: IpAddr| (#[trigger] r.at(ip)) is None)
            && r.stats == (WafStats { convicted: 0, detected: 0, banned: 0, ban_refused: 0 })),
{
    if slot.is_none() {
        *slot = Some(Reputation::new(ban_after, ban_base));
    }
}

/// The store that all routes share, with the default limits where nothing was set up.
pub fn shared_reputation(slot: Option<Reputation>) -> (r: Reputation)
    ensures
        match slot {
            Some(set_up) => r == set_up,
            None => r.wf() && r.limit() == DEFAULT_BAN_AFTER && r.base() == DEFAULT_BAN_BASE && (forall|ip: IpAddr| (#[trigger] r.at(ip)) is None) && r.stats
                == (WafStats { convicted: 0, detected: 0, banned: 0, ban_refused: 0 }),
        },
{
    match slot {
        Some(r) => r,
        None => Reputation::new(DEFAULT_BAN_AFTER, Duration::from_nanos(DEFAULT_BAN_BASE)),
    }
}

/// A source that was banned for a term at `now` is refused at every time before the
/// term's end, and at no time from then on until its next conviction.
pub proof fn law_a_ban_lasts_its_term(
    o: Offender,
    now: Instant,
    later: Instant,
    ban_after: u32,
    base: int,
)
    requires
        0 <= base,
        struck_count(o, now, decay_of(base)) >= ban_after,
    ensures
        is_banned_at(struck(o, now, true, ban_after, base), later) <==> later.nanos < now.nanos
            + ban_term(base, o.bans as int),
{
    lemma_backoff(o.bans as int);
    assert(0 <= base * backoff(o.bans as int)) by (nonlinear_arith)
        requires
            0 <= base,
            1 <= backoff(o.bans as int),
    ;
}

proof fn lemma_backoff(bans: int)
    ensures
        1 <= backoff(bans) <= 64,
{
    reveal_with_fuel(backoff, 7);
}

/// Each ban's term is twice the one before, until the sixth doubling or the cap.
pub proof fn law_ban_terms_double(base: int, bans: int)
    requires
        0 <= base,
        0 <= bans < 6,
    ensures
        ban_term(base, bans + 1) == if 2 * ban_term(base, bans) <= BAN_CAP_NANOS {
            2 * ban_term(base, bans)
        } else {
            BAN_CAP_NANOS as int
        },
{
    reveal_with_fuel(backoff, 7);
    let k: int = backoff(bans);
    assert(backoff(bans + 1) == 2 * k);
    assert(base * (2 * k) == 2 * (base * k)) by (nonlinear_arith);
}

/// A conviction that is only watched never bans, and a ban that runs goes on.
pub proof fn law_watching_never_bans(o: Offender, now: Instant, ban_after: u32, base: int)
    ensures
        struck(o, now, false, ban_after, base).banned_until == o.banned_until,
        struck(o, now, false, ban_after, base).bans == o.bans,
{
}

/// A served ban wipes the strikes but not the count of bans, so that the next one
/// is longer.
pub proof fn law_a_served_ban_is_not_forgotten(o: Offender, now: Instant, decay: int)
    requires
        o.banned_until is Some,
        !is_banned_at(o, now),
    ensures
        settled(o, now, decay).strikes == 0,
        settled(o, now, decay).banned_until is None,
        settled(o, now, decay).bans == o.bans,
{
}

// ---------------------------------------------------------------------------
// The layer
// ---------------------------------------------------------------------------

/// Whether convictions are only watched, or refused.
#[derive(Debug, Clone, Copy, PartialEq, Eq, Structural)]
pub enum WafMode {
    Detect,
    Block,
}

/// The mode that a text names.
pub open spec fn mode_of(s: Seq<char>) -> Result<WafMode, Seq<char>> {
    if s == "detect"@ {
        Ok(WafMode::Detect)
    } else if s == "block"@ {
        Ok(WafMode::Block)
    } else {
        Err("waf mode "@ + debug_text(s) + " (expected block|detect)"@)
    }
}

impl WafMode {
    /// Reads a mode.
    pub fn parse(s: &str) -> (r: Result<WafMode, String>)
        ensures
            match r {
                Ok(m) => mode_of(s@) == Ok::<WafMode, Seq<char>>(m),
                Err(e) => mode_of(s@) == Err::<WafMode, Seq<char>>(e@),
            },
    {
        if same(s, "detect") {
            Ok(WafMode::Detect)
        } else if same(s, "block") {
            Ok(WafMode::Block)
        } else {
            let q = quoted(s);
            Err(own("waf mode ").concat(q.as_str()).concat(" (expected block|detect)"))
        }
    }
}

/// The score that convicts, where nothing else is set.
pub const DEFAULT_THRESHOLD: u32 = 10;

/// The firewall of one route.
#[derive(Debug, Clone, Copy, PartialEq, Eq, Structural)]
pub struct Waf {
    pub mode: WafMode,
    pub threshold: u32,
}

/// What a verdict leads to.
pub struct Sentence {
    /// What is remembered of the source.
    pub offender: Option<Offender>,
    pub stats: WafStats,
    /// The request is refused.
    pub refused: bool,
    /// The score for the log, where it is not 0.
    pub score: Option<u32>,
    /// The hits for the error log, where the request is convicted.
    pub hits: Seq<Seq<char>>,
    /// The term of a new ban, in nanoseconds.
    pub ban: Option<int>,
}

/// The sentence of a scan: below the threshold only the score is noted. At the
/// threshold the source gets a strike; where the mode blocks, the request is
/// refused and the strike may ban.
pub open spec fn sentence(
    waf: Waf,
    v: VerdictView,
    o: Option<Offender>,
    stats: WafStats,
    now: Instant,
    limit: u32,
    base: int,
) -> Sentence {
    let score = if v.score == 0 {
        None
    } else {
        Some(v.score as u32)
    };
    if v.score == 0 || v.score < waf.threshold {
        Sentence { offender: o, stats, refused: false, score, hits: Seq::empty(), ban: None }
    } else {
        let block = waf.mode == WafMode::Block;
        let bans = block && struck_count(record(o, now), now, decay_of(base)) >= limit;
        Sentence {
            offender: Some(struck(record(o, now), now, block, limit, base)),
            stats: WafStats {
                convicted: if block {
                    bumped(stats.convicted)
                } else {
                    stats.convicted
                },
                detected: if block {
                    stats.detected
                } else {
                    bumped(stats.detected)
                },
                banned: if bans {
                    bumped(stats.banned)
                } else {
                    stats.banned
                },
                ban_refused: stats.ban_refused,
            },
            refused: block,
            score,
            hits: v.hits,
            ban: if bans {
                Some(ban_term(base, record(o, now).bans as int))
            } else {
                None
            },
        }
    }
}

/// The state of a request after a sentence: score, hits and ban are noted.
pub open spec fn noted(ctx: CtxView, s: Sentence, now: CtxView) -> bool {
    &&& now.waf_hits == if s.hits.len() > 0 {
        s.hits
    } else {
        ctx.waf_hits
    }
    &&& now == (CtxView {
        waf_score: if s.score is Some {
            s.score
        } else {
            ctx.waf_score
        },
        waf_hits: now.waf_hits,
        waf_ban: now.waf_ban,
        ..ctx
    })
    &&& match s.ban {
        Some(n) => now.waf_ban matches Some(d) && d.nanos == n,
        None => now.waf_ban == ctx.waf_ban,
    }
}

/// The decision that a sentence comes to.
pub open spec fn decided(s: Sentence) -> Option<RejectionView> {
    if s.refused {
        Some(not_allowed())
    } else {
        None
    }
}

/// What is shared, after a sentence on the source `ip`.
pub open spec fn sentenced(was: Shared, now: Shared, ip: IpAddr, s: Sentence) -> bool {
    &&& now.now == was.now
    &&& now.rules == was.rules
    &&& now.reputation.same_but(was.reputation, ip)
    &&& now.reputation.at(ip) == s.offender
    &&& now.reputation.stats == s.stats
}

/// What is remembered of a source once it was asked whether it is banned; only a
/// blocking firewall asks.
pub open spec fn looked_up(waf: Waf, o: Option<Offender>, now: Instant, base: int) -> Option<
    Offender,
> {
    match o {
        Some(x) => if waf.mode == WafMode::Block {
            Some(settled(x, now, decay_of(base)))
        } else {
            Some(x)
        },
        None => None,
    }
}

/// A blocking firewall refuses a banned source without looking at its request.
pub open spec fn turned_away(waf: Waf, o: Option<Offender>, now: Instant) -> bool {
    waf.mode == WafMode::Block && (o matches Some(x) && is_banned_at(x, now))
}

impl Waf {
    /// Acts on a finding: notes the score, strikes the source of a conviction, and
    /// refuses it where the mode blocks. Neither the hits nor the score reach the
    /// client.
    pub fn judge(&self, verdict_now: Verdict, ctx: &mut ReqCtx, shared: &mut Shared) -> (d:
        Decision)
        requires
            old(shared).wf(),
        ensures
            final(shared).wf(),
            ({
                let ip = old(ctx).peer.ip;
                let rep = old(shared).reputation;
                let s = sentence(
                    *self,
                    verdict_now@,
                    rep.at(ip),
                    rep.stats,
                    old(shared).now,
                    rep.limit(),
                    rep.base(),
                );
                &&& verdict(d) == decided(s)
                &&& noted(old(ctx)@, s, final(ctx)@)
                &&& sentenced(*old(shared), *final(shared), ip, s)
            }),
    {
        let score: u32 = verdict_now.score;
        if score == 0 {
            return Decision::Continue;
        }
        ctx.waf_score = Some(score);
        if score < self.threshold {
            return Decision::Continue;
        }
        let ip = ctx.peer.ip;
        let now = shared.now;
        let some_hits = verdict_now.hits.len() > 0;
        assert(slices(verdict_now.hits@).len() == verdict_now.hits@.len());
        if some_hits {
            ctx.waf_hits = verdict_now.hits;
        }
        if self.mode == WafMode::Block {
            shared.reputation.stats.convicted = bump(shared.reputation.stats.convicted);
            let ban = shared.reputation.strike(ip, now, true);
            if ban.is_some() {
                ctx.waf_ban = ban;
            }
            Decision::Reject(forbidden())
        } else {
            shared.reputation.stats.detected = bump(shared.reputation.stats.detected);
            let ban = shared.reputation.strike(ip, now, false);
            Decision::Continue
        }
    }
}

impl Middleware for Waf {
    open spec fn label(&self) -> Seq<char> {
        "waf"@
    }

    /// A banned source is refused unseen; every other request is inspected, and the
    /// verdict on it carried out.
    open spec fn inbound(
        was: Waf,
        req: RequestHead,
        ctx: ReqCtx,
        shared: Shared,
        now: Waf,
        req_now: RequestHead,
        ctx_now: ReqCtx,
        shared_now: Shared,
        d: Decision,
    ) -> bool {
        let ip = ctx.peer.ip;
        let rep = shared.reputation;
        let seen = looked_up(was, rep.at(ip), shared.now, rep.base());
        &&& now == was
        &&& req_now == req
        &&& if turned_away(was, rep.at(ip), shared.now) {
            &&& verdict(d) == Some(not_allowed())
            &&& ctx_now == ctx
            &&& sentenced(
                shared,
                shared_now,
                ip,
                Sentence {
                    offender: rep.at(ip),
                    stats: WafStats { ban_refused: bumped(rep.stats.ban_refused), ..rep.stats },
                    refused: true,
                    score: None,
                    hits: Seq::empty(),
                    ban: None,
                },
            )
        } else {
            let s = sentence(
                was,
                inspected(req@),
                seen,
                rep.stats,
                shared.now,
                rep.limit(),
                rep.base(),
            );
            &&& verdict(d) == decided(s)
            &&& noted(ctx@, s, ctx_now@)
            &&& sentenced(shared, shared_now, ip, s)
        }
    }

    open spec fn outbound(&self, ctx: ReqCtx, resp: ResponseHead, resp_now: ResponseHead) -> bool {
        resp_now == resp
    }

    fn name(&self) -> (r: &'static str) {
        "waf"
    }

    fn on_request(
        &mut self,
        req: &mut RequestHead,
        ctx: &mut ReqCtx,
        shared: &mut Shared,
    ) -> (d: Decision) {
        let ip = ctx.peer.ip;
        let now = shared.now;
        if self.mode == WafMode::Block {
            if shared.reputation.is_banned(ip, now) {
                shared.reputation.stats.ban_refused = bump(shared.reputation.stats.ban_refused);
                return Decision::Reject(forbidden());
            }
        }
        let v = inspect(&shared.rules, req);
        self.judge(v, ctx, shared)
    }

    fn on_response(&self, ctx: &ReqCtx, resp: &mut ResponseHead) {
    }
}

/// A request without a user agent and without a hit is never convicted at the
/// default threshold: its only point is a nuisance point.
pub proof fn law_a_missing_agent_never_convicts_alone(
    mode: WafMode,
    o: Option<Offender>,
    stats: WafStats,
    now: Instant,
    limit: u32,
    base: int,
)
    ensures
        ({
            let waf = Waf { mode, threshold: DEFAULT_THRESHOLD };
            let s = sentence(waf, agent_judged(clean(), None), o, stats, now, limit, base);
            !s.refused && s.offender == o && s.ban is None
        }),
{
}

} // verus!
