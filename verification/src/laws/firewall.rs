//! What the firewall sees, what it counts, and what follows.

use vstd::prelude::*;
use vstd::utf8::encode_utf8;

use crate::http::{lemma_encode_sum, lookup, RequestView};
use crate::pattern::regex_finds;
use crate::text::{
    cut, digit_value, has_char, is_space, lemma_first_index, lemma_first_index_is, occurs, purged,
    replaced, starts,
};
use crate::time::Instant;
use crate::waf::{
    agent_judged, answers, ban_term, canonical, charged_if, clean, climbs, collapsed, decay_of,
    decided, entities_decoded, escape_leads, flagged, has_escape, hits_given, inspected, newcomer,
    normalized, path_judged, percent_decoded, query_judged, raised, referer_judged, rule_table,
    scanned, sentence, struck, struck_count, tallied, turned_away, uncloaked, unescaped, NormFlags,
    Offender, PatView, RuleView, VerdictView, Waf, WafMode, WafStats, DEFAULT_BAN_AFTER,
    DEFAULT_BAN_BASE, DEFAULT_THRESHOLD,
};

verus! {

// ---------------------------------------------------------------------------
// Encodings hide nothing
// ---------------------------------------------------------------------------

/// One byte, or what stands for it, read at the end of `a`: neither is part of an
/// escape that starts in `a`.
proof fn lemma_same_reading(a: Seq<u8>, x: Seq<u8>, y: Seq<u8>, b: Seq<u8>, plus: bool)
    requires
        x.len() > 0,
        y.len() > 0,
        digit_value(x[0] as char) >= 16,
        digit_value(y[0] as char) >= 16,
        unescaped(x + b, plus) == unescaped(y + b, plus),
    ensures
        unescaped(a + x + b, plus) == unescaped(a + y + b, plus),
    decreases a.len(),
{
    let s = a + x + b;
    let t = a + y + b;
    if a.len() == 0 {
        assert(s =~= x + b);
        assert(t =~= y + b);
    } else {
        assert(s[0] == a[0] && t[0] == a[0]);
        if a.len() == 1 {
            assert(s[1] == x[0] && t[1] == y[0]);
        } else if a.len() == 2 {
            assert(s[1] == a[1] && t[1] == a[1]);
            assert(s[2] == x[0] && t[2] == y[0]);
        } else {
            assert(s[1] == a[1] && t[1] == a[1]);
            assert(s[2] == a[2] && t[2] == a[2]);
        }
        assert(escape_leads(s) == escape_leads(t));
        let n: int = if escape_leads(s) {
            3
        } else {
            1
        };
        assert(n <= a.len());
        assert(s.skip(n) =~= a.skip(n) + x + b);
        assert(t.skip(n) =~= a.skip(n) + y + b);
        lemma_same_reading(a.skip(n), x, y, b, plus);
    }
}

/// The two digits write the byte.
pub open spec fn writes(hi: char, lo: char, c: char) -> bool {
    &&& digit_value(hi) < 16
    &&& digit_value(lo) < 16
    &&& digit_value(hi) * 16 + digit_value(lo) == c as int
}

proof fn lemma_ascii_bytes(s: Seq<char>)
    requires
        vstd::utf8::is_ascii_chars(s),
    ensures
        encode_utf8(s).len() == s.len(),
        forall|i: int| 0 <= i < s.len() ==> #[trigger] encode_utf8(s)[i] == s[i] as u8,
{
    vstd::utf8::is_ascii_chars_encode_utf8(s);
}

/// A plus sign and an escaped space are one thing in a query.
proof fn lemma_plus_is_a_space(a: Seq<char>, b: Seq<char>)
    ensures
        percent_decoded(a + seq!['+'] + b, true) == percent_decoded(a + seq!['%', '2', '0'] + b, true),
{
    let x = encode_utf8(seq!['+']);
    let y = encode_utf8(seq!['%', '2', '0']);
    let ea = encode_utf8(a);
    let eb = encode_utf8(b);
    lemma_ascii_bytes(seq!['+']);
    lemma_ascii_bytes(seq!['%', '2', '0']);
    assert(x =~= seq![43u8]);
    assert(y =~= seq![37u8, 50u8, 48u8]);
    lemma_encode_sum(a + seq!['+'], b);
    lemma_encode_sum(a, seq!['+']);
    lemma_encode_sum(a + seq!['%', '2', '0'], b);
    lemma_encode_sum(a, seq!['%', '2', '0']);
    let p = x + eb;
    let q = y + eb;
    assert(p[0] == 43);
    assert(p.skip(1) =~= eb);
    assert(q[0] == 37 && q[1] == 50 && q[2] == 48);
    assert(q.skip(3) =~= eb);
    assert(escape_leads(q));
    assert(!escape_leads(p));
    lemma_same_reading(ea, x, y, eb, true);
}

/// A character and its escape are one thing, except a digit (which an escape before it
/// could take for its own) and a percent sign.
proof fn lemma_escapes_hide_nothing(
    a: Seq<char>,
    c: char,
    hi: char,
    lo: char,
    b: Seq<char>,
    plus: bool,
)
    requires
        c <= '\u{7f}',
        digit_value(c) >= 16,
        c != '%',
        c == '+' ==> !plus,
        writes(hi, lo, c),
    ensures
        percent_decoded(a + seq![c] + b, plus) == percent_decoded(a + seq!['%', hi, lo] + b, plus),
{
    let x = encode_utf8(seq![c]);
    let y = encode_utf8(seq!['%', hi, lo]);
    let ea = encode_utf8(a);
    let eb = encode_utf8(b);
    lemma_ascii_bytes(seq![c]);
    lemma_ascii_bytes(seq!['%', hi, lo]);
    assert(x =~= seq![c as u8]);
    assert(y =~= seq![37u8, hi as u8, lo as u8]);
    lemma_encode_sum(a + seq![c], b);
    lemma_encode_sum(a, seq![c]);
    lemma_encode_sum(a + seq!['%', hi, lo], b);
    lemma_encode_sum(a, seq!['%', hi, lo]);
    let p = x + eb;
    let q = y + eb;
    assert(p[0] == c as u8);
    assert((c as u8) as char == c);
    assert((hi as u8) as char == hi);
    assert((lo as u8) as char == lo);
    assert(p.skip(1) =~= eb);
    assert(q[0] == 37 && q[1] == hi as u8 && q[2] == lo as u8);
    assert(q.skip(3) =~= eb);
    assert(escape_leads(q));
    assert(c as u8 != 37);
    assert(!escape_leads(p));
    lemma_same_reading(ea, x, y, eb, plus);
}

/// The target with a path and a query.
pub open spec fn target_of(path: Seq<char>, query: Seq<char>) -> Seq<char> {
    path + seq!['?'] + query
}

proof fn lemma_target_cuts(path: Seq<char>, query: Seq<char>)
    requires
        !has_char(path, '?'),
    ensures
        cut(target_of(path, query), '?') == Some((path, query)),
{
    let s = target_of(path, query);
    lemma_first_index(path, '?');
    assert forall|k: int| 0 <= k < path.len() implies s[k] != '?' by {
        assert(s[k] == path[k]);
    }
    lemma_first_index_is(s, '?', path.len() as int);
    assert(s.take(path.len() as int) =~= path);
    assert(s.skip(path.len() as int + 1) =~= query);
}

/// In a query a plus sign is a space: two requests of which one has `+` and the other
/// `%20` at one place of the query get the same score and the same hits.
pub proof fn law_a_plus_in_a_query_is_a_space(
    req: RequestView,
    path: Seq<char>,
    a: Seq<char>,
    b: Seq<char>,
)
    requires
        !has_char(path, '?'),
    ensures
        inspected(
            RequestView { target: target_of(path, a + seq!['+'] + b), ..req },
        ) == inspected(
            RequestView { target: target_of(path, a + seq!['%', '2', '0'] + b), ..req },
        ),
{
    lemma_plus_is_a_space(a, b);
    lemma_target_cuts(path, a + seq!['+'] + b);
    lemma_target_cuts(path, a + seq!['%', '2', '0'] + b);
}

/// Outside a query a plus sign is data: it is its own escape `%2B`, and no space.
pub proof fn law_a_plus_in_a_path_is_data(req: RequestView, a: Seq<char>, b: Seq<char>)
    requires
        !has_char(a + seq!['+'] + b, '?'),
        !has_char(a + seq!['%', '2', 'B'] + b, '?'),
    ensures
        inspected(RequestView { target: a + seq!['+'] + b, ..req }) == inspected(
            RequestView { target: a + seq!['%', '2', 'B'] + b, ..req },
        ),
{
    lemma_escapes_hide_nothing(a, '+', '2', 'B', b, false);
}

/// Escaping a character of the query, of the user agent or of the referer does not hide
/// it: the verdict is the same.
pub proof fn law_escapes_in_a_query_hide_nothing(
    req: RequestView,
    path: Seq<char>,
    a: Seq<char>,
    c: char,
    hi: char,
    lo: char,
    b: Seq<char>,
)
    requires
        !has_char(path, '?'),
        c <= '\u{7f}',
        digit_value(c) >= 16,
        c != '%',
        c != '+',
        writes(hi, lo, c),
    ensures
        inspected(
            RequestView { target: target_of(path, a + seq![c] + b), ..req },
        ) == inspected(
            RequestView { target: target_of(path, a + seq!['%', hi, lo] + b), ..req },
        ),
{
    lemma_escapes_hide_nothing(a, c, hi, lo, b, true);
    lemma_target_cuts(path, a + seq![c] + b);
    lemma_target_cuts(path, a + seq!['%', hi, lo] + b);
}

/// Escaping a character of a path does not hide it: the verdict is the same.
pub proof fn law_escapes_in_a_path_hide_nothing(
    req: RequestView,
    a: Seq<char>,
    c: char,
    hi: char,
    lo: char,
    b: Seq<char>,
)
    requires
        !has_char(a + seq![c] + b, '?'),
        !has_char(a + seq!['%', hi, lo] + b, '?'),
        c <= '\u{7f}',
        digit_value(c) >= 16,
        c != '%',
        writes(hi, lo, c),
    ensures
        inspected(RequestView { target: a + seq![c] + b, ..req }) == inspected(
            RequestView { target: a + seq!['%', hi, lo] + b, ..req },
        ),
{
    lemma_escapes_hide_nothing(a, c, hi, lo, b, false);
}

/// Escaping a character of the user agent or of the referer does not hide it either.
pub proof fn law_escapes_in_headers_hide_nothing(
    v: VerdictView,
    a: Seq<char>,
    c: char,
    hi: char,
    lo: char,
    b: Seq<char>,
)
    requires
        c <= '\u{7f}',
        digit_value(c) >= 16,
        c != '%',
        writes(hi, lo, c),
    ensures
        agent_judged(v, Some(a + seq![c] + b)) == agent_judged(
            v,
            Some(a + seq!['%', hi, lo] + b),
        ),
        referer_judged(v, Some(a + seq![c] + b)) == referer_judged(
            v,
            Some(a + seq!['%', hi, lo] + b),
        ),
{
    lemma_escapes_hide_nothing(a, c, hi, lo, b, false);
}

/// Plain text: ASCII, without a percent sign and without a plus sign.
pub open spec fn plain(s: Seq<char>) -> bool {
    &&& vstd::utf8::is_ascii_chars(s)
    &&& forall|i: int| 0 <= i < s.len() ==> (#[trigger] s[i]) != '%' && s[i] != '+'
}

proof fn lemma_plain_stays(a: Seq<u8>, b: Seq<u8>, plus: bool)
    requires
        forall|i: int| 0 <= i < a.len() ==> (#[trigger] a[i]) != 37 && a[i] != 43,
    ensures
        unescaped(a + b, plus) == a + unescaped(b, plus),
        has_escape(a + b, plus) == has_escape(b, plus),
    decreases a.len(),
{
    if a.len() == 0 {
        assert(a + b =~= b);
        assert(a + unescaped(b, plus) =~= unescaped(b, plus));
    } else {
        let s = a + b;
        assert(s[0] == a[0]);
        assert(s.skip(1) =~= a.drop_first() + b);
        assert forall|i: int| 0 <= i < a.drop_first().len() implies (#[trigger] a.drop_first()[i])
            != 37 && a.drop_first()[i] != 43 by {
            assert(a.drop_first()[i] == a[i + 1]);
        }
        lemma_plain_stays(a.drop_first(), b, plus);
        assert(seq![a[0]] + (a.drop_first() + unescaped(b, plus)) =~= a + unescaped(b, plus));
    }
}

/// An escape of an escape is found out: text around `%25` and two digits decodes to
/// text with an escape in it, which is flagged; plain text is not.
pub proof fn law_double_encoding_is_flagged(
    a: Seq<char>,
    hi: char,
    lo: char,
    b: Seq<char>,
    plus: bool,
)
    requires
        plain(a),
        plain(b),
        digit_value(hi) < 16,
        digit_value(lo) < 16,
    ensures
        raised(a + seq!['%', '2', '5', hi, lo] + b, plus).double_encoded,
        !raised(a, plus).double_encoded,
{
    let m = seq!['%', '2', '5', hi, lo];
    let w = a + m + b;
    let done = a + (seq!['%', hi, lo] + b);
    let ea = encode_utf8(a);
    let eb = encode_utf8(b);
    lemma_ascii_bytes(a);
    lemma_ascii_bytes(b);
    lemma_ascii_bytes(m);
    lemma_ascii_bytes(seq!['%', hi, lo]);
    lemma_encode_sum(a + m, b);
    lemma_encode_sum(a, m);
    lemma_encode_sum(a, seq!['%', hi, lo] + b);
    lemma_encode_sum(seq!['%', hi, lo], b);
    let em = encode_utf8(m);
    let ed = encode_utf8(seq!['%', hi, lo]);
    assert(em =~= seq![37u8, 50u8, 53u8, hi as u8, lo as u8]);
    assert(ed =~= seq![37u8, hi as u8, lo as u8]);
    assert((hi as u8) as char == hi && (lo as u8) as char == lo);
    assert forall|i: int| 0 <= i < ea.len() implies (#[trigger] ea[i]) != 37 && ea[i] != 43 by {
        assert('\0' <= a[i] <= '\u{7f}');
        assert(ea[i] == a[i] as u8);
    }
    let tail = seq![hi as u8, lo as u8] + eb;
    assert forall|i: int| 0 <= i < tail.len() implies (#[trigger] tail[i]) != 37 && tail[i] != 43 by {
        if i >= 2 {
            assert(tail[i] == eb[i - 2]);
            assert('\0' <= b[i - 2] <= '\u{7f}');
            assert(eb[i - 2] == b[i - 2] as u8);
        }
    }
    let mb = em + eb;
    assert(encode_utf8(w) =~= ea + mb);
    lemma_plain_stays(ea, mb, plus);
    assert(mb[0] == 37 && mb[1] == 50 && mb[2] == 53);
    assert(escape_leads(mb));
    assert(mb.skip(3) =~= tail);
    let none = Seq::<u8>::empty();
    lemma_plain_stays(tail, none, plus);
    assert(tail + none =~= tail);
    assert(unescaped(mb, plus) =~= seq![37u8] + tail);
    assert(seq![37u8] + tail =~= ed + eb);
    assert(unescaped(encode_utf8(w), plus) =~= encode_utf8(done));
    vstd::utf8::encode_utf8_valid_utf8(done);
    vstd::utf8::encode_utf8_decode_utf8(done);
    assert(percent_decoded(w, plus) == done);
    lemma_plain_stays(ea, ed + eb, false);
    let db = ed + eb;
    assert(db[0] == 37 && db[1] == hi as u8 && db[2] == lo as u8);
    assert(escape_leads(db));
    assert(has_escape(db, false));
    lemma_plain_stays(ea, none, plus);
    assert(ea + none =~= ea);
    vstd::utf8::encode_utf8_valid_utf8(a);
    vstd::utf8::encode_utf8_decode_utf8(a);
    lemma_plain_stays(ea, none, false);
}

proof fn lemma_purged(s: Seq<char>, c: char)
    ensures
        forall|i: int| 0 <= i < purged(s, c).len() ==> (#[trigger] purged(s, c)[i]) != c,
    decreases s.len(),
{
    if s.len() > 0 {
        let t = purged(s.drop_first(), c);
        lemma_purged(s.drop_first(), c);
        if s[0] != c {
            let r = seq![s[0]] + t;
            assert forall|i: int| 0 <= i < r.len() implies (#[trigger] r[i]) != c by {
                if i > 0 {
                    assert(r[i] == t[i - 1]);
                }
            }
        }
    }
}

proof fn lemma_collapsed(s: Seq<char>, after_space: bool)
    requires
        forall|i: int| 0 <= i < s.len() ==> (#[trigger] s[i]) != '\0',
    ensures
        ({
            let r = collapsed(s, after_space);
            &&& forall|i: int|
                0 <= i < r.len() ==> (#[trigger] r[i]) != '\0' && (is_space(r[i]) ==> r[i] == ' ')
            &&& forall|i: int| 0 < i < r.len() && r[i] == ' ' ==> (#[trigger] r[i - 1]) != ' '
            &&& r.len() > 0 && after_space ==> r[0] != ' '
        }),
    decreases s.len(),
{
    if s.len() > 0 {
        let t = s.drop_first();
        assert forall|i: int| 0 <= i < t.len() implies (#[trigger] t[i]) != '\0' by {
            assert(t[i] == s[i + 1]);
        }
        assert(s[0] != '\0');
        if is_space(s[0]) {
            lemma_collapsed(t, true);
            let u = collapsed(t, true);
            if !after_space {
                let r = seq![' '] + u;
                assert forall|i: int| 0 <= i < r.len() implies (#[trigger] r[i]) != '\0' && (
                is_space(r[i]) ==> r[i] == ' ') by {
                    if i > 0 {
                        assert(r[i] == u[i - 1]);
                    }
                }
                assert forall|i: int| 0 < i < r.len() && r[i] == ' ' implies (#[trigger] r[i - 1])
                    != ' ' by {
                    assert(r[i] == u[i - 1]);
                    if i > 1 {
                        assert(r[i - 1] == u[i - 2]);
                    }
                }
            }
        } else {
            lemma_collapsed(t, false);
            let u = collapsed(t, false);
            let r = seq![s[0]] + u;
            assert forall|i: int| 0 <= i < r.len() implies (#[trigger] r[i]) != '\0' && (is_space(
                r[i],
            ) ==> r[i] == ' ') by {
                if i > 0 {
                    assert(r[i] == u[i - 1]);
                }
            }
            assert forall|i: int| 0 < i < r.len() && r[i] == ' ' implies (#[trigger] r[i - 1])
                != ' ' by {
                assert(r[i] == u[i - 1]);
                if i > 1 {
                    assert(r[i - 1] == u[i - 2]);
                }
            }
        }
    }
}

/// What the rules see holds no NUL, no white space but single spaces, and no two of
/// these in a row; a NUL that was there is flagged.
pub proof fn law_padding_hides_nothing(raw: Seq<char>, plus: bool, i: int)
    requires
        0 <= i < normalized(raw, plus).len(),
    ensures
        normalized(raw, plus)[i] != '\0',
        is_space(normalized(raw, plus)[i]) ==> normalized(raw, plus)[i] == ' ',
        i > 0 && normalized(raw, plus)[i] == ' ' ==> normalized(raw, plus)[i - 1] != ' ',
        raised(raw, plus).null_byte <==> exists|k: int|
            0 <= k < uncloaked(raw, plus).len() && uncloaked(raw, plus)[k] == '\0',
{
    let u = uncloaked(raw, plus);
    lemma_purged(u, '\0');
    lemma_collapsed(purged(u, '\0'), false);
    lemma_first_index(u, '\0');
}

// ---------------------------------------------------------------------------
// Points
// ---------------------------------------------------------------------------

/// Whether a rule hits a text.
spec fn hit(pat: PatView, text: Seq<char>) -> bool {
    match pat {
        PatView::Sub(s) => occurs(text, s),
        PatView::Both(a, b) => occurs(text, a) && occurs(text, b),
        PatView::Re(e) => regex_finds(e, text),
    }
}

/// What one rule of a table adds to the score of a text.
#[verifier::opaque]
spec fn added(r: RuleView, text: Seq<char>) -> int {
    if hit(r.pat, text) {
        r.points
    } else {
        0
    }
}

spec fn points_in(t: Seq<RuleView>, text: Seq<char>, i: int) -> int
    decreases t.len() - i,
{
    if i < 0 || i >= t.len() {
        0
    } else {
        points_in(t, text, i + 1) + added(t[i], text)
    }
}

proof fn lemma_tally_adds(v: VerdictView, text: Seq<char>, i: int)
    requires
        0 <= i <= rule_table().len(),
    ensures
        tallied(v, text, answers(text), i).score == v.score + points_in(rule_table(), text, i),
    decreases rule_table().len() - i,
{
    if i < rule_table().len() {
        reveal(added);
        let r = rule_table()[i];
        let w = charged_if(v, hits_given(r.pat, text, answers(text)[i]), r.name, r.points);
        lemma_tally_adds(w, text, i + 1);
    }
}

spec fn p(on: bool, points: int) -> int {
    if on {
        points
    } else {
        0
    }
}

proof fn lemma_points_in(t: Seq<RuleView>, text: Seq<char>)
    requires
        t.len() == 15,
    ensures
        points_in(t, text, 0) == added(t[0], text) + added(t[1], text) + added(t[2], text) + added(t[3], text) + added(t[4], text) + added(t[5], text) + added(t[6], text) + added(t[7], text) + added(t[8], text) + added(t[9], text) + added(t[10], text) + added(t[11], text) + added(t[12], text) + added(t[13], text) + added(t[14], text),
{
    reveal_with_fuel(points_in, 16);
}

proof fn lemma_points_of_rules(t: Seq<RuleView>, text: Seq<char>)
    requires
        t[0].pat == PatView::Both("union"@, "select"@) && t[0].points == 10,
        t[1].pat == PatView::Re(r"(--|#|/\*)\s*$|/\*.*\*/"@) && t[1].points == 4,
        t[2].pat == PatView::Re(r"\b(or|and)\s+(\d+\s*=\s*\d+|'[^']*'\s*=\s*'[^']*')"@) && t[2].points == 8,
        t[3].pat == PatView::Re(r";\s*(drop|insert|update|delete|create|alter)\b"@) && t[3].points == 10,
        t[4].pat == PatView::Re(r"\b(sleep|benchmark|pg_sleep|waitfor)\s*\("@) && t[4].points == 8,
        t[5].pat == PatView::Sub("information_schema"@) && t[5].points == 6,
        t[6].pat == PatView::Sub("'"@) && t[6].points == 2,
        t[7].pat == PatView::Sub("<script"@) && t[7].points == 10,
        t[8].pat == PatView::Re(r"\bon(error|load|click|mouseover|focus|submit)\s*="@) && t[8].points == 8,
        t[9].pat == PatView::Sub("javascript:"@) && t[9].points == 8,
        t[10].pat == PatView::Re(r"<(img|svg|iframe|object|embed|body)\b"@) && t[10].points == 6,
        t[11].pat == PatView::Re(r"\b(eval|settimeout|setinterval|document\.cookie|window\.location)\b"@) && t[11].points == 6,
        t[12].pat == PatView::Sub("../"@) && t[12].points == 8,
        t[13].pat == PatView::Re(r"/etc/(passwd|shadow|hosts)|(^|/)proc/self|boot\.ini|win\.ini"@) && t[13].points == 8,
        t[14].pat == PatView::Re(r"\b(sqlmap|nikto|nessus|acunetix|dirbuster|gobuster|wpscan|masscan|zgrab)\b"@) && t[14].points == 10,
    ensures
        added(t[0], text) == (if occurs(text, "union"@) && occurs(text, "select"@) { 10int } else { 0 }),
        added(t[1], text) == (if regex_finds(r"(--|#|/\*)\s*$|/\*.*\*/"@, text) { 4int } else { 0 }),
        added(t[2], text) == (if regex_finds(r"\b(or|and)\s+(\d+\s*=\s*\d+|'[^']*'\s*=\s*'[^']*')"@, text) { 8int } else { 0 }),
        added(t[3], text) == (if regex_finds(r";\s*(drop|insert|update|delete|create|alter)\b"@, text) { 10int } else { 0 }),
        added(t[4], text) == (if regex_finds(r"\b(sleep|benchmark|pg_sleep|waitfor)\s*\("@, text) { 8int } else { 0 }),
        added(t[5], text) == (if occurs(text, "information_schema"@) { 6int } else { 0 }),
        added(t[6], text) == (if occurs(text, "'"@) { 2int } else { 0 }),
        added(t[7], text) == (if occurs(text, "<script"@) { 10int } else { 0 }),
        added(t[8], text) == (if regex_finds(r"\bon(error|load|click|mouseover|focus|submit)\s*="@, text) { 8int } else { 0 }),
        added(t[9], text) == (if occurs(text, "javascript:"@) { 8int } else { 0 }),
        added(t[10], text) == (if regex_finds(r"<(img|svg|iframe|object|embed|body)\b"@, text) { 6int } else { 0 }),
        added(t[11], text) == (if regex_finds(r"\b(eval|settimeout|setinterval|document\.cookie|window\.location)\b"@, text) { 6int } else { 0 }),
        added(t[12], text) == (if occurs(text, "../"@) { 8int } else { 0 }),
        added(t[13], text) == (if regex_finds(r"/etc/(passwd|shadow|hosts)|(^|/)proc/self|boot\.ini|win\.ini"@, text) { 8int } else { 0 }),
        added(t[14], text) == (if regex_finds(r"\b(sqlmap|nikto|nessus|acunetix|dirbuster|gobuster|wpscan|masscan|zgrab)\b"@, text) { 10int } else { 0 }),
{
    reveal(added);
}

proof fn lemma_table()
    ensures
        rule_table().len() == 15,
        rule_table()[0].pat == PatView::Both("union"@, "select"@) && rule_table()[0].points == 10,
        rule_table()[1].pat == PatView::Re(r"(--|#|/\*)\s*$|/\*.*\*/"@) && rule_table()[1].points == 4,
        rule_table()[2].pat == PatView::Re(r"\b(or|and)\s+(\d+\s*=\s*\d+|'[^']*'\s*=\s*'[^']*')"@) && rule_table()[2].points == 8,
        rule_table()[3].pat == PatView::Re(r";\s*(drop|insert|update|delete|create|alter)\b"@) && rule_table()[3].points == 10,
        rule_table()[4].pat == PatView::Re(r"\b(sleep|benchmark|pg_sleep|waitfor)\s*\("@) && rule_table()[4].points == 8,
        rule_table()[5].pat == PatView::Sub("information_schema"@) && rule_table()[5].points == 6,
        rule_table()[6].pat == PatView::Sub("'"@) && rule_table()[6].points == 2,
        rule_table()[7].pat == PatView::Sub("<script"@) && rule_table()[7].points == 10,
        rule_table()[8].pat == PatView::Re(r"\bon(error|load|click|mouseover|focus|submit)\s*="@) && rule_table()[8].points == 8,
        rule_table()[9].pat == PatView::Sub("javascript:"@) && rule_table()[9].points == 8,
        rule_table()[10].pat == PatView::Re(r"<(img|svg|iframe|object|embed|body)\b"@) && rule_table()[10].points == 6,
        rule_table()[11].pat == PatView::Re(r"\b(eval|settimeout|setinterval|document\.cookie|window\.location)\b"@) && rule_table()[11].points == 6,
        rule_table()[12].pat == PatView::Sub("../"@) && rule_table()[12].points == 8,
        rule_table()[13].pat == PatView::Re(r"/etc/(passwd|shadow|hosts)|(^|/)proc/self|boot\.ini|win\.ini"@) && rule_table()[13].points == 8,
        rule_table()[14].pat == PatView::Re(r"\b(sqlmap|nikto|nessus|acunetix|dirbuster|gobuster|wpscan|masscan|zgrab)\b"@) && rule_table()[14].points == 10,
{
}

/// Every rule that hits a text adds its points, and nothing else does: what each rule
/// looks for and what it is worth.
pub proof fn law_hits_add_their_points(v: VerdictView, text: Seq<char>)
    ensures
        scanned(v, text).score == v.score
            + (if occurs(text, "union"@) && occurs(text, "select"@) { 10int } else { 0 })
            + (if regex_finds(r"(--|#|/\*)\s*$|/\*.*\*/"@, text) { 4int } else { 0 })
            + (if regex_finds(
                r"\b(or|and)\s+(\d+\s*=\s*\d+|'[^']*'\s*=\s*'[^']*')"@,
                text,
            ) { 8int } else { 0 })
            + (if regex_finds(
                r";\s*(drop|insert|update|delete|create|alter)\b"@,
                text,
            ) { 10int } else { 0 })
            + (if regex_finds(
                r"\b(sleep|benchmark|pg_sleep|waitfor)\s*\("@,
                text,
            ) { 8int } else { 0 })
            + (if occurs(text, "information_schema"@) { 6int } else { 0 })
            + (if occurs(text, "'"@) { 2int } else { 0 })
            + (if occurs(text, "<script"@) { 10int } else { 0 })
            + (if regex_finds(
                r"\bon(error|load|click|mouseover|focus|submit)\s*="@,
                text,
            ) { 8int } else { 0 })
            + (if occurs(text, "javascript:"@) { 8int } else { 0 })
            + (if regex_finds(r"<(img|svg|iframe|object|embed|body)\b"@, text) { 6int } else { 0 })
            + (if regex_finds(
                r"\b(eval|settimeout|setinterval|document\.cookie|window\.location)\b"@,
                text,
            ) { 6int } else { 0 })
            + (if occurs(text, "../"@) { 8int } else { 0 })
            + (if regex_finds(
                r"/etc/(passwd|shadow|hosts)|(^|/)proc/self|boot\.ini|win\.ini"@,
                text,
            ) { 8int } else { 0 })
            + (if regex_finds(
                r"\b(sqlmap|nikto|nessus|acunetix|dirbuster|gobuster|wpscan|masscan|zgrab)\b"@,
                text,
            ) { 10int } else { 0 }),
{
    lemma_tally_adds(v, text, 0);
    lemma_table();
    lemma_points_in(rule_table(), text);
    lemma_points_of_rules(rule_table(), text);
}

/// The score of a text that was scanned alone.
pub open spec fn score_of(text: Seq<char>) -> int {
    scanned(clean(), text).score
}

proof fn lemma_scan_adds(v: VerdictView, text: Seq<char>)
    ensures
        scanned(v, text).score == v.score + score_of(text),
        score_of(text) >= 0,
{
    lemma_tally_adds(v, text, 0);
    lemma_tally_adds(clean(), text, 0);
    law_hits_add_their_points(clean(), text);
}

/// The points of the flags.
pub open spec fn flag_points(f: NormFlags) -> int {
    (if f.double_encoded {
        4int
    } else {
        0
    }) + (if f.null_byte {
        6int
    } else {
        0
    })
}

/// The score of a request is the sum over its surfaces: the path as it is and as it
/// resolves, the query, the user agent and the referer. An escape of an escape costs 4
/// points, a NUL 6, a climb above the root 8, and a missing user agent 1.
pub proof fn law_every_surface_counts(req: RequestView, path: Seq<char>, query: Option<Seq<char>>)
    requires
        match query {
            Some(q) => !has_char(path, '?') && req.target == target_of(path, q),
            None => !has_char(path, '?') && req.target == path,
        },
    ensures
        ({
            let t = normalized(path, false);
            inspected(req).score == flag_points(raised(path, false)) + (if climbs(t) {
                8int
            } else {
                0
            }) + score_of(t) + (if canonical(t) != t {
                score_of(canonical(t))
            } else {
                0
            }) + (match query {
                Some(q) => flag_points(raised(q, true)) + score_of(normalized(q, true)),
                None => 0,
            }) + (match lookup(req.headers, "user-agent"@) {
                Some(ua) => score_of(normalized(ua, false)),
                None => 1,
            }) + (match lookup(req.headers, "referer"@) {
                Some(r) => score_of(normalized(r, false)),
                None => 0,
            })
        }),
{
    match query {
        Some(q) => {
            lemma_target_cuts(path, q);
        },
        None => {},
    }
    let t = normalized(path, false);
    let v0 = charged_if(
        flagged(clean(), raised(path, false)),
        climbs(t),
        "traversal:climb-above-root"@,
        8,
    );
    assert(v0.score == flag_points(raised(path, false)) + p(climbs(t), 8));
    lemma_scan_adds(v0, t);
    let v1 = scanned(v0, t);
    lemma_scan_adds(v1, canonical(t));
    let v2 = path_judged(clean(), path);
    assert(v2 == if canonical(t) != t { scanned(v1, canonical(t)) } else { v1 });
    let v3 = query_judged(v2, query);
    if let Some(q) = query {
        lemma_scan_adds(flagged(v2, raised(q, true)), normalized(q, true));
    }
    let agent = lookup(req.headers, "user-agent"@);
    let v4 = agent_judged(v3, agent);
    if let Some(ua) = agent {
        lemma_scan_adds(v3, normalized(ua, false));
    }
    let referer = lookup(req.headers, "referer"@);
    if let Some(r) = referer {
        lemma_scan_adds(v4, normalized(r, false));
    }
}

// ---------------------------------------------------------------------------
// What follows
// ---------------------------------------------------------------------------

/// A request is refused exactly where a blocking firewall's threshold is reached by a
/// score that is not 0, and the refusal is a 403; a watching firewall refuses nothing.
/// Below the threshold nothing is remembered of the source; from it on it has one
/// strike more.
pub proof fn law_the_threshold_convicts(
    waf: Waf,
    v: VerdictView,
    o: Option<Offender>,
    stats: WafStats,
    now: Instant,
    limit: u32,
    base: int,
)
    requires
        0 <= v.score <= u32::MAX,
        stats.convicted < u64::MAX,
        stats.detected < u64::MAX,
    ensures
        ({
            let s = sentence(waf, v, o, stats, now, limit, base);
            let guilty = v.score > 0 && v.score >= waf.threshold;
            &&& decided(s) is Some <==> guilty && waf.mode == WafMode::Block
            &&& decided(s) matches Some(r) ==> r.status == 403
            &&& !guilty ==> s.offender == o && s.stats == stats && s.ban is None
            &&& guilty ==> s.offender is Some && s.offender->0.last_strike == now
            &&& guilty && waf.mode == WafMode::Block ==> s.stats.convicted == stats.convicted + 1
                && s.stats.detected == stats.detected
            &&& guilty && waf.mode == WafMode::Detect ==> s.stats.detected == stats.detected + 1
                && s.stats.convicted == stats.convicted && s.ban is None
            &&& s.score == if v.score == 0 {
                None
            } else {
                Some(v.score as u32)
            }
        }),
{
}

/// An offender after `n` more strikes at one time.
pub open spec fn struck_times(o: Offender, now: Instant, ban_after: u32, base: int, n: nat) -> Offender
    decreases n,
{
    if n == 0 {
        o
    } else {
        struck(struck_times(o, now, ban_after, base, (n - 1) as nat), now, true, ban_after, base)
    }
}

/// The strike that reaches the limit bans, and none before it: the first ban lasts the
/// base, and at most an hour.
pub proof fn law_the_limit_bans(now: Instant, ban_after: u32, base: int, n: nat)
    requires
        0 < base,
        1 <= n <= ban_after,
    ensures
        ({
            let o = struck_times(newcomer(now), now, ban_after, base, n);
            if n < ban_after {
                o.strikes == n && o.banned_until is None && o.bans == 0 && o.last_strike == now
            } else {
                o.bans == 1 && o.strikes == 0 && o.banned_until == Some(
                    (now.nanos + if base <= 3_600_000_000_000 {
                        base
                    } else {
                        3_600_000_000_000
                    }) as u128,
                )
            }
        }),
    decreases n,
{
    reveal_with_fuel(crate::waf::backoff, 2);
    if n > 1 {
        law_the_limit_bans(now, ban_after, base, (n - 1) as nat);
    } else {
        assert(struck_times(newcomer(now), now, ban_after, base, 0) == newcomer(now));
    }
    assert(base * 1 == base);
}

/// Strikes count for ten times the base, and no longer: a later one starts anew.
pub proof fn law_old_strikes_stop_counting(o: Offender, now: Instant, base: int)
    requires
        0 <= base,
        base * 10 <= crate::time::MAX_NANOS,
        o.last_strike.nanos <= now.nanos,
        o.strikes < u32::MAX,
    ensures
        struck_count(o, now, decay_of(base)) == if now.nanos - o.last_strike.nanos > 10 * base {
            1
        } else {
            (o.strikes + 1) as u32
        },
{
}

/// Two to the power of `n`.
pub open spec fn two_to(n: nat) -> int
    decreases n,
{
    if n == 0 {
        1
    } else {
        2 * two_to((n - 1) as nat)
    }
}

/// A ban lasts the base, doubled for each ban before it up to the sixth, and at most an
/// hour.
pub proof fn law_repeated_bans_last_longer(base: int, bans: nat)
    ensures
        ({
            let grown = base * two_to(if bans < 6 {
                bans
            } else {
                6
            });
            ban_term(base, bans as int) == if grown <= 3_600_000_000_000 {
                grown
            } else {
                3_600_000_000_000
            }
        }),
{
    reveal_with_fuel(crate::waf::backoff, 8);
    reveal_with_fuel(two_to, 8);
}

/// A banned source is turned away by a blocking firewall until its ban ends, and by no
/// other.
pub proof fn law_the_banned_are_turned_away(waf: Waf, o: Offender, until: u128, now: Instant)
    requires
        o.banned_until == Some(until),
    ensures
        turned_away(waf, Some(o), now) <==> waf.mode == WafMode::Block && now.nanos < until,
        !turned_away(waf, None, now),
        !turned_away(waf, Some(Offender { banned_until: None, ..o }), now),
{
}

/// Where nothing is set, ten points convict, three strikes ban, and the first ban lasts
/// a minute.
pub proof fn law_the_defaults_of_the_firewall()
    ensures
        DEFAULT_THRESHOLD == 10,
        DEFAULT_BAN_AFTER == 3,
        DEFAULT_BAN_BASE == 60 * 1_000_000_000,
{
}

// ---------------------------------------------------------------------------
// Entities
// ---------------------------------------------------------------------------

/// The entities that hide angle brackets and quotes, with what they stand for.
pub open spec fn entities() -> Seq<(Seq<char>, Seq<char>)> {
    seq![
        ("&lt;"@, "<"@),
        ("&gt;"@, ">"@),
        ("&quot;"@, "\""@),
        ("&apos;"@, "'"@),
        ("&#x27;"@, "'"@),
        ("&#39;"@, "'"@),
        ("&#x3c;"@, "<"@),
        ("&#60;"@, "<"@),
        ("&#x3e;"@, ">"@),
        ("&#62;"@, ">"@),
    ]
}

/// A text with the first entities of a table decoded, one after the other.
spec fn decoded_by(s: Seq<char>, t: Seq<(Seq<char>, Seq<char>)>) -> Seq<char>
    decreases t.len(),
{
    if t.len() == 0 {
        s
    } else {
        replaced(decoded_by(s, t.drop_last()), t.last().0, t.last().1)
    }
}

/// The form of an entity: an ampersand in front and a semicolon behind, and neither
/// between.
spec fn is_entity(e: Seq<char>) -> bool {
    &&& e.len() >= 2
    &&& e[0] == '&'
    &&& forall|k: int| 0 < k < e.len() ==> #[trigger] e[k] != '&'
    &&& e.last() == ';'
    &&& forall|k: int| 0 <= k < e.len() - 1 ==> #[trigger] e[k] != ';'
}

proof fn lemma_nothing_replaced(s: Seq<char>, p: Seq<char>, r: Seq<char>)
    requires
        p.len() > 0,
        forall|k: int| 0 <= k < s.len() ==> !starts(#[trigger] s.skip(k), p),
    ensures
        replaced(s, p, r) == s,
{
    crate::text::lemma_first_match_is(s, p, s.len() as int);
}

proof fn lemma_no_entity(s: Seq<char>, p: Seq<char>, r: Seq<char>)
    requires
        is_entity(p),
        forall|k: int| 0 <= k < s.len() ==> #[trigger] s[k] != '&',
    ensures
        replaced(s, p, r) == s,
{
    assert forall|k: int| 0 <= k < s.len() implies !starts(#[trigger] s.skip(k), p) by {
        if starts(s.skip(k), p) {
            assert(s.skip(k).take(p.len() as int)[0] == p[0]);
            assert(s.skip(k)[0] == s[k]);
        }
    }
    lemma_nothing_replaced(s, p, r);
}

proof fn lemma_other_entity(a: Seq<char>, e: Seq<char>, b: Seq<char>, p: Seq<char>, r: Seq<char>)
    requires
        is_entity(e),
        is_entity(p),
        p != e,
        forall|k: int| 0 <= k < a.len() ==> #[trigger] a[k] != '&',
        forall|k: int| 0 <= k < b.len() ==> #[trigger] b[k] != '&',
    ensures
        replaced(a + e + b, p, r) == a + e + b,
{
    let s = a + e + b;
    assert forall|k: int| 0 <= k < s.len() implies !starts(#[trigger] s.skip(k), p) by {
        if starts(s.skip(k), p) {
            let t = s.skip(k);
            let n = p.len() as int;
            assert forall|j: int| 0 <= j < n implies #[trigger] p[j] == s[k + j] by {
                assert(t.take(n)[j] == p[j]);
                assert(t[j] == s[k + j]);
            }
            assert(s[k] == '&') by {
                assert(p[0] == s[k + 0]);
            }
            if k < a.len() {
                assert(s[k] == a[k]);
            } else if k >= a.len() + e.len() {
                assert(s[k] == b[k - a.len() - e.len()]);
            } else {
                assert(s[k] == e[k - a.len()]);
                assert(k == a.len());
                if n <= e.len() {
                    assert(p[n - 1] == s[k + n - 1]);
                    assert(s[k + n - 1] == e[n - 1]);
                    assert(n == e.len());
                    assert forall|j: int| 0 <= j < n implies p[j] == e[j] by {
                        assert(p[j] == s[k + j]);
                        assert(s[k + j] == e[j]);
                    }
                    assert(p =~= e);
                } else {
                    let l = e.len() as int;
                    assert(p[l - 1] == s[k + l - 1]);
                    assert(s[k + l - 1] == e[l - 1]);
                }
            }
        }
    }
    lemma_nothing_replaced(s, p, r);
}

proof fn lemma_the_entity(a: Seq<char>, e: Seq<char>, b: Seq<char>, r: Seq<char>)
    requires
        is_entity(e),
        forall|k: int| 0 <= k < a.len() ==> #[trigger] a[k] != '&',
        forall|k: int| 0 <= k < b.len() ==> #[trigger] b[k] != '&',
    ensures
        replaced(a + e + b, e, r) == a + r + b,
{
    let s = a + e + b;
    let i = a.len() as int;
    assert(s.skip(i).take(e.len() as int) =~= e);
    assert forall|k: int| 0 <= k < i implies !starts(#[trigger] s.skip(k), e) by {
        if starts(s.skip(k), e) {
            assert(s.skip(k).take(e.len() as int)[0] == e[0]);
            assert(s.skip(k)[0] == s[k]);
            assert(s[k] == a[k]);
        }
    }
    crate::text::lemma_first_match_is(s, e, i);
    assert(s.take(i) =~= a);
    assert(s.skip(i + e.len()) =~= b);
    lemma_no_entity(b, e, r);
}

proof fn lemma_decoded_by(
    a: Seq<char>,
    b: Seq<char>,
    all: Seq<(Seq<char>, Seq<char>)>,
    i: int,
    n: int,
)
    requires
        0 <= i < all.len(),
        0 <= n <= all.len(),
        forall|j: int| 0 <= j < all.len() ==> is_entity((#[trigger] all[j]).0),
        forall|j: int| 0 <= j < all.len() && j != i ==> (#[trigger] all[j]).0 != all[i].0,
        forall|k: int| 0 <= k < all[i].1.len() ==> #[trigger] all[i].1[k] != '&',
        forall|k: int| 0 <= k < a.len() ==> #[trigger] a[k] != '&',
        forall|k: int| 0 <= k < b.len() ==> #[trigger] b[k] != '&',
    ensures
        decoded_by(a + all[i].0 + b, all.take(n)) == if i < n {
            a + all[i].1 + b
        } else {
            a + all[i].0 + b
        },
    decreases n,
{
    if n > 0 {
        lemma_decoded_by(a, b, all, i, n - 1);
        let t = all.take(n);
        assert(t.drop_last() =~= all.take(n - 1));
        assert(t.last() == all[n - 1]);
        let (p, r) = all[n - 1];
        if n - 1 < i {
            lemma_other_entity(a, all[i].0, b, p, r);
        } else if n - 1 == i {
            lemma_the_entity(a, p, b, r);
        } else {
            let s = a + all[i].1 + b;
            assert forall|k: int| 0 <= k < s.len() implies #[trigger] s[k] != '&' by {
                if k < a.len() {
                    assert(s[k] == a[k]);
                } else if k < a.len() + all[i].1.len() {
                    assert(s[k] == all[i].1[k - a.len()]);
                } else {
                    assert(s[k] == b[k - a.len() - all[i].1.len()]);
                }
            }
            lemma_no_entity(s, p, r);
        }
    }
}

proof fn lemma_the_table_of_entities(i: int)
    requires
        0 <= i < 10,
    ensures
        forall|j: int| 0 <= j < 10 ==> is_entity((#[trigger] entities()[j]).0),
        forall|j: int| 0 <= j < 10 && j != i ==> (#[trigger] entities()[j]).0 != entities()[i].0,
        forall|k: int| 0 <= k < entities()[i].1.len() ==> #[trigger] entities()[i].1[k] != '&',
{
    let t = entities();
    reveal_strlit("&lt;");
    reveal_strlit("&gt;");
    reveal_strlit("&quot;");
    reveal_strlit("&apos;");
    reveal_strlit("&#x27;");
    reveal_strlit("&#39;");
    reveal_strlit("&#x3c;");
    reveal_strlit("&#60;");
    reveal_strlit("&#x3e;");
    reveal_strlit("&#62;");
    reveal_strlit("<");
    reveal_strlit(">");
    reveal_strlit("\"");
    reveal_strlit("'");
    assert(is_entity(t[0].0));
    assert(is_entity(t[1].0));
    assert(is_entity(t[2].0));
    assert(is_entity(t[3].0));
    assert(is_entity(t[4].0));
    assert(is_entity(t[5].0));
    assert(is_entity(t[6].0));
    assert(is_entity(t[7].0));
    assert(is_entity(t[8].0));
    assert(is_entity(t[9].0));
    assert(t[0].0[1] != t[1].0[1]);
    assert(t[0].0[1] != t[2].0[1]);
    assert(t[0].0[1] != t[3].0[1]);
    assert(t[0].0[1] != t[4].0[1]);
    assert(t[0].0[1] != t[5].0[1]);
    assert(t[0].0[1] != t[6].0[1]);
    assert(t[0].0[1] != t[7].0[1]);
    assert(t[0].0[1] != t[8].0[1]);
    assert(t[0].0[1] != t[9].0[1]);
    assert(t[1].0[1] != t[2].0[1]);
    assert(t[1].0[1] != t[3].0[1]);
    assert(t[1].0[1] != t[4].0[1]);
    assert(t[1].0[1] != t[5].0[1]);
    assert(t[1].0[1] != t[6].0[1]);
    assert(t[1].0[1] != t[7].0[1]);
    assert(t[1].0[1] != t[8].0[1]);
    assert(t[1].0[1] != t[9].0[1]);
    assert(t[2].0[1] != t[3].0[1]);
    assert(t[2].0[1] != t[4].0[1]);
    assert(t[2].0[1] != t[5].0[1]);
    assert(t[2].0[1] != t[6].0[1]);
    assert(t[2].0[1] != t[7].0[1]);
    assert(t[2].0[1] != t[8].0[1]);
    assert(t[2].0[1] != t[9].0[1]);
    assert(t[3].0[1] != t[4].0[1]);
    assert(t[3].0[1] != t[5].0[1]);
    assert(t[3].0[1] != t[6].0[1]);
    assert(t[3].0[1] != t[7].0[1]);
    assert(t[3].0[1] != t[8].0[1]);
    assert(t[3].0[1] != t[9].0[1]);
    assert(t[4].0[2] != t[5].0[2]);
    assert(t[4].0[3] != t[6].0[3]);
    assert(t[4].0[2] != t[7].0[2]);
    assert(t[4].0[3] != t[8].0[3]);
    assert(t[4].0[2] != t[9].0[2]);
    assert(t[5].0[2] != t[6].0[2]);
    assert(t[5].0[2] != t[7].0[2]);
    assert(t[5].0[2] != t[8].0[2]);
    assert(t[5].0[2] != t[9].0[2]);
    assert(t[6].0[2] != t[7].0[2]);
    assert(t[6].0[4] != t[8].0[4]);
    assert(t[6].0[2] != t[9].0[2]);
    assert(t[7].0[2] != t[8].0[2]);
    assert(t[7].0[3] != t[9].0[3]);
    assert(t[8].0[2] != t[9].0[2]);
    assert forall|j: int| 0 <= j < 10 implies is_entity((#[trigger] t[j]).0) by {
        assert(j == 0 || j == 1 || j == 2 || j == 3 || j == 4 || j == 5 || j == 6 || j == 7 || j
            == 8 || j == 9);
    }
    assert forall|j: int| 0 <= j < 10 && j != i implies (#[trigger] t[j]).0 != t[i].0 by {
        assert(j == 0 || j == 1 || j == 2 || j == 3 || j == 4 || j == 5 || j == 6 || j == 7 || j
            == 8 || j == 9);
        assert(i == 0 || i == 1 || i == 2 || i == 3 || i == 4 || i == 5 || i == 6 || i == 7 || i
            == 8 || i == 9);
    }
    assert(i == 0 || i == 1 || i == 2 || i == 3 || i == 4 || i == 5 || i == 6 || i == 7 || i == 8
        || i == 9);
}

/// An entity stands for its character, whatever stands around it.
pub proof fn law_entities_hide_nothing(a: Seq<char>, i: int, b: Seq<char>)
    requires
        0 <= i < 10,
        forall|k: int| 0 <= k < a.len() ==> #[trigger] a[k] != '&',
        forall|k: int| 0 <= k < b.len() ==> #[trigger] b[k] != '&',
    ensures
        entities_decoded(a + entities()[i].0 + b) == a + entities()[i].1 + b,
        entities_decoded(a) == a,
{
    let t = entities();
    lemma_the_table_of_entities(i);
    lemma_decoded_by(a, b, t, i, 10);
    assert(t.take(10) =~= t);
    lemma_entities_in_turn(a + t[i].0 + b);
    lemma_entities_in_turn(a);
    lemma_plain_text(a, t, 10);
}

proof fn lemma_plain_text(a: Seq<char>, all: Seq<(Seq<char>, Seq<char>)>, n: int)
    requires
        0 <= n <= all.len(),
        forall|j: int| 0 <= j < all.len() ==> is_entity((#[trigger] all[j]).0),
        forall|k: int| 0 <= k < a.len() ==> #[trigger] a[k] != '&',
    ensures
        decoded_by(a, all.take(n)) == a,
    decreases n,
{
    if n > 0 {
        lemma_plain_text(a, all, n - 1);
        assert(all.take(n).drop_last() =~= all.take(n - 1));
        lemma_no_entity(a, all[n - 1].0, all[n - 1].1);
    }
}

proof fn lemma_one_entity_more(s: Seq<char>, n: int)
    requires
        0 <= n < 10,
    ensures
        decoded_by(s, entities().take(n + 1)) == replaced(
            decoded_by(s, entities().take(n)),
            entities()[n].0,
            entities()[n].1,
        ),
{
    assert(entities().take(n + 1).drop_last() =~= entities().take(n));
}

proof fn lemma_entities_in_turn(s: Seq<char>)
    ensures
        entities_decoded(s) == decoded_by(s, entities()),
{
    assert(decoded_by(s, entities().take(0)) == s);
    lemma_one_entity_more(s, 0);
    lemma_one_entity_more(s, 1);
    lemma_one_entity_more(s, 2);
    lemma_one_entity_more(s, 3);
    lemma_one_entity_more(s, 4);
    lemma_one_entity_more(s, 5);
    lemma_one_entity_more(s, 6);
    lemma_one_entity_more(s, 7);
    lemma_one_entity_more(s, 8);
    lemma_one_entity_more(s, 9);
    assert(entities().take(10) =~= entities());
}

} // verus!
