//! Text as a sequence of characters: searching, splitting, trimming, numbers.
//!
//! The specification of every helper is a function on `Seq<char>`; parsers in
//! other modules state their grammars with these functions.

use vstd::prelude::*;
use vstd::string::{StrSliceExecFns, StringExecFns};
use vstd::utf8::{decode_utf8, valid_utf8};

verus! {

// ---------------------------------------------------------------------------
// Trusted: the parts of std's strings that come without a specification.
// ---------------------------------------------------------------------------

/// `String::push` appends one character to the end of the string.
pub assume_specification[ String::push ](s: &mut String, c: char)
    ensures
        final(s)@ == old(s)@.push(c),
;

/// What `String::from_utf8_lossy` makes of bytes.
pub uninterp spec fn lossy_text(bytes: Seq<u8>) -> Seq<char>;

/// `String::from_utf8_lossy` decodes UTF-8 and puts a replacement character for
/// each invalid sequence; where the bytes are valid it is plain decoding.
#[verifier::external_body]
fn decode_lossy(bytes: &[u8]) -> (r: String)
    ensures
        r@ == lossy_text(bytes@),
        valid_utf8(bytes@) ==> r@ == decode_utf8(bytes@),
{
    String::from_utf8_lossy(bytes).into_owned()
}

/// The text of bytes: plain decoding where they are UTF-8.
pub open spec fn bytes_text(bytes: Seq<u8>) -> Seq<char> {
    if valid_utf8(bytes) {
        decode_utf8(bytes)
    } else {
        lossy_text(bytes)
    }
}

/// The text of bytes.
pub fn read_bytes(bytes: &[u8]) -> (r: String)
    ensures
        r@ == bytes_text(bytes@),
{
    decode_lossy(bytes)
}

/// What `{:?}` prints of a text: the text in quotes, with escapes inside.
pub uninterp spec fn debug_text(s: Seq<char>) -> Seq<char>;

/// `format!` with `{:?}` on a `str`: quotes around the text, and inside them the
/// escapes that std's `Debug` chooses.
#[verifier::external_body]
pub(crate) fn quoted(s: &str) -> (r: String)
    ensures
        r@ == debug_text(s@),
{
    format!("{:?}", s)
}

/// What `{:?}` prints of a character.
pub uninterp spec fn debug_char(c: char) -> Seq<char>;

/// `format!` with `{:?}` on a `char`: single quotes, and inside them the character
/// or its escape.
#[verifier::external_body]
pub(crate) fn quoted_char(c: char) -> (r: String)
    ensures
        r@ == debug_char(c),
{
    format!("{:?}", c)
}

// ---------------------------------------------------------------------------
// Characters
// ---------------------------------------------------------------------------

/// The characters with Unicode's `White_Space` property.
pub open spec fn is_space(c: char) -> bool {
    ||| '\u{9}' <= c <= '\u{d}'
    ||| c == ' '
    ||| c == '\u{85}'
    ||| c == '\u{a0}'
    ||| c == '\u{1680}'
    ||| '\u{2000}' <= c <= '\u{200a}'
    ||| c == '\u{2028}'
    ||| c == '\u{2029}'
    ||| c == '\u{202f}'
    ||| c == '\u{205f}'
    ||| c == '\u{3000}'
}

/// Whether `c` is white space.
pub fn space(c: char) -> (r: bool)
    ensures
        r == is_space(c),
{
    ('\u{9}' <= c && c <= '\u{d}') || c == ' ' || c == '\u{85}' || c == '\u{a0}' || c == '\u{1680}'
        || ('\u{2000}' <= c && c <= '\u{200a}') || c == '\u{2028}' || c == '\u{2029}' || c
        == '\u{202f}' || c == '\u{205f}' || c == '\u{3000}'
}

/// The control characters (Unicode general category `Cc`).
pub open spec fn is_control(c: char) -> bool {
    c <= '\u{1f}' || '\u{7f}' <= c <= '\u{9f}'
}

/// Whether `c` is a control character.
pub fn control(c: char) -> (r: bool)
    ensures
        r == is_control(c),
{
    c <= '\u{1f}' || ('\u{7f}' <= c && c <= '\u{9f}')
}

/// An ASCII decimal digit.
pub open spec fn is_digit(c: char) -> bool {
    '0' <= c <= '9'
}

/// Whether `c` is an ASCII decimal digit.
pub fn digit(c: char) -> (r: bool)
    ensures
        r == is_digit(c),
{
    '0' <= c && c <= '9'
}

/// An ASCII letter.
pub open spec fn is_alpha(c: char) -> bool {
    'a' <= c <= 'z' || 'A' <= c <= 'Z'
}

/// Whether `c` is an ASCII letter.
pub fn alpha(c: char) -> (r: bool)
    ensures
        r == is_alpha(c),
{
    ('a' <= c && c <= 'z') || ('A' <= c && c <= 'Z')
}

/// The ASCII lower case of one character; every other character is its own.
pub open spec fn lower_char(c: char) -> char {
    if 'A' <= c <= 'Z' {
        ((c as int) + 32) as char
    } else {
        c
    }
}

/// One character in ASCII lower case.
pub fn lowered(c: char) -> (r: char)
    ensures
        r == lower_char(c),
{
    if 'A' <= c && c <= 'Z' {
        ((c as u8) + 32) as char
    } else {
        c
    }
}

/// A text in ASCII lower case.
pub open spec fn lower(s: Seq<char>) -> Seq<char> {
    Seq::new(s.len(), |i: int| lower_char(s[i]))
}

/// Two texts are equal up to ASCII case.
pub open spec fn same_fold(a: Seq<char>, b: Seq<char>) -> bool {
    lower(a) == lower(b)
}

// ---------------------------------------------------------------------------
// Views of owned text
// ---------------------------------------------------------------------------

/// The texts of a sequence of strings.
pub open spec fn texts(v: Seq<String>) -> Seq<Seq<char>> {
    Seq::new(v.len(), |i: int| v[i]@)
}

/// The texts of a sequence of borrowed strings.
pub open spec fn slices(v: Seq<&str>) -> Seq<Seq<char>> {
    Seq::new(v.len(), |i: int| v[i]@)
}

/// The texts of a sequence of pairs of strings.
pub open spec fn pairs(v: Seq<(String, String)>) -> Seq<(Seq<char>, Seq<char>)> {
    Seq::new(v.len(), |i: int| (v[i].0@, v[i].1@))
}

/// The text of an optional string.
pub open spec fn maybe(s: Option<String>) -> Option<Seq<char>> {
    match s {
        Some(t) => Some(t@),
        None => None,
    }
}

/// The characters of a text.
pub fn chars_of(s: &str) -> (v: Vec<char>)
    ensures
        v@ == s@,
{
    let mut v: Vec<char> = Vec::new();
    for c in it: s.chars()
        invariant
            it.seq() == s@,
            v@ == s@.take(it.index()),
    {
        v.push(c);
        assert(s@.take(it.index() as int).push(c) =~= s@.take(it.index() + 1));
    }
    v
}

/// Whether two texts are equal.
pub fn same(a: &str, b: &str) -> (r: bool)
    ensures
        r == (a@ == b@),
{
    let x = chars_of(a);
    let y = chars_of(b);
    if x.len() != y.len() {
        return false;
    }
    let mut i: usize = 0;
    while i < x.len()
        invariant
            i <= x.len(),
            x.len() == y.len(),
            x@ == a@,
            y@ == b@,
            forall|k: int| 0 <= k < i ==> x@[k] == y@[k],
        decreases x.len() - i,
    {
        if x[i] != y[i] {
            assert(a@[i as int] != b@[i as int]);
            return false;
        }
        i = i + 1;
    }
    assert(a@ =~= b@);
    true
}

/// A text in ASCII lower case.
pub fn lowercase(s: &str) -> (r: String)
    ensures
        r@ == lower(s@),
{
    let mut r = String::new();
    for c in it: s.chars()
        invariant
            it.seq() == s@,
            r@ == lower(s@.take(it.index())),
    {
        r.push(lowered(c));
        assert(lower(s@.take(it.index() as int)).push(lower_char(c)) =~= lower(
            s@.take(it.index() + 1),
        ));
    }
    assert(s@.take(s@.len() as int) =~= s@);
    r
}

/// The ASCII upper case of one character; every other character is its own.
pub open spec fn upper_char(c: char) -> char {
    if 'a' <= c <= 'z' {
        ((c as int) - 32) as char
    } else {
        c
    }
}

/// A text in ASCII upper case.
pub open spec fn upper(s: Seq<char>) -> Seq<char> {
    Seq::new(s.len(), |i: int| upper_char(s[i]))
}

fn raised(c: char) -> (r: char)
    ensures
        r == upper_char(c),
{
    if 'a' <= c && c <= 'z' {
        ((c as u8) - 32) as char
    } else {
        c
    }
}

/// A text in ASCII upper case.
pub fn uppercase(s: &str) -> (r: String)
    ensures
        r@ == upper(s@),
{
    let mut r = String::new();
    for c in it: s.chars()
        invariant
            it.seq() == s@,
            r@ == upper(s@.take(it.index())),
    {
        r.push(raised(c));
        assert(upper(s@.take(it.index() as int)).push(upper_char(c)) =~= upper(
            s@.take(it.index() + 1),
        ));
    }
    assert(s@.take(s@.len() as int) =~= s@);
    r
}

/// Whether two texts are equal up to ASCII case.
pub fn same_ignoring_case(a: &str, b: &str) -> (r: bool)
    ensures
        r == same_fold(a@, b@),
{
    let x = lowercase(a);
    let y = lowercase(b);
    same(x.as_str(), y.as_str())
}

/// Whether a list of texts holds `s`.
pub fn list_has(v: &Vec<String>, s: &str) -> (r: bool)
    ensures
        r == texts(v@).contains(s@),
{
    let mut i: usize = 0;
    while i < v.len()
        invariant
            i <= v@.len(),
            forall|k: int| 0 <= k < i ==> texts(v@)[k] != s@,
        decreases v.len() - i,
    {
        if same(v[i].as_str(), s) {
            assert(texts(v@)[i as int] == s@);
            return true;
        }
        i = i + 1;
    }
    false
}

/// A text put behind a list of texts.
pub fn push_text(v: &mut Vec<String>, s: String)
    ensures
        texts(final(v)@) == texts(old(v)@).push(s@),
{
    v.push(s);
    assert(texts(v@) =~= texts(old(v)@).push(s@));
}

/// A copy of a text.
pub fn own(s: &str) -> (r: String)
    ensures
        r@ == s@,
{
    s.to_owned()
}

// ---------------------------------------------------------------------------
// Searching
// ---------------------------------------------------------------------------

/// The index of the first `c`, or the length where there is none.
pub open spec fn first_index<T>(s: Seq<T>, c: T) -> int
    decreases s.len(),
{
    if s.len() == 0 || s[0] == c {
        0
    } else {
        1 + first_index(s.drop_first(), c)
    }
}

/// The index of the last `c`, or -1 where there is none.
pub open spec fn last_index<T>(s: Seq<T>, c: T) -> int
    decreases s.len(),
{
    if s.len() == 0 {
        -1
    } else if s.last() == c {
        s.len() - 1
    } else {
        last_index(s.drop_last(), c)
    }
}

/// The first index is where `c` stands first.
pub proof fn lemma_first_index<T>(s: Seq<T>, c: T)
    ensures
        0 <= first_index(s, c) <= s.len(),
        first_index(s, c) < s.len() ==> s[first_index(s, c)] == c,
        forall|k: int| 0 <= k < first_index(s, c) ==> s[k] != c,
    decreases s.len(),
{
    if s.len() != 0 && s[0] != c {
        lemma_first_index(s.drop_first(), c);
        assert forall|k: int| 0 <= k < first_index(s, c) implies s[k] != c by {
            if k > 0 {
                assert(s.drop_first()[k - 1] == s[k]);
            }
        }
    }
}

/// An index before which there is no `c`, and at which `c` stands or the text ends.
pub proof fn lemma_first_index_is<T>(s: Seq<T>, c: T, i: int)
    requires
        0 <= i <= s.len(),
        i < s.len() ==> s[i] == c,
        forall|k: int| 0 <= k < i ==> s[k] != c,
    ensures
        first_index(s, c) == i,
{
    lemma_first_index(s, c);
    let f: int = first_index(s, c);
    if f < i {
        assert(s[f] != c);
    }
}

/// The last index is where `c` stands last.
pub proof fn lemma_last_index<T>(s: Seq<T>, c: T)
    ensures
        -1 <= last_index(s, c) < s.len(),
        last_index(s, c) >= 0 ==> s[last_index(s, c)] == c,
        forall|k: int| last_index(s, c) < k < s.len() ==> s[k] != c,
    decreases s.len(),
{
    if s.len() != 0 && s.last() != c {
        lemma_last_index(s.drop_last(), c);
        assert forall|k: int| last_index(s, c) < k < s.len() implies s[k] != c by {
            if k < s.len() - 1 {
                assert(s.drop_last()[k] == s[k]);
            }
        }
    }
}

/// An index behind which there is no `c`, and at which `c` stands (-1: none).
pub proof fn lemma_last_index_is<T>(s: Seq<T>, c: T, i: int)
    requires
        -1 <= i < s.len(),
        i >= 0 ==> s[i] == c,
        forall|k: int| i < k < s.len() ==> s[k] != c,
    ensures
        last_index(s, c) == i,
{
    lemma_last_index(s, c);
    let f: int = last_index(s, c);
    if f > i {
        assert(s[f] != c);
    }
}

/// The index of the first `c` at or behind `from`, or the length.
pub fn find_from(v: &[char], c: char, from: usize) -> (r: usize)
    requires
        from <= v@.len(),
    ensures
        from <= r <= v@.len(),
        r == from + first_index(v@.skip(from as int), c),
        r < v@.len() ==> v@[r as int] == c,
        forall|k: int| from <= k < r ==> v@[k] != c,
{
    let mut i: usize = from;
    while i < v.len() && v[i] != c
        invariant
            from <= i <= v@.len(),
            forall|k: int| from <= k < i ==> v@[k] != c,
        decreases v.len() - i,
    {
        i = i + 1;
    }
    proof {
        let t = v@.skip(from as int);
        assert forall|k: int| 0 <= k < i - from implies t[k] != c by {
            assert(t[k] == v@[k + from]);
        }
        lemma_first_index_is(t, c, i - from);
    }
    i
}

/// The index of the last `c`, if there is one.
pub fn rfind(v: &[char], c: char) -> (r: Option<usize>)
    ensures
        match r {
            Some(i) => i == last_index(v@, c) && i < v@.len(),
            None => last_index(v@, c) == -1,
        },
{
    let mut i: usize = v.len();
    while i > 0 && v[i - 1] != c
        invariant
            i <= v@.len(),
            forall|k: int| i <= k < v@.len() ==> v@[k] != c,
        decreases i,
    {
        i = i - 1;
    }
    proof {
        lemma_last_index_is(v@, c, i - 1);
    }
    if i == 0 {
        None
    } else {
        Some(i - 1)
    }
}

/// A text has `c` in it.
pub open spec fn has_char(s: Seq<char>, c: char) -> bool {
    first_index(s, c) < s.len()
}

/// Whether a text has `c` in it.
pub fn contains_char(s: &str, c: char) -> (r: bool)
    ensures
        r == has_char(s@, c),
{
    let v = chars_of(s);
    let i: usize = find_from(v.as_slice(), c, 0);
    assert(v@.skip(0) =~= v@);
    i < v.len()
}

/// `p` starts the sequence `s`.
pub open spec fn starts<T>(s: Seq<T>, p: Seq<T>) -> bool {
    p.len() <= s.len() && s.take(p.len() as int) == p
}

/// `p` ends the sequence `s`.
pub open spec fn ends<T>(s: Seq<T>, p: Seq<T>) -> bool {
    p.len() <= s.len() && s.skip(s.len() - p.len()) == p
}

/// The index at which `p` first occurs in `s`, or the length where it does not.
pub open spec fn first_match<T>(s: Seq<T>, p: Seq<T>) -> int
    decreases s.len(),
{
    if starts(s, p) || s.len() == 0 {
        0
    } else {
        1 + first_match(s.drop_first(), p)
    }
}

/// `p` occurs somewhere in `s`.
pub open spec fn occurs<T>(s: Seq<T>, p: Seq<T>) -> bool {
    starts(s.skip(first_match(s, p)), p)
}

/// The first match is where `p` first occurs.
pub proof fn lemma_first_match<T>(s: Seq<T>, p: Seq<T>)
    ensures
        0 <= first_match(s, p) <= s.len(),
        first_match(s, p) < s.len() ==> starts(s.skip(first_match(s, p)), p),
        forall|k: int| 0 <= k < first_match(s, p) ==> !starts(#[trigger] s.skip(k), p),
    decreases s.len(),
{
    if starts(s, p) || s.len() == 0 {
        assert(s.skip(0) =~= s);
    } else {
        let t = s.drop_first();
        lemma_first_match(t, p);
        assert(t.skip(first_match(t, p)) =~= s.skip(first_match(s, p)));
        assert forall|k: int| 0 <= k < first_match(s, p) implies !starts(#[trigger] s.skip(k), p) by {
            if k > 0 {
                assert(t.skip(k - 1) =~= s.skip(k));
            } else {
                assert(s.skip(0) =~= s);
            }
        }
    }
}

/// An index before which `p` does not occur, and at which it does or the text ends.
pub proof fn lemma_first_match_is<T>(s: Seq<T>, p: Seq<T>, i: int)
    requires
        0 <= i <= s.len(),
        i < s.len() ==> starts(s.skip(i), p),
        forall|k: int| 0 <= k < i ==> !starts(#[trigger] s.skip(k), p),
    ensures
        first_match(s, p) == i,
{
    lemma_first_match(s, p);
    let f: int = first_match(s, p);
    if f < i {
        assert(!starts(s.skip(f), p));
    } else if i < f {
        assert(!starts(s.skip(i), p));
    }
}

/// Whether `p` stands in `v` at `at`.
pub fn matches_at(v: &[char], p: &[char], at: usize) -> (r: bool)
    requires
        at <= v@.len(),
    ensures
        r == starts(v@.skip(at as int), p@),
{
    let n: usize = v.len();
    if p.len() > n - at {
        return false;
    }
    let mut i: usize = 0;
    while i < p.len()
        invariant
            i <= p@.len(),
            at <= n == v@.len(),
            p@.len() <= n - at,
            forall|k: int| 0 <= k < i ==> v@[at + k] == p@[k],
        decreases p.len() - i,
    {
        if v[at + i] != p[i] {
            assert(v@.skip(at as int).take(p@.len() as int)[i as int] != p@[i as int]);
            return false;
        }
        i = i + 1;
    }
    assert(v@.skip(at as int).take(p@.len() as int) =~= p@);
    true
}

/// The index at which `p` first occurs in `v`, or the length.
pub fn find_match(v: &[char], p: &[char]) -> (r: usize)
    ensures
        r <= v@.len(),
        r == first_match(v@, p@),
        r < v@.len() ==> starts(v@.skip(r as int), p@),
{
    let mut i: usize = 0;
    while i < v.len() && !matches_at(v, p, i)
        invariant
            i <= v@.len(),
            forall|k: int| 0 <= k < i ==> !starts(#[trigger] v@.skip(k), p@),
        decreases v.len() - i,
    {
        i = i + 1;
    }
    proof {
        lemma_first_match_is(v@, p@, i as int);
    }
    i
}

/// Whether the text `p` occurs in `s`.
pub fn contains(s: &str, p: &str) -> (r: bool)
    ensures
        r == occurs(s@, p@),
{
    let v = chars_of(s);
    let q = chars_of(p);
    let i: usize = find_match(v.as_slice(), q.as_slice());
    matches_at(v.as_slice(), q.as_slice(), i)
}

/// Whether a text starts with `p`.
pub fn starts_with(s: &str, p: &str) -> (r: bool)
    ensures
        r == starts(s@, p@),
{
    let v = chars_of(s);
    let q = chars_of(p);
    assert(v@.skip(0) =~= v@);
    matches_at(v.as_slice(), q.as_slice(), 0)
}

/// Whether a text ends with `p`.
pub fn ends_with(s: &str, p: &str) -> (r: bool)
    ensures
        r == ends(s@, p@),
{
    let v = chars_of(s);
    let q = chars_of(p);
    if q.len() > v.len() {
        return false;
    }
    let ok = matches_at(v.as_slice(), q.as_slice(), v.len() - q.len());
    assert(v@.skip(v@.len() - q@.len()).take(q@.len() as int) =~= v@.skip(v@.len() - q@.len()));
    ok
}

/// A text without the `p` that it starts with.
pub open spec fn without_prefix(s: Seq<char>, p: Seq<char>) -> Option<Seq<char>> {
    if starts(s, p) {
        Some(s.skip(p.len() as int))
    } else {
        None
    }
}

/// A text without the `p` that it ends with.
pub open spec fn without_suffix(s: Seq<char>, p: Seq<char>) -> Option<Seq<char>> {
    if ends(s, p) {
        Some(s.take(s.len() - p.len()))
    } else {
        None
    }
}

/// The text of an optional borrowed string.
pub open spec fn slice(s: Option<&str>) -> Option<Seq<char>> {
    match s {
        Some(t) => Some(t@),
        None => None,
    }
}

/// A text without the `p` that it starts with, if it starts so.
pub fn strip_prefix<'a>(s: &'a str, p: &str) -> (r: Option<&'a str>)
    ensures
        slice(r) == without_prefix(s@, p@),
{
    if starts_with(s, p) {
        let n: usize = s.unicode_len();
        let k: usize = p.unicode_len();
        let t = s.substring_char(k, n);
        assert(t@ =~= s@.skip(k as int));
        Some(t)
    } else {
        None
    }
}

/// A text without the `p` that it ends with, if it ends so.
pub fn strip_suffix<'a>(s: &'a str, p: &str) -> (r: Option<&'a str>)
    ensures
        slice(r) == without_suffix(s@, p@),
{
    if ends_with(s, p) {
        let n: usize = s.unicode_len();
        let k: usize = p.unicode_len();
        let t = s.substring_char(0, n - k);
        assert(t@ =~= s@.take(n - k));
        Some(t)
    } else {
        None
    }
}

// ---------------------------------------------------------------------------
// Splitting
// ---------------------------------------------------------------------------

/// The two texts of an optional pair.
pub open spec fn halves(s: Option<(&str, &str)>) -> Option<(Seq<char>, Seq<char>)> {
    match s {
        Some(p) => Some((p.0@, p.1@)),
        None => None,
    }
}

/// A text cut at its first `c`, which is dropped.
pub open spec fn cut(s: Seq<char>, c: char) -> Option<(Seq<char>, Seq<char>)> {
    let i: int = first_index(s, c);
    if i < s.len() {
        Some((s.take(i), s.skip(i + 1)))
    } else {
        None
    }
}

/// A text cut at its last `c`, which is dropped.
pub open spec fn rcut(s: Seq<char>, c: char) -> Option<(Seq<char>, Seq<char>)> {
    let i: int = last_index(s, c);
    if i >= 0 {
        Some((s.take(i), s.skip(i + 1)))
    } else {
        None
    }
}

/// The part of a text before its first `c`, or the whole text.
pub open spec fn before(s: Seq<char>, c: char) -> Seq<char> {
    s.take(first_index(s, c))
}

/// The pieces of a text between the `c` in it.
pub open spec fn pieces(s: Seq<char>, c: char) -> Seq<Seq<char>>
    decreases s.len(),
{
    let i: int = first_index(s, c);
    if 0 <= i < s.len() {
        seq![s.take(i)] + pieces(s.skip(i + 1), c)
    } else {
        seq![s]
    }
}

/// A piece in front of a text becomes its first piece.
pub proof fn lemma_pieces_lead(a: Seq<char>, rest: Seq<char>, c: char)
    requires
        !has_char(a, c),
    ensures
        pieces(a + seq![c] + rest, c) == seq![a] + pieces(rest, c),
{
    let s = a + seq![c] + rest;
    lemma_first_index(a, c);
    assert forall|k: int| 0 <= k < a.len() implies s[k] != c by {
        assert(s[k] == a[k]);
    }
    lemma_first_index_is(s, c, a.len() as int);
    assert(s.take(a.len() as int) =~= a);
    assert(s.skip(a.len() as int + 1) =~= rest);
}

/// No piece holds the character that the text was cut at.
pub proof fn lemma_pieces_are_cut(s: Seq<char>, c: char)
    ensures
        forall|i: int| 0 <= i < pieces(s, c).len() ==> !has_char(#[trigger] pieces(s, c)[i], c),
    decreases s.len(),
{
    let i: int = first_index(s, c);
    lemma_first_index(s, c);
    if i < s.len() {
        let rest = s.skip(i + 1);
        lemma_pieces_are_cut(rest, c);
        let a = s.take(i);
        lemma_first_index_is(a, c, i);
        let p = pieces(s, c);
        assert forall|k: int| 0 <= k < p.len() implies !has_char(#[trigger] p[k], c) by {
            if k > 0 {
                assert(p[k] == pieces(rest, c)[k - 1]);
            }
        }
    }
}

/// A text cut at its first `c`.
pub fn split_once<'a>(s: &'a str, c: char) -> (r: Option<(&'a str, &'a str)>)
    ensures
        halves(r) == cut(s@, c),
{
    let v = chars_of(s);
    let i: usize = find_from(v.as_slice(), c, 0);
    assert(v@.skip(0) =~= v@);
    if i < v.len() {
        let a = s.substring_char(0, i);
        let b = s.substring_char(i + 1, v.len());
        assert(a@ =~= s@.take(i as int));
        assert(b@ =~= s@.skip(i + 1));
        Some((a, b))
    } else {
        None
    }
}

/// A text cut at its last `c`.
pub fn rsplit_once<'a>(s: &'a str, c: char) -> (r: Option<(&'a str, &'a str)>)
    ensures
        halves(r) == rcut(s@, c),
{
    let v = chars_of(s);
    let n: usize = v.len();
    match rfind(v.as_slice(), c) {
        Some(i) => {
            let a = s.substring_char(0, i);
            let b = s.substring_char(i + 1, n);
            assert(a@ =~= s@.take(i as int));
            assert(b@ =~= s@.skip(i + 1));
            Some((a, b))
        },
        None => None,
    }
}

/// The part of a text before its first `c`, or the whole text.
pub fn up_to<'a>(s: &'a str, c: char) -> (r: &'a str)
    ensures
        r@ == before(s@, c),
{
    let v = chars_of(s);
    let i: usize = find_from(v.as_slice(), c, 0);
    assert(v@.skip(0) =~= v@);
    let a = s.substring_char(0, i);
    assert(a@ =~= s@.take(i as int));
    a
}

/// The pieces of a text between the `c` in it.
pub fn split<'a>(s: &'a str, c: char) -> (r: Vec<&'a str>)
    ensures
        slices(r@) == pieces(s@, c),
        r@.len() >= 1,
{
    let v = chars_of(s);
    let mut r: Vec<&'a str> = Vec::new();
    let mut from: usize = 0;
    assert(s@.skip(0) =~= s@);
    assert(slices(r@) + pieces(s@, c) =~= pieces(s@, c));
    loop
        invariant
            v@ == s@,
            from <= v@.len(),
            slices(r@) + pieces(s@.skip(from as int), c) == pieces(s@, c),
        decreases v.len() - from,
    {
        let i: usize = find_from(v.as_slice(), c, from);
        let part = s.substring_char(from, i);
        let ghost rest = s@.skip(from as int);
        let ghost before_push = r@;
        r.push(part);
        assert(part@ =~= rest.take(i - from));
        assert(slices(r@) =~= slices(before_push).push(part@));
        if i >= v.len() {
            assert(rest.take(i - from) =~= rest);
            assert(slices(r@) =~= slices(before_push) + seq![rest]);
            return r;
        }
        assert(rest.skip(i - from + 1) =~= s@.skip(i + 1));
        assert(slices(before_push) + (seq![part@] + pieces(s@.skip(i + 1), c)) =~= slices(r@)
            + pieces(s@.skip(i + 1), c));
        from = i + 1;
    }
}

// ---------------------------------------------------------------------------
// Trimming
// ---------------------------------------------------------------------------

/// A text without the white space that it starts with.
pub open spec fn trimmed_start(s: Seq<char>) -> Seq<char>
    decreases s.len(),
{
    if s.len() > 0 && is_space(s[0]) {
        trimmed_start(s.drop_first())
    } else {
        s
    }
}

/// A text without the white space that it ends with.
pub open spec fn trimmed_end(s: Seq<char>) -> Seq<char>
    decreases s.len(),
{
    if s.len() > 0 && is_space(s.last()) {
        trimmed_end(s.drop_last())
    } else {
        s
    }
}

/// A text without the white space around it.
pub open spec fn trimmed(s: Seq<char>) -> Seq<char> {
    trimmed_end(trimmed_start(s))
}

/// A text without the white space around it.
pub fn trim<'a>(s: &'a str) -> (r: &'a str)
    ensures
        r@ == trimmed(s@),
{
    let v = chars_of(s);
    let n: usize = v.len();
    let mut a: usize = 0;
    assert(s@.skip(0) =~= s@);
    while a < n && space(v[a])
        invariant
            v@ == s@,
            a <= n == v@.len(),
            trimmed_start(s@) == trimmed_start(s@.skip(a as int)),
        decreases n - a,
    {
        assert(s@.skip(a as int).drop_first() =~= s@.skip(a + 1));
        a = a + 1;
    }
    let ghost t = s@.skip(a as int);
    assert(trimmed_start(s@) == t);
    let mut b: usize = n;
    assert(t =~= s@.subrange(a as int, n as int));
    while b > a && space(v[b - 1])
        invariant
            v@ == s@,
            a <= b <= n == v@.len(),
            t == s@.skip(a as int),
            trimmed_end(t) == trimmed_end(s@.subrange(a as int, b as int)),
        decreases b - a,
    {
        assert(s@.subrange(a as int, b as int).drop_last() =~= s@.subrange(a as int, b - 1));
        b = b - 1;
    }
    s.substring_char(a, b)
}

/// A text without the `c` that it ends with.
pub open spec fn dropped_end(s: Seq<char>, c: char) -> Seq<char>
    decreases s.len(),
{
    if s.len() > 0 && s.last() == c {
        dropped_end(s.drop_last(), c)
    } else {
        s
    }
}

/// A text without the `c` that it ends with (all of them).
pub fn trim_end_char<'a>(s: &'a str, c: char) -> (r: &'a str)
    ensures
        r@ == dropped_end(s@, c),
{
    let v = chars_of(s);
    let mut b: usize = v.len();
    assert(s@ =~= s@.subrange(0, b as int));
    while b > 0 && v[b - 1] == c
        invariant
            v@ == s@,
            b <= v@.len(),
            dropped_end(s@, c) == dropped_end(s@.subrange(0, b as int), c),
        decreases b,
    {
        assert(s@.subrange(0, b as int).drop_last() =~= s@.subrange(0, b - 1));
        b = b - 1;
    }
    s.substring_char(0, b)
}

/// A text without the `c` that it starts with.
pub open spec fn dropped_start(s: Seq<char>, c: char) -> Seq<char>
    decreases s.len(),
{
    if s.len() > 0 && s[0] == c {
        dropped_start(s.drop_first(), c)
    } else {
        s
    }
}

/// A text without the `c` that it starts with (all of them).
pub fn trim_start_char<'a>(s: &'a str, c: char) -> (r: &'a str)
    ensures
        r@ == dropped_start(s@, c),
{
    let v = chars_of(s);
    let n: usize = v.len();
    let mut a: usize = 0;
    assert(s@.skip(0) =~= s@);
    while a < n && v[a] == c
        invariant
            v@ == s@,
            a <= n == v@.len(),
            dropped_start(s@, c) == dropped_start(s@.skip(a as int), c),
        decreases n - a,
    {
        assert(s@.skip(a as int).drop_first() =~= s@.skip(a + 1));
        a = a + 1;
    }
    assert(s@.skip(a as int) =~= s@.subrange(a as int, n as int));
    s.substring_char(a, n)
}

// ---------------------------------------------------------------------------
// Replacing and joining
// ---------------------------------------------------------------------------

/// A text with every occurrence of `p`, read from the left, replaced by `r`.
pub open spec fn replaced(s: Seq<char>, p: Seq<char>, r: Seq<char>) -> Seq<char>
    decreases s.len(),
{
    let i: int = first_match(s, p);
    if p.len() > 0 && 0 <= i < s.len() && s.len() >= i + p.len() {
        s.take(i) + r + replaced(s.skip(i + p.len()), p, r)
    } else {
        s
    }
}

/// A text with every occurrence of `p` replaced by `r`.
pub fn replace(s: &str, p: &str, r: &str) -> (out: String)
    requires
        p@.len() > 0,
    ensures
        out@ == replaced(s@, p@, r@),
{
    let q = chars_of(p);
    let mut out = String::new();
    let mut rest = s;
    assert(out@ + replaced(s@, p@, r@) =~= replaced(s@, p@, r@));
    loop
        invariant
            q@ == p@,
            p@.len() > 0,
            out@ + replaced(rest@, p@, r@) == replaced(s@, p@, r@),
        decreases rest@.len(),
    {
        let v = chars_of(rest);
        let n: usize = v.len();
        let i: usize = find_match(v.as_slice(), q.as_slice());
        if i >= n {
            out.append(rest);
            return out;
        }
        assert(q@.len() <= v@.skip(i as int).len());
        let ghost sofar = out@;
        let ghost tail = replaced(rest@.skip(i + p@.len()), p@, r@);
        let head = rest.substring_char(0, i);
        assert(head@ =~= rest@.take(i as int));
        out.append(head);
        out.append(r);
        assert(sofar + (rest@.take(i as int) + r@ + tail) =~= out@ + tail);
        let next = rest.substring_char(i + q.len(), n);
        assert(next@ =~= rest@.skip(i + p@.len()));
        rest = next;
    }
}

/// A text without any `c`.
pub open spec fn purged(s: Seq<char>, c: char) -> Seq<char>
    decreases s.len(),
{
    if s.len() == 0 {
        s
    } else if s[0] == c {
        purged(s.drop_first(), c)
    } else {
        seq![s[0]] + purged(s.drop_first(), c)
    }
}

/// A text without any `c`.
pub fn remove_char(s: &str, c: char) -> (out: String)
    ensures
        out@ == purged(s@, c),
{
    let v = chars_of(s);
    let mut out = String::new();
    let mut i: usize = 0;
    assert(v@.skip(0) =~= v@);
    assert(out@ + purged(v@, c) =~= purged(v@, c));
    while i < v.len()
        invariant
            i <= v@.len(),
            v@ == s@,
            out@ + purged(v@.skip(i as int), c) == purged(v@, c),
        decreases v.len() - i,
    {
        let ghost sofar = out@;
        assert(v@.skip(i as int).drop_first() =~= v@.skip(i + 1));
        if v[i] != c {
            out.push(v[i]);
            assert(sofar + (seq![v@[i as int]] + purged(v@.skip(i + 1), c)) =~= out@ + purged(
                v@.skip(i + 1),
                c,
            ));
        }
        i = i + 1;
    }
    assert(v@.skip(i as int) =~= Seq::<char>::empty());
    assert(out@ + Seq::<char>::empty() =~= out@);
    out
}

/// Texts with `sep` between them.
pub open spec fn joined(v: Seq<Seq<char>>, sep: Seq<char>) -> Seq<char>
    decreases v.len(),
{
    if v.len() == 0 {
        Seq::empty()
    } else if v.len() == 1 {
        v[0]
    } else {
        joined(v.drop_last(), sep) + sep + v.last()
    }
}

/// Texts with `sep` between them are the first one and, behind `sep`, the others.
pub proof fn lemma_joined_lead(v: Seq<Seq<char>>, sep: Seq<char>)
    requires
        v.len() >= 2,
    ensures
        joined(v, sep) == v[0] + sep + joined(v.drop_first(), sep),
    decreases v.len(),
{
    let t = v.drop_first();
    if v.len() == 2 {
        assert(joined(v.drop_last(), sep) == v[0]);
        assert(joined(t, sep) == v[1]);
    } else {
        lemma_joined_lead(v.drop_last(), sep);
        assert(v.drop_last().drop_first() =~= t.drop_last());
        assert(joined(v, sep) =~= v[0] + sep + joined(t, sep));
    }
}

/// Texts that were joined with a character come apart at it again.
pub proof fn lemma_joined_pieces(v: Seq<Seq<char>>, c: char)
    requires
        v.len() > 0,
        forall|i: int| 0 <= i < v.len() ==> !has_char(#[trigger] v[i], c),
    ensures
        pieces(joined(v, seq![c]), c) == v,
    decreases v.len(),
{
    assert(!has_char(v[0], c));
    if v.len() == 1 {
        lemma_first_index(v[0], c);
        assert(pieces(v[0], c) =~= v);
    } else {
        let t = v.drop_first();
        lemma_joined_lead(v, seq![c]);
        lemma_pieces_lead(v[0], joined(t, seq![c]), c);
        assert forall|i: int| 0 <= i < t.len() implies !has_char(#[trigger] t[i], c) by {
            assert(t[i] == v[i + 1]);
        }
        lemma_joined_pieces(t, c);
        assert(seq![v[0]] + t =~= v);
    }
}

/// Texts with `sep` between them.
pub fn join(v: &Vec<String>, sep: &str) -> (out: String)
    ensures
        out@ == joined(texts(v@), sep@),
{
    let mut out = String::new();
    let mut i: usize = 0;
    assert(texts(v@).take(0) =~= Seq::empty());
    while i < v.len()
        invariant
            i <= v@.len(),
            out@ == joined(texts(v@).take(i as int), sep@),
        decreases v.len() - i,
    {
        let ghost now = texts(v@).take(i + 1);
        assert(now.drop_last() =~= texts(v@).take(i as int));
        assert(now.last() == v@[i as int]@);
        if i > 0 {
            out.append(sep);
            out.append(v[i].as_str());
        } else {
            out.append(v[i].as_str());
            assert(out@ =~= v@[0]@);
        }
        i = i + 1;
    }
    assert(texts(v@).take(i as int) =~= texts(v@));
    out
}

// ---------------------------------------------------------------------------
// Lines
// ---------------------------------------------------------------------------

/// A line without the carriage return that it ends with.
pub open spec fn without_return(s: Seq<char>) -> Seq<char> {
    if s.len() > 0 && s.last() == '\r' {
        s.drop_last()
    } else {
        s
    }
}

/// The lines of a text: each ends with a line feed, with or without a carriage
/// return before it; the last one may also end with the text.
pub open spec fn lines(s: Seq<char>) -> Seq<Seq<char>>
    decreases s.len(),
{
    let i: int = first_index(s, '\n');
    if s.len() == 0 {
        Seq::empty()
    } else if 0 <= i < s.len() {
        seq![without_return(s.take(i))] + lines(s.skip(i + 1))
    } else {
        seq![s]
    }
}

/// The lines of a text.
pub fn lines_of<'a>(s: &'a str) -> (r: Vec<&'a str>)
    ensures
        slices(r@) == lines(s@),
{
    let v = chars_of(s);
    let n: usize = v.len();
    let mut r: Vec<&'a str> = Vec::new();
    let mut from: usize = 0;
    assert(s@.skip(0) =~= s@);
    assert(slices(r@) + lines(s@) =~= lines(s@));
    while from < n
        invariant
            v@ == s@,
            from <= n == v@.len(),
            slices(r@) + lines(s@.skip(from as int)) == lines(s@),
        decreases n - from,
    {
        let i: usize = find_from(v.as_slice(), '\n', from);
        let ghost rest = s@.skip(from as int);
        let ghost sofar = r@;
        assert(rest.take(i - from) =~= s@.subrange(from as int, i as int));
        if i >= n {
            let part = s.substring_char(from, n);
            r.push(part);
            assert(part@ =~= rest);
            assert(slices(r@) =~= slices(sofar) + lines(rest));
            return r;
        }
        let end: usize = if i > from && v[i - 1] == '\r' {
            i - 1
        } else {
            i
        };
        let part = s.substring_char(from, end);
        r.push(part);
        assert(part@ =~= without_return(rest.take(i - from)));
        assert(rest.skip(i - from + 1) =~= s@.skip(i + 1));
        assert(slices(r@) =~= slices(sofar).push(part@));
        assert(slices(sofar) + (seq![part@] + lines(s@.skip(i + 1))) =~= slices(r@) + lines(
            s@.skip(i + 1),
        ));
        from = i + 1;
    }
    assert(s@.skip(from as int) =~= Seq::<char>::empty());
    assert(slices(r@) + lines(s@.skip(from as int)) =~= slices(r@));
    r
}

// ---------------------------------------------------------------------------
// Numbers
// ---------------------------------------------------------------------------

/// The value of an ASCII digit in a base up to 16; 16 where `c` is none.
pub open spec fn digit_value(c: char) -> int {
    if '0' <= c <= '9' {
        c as int - '0' as int
    } else if 'a' <= c <= 'f' {
        c as int - 'a' as int + 10
    } else if 'A' <= c <= 'F' {
        c as int - 'A' as int + 10
    } else {
        16
    }
}

/// The value of an ASCII digit in a base up to 16; 16 where `c` is none.
pub fn digit_of(c: char) -> (r: u8)
    ensures
        r == digit_value(c),
        r <= 16,
{
    if '0' <= c && c <= '9' {
        c as u8 - 48
    } else if 'a' <= c && c <= 'f' {
        c as u8 - 87
    } else if 'A' <= c && c <= 'F' {
        c as u8 - 55
    } else {
        16
    }
}

/// Every character is a digit of the base.
pub open spec fn all_digits(s: Seq<char>, base: int) -> bool {
    forall|i: int| 0 <= i < s.len() ==> digit_value(#[trigger] s[i]) < base
}

/// The number that a text of digits writes in a base.
pub open spec fn number(s: Seq<char>, base: int) -> int
    decreases s.len(),
{
    if s.len() == 0 {
        0
    } else {
        number(s.drop_last(), base) * base + digit_value(s.last())
    }
}

/// The unsigned number up to `max` that a text writes in a base: digits, at
/// least one, with or without a plus sign before them.
pub open spec fn unsigned(s: Seq<char>, base: int, max: int) -> Option<int> {
    let t = if s.len() > 0 && s[0] == '+' {
        s.drop_first()
    } else {
        s
    };
    if t.len() > 0 && all_digits(t, base) && number(t, base) <= max {
        Some(number(t, base))
    } else {
        None
    }
}

/// A prefix of the digits writes a number that is no larger.
pub proof fn lemma_number_grows(s: Seq<char>, base: int, k: int)
    requires
        0 <= k <= s.len(),
        2 <= base <= 16,
        all_digits(s, base),
    ensures
        0 <= number(s.take(k), base) <= number(s, base),
    decreases s.len(),
{
    if k == s.len() {
        assert(s.take(k) =~= s);
        if s.len() > 0 {
            let p = s.drop_last();
            assert(all_digits(p, base)) by {
                assert forall|i: int| 0 <= i < p.len() implies digit_value(#[trigger] p[i]) < base by {
                    assert(p[i] == s[i]);
                }
            }
            lemma_number_grows(p, base, p.len() as int);
            assert(p.take(p.len() as int) =~= p);
            assert(number(p, base) * base >= 0) by (nonlinear_arith)
                requires
                    number(p, base) >= 0,
                    base >= 2,
            ;
        }
    } else {
        let p = s.drop_last();
        assert(all_digits(p, base)) by {
            assert forall|i: int| 0 <= i < p.len() implies digit_value(#[trigger] p[i]) < base by {
                assert(p[i] == s[i]);
            }
        }
        lemma_number_grows(p, base, k);
        assert(p.take(k) =~= s.take(k));
        let x: int = number(p, base);
        assert(x * base >= x) by (nonlinear_arith)
            requires
                x >= 0,
                base >= 2,
        ;
    }
}

/// Reads an unsigned number up to `max` in a base.
pub fn parse_number(s: &str, base: u8, max: u128) -> (r: Option<u128>)
    requires
        2 <= base <= 16,
        max <= u128::MAX / 32,
    ensures
        match r {
            Some(n) => unsigned(s@, base as int, max as int) == Some(n as int),
            None => unsigned(s@, base as int, max as int) is None,
        },
{
    let v = chars_of(s);
    let from: usize = if v.len() > 0 && v[0] == '+' {
        1
    } else {
        0
    };
    let ghost t = s@.skip(from as int);
    assert(from == 1 ==> t =~= s@.drop_first());
    assert(from == 0 ==> t =~= s@);
    if from >= v.len() {
        return None;
    }
    let mut acc: u128 = 0;
    let mut i: usize = from;
    while i < v.len()
        invariant
            v@ == s@,
            from <= i <= v@.len(),
            t == s@.skip(from as int),
            t == if s@.len() > 0 && s@[0] == '+' {
                s@.drop_first()
            } else {
                s@
            },
            2 <= base <= 16,
            max <= u128::MAX / 32,
            acc <= max,
            acc == number(t.take(i - from), base as int),
            forall|k: int| 0 <= k < i - from ==> digit_value(#[trigger] t[k]) < base,
        decreases v.len() - i,
    {
        let d: u8 = digit_of(v[i]);
        assert(t[i - from] == v@[i as int]);
        if d >= base {
            assert(!all_digits(t, base as int));
            return None;
        }
        assert(acc * base <= max * 16) by (nonlinear_arith)
            requires
                acc <= max,
                2 <= base <= 16,
        ;
        let next: u128 = acc * (base as u128) + (d as u128);
        assert(t.take(i - from + 1).drop_last() =~= t.take(i - from));
        assert(next == number(t.take(i - from + 1), base as int));
        if next > max {
            proof {
                if all_digits(t, base as int) {
                    lemma_number_grows(t, base as int, i - from + 1);
                }
            }
            return None;
        }
        acc = next;
        i = i + 1;
    }
    assert(t.take(i - from) =~= t);
    Some(acc)
}

/// Reads an unsigned decimal number of 64 bits.
pub fn parse_u64(s: &str) -> (r: Option<u64>)
    ensures
        match r {
            Some(n) => unsigned(s@, 10, u64::MAX as int) == Some(n as int),
            None => unsigned(s@, 10, u64::MAX as int) is None,
        },
{
    match parse_number(s, 10, u64::MAX as u128) {
        Some(n) => Some(n as u64),
        None => None,
    }
}

/// Reads an unsigned decimal number of 32 bits.
pub fn parse_u32(s: &str) -> (r: Option<u32>)
    ensures
        match r {
            Some(n) => unsigned(s@, 10, u32::MAX as int) == Some(n as int),
            None => unsigned(s@, 10, u32::MAX as int) is None,
        },
{
    match parse_number(s, 10, u32::MAX as u128) {
        Some(n) => Some(n as u32),
        None => None,
    }
}

/// Reads an unsigned decimal number of the machine's word.
pub fn parse_usize(s: &str) -> (r: Option<usize>)
    ensures
        match r {
            Some(n) => unsigned(s@, 10, usize::MAX as int) == Some(n as int),
            None => unsigned(s@, 10, usize::MAX as int) is None,
        },
{
    match parse_number(s, 10, usize::MAX as u128) {
        Some(n) => Some(n as usize),
        None => None,
    }
}

/// The digit of a value below 10.
pub open spec fn digit_char(d: int) -> char {
    ('0' as int + d) as char
}

/// A number in decimal digits.
pub open spec fn decimal(n: nat) -> Seq<char>
    decreases n,
{
    if n < 10 {
        seq![digit_char(n as int)]
    } else {
        decimal(n / 10).push(digit_char((n % 10) as int))
    }
}

/// A number in decimal digits.
pub fn decimal_of(n: u64) -> (r: String)
    ensures
        r@ == decimal(n as nat),
    decreases n,
{
    if n < 10 {
        let mut s = String::new();
        s.push((48u8 + n as u8) as char);
        assert(s@ =~= decimal(n as nat));
        s
    } else {
        let mut s = decimal_of(n / 10);
        s.push((48u8 + (n % 10) as u8) as char);
        s
    }
}

/// The hexadecimal digit of a value below 16, in lower case.
pub open spec fn hex_char(d: int) -> char {
    if d < 10 {
        ('0' as int + d) as char
    } else {
        ('a' as int + d - 10) as char
    }
}

/// A number in lower-case hexadecimal digits.
pub open spec fn hexadecimal(n: nat) -> Seq<char>
    decreases n,
{
    if n < 16 {
        seq![hex_char(n as int)]
    } else {
        hexadecimal(n / 16).push(hex_char((n % 16) as int))
    }
}

/// The hexadecimal digit of a value below 16.
pub fn hex_digit(d: u8) -> (c: char)
    requires
        d < 16,
    ensures
        c == hex_char(d as int),
{
    if d < 10 {
        (48u8 + d) as char
    } else {
        (87u8 + d) as char
    }
}

/// A number in lower-case hexadecimal digits.
pub fn hexadecimal_of(n: u64) -> (r: String)
    ensures
        r@ == hexadecimal(n as nat),
    decreases n,
{
    if n < 16 {
        let mut s = String::new();
        s.push(hex_digit(n as u8));
        assert(s@ =~= hexadecimal(n as nat));
        s
    } else {
        let mut s = hexadecimal_of(n / 16);
        s.push(hex_digit((n % 16) as u8));
        s
    }
}

/// A text with zeros before it, up to a width.
pub open spec fn zero_padded(s: Seq<char>, width: nat) -> Seq<char>
    decreases width - s.len(),
{
    if s.len() >= width {
        s
    } else {
        zero_padded(seq!['0'] + s, width)
    }
}

/// A number in decimal digits, with zeros before it up to a width.
pub fn padded(n: u64, width: usize) -> (r: String)
    ensures
        r@ == zero_padded(decimal(n as nat), width as nat),
{
    let mut s = decimal_of(n);
    let mut len: usize = s.as_str().unicode_len();
    while len < width
        invariant
            len == s@.len(),
            zero_padded(decimal(n as nat), width as nat) == zero_padded(s@, width as nat),
        decreases width - len,
    {
        let mut t = String::new();
        t.push('0');
        t.append(s.as_str());
        assert(t@ =~= seq!['0'] + s@);
        s = t;
        len = len + 1;
    }
    s
}

/// The decimal digits of a number are digits, and they write that number.
pub proof fn lemma_decimal(n: nat)
    ensures
        decimal(n).len() > 0,
        forall|i: int| 0 <= i < decimal(n).len() ==> is_digit(#[trigger] decimal(n)[i]),
        number(decimal(n), 10) == n,
    decreases n,
{
    if n < 10 {
        let s = decimal(n);
        assert(s.drop_last() =~= Seq::empty());
        assert(number(s.drop_last(), 10) == 0);
    } else {
        lemma_decimal(n / 10);
        assert(decimal(n).drop_last() =~= decimal(n / 10));
    }
}

/// Reading back a number's decimal digits gives the number.
pub proof fn lemma_decimal_reads_back(n: nat, max: int)
    requires
        n <= max,
    ensures
        unsigned(decimal(n), 10, max) == Some(n as int),
{
    lemma_decimal(n);
    assert(is_digit(decimal(n)[0]));
    assert(all_digits(decimal(n), 10)) by {
        assert forall|i: int| 0 <= i < decimal(n).len() implies digit_value(#[trigger] decimal(n)[i]) < 10 by {
            assert(is_digit(decimal(n)[i]));
        }
    }
}

/// The hexadecimal digits of a number write that number, and they are few.
pub proof fn lemma_hexadecimal(n: nat)
    ensures
        hexadecimal(n).len() > 0,
        n <= u64::MAX ==> hexadecimal(n).len() <= 16,
        forall|i: int|
            0 <= i < hexadecimal(n).len() ==> is_hex_digit(#[trigger] hexadecimal(n)[i]),
        number(hexadecimal(n), 16) == n,
{
    lemma_hexadecimal_digits(n, 16);
}

/// A lower-case hexadecimal digit.
pub open spec fn is_hex_digit(c: char) -> bool {
    '0' <= c <= '9' || 'a' <= c <= 'f'
}

/// Sixteen to the power of `k`.
pub open spec fn sixteen_to(k: nat) -> nat
    decreases k,
{
    if k == 0 {
        1
    } else {
        16 * sixteen_to((k - 1) as nat)
    }
}

proof fn lemma_hexadecimal_digits(n: nat, k: nat)
    requires
        1 <= k,
    ensures
        hexadecimal(n).len() > 0,
        n < sixteen_to(k) ==> hexadecimal(n).len() <= k,
        forall|i: int|
            0 <= i < hexadecimal(n).len() ==> is_hex_digit(#[trigger] hexadecimal(n)[i]),
        number(hexadecimal(n), 16) == n,
        k == 16 ==> sixteen_to(k) == 0x1_0000_0000_0000_0000,
    decreases n,
{
    if k == 16 {
        reveal_with_fuel(sixteen_to, 17);
    }
    if n < 16 {
        let s = hexadecimal(n);
        assert(s.drop_last() =~= Seq::empty());
        assert(number(s.drop_last(), 16) == 0);
    } else {
        let d = if k > 1 {
            (k - 1) as nat
        } else {
            1
        };
        if k == 1 {
            reveal_with_fuel(sixteen_to, 2);
        }
        lemma_hexadecimal_digits(n / 16, d);
        assert(hexadecimal(n).drop_last() =~= hexadecimal(n / 16));
    }
}

/// Reading back a number's hexadecimal digits gives the number.
pub proof fn lemma_hexadecimal_reads_back(n: nat, max: int)
    requires
        n <= max,
    ensures
        unsigned(hexadecimal(n), 16, max) == Some(n as int),
{
    lemma_hexadecimal(n);
    assert(is_hex_digit(hexadecimal(n)[0]));
    assert(all_digits(hexadecimal(n), 16)) by {
        assert forall|i: int| 0 <= i < hexadecimal(n).len() implies digit_value(
            #[trigger] hexadecimal(n)[i],
        ) < 16 by {
            assert(is_hex_digit(hexadecimal(n)[i]));
        }
    }
}

} // verus!
