//! Letters, digits, numbers and lines.

use vstd::prelude::*;

use crate::count::{bumped, bumped_by};
use crate::text::{
    all_digits, decimal, digit_value, dropped_end, dropped_start, has_char, hexadecimal, is_control,
    is_digit, is_space, lemma_decimal, lemma_decimal_reads_back, lemma_first_index,
    lemma_first_index_is, lemma_first_match_is, lemma_hexadecimal_reads_back, lines, lower,
    lower_char, number, purged, replaced, same_fold, starts, unsigned, upper, upper_char,
    without_prefix, without_suffix, zero_padded,
};
use crate::time::{elapsed, Instant};

verus! {

/// Letters have two cases, 32 apart; nothing else has a case.
pub proof fn law_letters_have_two_cases(c: char)
    ensures
        65 <= c as int <= 90 ==> lower_char(c) as int == c as int + 32 && upper_char(lower_char(c))
            == c && upper_char(c) == c,
        97 <= c as int <= 122 ==> upper_char(c) as int == c as int - 32 && lower_char(upper_char(c))
            == c && lower_char(c) == c,
        !(65 <= c as int <= 90) && !(97 <= c as int <= 122) ==> lower_char(c) == c && upper_char(c)
            == c,
        lower_char(lower_char(c)) == lower_char(c),
{
}

/// Texts that differ in case alone are the same name, and texts of different length are
/// not.
pub proof fn law_case_does_not_matter(s: Seq<char>, t: Seq<char>)
    ensures
        same_fold(s, upper(s)),
        same_fold(s, lower(s)),
        same_fold(s, t) ==> s.len() == t.len(),
        same_fold(s, t) == same_fold(t, s),
        same_fold(s, t) <==> upper(s) == upper(t),
{
    assert(lower(upper(s)) =~= lower(s)) by {
        assert forall|i: int| 0 <= i < s.len() implies lower_char(upper_char(s[i])) == lower_char(
            s[i],
        ) by {
            law_letters_have_two_cases(s[i]);
        }
    }
    assert(lower(lower(s)) =~= lower(s)) by {
        assert forall|i: int| 0 <= i < s.len() implies lower_char(lower_char(s[i])) == lower_char(
            s[i],
        ) by {
            law_letters_have_two_cases(s[i]);
        }
    }
    assert(lower(s).len() == s.len() && lower(t).len() == t.len());
    if lower(s) == lower(t) {
        assert forall|i: int| 0 <= i < s.len() implies upper_char(s[i]) == upper_char(t[i]) by {
            assert(lower(s)[i] == lower(t)[i]);
            law_letters_have_two_cases(s[i]);
            law_letters_have_two_cases(t[i]);
        }
        assert(upper(s) =~= upper(t));
    }
    if upper(s) == upper(t) {
        assert(upper(s).len() == s.len() && upper(t).len() == t.len());
        assert forall|i: int| 0 <= i < s.len() implies lower_char(s[i]) == lower_char(t[i]) by {
            assert(upper(s)[i] == upper(t)[i]);
            law_letters_have_two_cases(s[i]);
            law_letters_have_two_cases(t[i]);
        }
        assert(lower(s) =~= lower(t));
    }
}

/// Among the first 128 characters, those from the tabulator to the carriage return and
/// the space are white space, and what stands below the space is a control character,
/// as is the last.
pub proof fn law_white_space_and_controls(c: char)
    requires
        (c as int) < 128,
    ensures
        is_space(c) <==> 9 <= c as int <= 13 || c as int == 32,
        is_control(c) <==> c as int <= 31 || c as int == 127,
        is_digit(c) <==> 48 <= c as int <= 57,
{
}

/// A digit behind a number counts once, and everything before it ten or sixteen times;
/// a number may have a plus sign and leading zeros.
pub proof fn law_numbers_are_read_by_digit(s: Seq<char>, d: char, base: int, max: int)
    requires
        s.len() > 0,
        s[0] != '+',
        all_digits(s, base),
        digit_value(d) < base,
        base == 10 || base == 16,
        number(s, base) * base + digit_value(d) <= max,
        number(s, base) >= 0,
    ensures
        unsigned(s, base, max) == Some(number(s, base)),
        unsigned(s.push(d), base, max) == Some(number(s, base) * base + digit_value(d)),
        unsigned(seq!['+'] + s, base, max) == unsigned(s, base, max),
        48 <= d as int <= 57 ==> digit_value(d) == d as int - 48,
        97 <= d as int <= 102 ==> digit_value(d) == d as int - 87,
        65 <= d as int <= 70 ==> digit_value(d) == d as int - 55,
{
    let t = s.push(d);
    assert(t.drop_last() =~= s);
    assert(t[0] == s[0]);
    assert forall|i: int| 0 <= i < t.len() implies digit_value(#[trigger] t[i]) < base by {
        if i < s.len() {
            assert(t[i] == s[i]);
        }
    }
    assert((seq!['+'] + s).drop_first() =~= s);
    assert(number(s, base) <= max) by (nonlinear_arith)
        requires
            number(s, base) * base + digit_value(d) <= max,
            digit_value(d) >= 0,
            base >= 1,
            number(s, base) >= 0,
    ;
}

/// What holds a character that is no digit is no number, nor is the empty text, nor a
/// number above the largest.
pub proof fn law_other_texts_are_no_numbers(s: Seq<char>, i: int, base: int, max: int)
    requires
        base == 10 || base == 16,
    ensures
        unsigned(Seq::empty(), base, max) is None,
        1 <= i < s.len() && !(48 <= s[i] as int <= 57) && base == 10 ==> unsigned(s, base, max)
            is None,
        1 <= i < s.len() && !(48 <= s[i] as int <= 57) && !(97 <= s[i] as int <= 102) && !(65
            <= s[i] as int <= 70) ==> unsigned(s, base, max) is None,
        s.len() > 0 && s[0] != '+' && !(48 <= s[0] as int <= 57) && base == 10 ==> unsigned(
            s,
            base,
            max,
        ) is None,
        s.len() > 0 && s[0] != '+' && number(s, base) > max ==> unsigned(s, base, max) is None,
{
    if 1 <= i < s.len() {
        assert(s.drop_first()[i - 1] == s[i]);
    }
}

/// A number that is written is read back: in tens, and in sixteens in either case.
pub proof fn law_written_numbers_are_read_back(n: nat, max: int)
    requires
        n <= max,
    ensures
        unsigned(decimal(n), 10, max) == Some(n as int),
        unsigned(hexadecimal(n), 16, max) == Some(n as int),
        n >= 10 ==> decimal(n)[0] != '0',
        decimal(n).len() > 0,
{
    lemma_decimal_reads_back(n, max);
    lemma_hexadecimal_reads_back(n, max);
    lemma_no_leading_zero(n);
    lemma_decimal(n);
}

proof fn lemma_no_leading_zero(n: nat)
    ensures
        n >= 1 ==> decimal(n).len() > 0 && decimal(n)[0] != '0',
    decreases n,
{
    if n >= 10 {
        lemma_no_leading_zero(n / 10);
        assert(decimal(n)[0] == decimal(n / 10)[0]);
    }
}

/// A padded number is as wide as it should be, or as wide as it is, with zeros in front.
pub proof fn law_padding_is_zeros(s: Seq<char>, width: nat, i: int)
    ensures
        zero_padded(s, width).len() == if s.len() >= width {
            s.len()
        } else {
            width
        },
        zero_padded(s, width).skip(zero_padded(s, width).len() - s.len()) == s,
        0 <= i < zero_padded(s, width).len() - s.len() ==> zero_padded(s, width)[i] == '0',
    decreases width - s.len(),
{
    let p = zero_padded(s, width);
    if s.len() < width {
        let t = seq!['0'] + s;
        law_padding_is_zeros(t, width, i);
        let rest = p.skip(p.len() - t.len());
        assert(rest == t);
        assert(p.skip(p.len() - s.len()) =~= rest.skip(1));
        assert(t.skip(1) =~= s);
        if i == p.len() - t.len() {
            assert(p[i] == rest[0]);
        }
    } else {
        assert(p.skip(0) =~= s);
    }
}

/// A line ends at a line feed, and a carriage return before it belongs to its end; the
/// last line needs no end.
pub proof fn law_lines_end_at_line_feeds(a: Seq<char>, rest: Seq<char>)
    requires
        !has_char(a, '\n'),
        a.len() > 0 ==> a.last() != '\r',
    ensures
        lines(a + seq!['\n'] + rest) == seq![a] + lines(rest),
        lines(a + seq!['\r', '\n'] + rest) == seq![a] + lines(rest),
        a.len() > 0 ==> lines(a) == seq![a],
        lines(Seq::empty()).len() == 0,
{
    lemma_first_index(a, '\n');
    let s = a + seq!['\n'] + rest;
    assert forall|k: int| 0 <= k < a.len() implies s[k] != '\n' by {
        assert(s[k] == a[k]);
    }
    lemma_first_index_is(s, '\n', a.len() as int);
    assert(s.take(a.len() as int) =~= a);
    assert(s.skip(a.len() as int + 1) =~= rest);
    let b = a + seq!['\r'];
    let t = a + seq!['\r', '\n'] + rest;
    assert forall|k: int| 0 <= k < b.len() implies t[k] != '\n' by {
        if k < a.len() {
            assert(t[k] == a[k]);
        }
    }
    assert(t[b.len() as int] == '\n');
    lemma_first_index_is(t, '\n', b.len() as int);
    assert(t.take(b.len() as int) =~= b);
    assert(t.skip(b.len() as int + 1) =~= rest);
    assert(b.drop_last() =~= a);
}

/// Of a text without its trailing or leading `c`, nothing more can be dropped, and only
/// `c` was.
pub proof fn law_only_the_ends_are_dropped(s: Seq<char>, c: char, k: int)
    ensures
        dropped_end(s, c).len() <= s.len(),
        dropped_end(s, c) == s.take(dropped_end(s, c).len() as int),
        dropped_end(s, c).len() <= k < s.len() ==> s[k] == c,
        dropped_end(s, c).len() > 0 ==> dropped_end(s, c).last() != c,
        dropped_start(s, c).len() <= s.len(),
        dropped_start(s, c) == s.skip(s.len() - dropped_start(s, c).len()),
        0 <= k < s.len() - dropped_start(s, c).len() ==> s[k] == c,
        dropped_start(s, c).len() > 0 ==> dropped_start(s, c)[0] != c,
    decreases s.len(),
{
    let e = dropped_end(s, c);
    if s.len() > 0 && s.last() == c {
        law_only_the_ends_are_dropped(s.drop_last(), c, k);
        assert(s.drop_last().take(e.len() as int) =~= s.take(e.len() as int));
        if e.len() <= k < s.len() - 1 {
            assert(s.drop_last()[k] == s[k]);
        }
    } else {
        assert(s.take(s.len() as int) =~= s);
    }
    let f = dropped_start(s, c);
    if s.len() > 0 && s[0] == c {
        let t = s.drop_first();
        law_only_the_ends_are_dropped(t, c, k - 1);
        assert(t.skip(t.len() - f.len()) =~= s.skip(s.len() - f.len()));
        if 0 < k < s.len() - f.len() {
            assert(t[k - 1] == s[k]);
        }
    } else {
        assert(s.skip(0) =~= s);
    }
}

/// The first occurrence is replaced, and the rest is treated alike; a text without an
/// occurrence stays.
pub proof fn law_occurrences_are_replaced(a: Seq<char>, p: Seq<char>, r: Seq<char>, b: Seq<char>)
    requires
        p.len() > 0,
        forall|k: int| 0 <= k < a.len() ==> !starts(#[trigger] (a + p + b).skip(k), p),
    ensures
        replaced(a + p + b, p, r) == a + r + replaced(b, p, r),
{
    let s = a + p + b;
    let i = a.len() as int;
    assert(s.skip(i).take(p.len() as int) =~= p);
    lemma_first_match_is(s, p, i);
    assert(s.take(i) =~= a);
    assert(s.skip(i + p.len()) =~= b);
}

/// Every `c` is removed, and nothing else.
pub proof fn law_only_one_character_is_removed(a: Seq<char>, x: char, b: Seq<char>, c: char)
    ensures
        purged(a + seq![x] + b, c) == purged(a, c) + if x == c {
            Seq::empty()
        } else {
            seq![x]
        } + purged(b, c),
    decreases a.len(),
{
    let s = a + seq![x] + b;
    let mid = if x == c {
        Seq::empty()
    } else {
        seq![x]
    };
    if a.len() == 0 {
        assert(s =~= seq![x] + b);
        assert((seq![x] + b).drop_first() =~= b);
        assert(purged(s, c) =~= purged(a, c) + mid + purged(b, c));
    } else {
        let t = a.drop_first();
        law_only_one_character_is_removed(t, x, b, c);
        assert(s[0] == a[0]);
        assert(s.drop_first() =~= t + seq![x] + b);
        assert(purged(s, c) =~= purged(a, c) + mid + purged(b, c));
    }
}

/// What leads or ends a text can be taken off it, and nothing else can.
pub proof fn law_what_leads_can_be_taken_off(p: Seq<char>, s: Seq<char>, t: Seq<char>)
    ensures
        without_prefix(p + s, p) == Some(s),
        without_suffix(s + p, p) == Some(s),
        without_prefix(t, p) matches Some(x) ==> t == p + x,
        without_suffix(t, p) matches Some(x) ==> t == x + p,
{
    assert((p + s).take(p.len() as int) =~= p);
    assert((p + s).skip(p.len() as int) =~= s);
    assert((s + p).skip(s.len() as int) =~= p);
    assert((s + p).take(s.len() as int) =~= s);
    if p.len() <= t.len() {
        if t.take(p.len() as int) == p {
            assert(t =~= p + t.skip(p.len() as int));
        }
        if t.skip(t.len() - p.len()) == p {
            assert(t =~= t.take(t.len() - p.len()) + p);
        }
    }
}

/// A counter counts, and starts again behind its largest value.
pub proof fn law_counters_count(n: u64, k: nat)
    ensures
        n < u64::MAX ==> bumped(n) == n + 1,
        bumped(u64::MAX) == 0,
        n + k <= u64::MAX ==> bumped_by(n, k) == n + k,
        bumped_by(n, 1) == bumped(n),
{
}

/// A span that passed is never negative, and adds up.
pub proof fn law_spans_add_up(a: Instant, b: Instant, c: Instant)
    requires
        a.nanos <= b.nanos <= c.nanos,
    ensures
        a.nanos + elapsed(b, a) == b.nanos,
        elapsed(c, a) == elapsed(b, a) + elapsed(c, b),
        elapsed(a, b) == 0,
{
}

} // verus!
