//! The order of texts, and lists sorted by it.

use vstd::prelude::*;
use vstd::relations::{sorted_by, strict_total_ordering, total_ordering};

use crate::text::{chars_of, pairs, texts};

verus! {

/// `a` stands before `b` in the order of characters, the first difference deciding.
pub open spec fn less(a: Seq<char>, b: Seq<char>) -> bool
    decreases b.len(),
{
    if b.len() == 0 {
        false
    } else if a.len() == 0 {
        true
    } else if a[0] != b[0] {
        a[0] < b[0]
    } else {
        less(a.drop_first(), b.drop_first())
    }
}

/// A pair stands before another: by the first texts, then by the second.
pub open spec fn pair_less(a: (Seq<char>, Seq<char>), b: (Seq<char>, Seq<char>)) -> bool {
    less(a.0, b.0) || (a.0 == b.0 && less(a.1, b.1))
}

/// The order of texts as a function.
pub open spec fn by_text() -> spec_fn(Seq<char>, Seq<char>) -> bool {
    |a: Seq<char>, b: Seq<char>| less(a, b)
}

/// The order of pairs as a function.
pub open spec fn by_pair() -> spec_fn((Seq<char>, Seq<char>), (Seq<char>, Seq<char>)) -> bool {
    |a: (Seq<char>, Seq<char>), b: (Seq<char>, Seq<char>)| pair_less(a, b)
}

/// A sorted list with one more item, behind those that are not larger.
pub open spec fn placed<T>(s: Seq<T>, x: T, before: spec_fn(T, T) -> bool) -> Seq<T>
    decreases s.len(),
{
    if s.len() == 0 {
        seq![x]
    } else if before(x, s[0]) {
        seq![x] + s
    } else {
        seq![s[0]] + placed(s.drop_first(), x, before)
    }
}

/// A list, sorted.
pub open spec fn sorted<T>(s: Seq<T>, before: spec_fn(T, T) -> bool) -> Seq<T>
    decreases s.len(),
{
    if s.len() == 0 {
        s
    } else {
        placed(sorted(s.drop_last(), before), s.last(), before)
    }
}

/// Where the item is put.
proof fn lemma_placed_at<T>(s: Seq<T>, x: T, before: spec_fn(T, T) -> bool, i: int)
    requires
        0 <= i <= s.len(),
        i < s.len() ==> before(x, s[i]),
        forall|k: int| 0 <= k < i ==> !before(x, #[trigger] s[k]),
    ensures
        placed(s, x, before) == s.insert(i, x),
    decreases s.len(),
{
    if s.len() == 0 {
        assert(s.insert(i, x) =~= seq![x]);
    } else if i == 0 {
        assert(s.insert(0, x) =~= seq![x] + s);
    } else {
        let t = s.drop_first();
        assert(!before(x, s[0]));
        assert forall|k: int| 0 <= k < i - 1 implies !before(x, #[trigger] t[k]) by {
            assert(t[k] == s[k + 1]);
        }
        lemma_placed_at(t, x, before, i - 1);
        assert(s.insert(i, x) =~= seq![s[0]] + t.insert(i - 1, x));
    }
}

/// Whether `a` stands before `b`.
pub fn stands_before(a: &str, b: &str) -> (r: bool)
    ensures
        r == less(a@, b@),
{
    let x = chars_of(a);
    let y = chars_of(b);
    let mut i: usize = 0;
    assert(x@.skip(0) =~= x@);
    assert(y@.skip(0) =~= y@);
    while i < x.len() && i < y.len()
        invariant
            i <= x@.len(),
            i <= y@.len(),
            x@ == a@,
            y@ == b@,
            less(a@, b@) == less(x@.skip(i as int), y@.skip(i as int)),
        decreases x.len() - i,
    {
        if x[i] != y[i] {
            return x[i] < y[i];
        }
        assert(x@.skip(i as int).drop_first() =~= x@.skip(i + 1));
        assert(y@.skip(i as int).drop_first() =~= y@.skip(i + 1));
        i = i + 1;
    }
    i < y.len()
}

/// Sorts texts.
pub fn sort_texts(v: Vec<String>) -> (r: Vec<String>)
    ensures
        texts(r@) == sorted(texts(v@), by_text()),
        r@.len() == v@.len(),
{
    let mut r: Vec<String> = Vec::new();
    let mut i: usize = 0;
    assert(texts(v@).take(0) =~= Seq::empty());
    assert(texts(r@) =~= Seq::empty());
    while i < v.len()
        invariant
            i <= v@.len(),
            r@.len() == i,
            texts(r@) == sorted(texts(v@).take(i as int), by_text()),
        decreases v.len() - i,
    {
        let x = v[i].clone();
        let mut at: usize = 0;
        while at < r.len() && !stands_before(x.as_str(), r[at].as_str())
            invariant
                at <= r@.len(),
                forall|k: int| 0 <= k < at ==> !less(x@, #[trigger] texts(r@)[k]),
            decreases r.len() - at,
        {
            assert(texts(r@)[at as int] == r@[at as int]@);
            at = at + 1;
        }
        let ghost was = texts(r@);
        let ghost t = texts(v@).take(i + 1);
        proof {
            assert forall|k: int| 0 <= k < at implies !by_text()(x@, #[trigger] was[k]) by {
                assert(!less(x@, texts(r@)[k]));
            }
            lemma_placed_at(was, x@, by_text(), at as int);
            assert(t.drop_last() =~= texts(v@).take(i as int));
            assert(t.last() == x@);
        }
        let ghost y = x@;
        r.insert(at, x);
        assert(texts(r@) =~= was.insert(at as int, y));
        i = i + 1;
    }
    assert(texts(v@).take(i as int) =~= texts(v@));
    r
}

/// Sorts pairs of texts.
pub fn sort_pairs(v: Vec<(String, String)>) -> (r: Vec<(String, String)>)
    ensures
        pairs(r@) == sorted(pairs(v@), by_pair()),
        r@.len() == v@.len(),
{
    let mut r: Vec<(String, String)> = Vec::new();
    let mut i: usize = 0;
    assert(pairs(v@).take(0) =~= Seq::empty());
    assert(pairs(r@) =~= Seq::empty());
    while i < v.len()
        invariant
            i <= v@.len(),
            r@.len() == i,
            pairs(r@) == sorted(pairs(v@).take(i as int), by_pair()),
        decreases v.len() - i,
    {
        let a = v[i].0.clone();
        let b = v[i].1.clone();
        let ghost y = (a@, b@);
        let mut at: usize = 0;
        loop
            invariant_except_break
                at <= r@.len(),
                y == (a@, b@),
                forall|k: int| 0 <= k < at ==> !pair_less(y, #[trigger] pairs(r@)[k]),
            ensures
                at <= r@.len(),
                at < r@.len() ==> pair_less(y, pairs(r@)[at as int]),
                forall|k: int| 0 <= k < at ==> !pair_less(y, #[trigger] pairs(r@)[k]),
            decreases r.len() - at,
        {
            if at >= r.len() {
                break;
            }
            assert(pairs(r@)[at as int] == (r@[at as int].0@, r@[at as int].1@));
            let earlier = stands_before(a.as_str(), r[at].0.as_str()) || (crate::text::same(
                a.as_str(),
                r[at].0.as_str(),
            ) && stands_before(b.as_str(), r[at].1.as_str()));
            if earlier {
                break;
            }
            at = at + 1;
        }
        let ghost was = pairs(r@);
        let ghost t = pairs(v@).take(i + 1);
        proof {
            assert forall|k: int| 0 <= k < at implies !by_pair()(y, #[trigger] was[k]) by {
                assert(!pair_less(y, pairs(r@)[k]));
            }
            lemma_placed_at(was, y, by_pair(), at as int);
            assert(t.drop_last() =~= pairs(v@).take(i as int));
            assert(t.last() == y);
        }
        r.insert(at, (a, b));
        assert(pairs(r@) =~= was.insert(at as int, y));
        i = i + 1;
    }
    assert(pairs(v@).take(i as int) =~= pairs(v@));
    r
}

// ---------------------------------------------------------------------------
// What sorting keeps, and that its outcome is one
// ---------------------------------------------------------------------------

proof fn lemma_not_less_than_itself(a: Seq<char>)
    ensures
        !less(a, a),
    decreases a.len(),
{
    if a.len() > 0 {
        lemma_not_less_than_itself(a.drop_first());
    }
}

proof fn lemma_less_is_strict(a: Seq<char>, b: Seq<char>)
    ensures
        !less(a, a),
        a != b ==> less(a, b) || less(b, a),
        !(less(a, b) && less(b, a)),
    decreases a.len() + b.len(),
{
    lemma_not_less_than_itself(a);
    if a.len() > 0 && b.len() > 0 {
        let x = a.drop_first();
        let y = b.drop_first();
        lemma_less_is_strict(x, y);
        if a[0] == b[0] && x == y {
            assert(a =~= seq![a[0]] + x);
            assert(b =~= seq![b[0]] + y);
        }
    } else if a.len() == 0 && b.len() == 0 {
        assert(a =~= b);
    }
}

proof fn lemma_less_passes_on(a: Seq<char>, b: Seq<char>, c: Seq<char>)
    requires
        less(a, b),
        less(b, c),
    ensures
        less(a, c),
    decreases c.len(),
{
    if a.len() > 0 && a[0] == b[0] && b[0] == c[0] {
        lemma_less_passes_on(a.drop_first(), b.drop_first(), c.drop_first());
    }
}

/// Texts are strictly and totally ordered.
pub proof fn lemma_texts_are_ordered()
    ensures
        strict_total_ordering(by_text()),
{
    let before = by_text();
    assert forall|x: Seq<char>| !(#[trigger] before(x, x)) by {
        lemma_less_is_strict(x, x);
    }
    assert forall|x: Seq<char>, y: Seq<char>|
        (#[trigger] before(x, y)) && (#[trigger] before(y, x)) implies x == y by {
        lemma_less_is_strict(x, y);
    }
    assert forall|x: Seq<char>, y: Seq<char>, z: Seq<char>|
        (#[trigger] before(x, y)) && (#[trigger] before(y, z)) implies before(x, z) by {
        lemma_less_passes_on(x, y, z);
    }
    assert forall|x: Seq<char>, y: Seq<char>| x != y implies (#[trigger] before(x, y))
        || (#[trigger] before(y, x)) by {
        lemma_less_is_strict(x, y);
    }
}

/// Pairs are strictly and totally ordered.
pub proof fn lemma_pairs_are_ordered()
    ensures
        strict_total_ordering(by_pair()),
{
    let before = by_pair();
    assert forall|x: (Seq<char>, Seq<char>)| !(#[trigger] before(x, x)) by {
        lemma_less_is_strict(x.0, x.0);
        lemma_less_is_strict(x.1, x.1);
    }
    assert forall|x: (Seq<char>, Seq<char>), y: (Seq<char>, Seq<char>)|
        (#[trigger] before(x, y)) && (#[trigger] before(y, x)) implies x == y by {
        lemma_less_is_strict(x.0, y.0);
        lemma_less_is_strict(x.1, y.1);
        lemma_less_is_strict(x.0, x.0);
    }
    assert forall|x: (Seq<char>, Seq<char>), y: (Seq<char>, Seq<char>), z: (Seq<char>, Seq<char>)|
        (#[trigger] before(x, y)) && (#[trigger] before(y, z)) implies before(x, z) by {
        if less(x.0, y.0) && less(y.0, z.0) {
            lemma_less_passes_on(x.0, y.0, z.0);
        } else if x.0 == y.0 && y.0 == z.0 {
            lemma_less_passes_on(x.1, y.1, z.1);
        }
    }
    assert forall|x: (Seq<char>, Seq<char>), y: (Seq<char>, Seq<char>)| x != y implies (
    #[trigger] before(x, y)) || (#[trigger] before(y, x)) by {
        lemma_less_is_strict(x.0, y.0);
        lemma_less_is_strict(x.1, y.1);
    }
}

/// Nothing stands in front of what goes before it.
pub open spec fn in_order<T>(s: Seq<T>, before: spec_fn(T, T) -> bool) -> bool {
    forall|i: int, j: int| 0 <= i < j < s.len() ==> !before(#[trigger] s[j], #[trigger] s[i])
}

proof fn lemma_placed_keeps<T>(s: Seq<T>, x: T, before: spec_fn(T, T) -> bool)
    requires
        strict_total_ordering(before),
        in_order(s, before),
    ensures
        in_order(placed(s, x, before), before),
        placed(s, x, before).to_multiset() == s.to_multiset().insert(x),
        placed(s, x, before).len() == s.len() + 1,
        forall|y: T| #[trigger]
            placed(s, x, before).contains(y) <==> s.contains(y) || y == x,
    decreases s.len(),
{
    broadcast use vstd::multiset::group_multiset_axioms, vstd::seq_lib::group_to_multiset_ensures;

    let p = placed(s, x, before);
    if s.len() == 0 {
        assert(p =~= s.push(x));
        assert(p[0] == x);
    } else if before(x, s[0]) {
        assert(p =~= seq![x] + s);
        assert(p[0] == x);
        assert forall|i: int, j: int| 0 <= i < j < p.len() implies !before(
            #[trigger] p[j],
            #[trigger] p[i],
        ) by {
            assert(p[j] == s[j - 1]);
            if i > 0 {
                assert(p[i] == s[i - 1]);
            } else if before(s[j - 1], x) {
                assert(before(s[j - 1], s[0]));
            }
        }
        vstd::seq_lib::lemma_multiset_commutative(seq![x], s);
        assert(seq![x] =~= Seq::<T>::empty().push(x));
        assert(p.to_multiset() =~= s.to_multiset().insert(x));
        assert forall|y: T| #[trigger] p.contains(y) <==> s.contains(y) || y == x by {
            if s.contains(y) {
                let i = choose|i: int| 0 <= i < s.len() && s[i] == y;
                assert(p[i + 1] == y);
            }
        }
    } else {
        let t = s.drop_first();
        let q = placed(t, x, before);
        assert(in_order(t, before)) by {
            assert forall|i: int, j: int| 0 <= i < j < t.len() implies !before(
                #[trigger] t[j],
                #[trigger] t[i],
            ) by {
                assert(t[i] == s[i + 1] && t[j] == s[j + 1]);
            }
        }
        lemma_placed_keeps(t, x, before);
        assert(p =~= seq![s[0]] + q);
        assert(p[0] == s[0]);
        assert forall|i: int, j: int| 0 <= i < j < p.len() implies !before(
            #[trigger] p[j],
            #[trigger] p[i],
        ) by {
            assert(p[j] == q[j - 1]);
            if i > 0 {
                assert(p[i] == q[i - 1]);
            } else {
                assert(q.contains(q[j - 1]));
                if q[j - 1] != x {
                    assert(t.contains(q[j - 1]));
                    let k = choose|k: int| 0 <= k < t.len() && t[k] == q[j - 1];
                    assert(t[k] == s[k + 1]);
                    assert(!before(s[k + 1], s[0]));
                }
            }
        }
        vstd::seq_lib::lemma_multiset_commutative(seq![s[0]], q);
        vstd::seq_lib::lemma_multiset_commutative(seq![s[0]], t);
        assert(s =~= seq![s[0]] + t);
        assert(p.to_multiset() =~= s.to_multiset().insert(x));
        assert forall|y: T| #[trigger] p.contains(y) <==> s.contains(y) || y == x by {
            if q.contains(y) {
                let i = choose|i: int| 0 <= i < q.len() && q[i] == y;
                assert(p[i + 1] == y);
            }
            if t.contains(y) {
                let i = choose|i: int| 0 <= i < t.len() && t[i] == y;
                assert(s[i + 1] == y);
            }
            if s.contains(y) {
                let i = choose|i: int| 0 <= i < s.len() && s[i] == y;
                if i > 0 {
                    assert(t[i - 1] == y);
                }
            }
            if p.contains(y) {
                let i = choose|i: int| 0 <= i < p.len() && p[i] == y;
                if i > 0 {
                    assert(q[i - 1] == y);
                }
            }
        }
    }
}

/// Sorting keeps every item, as often as it stands there, and puts them in order.
pub proof fn law_sorting_keeps_the_items<T>(s: Seq<T>, before: spec_fn(T, T) -> bool)
    requires
        strict_total_ordering(before),
    ensures
        in_order(sorted(s, before), before),
        sorted(s, before).to_multiset() == s.to_multiset(),
        sorted(s, before).len() == s.len(),
    decreases s.len(),
{
    broadcast use vstd::multiset::group_multiset_axioms, vstd::seq_lib::group_to_multiset_ensures;

    if s.len() > 0 {
        let r = sorted(s.drop_last(), before);
        law_sorting_keeps_the_items(s.drop_last(), before);
        lemma_placed_keeps(r, s.last(), before);
        assert(s =~= s.drop_last().push(s.last()));
    }
}

/// However the items stood, sorting them gives one list.
pub proof fn law_sorting_forgets_the_order<T>(s: Seq<T>, t: Seq<T>, before: spec_fn(T, T) -> bool)
    requires
        strict_total_ordering(before),
        s.to_multiset() == t.to_multiset(),
    ensures
        sorted(s, before) == sorted(t, before),
{
    let leq = |a: T, b: T| !before(b, a);
    let x = sorted(s, before);
    let y = sorted(t, before);
    law_sorting_keeps_the_items(s, before);
    law_sorting_keeps_the_items(t, before);
    assert(sorted_by(x, leq));
    assert(sorted_by(y, leq));
    assert(total_ordering(leq)) by {
        assert forall|a: T, b: T, c: T| #[trigger] leq(a, b) && #[trigger] leq(b, c) implies leq(
            a,
            c,
        ) by {
            if before(c, a) {
                if a != b {
                    assert(before(a, b));
                    assert(before(c, b));
                }
            }
        }
        assert forall|a: T, b: T| #[trigger] leq(a, b) && #[trigger] leq(b, a) implies a == b by {
            if a != b {
                assert(before(a, b) || before(b, a));
            }
        }
        assert forall|a: T, b: T| #[trigger] leq(a, b) || #[trigger] leq(b, a) by {
            if before(b, a) && before(a, b) {
                assert(a == b);
                assert(!before(a, a));
            }
        }
        assert forall|a: T| #[trigger] leq(a, a) by {
            assert(!before(a, a));
        }
    }
    vstd::seq_lib::lemma_sorted_unique(x, y, leq);
}

} // verus!
