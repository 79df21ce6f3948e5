//! What the proxy promises, over all inputs: each law relates the inputs of an
//! operation to its result, or two calls to each other.

pub mod balancing;
pub mod caching;
pub mod edges;
pub mod firewall;
pub mod guarding;
pub mod message;
pub mod observing;
pub mod pools;
pub mod relaying;
pub mod reporting;
pub mod rewriting;
pub mod routing;
pub mod serving;
pub mod settings;
pub mod states;
pub mod wiring;
pub mod writing;

use vstd::prelude::*;

use crate::http::{lookup, occurrences, Fields};
use crate::text::{is_space, same_fold, trimmed, trimmed_end, trimmed_start};

verus! {

/// The first field of a name stands at `i`; names are equal up to case.
pub open spec fn first_named(h: Fields, name: Seq<char>, i: int) -> bool {
    &&& 0 <= i < h.len()
    &&& same_fold(h[i].0, name)
    &&& forall|k: int| 0 <= k < i ==> !same_fold((#[trigger] h[k]).0, name)
}

/// No field has the name.
pub open spec fn absent(h: Fields, name: Seq<char>) -> bool {
    forall|k: int| 0 <= k < h.len() ==> !same_fold((#[trigger] h[k]).0, name)
}

/// A lookup gives the value of the first field of the name.
pub proof fn law_a_lookup_gives_the_first_field(h: Fields, name: Seq<char>, i: int)
    requires
        first_named(h, name, i),
    ensures
        lookup(h, name) == Some(h[i].1),
    decreases h.len(),
{
    if i > 0 {
        let t = h.drop_first();
        assert(!same_fold(h[0].0, name));
        assert forall|k: int| 0 <= k < i - 1 implies !same_fold((#[trigger] t[k]).0, name) by {
            assert(t[k] == h[k + 1]);
        }
        assert(t[i - 1] == h[i]);
        law_a_lookup_gives_the_first_field(t, name, i - 1);
    }
}

/// A lookup gives nothing where no field has the name.
pub proof fn law_a_lookup_of_nothing_gives_nothing(h: Fields, name: Seq<char>)
    requires
        absent(h, name),
    ensures
        lookup(h, name) is None,
        occurrences(h, name) == 0,
    decreases h.len(),
{
    if h.len() > 0 {
        let t = h.drop_first();
        assert(!same_fold(h[0].0, name));
        assert forall|k: int| 0 <= k < t.len() implies !same_fold((#[trigger] t[k]).0, name) by {
            assert(t[k] == h[k + 1]);
        }
        law_a_lookup_of_nothing_gives_nothing(t, name);
    }
}

/// Each name is that of a first field or of none.
pub proof fn lemma_first_or_absent(h: Fields, name: Seq<char>) -> (i: int)
    ensures
        absent(h, name) || first_named(h, name, i),
    decreases h.len(),
{
    if h.len() == 0 {
        0
    } else if same_fold(h[0].0, name) {
        0
    } else {
        let t = h.drop_first();
        let j = lemma_first_or_absent(t, name);
        assert forall|k: int| 0 < k < h.len() implies h[k] == t[k - 1] by {}
        if absent(t, name) {
            assert forall|k: int| 0 <= k < h.len() implies !same_fold((#[trigger] h[k]).0, name) by {
                if k > 0 {
                    assert(h[k] == t[k - 1]);
                }
            }
        } else {
            assert forall|k: int| 0 <= k < j + 1 implies !same_fold((#[trigger] h[k]).0, name) by {
                if k > 0 {
                    assert(h[k] == t[k - 1]);
                }
            }
        }
        j + 1
    }
}

/// Fields that differ in the value of one alone: `a` and `b` have it at `i`.
pub open spec fn differ_at(a: Fields, b: Fields, i: int) -> bool {
    &&& a.len() == b.len()
    &&& 0 <= i < a.len()
    &&& a[i].0 == b[i].0
    &&& forall|k: int| 0 <= k < a.len() && k != i ==> #[trigger] a[k] == b[k]
}

/// The value of one field is nothing to the lookup of another name.
pub proof fn lemma_differ_elsewhere(a: Fields, b: Fields, i: int, name: Seq<char>)
    requires
        differ_at(a, b, i),
        !same_fold(a[i].0, name),
    ensures
        lookup(a, name) == lookup(b, name),
{
    let j = lemma_first_or_absent(a, name);
    if absent(a, name) {
        assert(absent(b, name)) by {
            assert forall|k: int| 0 <= k < b.len() implies !same_fold((#[trigger] b[k]).0, name) by {
                assert(!same_fold(a[k].0, name));
            }
        }
        law_a_lookup_of_nothing_gives_nothing(a, name);
        law_a_lookup_of_nothing_gives_nothing(b, name);
    } else {
        assert(j != i);
        assert(a[j] == b[j]);
        assert(first_named(b, name, j)) by {
            assert forall|k: int| 0 <= k < j implies !same_fold((#[trigger] b[k]).0, name) by {
                assert(!same_fold(a[k].0, name));
            }
        }
        law_a_lookup_gives_the_first_field(a, name, j);
        law_a_lookup_gives_the_first_field(b, name, j);
    }
}

proof fn lemma_trimmed_end_ends(s: Seq<char>)
    ensures
        trimmed_end(s).len() > 0 ==> !is_space(trimmed_end(s).last()) && trimmed_end(s)[0] == s[0],
    decreases s.len(),
{
    if s.len() > 0 && is_space(s.last()) {
        lemma_trimmed_end_ends(s.drop_last());
    }
}

proof fn lemma_trimmed_start_ends(s: Seq<char>)
    ensures
        trimmed_start(s).len() > 0 ==> !is_space(trimmed_start(s)[0]),
    decreases s.len(),
{
    if s.len() > 0 && is_space(s[0]) {
        lemma_trimmed_start_ends(s.drop_first());
    }
}

/// A trimmed text neither starts nor ends with white space.
pub proof fn lemma_trimmed_ends(s: Seq<char>)
    ensures
        trimmed(s).len() > 0 ==> !is_space(trimmed(s)[0]) && !is_space(trimmed(s).last()),
        trimmed(trimmed(s)) == trimmed(s),
{
    lemma_trimmed_start_ends(s);
    lemma_trimmed_end_ends(trimmed_start(s));
    lemma_nothing_to_trim(trimmed(s));
}

/// A text that neither starts nor ends with white space is left as it is.
pub proof fn lemma_nothing_to_trim(s: Seq<char>)
    requires
        s.len() > 0 ==> !is_space(s[0]) && !is_space(s.last()),
    ensures
        trimmed(s) == s,
{
}

} // verus!
