//! The mathematical model of a search: caller-supplied equivalence
//! relations, the match predicate, and a reference linear search that the
//! public contracts are stated against.

use vstd::prelude::*;

verus! {

/// An equivalence relation over `T`: reflexive, symmetric, and transitive.
pub open spec fn is_equivalence<T>(r: spec_fn(T, T) -> bool) -> bool {
    &&& forall|a: T| #[trigger] r(a, a)
    &&& forall|a: T, b: T| #[trigger] r(a, b) ==> r(b, a)
    &&& forall|a: T, b: T, c: T| #![trigger r(a, b), r(b, c)] r(a, b) && r(b, c) ==> r(a, c)
}

/// The executable predicate `f` decides the relation `r`: every answer `f`
/// can give equals `r` on its arguments.
pub open spec fn decided_by<T, F: Fn(&T, &T) -> bool>(f: F, r: spec_fn(T, T) -> bool) -> bool {
    forall|a: &T, b: &T, o: bool| #[trigger] call_ensures(f, (a, b), o) ==> o == r(*a, *b)
}

/// `f` is an executable equality test for the equivalence relation `r`.
pub open spec fn equality_for<T, F: Fn(&T, &T) -> bool>(f: F, r: spec_fn(T, T) -> bool) -> bool {
    is_equivalence(r) && decided_by(f, r)
}

/// The pattern occurs in the text at offset `k`, element by element, under
/// the relation `r`.
pub open spec fn matches_at<T>(
    text: Seq<T>,
    pattern: Seq<T>,
    r: spec_fn(T, T) -> bool,
    k: int,
) -> bool {
    &&& 0 <= k
    &&& k + pattern.len() <= text.len()
    &&& forall|x: int| 0 <= x < pattern.len() ==> #[trigger] r(pattern[x], text[k + x])
}

/// Reference search: the least offset `>= s` where the pattern occurs, by a
/// plain left-to-right scan.
pub open spec fn first_match_from<T>(
    text: Seq<T>,
    pattern: Seq<T>,
    r: spec_fn(T, T) -> bool,
    s: int,
) -> Option<int>
    decreases text.len() - s,
{
    if s < 0 || s + pattern.len() > text.len() {
        None
    } else if matches_at(text, pattern, r, s) {
        Some(s)
    } else {
        first_match_from(text, pattern, r, s + 1)
    }
}

/// Reference search over the whole text: the first occurrence, if any.
pub open spec fn first_match<T>(
    text: Seq<T>,
    pattern: Seq<T>,
    r: spec_fn(T, T) -> bool,
) -> Option<int> {
    first_match_from(text, pattern, r, 0)
}

/// The executable result and the reference result name the same offset.
pub open spec fn result_agrees(res: Option<usize>, reference: Option<int>) -> bool {
    match res {
        Some(k) => reference == Some(k as int),
        None => reference is None,
    }
}

/// What a search must return under the relation `r`: the offset of a match
/// that no smaller offset beats, or `None` when no offset matches at all.
pub open spec fn search_result_ok<T>(
    text: Seq<T>,
    pattern: Seq<T>,
    r: spec_fn(T, T) -> bool,
    res: Option<usize>,
) -> bool {
    match res {
        Some(k) => {
            &&& matches_at(text, pattern, r, k as int)
            &&& forall|s: int| 0 <= s < k ==> !matches_at(text, pattern, r, s)
        },
        None => forall|s: int| !matches_at(text, pattern, r, s),
    }
}

proof fn lemma_first_match_from_hits<T>(
    text: Seq<T>,
    pattern: Seq<T>,
    r: spec_fn(T, T) -> bool,
    s: int,
    k: int,
)
    requires
        0 <= s <= k,
        matches_at(text, pattern, r, k),
        forall|q: int| s <= q < k ==> !matches_at(text, pattern, r, q),
    ensures
        first_match_from(text, pattern, r, s) == Some(k),
    decreases k - s,
{
    if s < k {
        lemma_first_match_from_hits(text, pattern, r, s + 1, k);
    }
}

proof fn lemma_first_match_from_misses<T>(
    text: Seq<T>,
    pattern: Seq<T>,
    r: spec_fn(T, T) -> bool,
    s: int,
)
    requires
        0 <= s,
        forall|q: int| s <= q ==> !matches_at(text, pattern, r, q),
    ensures
        first_match_from(text, pattern, r, s) is None,
    decreases text.len() - s + 1,
{
    if s + pattern.len() <= text.len() {
        lemma_first_match_from_misses(text, pattern, r, s + 1);
    }
}

/// A valid, minimal result is exactly what the reference linear search
/// returns: searches that meet `search_result_ok` agree with `first_match`.
pub proof fn lemma_result_is_first_match<T>(
    text: Seq<T>,
    pattern: Seq<T>,
    r: spec_fn(T, T) -> bool,
    res: Option<usize>,
)
    requires
        search_result_ok(text, pattern, r, res),
    ensures
        result_agrees(res, first_match(text, pattern, r)),
{
    match res {
        Some(k) => lemma_first_match_from_hits(text, pattern, r, 0, k as int),
        None => lemma_first_match_from_misses(text, pattern, r, 0),
    }
}

/// The empty pattern matches every text at offset 0, including the empty
/// text, under every relation.
pub proof fn lemma_empty_pattern<T>(text: Seq<T>, r: spec_fn(T, T) -> bool)
    ensures
        first_match(text, Seq::<T>::empty(), r) == Some(0int),
{
    assert(matches_at(text, Seq::<T>::empty(), r, 0));
}

/// A pattern longer than the text never occurs in it.
pub proof fn lemma_pattern_longer_than_text<T>(
    text: Seq<T>,
    pattern: Seq<T>,
    r: spec_fn(T, T) -> bool,
)
    requires
        pattern.len() > text.len(),
    ensures
        first_match(text, pattern, r) is None,
{
    lemma_first_match_from_misses(text, pattern, r, 0);
}

/// A text formed as the pattern concatenated with itself matches the
/// pattern at offset 0, for every reflexive relation.
pub proof fn lemma_doubled_pattern_matches_at_zero<T>(
    pattern: Seq<T>,
    r: spec_fn(T, T) -> bool,
)
    requires
        forall|a: T| #[trigger] r(a, a),
    ensures
        first_match(pattern + pattern, pattern, r) == Some(0int),
{
    assert(matches_at(pattern + pattern, pattern, r, 0)) by {
        assert forall|x: int| 0 <= x < pattern.len() implies #[trigger] r(
            pattern[x],
            (pattern + pattern)[0 + x],
        ) by {
            assert((pattern + pattern)[x] == pattern[x]);
        }
    }
}

} // verus!
