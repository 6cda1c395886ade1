//! The matcher: a single left-to-right scan of the text, driven by the
//! failure table, and the two public search entry points.

use vstd::prelude::*;

use crate::relation::decided_by;
use crate::relation::equality_for;
use crate::relation::first_match;
use crate::relation::is_equivalence;
use crate::relation::lemma_result_is_first_match;
use crate::relation::matches_at;
use crate::relation::result_agrees;
use crate::relation::search_result_ok;
use crate::table::entry_ok;
use crate::table::fallback;
use crate::table::is_border;
use crate::table::prepare_kmp;
use crate::table::table_decreasing;
use crate::table::table_ok;
use crate::table::FailureTable;
use vstd::std_specs::cmp::PartialEqSpec;

verus! {

/// Matcher state: the first `b` pattern elements occur, under `r`, just
/// before text position `j`, and no offset before `j - b` matches.
pub open spec fn scan_ok<T>(
    t: Seq<T>,
    p: Seq<T>,
    r: spec_fn(T, T) -> bool,
    b: int,
    j: int,
) -> bool {
    &&& forall|x: int| 0 <= x < b ==> #[trigger] r(p[x], t[j - b + x])
    &&& forall|s: int| 0 <= s < j - b ==> !matches_at(t, p, r, s)
}

/// Falling back from a matched prefix of length `b` to a border `cv` of it
/// keeps the matched text elements: the border's elements occur, under `r`,
/// just before position `j` as well.
proof fn lemma_fallback_keeps_match<T>(
    t: Seq<T>,
    p: Seq<T>,
    r: spec_fn(T, T) -> bool,
    b: int,
    cv: int,
    j: int,
)
    requires
        is_equivalence(r),
        is_border(p, b, cv, r),
        forall|x: int| 0 <= x < b ==> #[trigger] r(p[x], t[j - b + x]),
    ensures
        forall|x: int| 0 <= x < cv ==> #[trigger] r(p[x], t[j - cv + x]),
{
    assert forall|x: int| 0 <= x < cv implies #[trigger] r(p[x], t[j - cv + x]) by {
        assert(r(p[x], p[b - cv + x]));
        assert(r(p[b - cv + x], t[j - b + (b - cv + x)]));
        assert(t[j - b + (b - cv + x)] == t[j - cv + x]);
    }
}

/// When `p[b]` has refused the text element at `j`, every candidate offset
/// the table entry skips is refuted: a match there would force, through the
/// relation, the very comparison that just failed to succeed.
proof fn lemma_skipped_offsets<T>(
    t: Seq<T>,
    p: Seq<T>,
    r: spec_fn(T, T) -> bool,
    b: int,
    e: Option<usize>,
    j: int,
)
    requires
        is_equivalence(r),
        entry_ok(p, b, e, r),
        0 <= b < p.len(),
        b <= j < t.len(),
        forall|x: int| 0 <= x < b ==> #[trigger] r(p[x], t[j - b + x]),
        !r(p[b], t[j]),
    ensures
        forall|b2: int| fallback(e) < b2 <= b ==> !(#[trigger] matches_at(t, p, r, j - b2)),
{
    assert forall|b2: int| fallback(e) < b2 <= b implies !(#[trigger] matches_at(t, p, r, j - b2)) by {
        if matches_at(t, p, r, j - b2) {
            let s = j - b2;
            if b2 == b {
                assert(r(p[b], t[s + b]));
                assert(s + b == j);
            } else if 0 <= b2 {
                assert(is_border(p, b, b2, r)) by {
                    assert forall|x: int| 0 <= x < b2 implies #[trigger] r(p[x], p[b - b2 + x]) by {
                        assert(r(p[x], t[s + x]));
                        assert(r(p[b - b2 + x], t[j - b + (b - b2 + x)]));
                        assert(t[j - b + (b - b2 + x)] == t[s + x]);
                        assert(r(t[s + x], p[b - b2 + x]));
                    }
                }
                assert(r(p[b2], p[b]));
                assert(r(p[b2], t[s + b2]));
                assert(s + b2 == j);
                assert(r(p[b], p[b2]));
                assert(r(p[b], t[j]));
            }
        }
    }
}

/// Search for the first occurrence of `pattern` as a substring of `text`,
/// comparing elements with the predicate `equal`. Return the start of the
/// substring as an offset from the start of the text inside a `Some`. If
/// the pattern is not found, return `None`.
///
/// The contract speaks of every equivalence relation the predicate decides:
/// the result is the first offset where the pattern occurs under that
/// relation, exactly as the reference linear search finds it.
pub fn knuth_morris_pratt_by<T, F: Fn(&T, &T) -> bool>(
    text: &[T],
    pattern: &[T],
    equal: F,
) -> (res: Option<usize>)
    requires
        pattern@.len() < usize::MAX,
        forall|a: &T, b: &T| #[trigger] call_requires(equal, (a, b)),
    ensures
        forall|r: spec_fn(T, T) -> bool|
            #[trigger] equality_for(equal, r) ==> search_result_ok(text@, pattern@, r, res),
        forall|r: spec_fn(T, T) -> bool|
            #[trigger] equality_for(equal, r) ==> result_agrees(
                res,
                first_match(text@, pattern@, r),
            ),
{
    let ghost t = text@;
    let ghost p = pattern@;
    let m = pattern.len();
    let n = text.len();
    // the empty pattern is a trivial match
    if m == 0 {
        proof {
            assert forall|r: spec_fn(T, T) -> bool|
                #[trigger] equality_for(equal, r) implies search_result_ok(
                t,
                p,
                r,
                Some(0usize),
            ) by {
                assert(matches_at(t, p, r, 0));
            }
            assert forall|r: spec_fn(T, T) -> bool|
                #[trigger] equality_for(equal, r) implies result_agrees(
                Some(0usize),
                first_match(t, p, r),
            ) by {
                lemma_result_is_first_match(t, p, r, Some(0usize));
            }
        }
        return Some(0);
    } else if m > n {
        proof {
            assert forall|r: spec_fn(T, T) -> bool|
                #[trigger] equality_for(equal, r) implies result_agrees(
                None::<usize>,
                first_match(t, p, r),
            ) by {
                lemma_result_is_first_match(t, p, r, None::<usize>);
            }
        }
        return None;
    }
    let mut table = FailureTable::with_length(m + 1);
    prepare_kmp(pattern, &mut table, &equal);
    let mut i: usize = 0;
    let mut j: usize = 0;
    while j < n
        invariant
            m == p.len(),
            n == t.len(),
            p == pattern@,
            t == text@,
            1 <= m <= n,
            i < m,
            i <= j <= n,
            table.wf(),
            table.entries().len() == m + 1,
            table_decreasing(table.entries()),
            forall|a: &T, b: &T| #[trigger] call_requires(equal, (a, b)),
            forall|r: spec_fn(T, T) -> bool|
                #[trigger] equality_for(equal, r) ==> table_ok(p, table.entries(), r),
            forall|r: spec_fn(T, T) -> bool|
                #[trigger] equality_for(equal, r) ==> scan_ok(t, p, r, i as int, j as int),
        decreases n - j,
    {
        let mut c: Option<usize> = Some(i);
        // fall back through shorter matched prefixes until one of them is
        // followed by an element equivalent to the text element at j, or
        // the sentinel says to skip this text element altogether
        loop
            invariant
                m == p.len(),
                n == t.len(),
                p == pattern@,
                t == text@,
                1 <= m <= n,
                i < m,
                i <= j < n,
                table.wf(),
                table.entries().len() == m + 1,
                table_decreasing(table.entries()),
                fallback(c) <= i,
                forall|a: &T, b: &T| #[trigger] call_requires(equal, (a, b)),
                forall|r: spec_fn(T, T) -> bool|
                    #[trigger] equality_for(equal, r) ==> table_ok(p, table.entries(), r),
                forall|r: spec_fn(T, T) -> bool|
                    #[trigger] equality_for(equal, r) ==> scan_ok(t, p, r, fallback(c), j as int),
            ensures
                fallback(c) <= i,
                c matches Some(b) ==> b < m,
                forall|r: spec_fn(T, T) -> bool|
                    #[trigger] equality_for(equal, r) ==> scan_ok(t, p, r, fallback(c), j as int),
                forall|r: spec_fn(T, T) -> bool|
                    #[trigger] equality_for(equal, r) ==> (c matches Some(b) ==> r(
                        p[b as int],
                        t[j as int],
                    )),
            decreases fallback(c) + 1,
        {
            match c {
                None => { break; },
                Some(b) => {
                    if equal(&pattern[b], &text[j]) {
                        assert forall|r: spec_fn(T, T) -> bool|
                            #[trigger] equality_for(equal, r) implies r(p[b as int], t[j as int]) by {
                            assert(decided_by(equal, r));
                        }
                        break;
                    }
                    let ghost bold = b as int;
                    let cnew = table.entry(b);
                    assert forall|r: spec_fn(T, T) -> bool|
                        #[trigger] equality_for(equal, r) implies scan_ok(
                        t,
                        p,
                        r,
                        fallback(cnew),
                        j as int,
                    ) by {
                        assert(scan_ok(t, p, r, bold, j as int));
                        assert(table_ok(p, table.entries(), r));
                        assert(entry_ok(p, bold, table.entries()[bold], r));
                        assert(!r(p[bold], t[j as int]));
                        let cv = fallback(cnew);
                        if cv >= 0 {
                            assert(is_border(p, bold, cv, r));
                            lemma_fallback_keeps_match(t, p, r, bold, cv, j as int);
                        }
                        lemma_skipped_offsets(t, p, r, bold, cnew, j as int);
                        assert forall|s: int| 0 <= s < j - cv implies !matches_at(t, p, r, s) by {
                            if s >= j - bold {
                                let b2 = j - s;
                                assert(cv < b2 <= bold);
                                assert(!matches_at(t, p, r, j - b2));
                                assert(j - b2 == s);
                            }
                        }
                    }
                    c = cnew;
                },
            }
        }
        let ghost cexit = fallback(c);
        match c {
            None => {
                i = 0;
                j += 1;
            },
            Some(b) => {
                i = b + 1;
                j += 1;
                if i == m {
                    let res = j - m;
                    proof {
                        assert forall|r: spec_fn(T, T) -> bool|
                            #[trigger] equality_for(equal, r) implies search_result_ok(
                            t,
                            p,
                            r,
                            Some(res),
                        ) by {
                            assert(scan_ok(t, p, r, b as int, j - 1));
                            assert(r(p[b as int], t[j - 1]));
                            assert(matches_at(t, p, r, res as int)) by {
                                assert forall|x: int| 0 <= x < m implies #[trigger] r(
                                    p[x],
                                    t[res + x],
                                ) by {
                                    if x < b as int {
                                        assert(r(p[x], t[j - 1 - b + x]));
                                    }
                                    assert(res + x == j - 1 - b + x);
                                }
                            }
                        }
                        assert forall|r: spec_fn(T, T) -> bool|
                            #[trigger] equality_for(equal, r) implies result_agrees(
                            Some(res),
                            first_match(t, p, r),
                        ) by {
                            lemma_result_is_first_match(t, p, r, Some(res));
                        }
                    }
                    return Some(res);
                }
            },
        }
        proof {
            assert forall|r: spec_fn(T, T) -> bool|
                #[trigger] equality_for(equal, r) implies scan_ok(t, p, r, i as int, j as int) by {
                assert(scan_ok(t, p, r, cexit, j - 1));
                if cexit >= 0 {
                    assert(r(p[cexit], t[j - 1]));
                }
                assert forall|x: int| 0 <= x < i as int implies #[trigger] r(
                    p[x],
                    t[j - i as int + x],
                ) by {
                    if x < cexit {
                        assert(r(p[x], t[j - 1 - cexit + x]));
                    }
                    assert(j - i as int + x == j - 1 - cexit + x);
                }
            }
        }
    }
    proof {
        assert forall|r: spec_fn(T, T) -> bool|
            #[trigger] equality_for(equal, r) implies search_result_ok(t, p, r, None::<usize>) by {
            assert(scan_ok(t, p, r, i as int, n as int));
            assert forall|s: int| !matches_at(t, p, r, s) by {
                if 0 <= s && s + m <= n {
                    assert(s < n - i as int);
                }
            }
        }
        assert forall|r: spec_fn(T, T) -> bool|
            #[trigger] equality_for(equal, r) implies result_agrees(
            None::<usize>,
            first_match(t, p, r),
        ) by {
            lemma_result_is_first_match(t, p, r, None::<usize>);
        }
    }
    None
}

/// The relation that strict structural equality decides.
pub open spec fn strict_equality<T>() -> spec_fn(T, T) -> bool {
    |a: T, b: T| a == b
}

/// Search for the first occurrence of `pattern` as a substring of `text`,
/// comparing elements with `==`. Return the start of the substring as an
/// offset from the start of the text inside a `Some`. If the pattern is not
/// found, return `None`.
pub fn knuth_morris_pratt<T: PartialEq>(text: &[T], pattern: &[T]) -> (res: Option<usize>)
    requires
        pattern@.len() < usize::MAX,
        vstd::laws_eq::obeys_concrete_eq::<T>(),
    ensures
        search_result_ok(text@, pattern@, strict_equality::<T>(), res),
        result_agrees(res, first_match(text@, pattern@, strict_equality::<T>())),
{
    let eq = |a: &T, b: &T| -> (o: bool)
        ensures
            T::obeys_eq_spec() ==> o == a.eq_spec(b),
        { *a == *b };
    proof {
        reveal(vstd::laws_eq::obeys_concrete_eq);
        assert(equality_for(eq, strict_equality::<T>())) by {
            assert forall|a: &T, b: &T, o: bool| #[trigger] call_ensures(eq, (a, b), o) implies o
                == strict_equality::<T>()(*a, *b) by {
                assert(a.eq_spec(b) <==> (*a == *b));
            }
        }
    }
    knuth_morris_pratt_by(text, pattern, eq)
}

} // verus!
