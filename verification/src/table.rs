//! The failure table: what each entry promises about the pattern, the
//! small-pattern backing store, and the linear-time builder.

use vstd::prelude::*;

use crate::relation::decided_by;
use crate::relation::equality_for;
use crate::relation::is_equivalence;

verus! {

/// Patterns shorter than this get their failure table from a fixed-size
/// buffer, with no heap allocation.
pub const STACK_TABLE_SIZE: usize = 32;

/// `b` is the length of a proper border of the prefix `p[0..i)`: the first
/// `b` elements of `p` reappear, under `r`, as the last `b` elements of that
/// prefix.
pub open spec fn is_border<T>(p: Seq<T>, i: int, b: int, r: spec_fn(T, T) -> bool) -> bool {
    &&& 0 <= b < i <= p.len()
    &&& forall|x: int| 0 <= x < b ==> #[trigger] r(p[x], p[i - b + x])
}

/// The fallback a table entry holds, with -1 for the sentinel variant that
/// means "no fallback: restart at the beginning of the pattern".
pub open spec fn fallback(e: Option<usize>) -> int {
    match e {
        Some(b) => b as int,
        None => -1,
    }
}

/// What the entry `e` for prefix `p[0..i)` promises:
/// - a `Some` fallback is a border of the prefix, and
/// - every border the entry skips is useless to the matcher: the element
///   after it is equivalent to `p[i]`, which has just mismatched. For `i` at
///   the end of the pattern no border is skipped at all.
pub open spec fn entry_ok<T>(
    p: Seq<T>,
    i: int,
    e: Option<usize>,
    r: spec_fn(T, T) -> bool,
) -> bool {
    &&& (e matches Some(b) ==> is_border(p, i, b as int, r))
    &&& forall|b2: int|
        #[trigger] is_border(p, i, b2, r) && b2 > fallback(e) ==> i < p.len() && r(p[b2], p[i])
}

/// Each entry falls back strictly below its own index, so fallback chains
/// terminate. This holds whatever relation drove the construction.
pub open spec fn table_decreasing(entries: Seq<Option<usize>>) -> bool {
    forall|i: int| 0 <= i < entries.len() ==> fallback(#[trigger] entries[i]) < i
}

/// The whole table is sound and complete for the pattern `p` under `r`.
pub open spec fn table_ok<T>(
    p: Seq<T>,
    entries: Seq<Option<usize>>,
    r: spec_fn(T, T) -> bool,
) -> bool {
    &&& entries.len() == p.len() + 1
    &&& forall|i: int| 0 <= i < entries.len() ==> entry_ok(p, i, #[trigger] entries[i], r)
}

/// The entries up to and including position `i` are sound and complete.
pub open spec fn prefix_ok<T>(
    p: Seq<T>,
    entries: Seq<Option<usize>>,
    i: int,
    r: spec_fn(T, T) -> bool,
) -> bool {
    forall|k: int| 0 <= k <= i ==> entry_ok(p, k, #[trigger] entries[k], r)
}

/// `c` is the longest border of the prefix `p[0..i)` (-1 when the prefix
/// has none, as the empty prefix has).
pub open spec fn longest_border<T>(p: Seq<T>, i: int, c: int, r: spec_fn(T, T) -> bool) -> bool {
    &&& (c >= 0 ==> is_border(p, i, c, r))
    &&& forall|b2: int| #[trigger] is_border(p, i, b2, r) ==> b2 <= c
}

/// Mid-chase state at position `i`: the candidate `c` is still a border (or
/// the sentinel), and every border in `(c, c0]` that the chase has passed
/// over continues with an element equivalent to `p[i]` refused.
pub open spec fn chase_ok<T>(
    p: Seq<T>,
    i: int,
    c0: int,
    c: int,
    r: spec_fn(T, T) -> bool,
) -> bool {
    &&& c <= c0
    &&& (c >= 0 ==> is_border(p, i, c, r))
    &&& forall|b2: int|
        #[trigger] is_border(p, i, b2, r) && c < b2 <= c0 ==> !r(p[i], p[b2])
}

/// A border of a border is a border: transitivity carries the inner
/// repetition out to the longer prefix.
proof fn lemma_border_compose<T>(p: Seq<T>, i: int, b: int, b2: int, r: spec_fn(T, T) -> bool)
    requires
        is_equivalence(r),
        is_border(p, i, b, r),
        is_border(p, b, b2, r),
    ensures
        is_border(p, i, b2, r),
{
    assert forall|x: int| 0 <= x < b2 implies #[trigger] r(p[x], p[i - b2 + x]) by {
        assert(r(p[x], p[b - b2 + x]));
        assert(r(p[b - b2 + x], p[i - b + (b - b2 + x)]));
        assert(p[i - b + (b - b2 + x)] == p[i - b2 + x]);
    }
}

/// The shorter of two borders of one prefix is a border of the longer one.
proof fn lemma_border_restrict<T>(p: Seq<T>, i: int, b: int, b2: int, r: spec_fn(T, T) -> bool)
    requires
        is_equivalence(r),
        is_border(p, i, b, r),
        is_border(p, i, b2, r),
        b2 < b,
    ensures
        is_border(p, b, b2, r),
{
    assert forall|x: int| 0 <= x < b2 implies #[trigger] r(p[x], p[b - b2 + x]) by {
        assert(r(p[x], p[i - b2 + x]));
        assert(r(p[b - b2 + x], p[i - b + (b - b2 + x)]));
        assert(p[i - b + (b - b2 + x)] == p[i - b2 + x]);
        assert(r(p[i - b2 + x], p[b - b2 + x]));
    }
}

/// A border of `p[0..i)` whose next elements agree extends to a border of
/// `p[0..i+1)`, one longer.
proof fn lemma_border_extend<T>(p: Seq<T>, i: int, b: int, r: spec_fn(T, T) -> bool)
    requires
        is_equivalence(r),
        i < p.len(),
        b >= 0 ==> is_border(p, i, b, r),
        b >= 0 ==> r(p[i], p[b]),
        -1 <= b < i,
    ensures
        is_border(p, i + 1, b + 1, r),
{
    assert forall|x: int| 0 <= x < b + 1 implies #[trigger] r(p[x], p[i + 1 - (b + 1) + x]) by {
        if x < b {
            assert(r(p[x], p[i - b + x]));
        } else {
            assert(r(p[i], p[b]));
        }
    }
}

/// A nonempty border of `p[0..i+1)` is one element longer than a border of
/// `p[0..i)` whose next element agrees with `p[i]`.
proof fn lemma_border_shrink<T>(p: Seq<T>, i: int, b2: int, r: spec_fn(T, T) -> bool)
    requires
        is_border(p, i + 1, b2, r),
        b2 >= 1,
    ensures
        b2 - 1 == 0 || is_border(p, i, b2 - 1, r),
        r(p[b2 - 1], p[i]),
{
    assert(r(p[b2 - 1], p[i + 1 - b2 + (b2 - 1)]));
    if b2 - 1 >= 1 {
        assert forall|x: int| 0 <= x < b2 - 1 implies #[trigger] r(p[x], p[i - (b2 - 1) + x]) by {
            assert(r(p[x], p[i + 1 - b2 + x]));
        }
    }
}

/// Backing store for a failure table: a fixed-size buffer for short
/// patterns, a heap vector above that bound. The choice is invisible in the
/// entries the store hands out.
pub struct FailureTable {
    inline: [Option<usize>; STACK_TABLE_SIZE],
    heap: Vec<Option<usize>>,
    length: usize,
}

impl FailureTable {
    /// The entries the store holds.
    pub closed spec fn entries(self) -> Seq<Option<usize>> {
        if self.length <= STACK_TABLE_SIZE {
            self.inline@.take(self.length as int)
        } else {
            self.heap@
        }
    }

    /// The store is consistent: the heap vector, when in use, has the
    /// stated length.
    pub closed spec fn wf(self) -> bool {
        self.length > STACK_TABLE_SIZE ==> self.heap@.len() == self.length
    }

    /// A store of `length` sentinel entries.
    pub fn with_length(length: usize) -> (t: Self)
        ensures
            t.wf(),
            t.entries().len() == length,
            forall|i: int| 0 <= i < length ==> t.entries()[i] is None,
    {
        if length <= STACK_TABLE_SIZE {
            FailureTable { inline: [None; STACK_TABLE_SIZE], heap: Vec::new(), length }
        } else {
            let mut heap: Vec<Option<usize>> = Vec::new();
            let mut k: usize = 0;
            while k < length
                invariant
                    k <= length,
                    heap@.len() == k,
                    forall|i: int| 0 <= i < k ==> heap@[i] is None,
                decreases length - k,
            {
                heap.push(None);
                k += 1;
            }
            FailureTable { inline: [None; STACK_TABLE_SIZE], heap, length }
        }
    }

    /// The entry at position `i`.
    pub fn entry(&self, i: usize) -> (e: Option<usize>)
        requires
            self.wf(),
            i < self.entries().len(),
        ensures
            e == self.entries()[i as int],
    {
        if self.length <= STACK_TABLE_SIZE {
            self.inline[i]
        } else {
            self.heap[i]
        }
    }

    /// Replace the entry at position `i`.
    pub fn set_entry(&mut self, i: usize, e: Option<usize>)
        requires
            old(self).wf(),
            i < old(self).entries().len(),
        ensures
            final(self).wf(),
            final(self).entries() == old(self).entries().update(i as int, e),
    {
        if self.length <= STACK_TABLE_SIZE {
            self.inline[i] = e;
            assert(final(self).entries() =~= old(self).entries().update(i as int, e));
        } else {
            self.heap[i] = e;
        }
    }
}

/// Fill `next` with the failure table of the pattern `x` under the
/// comparison `equal`: entry `k` then tells the matcher, for each prefix of
/// the pattern, the longest border worth resuming from after a mismatch.
pub fn prepare_kmp<T, F: Fn(&T, &T) -> bool>(x: &[T], next: &mut FailureTable, equal: &F)
    requires
        old(next).wf(),
        old(next).entries().len() == x@.len() + 1,
        forall|a: &T, b: &T| #[trigger] call_requires(*equal, (a, b)),
    ensures
        final(next).wf(),
        final(next).entries().len() == x@.len() + 1,
        table_decreasing(final(next).entries()),
        forall|r: spec_fn(T, T) -> bool|
            #[trigger] equality_for(*equal, r) ==> table_ok(x@, final(next).entries(), r),
{
    let ghost p = x@;
    let m = x.len();
    next.set_entry(0, None);
    let mut i: usize = 0;
    let mut c: Option<usize> = None;
    while i < m
        invariant
            i <= m,
            m == p.len(),
            p == x@,
            next.wf(),
            next.entries().len() == m + 1,
            forall|k: int| 0 <= k <= i ==> fallback(#[trigger] next.entries()[k]) < k,
            fallback(c) < i,
            forall|a: &T, b: &T| #[trigger] call_requires(*equal, (a, b)),
            forall|r: spec_fn(T, T) -> bool|
                #[trigger] equality_for(*equal, r) ==> prefix_ok(p, next.entries(), i as int, r),
            forall|r: spec_fn(T, T) -> bool|
                #[trigger] equality_for(*equal, r) ==> longest_border(p, i as int, fallback(c), r),
        decreases m - i,
    {
        let ghost c0 = fallback(c);
        // chase shorter and shorter borders until one is followed by an
        // element equivalent to x[i], or the sentinel says to give up
        loop
            invariant
                i < m,
                m == p.len(),
                p == x@,
                next.wf(),
                next.entries().len() == m + 1,
                forall|k: int| 0 <= k <= i ==> fallback(#[trigger] next.entries()[k]) < k,
                fallback(c) <= c0 < i,
                forall|a: &T, b: &T| #[trigger] call_requires(*equal, (a, b)),
                forall|r: spec_fn(T, T) -> bool|
                    #[trigger] equality_for(*equal, r) ==> prefix_ok(p, next.entries(), i as int, r),
                forall|r: spec_fn(T, T) -> bool|
                    #[trigger] equality_for(*equal, r) ==> chase_ok(p, i as int, c0, fallback(c), r),
            ensures
                i < m,
                fallback(c) <= c0,
                forall|r: spec_fn(T, T) -> bool|
                    #[trigger] equality_for(*equal, r) ==> chase_ok(p, i as int, c0, fallback(c), r),
                forall|r: spec_fn(T, T) -> bool|
                    #[trigger] equality_for(*equal, r) ==> (c matches Some(b) ==> r(p[i as int], p[b as int])),
            decreases fallback(c) + 1,
        {
            match c {
                None => { break; },
                Some(b) => {
                    if (*equal)(&x[i], &x[b]) {
                        assert forall|r: spec_fn(T, T) -> bool|
                            #[trigger] equality_for(*equal, r) implies r(p[i as int], p[b as int]) by {
                            assert(decided_by(*equal, r));
                        }
                        break;
                    }
                    let ghost bold = b as int;
                    let cnew = next.entry(b);
                    assert forall|r: spec_fn(T, T) -> bool|
                        #[trigger] equality_for(*equal, r) implies chase_ok(
                        p,
                        i as int,
                        c0,
                        fallback(cnew),
                        r,
                    ) by {
                        assert(chase_ok(p, i as int, c0, bold, r));
                        assert(prefix_ok(p, next.entries(), i as int, r));
                        assert(entry_ok(p, bold, next.entries()[bold], r));
                        assert(!r(p[i as int], p[bold]));
                        let cv = fallback(cnew);
                        if cv >= 0 {
                            assert(is_border(p, bold, cv, r));
                            lemma_border_compose(p, i as int, bold, cv, r);
                        }
                        assert forall|b2: int|
                            #[trigger] is_border(p, i as int, b2, r) && cv < b2 <= c0 implies !r(
                            p[i as int],
                            p[b2],
                        ) by {
                            if b2 > bold {
                                assert(chase_ok(p, i as int, c0, bold, r));
                            } else if b2 == bold {
                                assert(!r(p[i as int], p[bold]));
                            } else {
                                lemma_border_restrict(p, i as int, bold, b2, r);
                                assert(is_border(p, bold, b2, r));
                                assert(r(p[b2], p[bold]));
                                if r(p[i as int], p[b2]) {
                                    assert(r(p[i as int], p[bold]));
                                }
                            }
                        }
                    }
                    c = cnew;
                },
            }
        }
        // extend the surviving border by the elements that agreed
        let newj: usize = match c {
            None => 0,
            Some(b) => b + 1,
        };
        let ghost cexit = fallback(c);
        proof {
            assert forall|r: spec_fn(T, T) -> bool|
                #[trigger] equality_for(*equal, r) implies longest_border(
                p,
                i as int + 1,
                newj as int,
                r,
            ) by {
                assert(chase_ok(p, i as int, c0, cexit, r));
                assert(longest_border(p, i as int, c0, r));
                lemma_border_extend(p, i as int, cexit, r);
                assert forall|b2: int| #[trigger] is_border(p, i as int + 1, b2, r) implies b2
                    <= newj as int by {
                    if b2 >= 1 {
                        lemma_border_shrink(p, i as int, b2, r);
                        assert(r(p[b2 - 1], p[i as int]));
                        assert(r(p[i as int], p[b2 - 1]));
                        assert(is_border(p, i as int, b2 - 1, r));
                        assert(b2 - 1 <= c0);
                        if b2 - 1 > cexit {
                            assert(!r(p[i as int], p[b2 - 1]));
                            assert(false);
                        }
                    }
                }
            }
        }
        i += 1;
        let mut agree = false;
        if i < m {
            agree = (*equal)(&x[i], &x[newj]);
        }
        let e: Option<usize> = if agree {
            next.entry(newj)
        } else {
            Some(newj)
        };
        proof {
            assert forall|r: spec_fn(T, T) -> bool| #[trigger] equality_for(*equal, r) implies entry_ok(
                p,
                i as int,
                e,
                r,
            ) by {
                assert(longest_border(p, i as int, newj as int, r));
                if agree {
                    assert(decided_by(*equal, r));
                    assert(r(p[i as int], p[newj as int]));
                    assert(r(p[newj as int], p[i as int]));
                    assert(prefix_ok(p, next.entries(), i as int - 1, r));
                    assert(entry_ok(p, newj as int, next.entries()[newj as int], r));
                    let ev = fallback(e);
                    if ev >= 0 {
                        assert(is_border(p, newj as int, ev, r));
                        assert(is_border(p, i as int, newj as int, r));
                        lemma_border_compose(p, i as int, newj as int, ev, r);
                    }
                    assert forall|b2: int|
                        #[trigger] is_border(p, i as int, b2, r) && b2 > ev implies ((i as int) < p.len()
                        && r(p[b2], p[i as int])) by {
                        assert(b2 <= newj as int);
                        if b2 == newj as int {
                            assert(r(p[newj as int], p[i as int]));
                        } else {
                            assert(is_border(p, i as int, newj as int, r));
                            lemma_border_restrict(p, i as int, newj as int, b2, r);
                            assert(is_border(p, newj as int, b2, r));
                            assert(r(p[b2], p[newj as int]));
                            assert(r(p[newj as int], p[i as int]));
                        }
                    }
                } else {
                    assert forall|b2: int|
                        #[trigger] is_border(p, i as int, b2, r) && b2 > fallback(e) implies ((i as int) < p.len()
                        && r(p[b2], p[i as int])) by {
                        assert(b2 <= newj as int);
                    }
                }
            }
        }
        let ghost before = next.entries();
        next.set_entry(i, e);
        proof {
            if agree {
                assert(fallback(before[newj as int]) < newj as int);
            }
            assert(fallback(e) < i as int);
            assert forall|k: int| 0 <= k <= i as int implies fallback(
                #[trigger] next.entries()[k],
            ) < k by {
                if k < i as int {
                    assert(next.entries()[k] == before[k]);
                    assert(fallback(before[k]) < k);
                }
            }
            assert forall|r: spec_fn(T, T) -> bool|
                #[trigger] equality_for(*equal, r) implies prefix_ok(
                p,
                next.entries(),
                i as int,
                r,
            ) by {
                assert(prefix_ok(p, before, i as int - 1, r));
                assert(entry_ok(p, i as int, e, r));
                assert forall|k: int| 0 <= k <= i as int implies entry_ok(
                    p,
                    k,
                    #[trigger] next.entries()[k],
                    r,
                ) by {
                    if k < i as int {
                        assert(next.entries()[k] == before[k]);
                        assert(entry_ok(p, k, before[k], r));
                    } else {
                        assert(next.entries()[k] == e);
                    }
                }
            }
        }
        c = Some(newj);
    }
    assert forall|r: spec_fn(T, T) -> bool|
        #[trigger] equality_for(*equal, r) implies table_ok(x@, next.entries(), r) by {
        assert(prefix_ok(p, next.entries(), m as int, r));
    }
}

} // verus!
