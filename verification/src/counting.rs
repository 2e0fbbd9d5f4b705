//! Counting how many cells of a classification sequence satisfy a
//! predicate, with the lemmas the engine's bookkeeping needs: the count is
//! bounded by the length, respects pointwise implication, and changes by at
//! most the obvious amount under a single update.

use vstd::prelude::*;

verus! {

/// Number of positions `i < n` of `s` whose element satisfies `p`.
pub open spec fn count_upto(s: Seq<crate::cells::CellType>, p: spec_fn(crate::cells::CellType) -> bool, n: int) -> int
    decreases n,
{
    if n <= 0 {
        0
    } else {
        count_upto(s, p, n - 1) + if p(s[n - 1]) { 1int } else { 0int }
    }
}

/// The count of matching positions lies between 0 and `n`.
pub proof fn lemma_count_upto_bounds(s: Seq<crate::cells::CellType>, p: spec_fn(crate::cells::CellType) -> bool, n: int)
    requires
        n >= 0,
    ensures
        0 <= count_upto(s, p, n) <= n,
    decreases n,
{
    if n > 0 {
        lemma_count_upto_bounds(s, p, n - 1);
    }
}

/// If every position below `n` that satisfies `p` also satisfies `q`, the
/// count for `p` is at most the count for `q`.
pub proof fn lemma_count_upto_mono(
    s: Seq<crate::cells::CellType>,
    p: spec_fn(crate::cells::CellType) -> bool,
    q: spec_fn(crate::cells::CellType) -> bool,
    n: int,
)
    requires
        forall|i: int| 0 <= i < n && p(#[trigger] s[i]) ==> q(s[i]),
    ensures
        count_upto(s, p, n) <= count_upto(s, q, n),
    decreases n,
{
    if n > 0 {
        lemma_count_upto_mono(s, p, q, n - 1);
    }
}

/// Updating position `i` changes the count by the difference the predicate
/// sees at that one position.
pub proof fn lemma_count_upto_update(
    s: Seq<crate::cells::CellType>,
    p: spec_fn(crate::cells::CellType) -> bool,
    i: int,
    v: crate::cells::CellType,
    n: int,
)
    requires
        0 <= i < s.len(),
        n <= s.len(),
    ensures
        count_upto(s.update(i, v), p, n) == count_upto(s, p, n) + if i < n {
            (if p(v) { 1int } else { 0int }) - (if p(s[i]) { 1int } else { 0int })
        } else {
            0int
        },
    decreases n,
{
    if n > 0 {
        lemma_count_upto_update(s, p, i, v, n - 1);
    }
}

/// If no position below `n` satisfies `p`, the count is zero.
pub proof fn lemma_count_upto_zero(
    s: Seq<crate::cells::CellType>,
    p: spec_fn(crate::cells::CellType) -> bool,
    n: int,
)
    requires
        forall|i: int| 0 <= i < n ==> !p(#[trigger] s[i]),
    ensures
        count_upto(s, p, n) == 0,
    decreases n,
{
    if n > 0 {
        lemma_count_upto_zero(s, p, n - 1);
    }
}

} // verus!
