//! Engine-wide guarantees proved once and for all, beyond the per-step
//! contracts of `expand_one`.

use vstd::prelude::*;

use crate::cells::{is_closed_cell, is_wall_cell};
use crate::counting::{lemma_count_upto_bounds, lemma_count_upto_mono};
use crate::engine::SlowAStar;

verus! {

/// Termination bound: the number of finalized cells never exceeds the
/// number of traversable cells, and both are bounded by the grid size.
/// Since every successful `expand_one` raises the finalized count by
/// exactly one, at most `count_traversable` successful steps can happen
/// before every further step fails with `Exhausted` or has returned
/// `Complete`.
pub proof fn lemma_closed_bounded(s: SlowAStar)
    requires
        s.wf(),
    ensures
        0 <= s.count_closed() <= s.count_traversable(),
        s.count_traversable() <= s.height * s.width,
{
    reveal(SlowAStar::wf);
    lemma_count_upto_bounds(s.cells@, |t: crate::cells::CellType| is_closed_cell(t), s.cells@.len() as int);
    lemma_count_upto_bounds(
        s.cells@,
        |t: crate::cells::CellType| !is_wall_cell(t),
        s.cells@.len() as int,
    );
    lemma_count_upto_mono(
        s.cells@,
        |t: crate::cells::CellType| is_closed_cell(t),
        |t: crate::cells::CellType| !is_wall_cell(t),
        s.cells@.len() as int,
    );
}

/// Tie-break stability: two engines whose frontiers and classification
/// grids agree select the same frontier position, so re-running the same
/// search deterministically finalizes the same sequence of cells. Combined
/// with `expand_one`'s contract — which pins every table of the next state
/// as a function of the current one — the whole run is reproducible.
pub proof fn lemma_step_deterministic(s1: SlowAStar, s2: SlowAStar, i1: int, i2: int)
    requires
        s1.is_chosen_index(i1),
        s2.is_chosen_index(i2),
        s1.frontier@ == s2.frontier@,
        s1.cells@ == s2.cells@,
        s1.width == s2.width,
        s1.height == s2.height,
    ensures
        i1 == i2,
        s1.frontier@[i1].loc == s2.frontier@[i2].loc,
{
    assert forall|k: int| 0 <= k < s1.frontier@.len() implies s1.stale_at(k) == s2.stale_at(
        k,
    ) by {
        let e = s1.frontier@[k];
        assert(s1.cell(e.loc.0 as int, e.loc.1 as int) == s2.cell(e.loc.0 as int, e.loc.1 as int));
    }
    assert(s1.is_chosen_index(i2));
    crate::engine::lemma_chosen_unique(s1, i1, i2);
}

} // verus!
