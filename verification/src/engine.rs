//! The incremental best-first search engine. `SlowAStar::new` builds the
//! search state from a passability grid and two endpoints; each call to
//! `expand_one` finalizes exactly one cell (or reports that the frontier is
//! exhausted); `get_map_picture` exposes the classification grid.
//!
//! All per-cell tables are flat row-major vectors indexed by
//! `row * width + col`. The frontier is a plain vector of scored entries;
//! the minimum entry is selected by ascending score, with ties broken by
//! smaller row and then smaller column, so the whole search is a
//! deterministic function of its inputs. Entries are never updated in
//! place: a cheaper rediscovery pushes a fresh entry, and entries whose
//! cell is already finalized are ignored when the minimum is selected.

use vstd::prelude::*;

use crate::cells::{
    cell_rank, is_closed_cell, is_discovered_cell, is_open_cell, is_wall_cell, CellType,
    SearchError, StepResult,
};
use crate::counting::{
    count_upto, lemma_count_upto_bounds, lemma_count_upto_update, lemma_count_upto_zero,
};

verus! {

/// One frontier entry: a coordinate and the score it was pushed with.
#[derive(Clone, Copy)]
pub struct AStarNode {
    pub loc: (usize, usize),
    pub score: usize,
}

/// `|a - b|` over mathematical integers.
pub open spec fn abs_diff(a: int, b: int) -> int {
    if a < b {
        b - a
    } else {
        a - b
    }
}

/// Manhattan distance between two coordinates.
pub open spec fn manhattan(r1: int, c1: int, r2: int, c2: int) -> int {
    abs_diff(r1, r2) + abs_diff(c1, c2)
}

/// Four-directional adjacency: exactly one axis differs, by exactly one.
pub open spec fn adjacent(r1: int, c1: int, r2: int, c2: int) -> bool {
    manhattan(r1, c1, r2, c2) == 1
}

/// Strict frontier order: ascending score, ties by smaller row, then
/// smaller column.
pub open spec fn entry_lt(a: AStarNode, b: AStarNode) -> bool {
    ||| a.score < b.score
    ||| (a.score == b.score && a.loc.0 < b.loc.0)
    ||| (a.score == b.score && a.loc.0 == b.loc.0 && a.loc.1 < b.loc.1)
}

/// Non-strict frontier order (the order above is total).
pub open spec fn entry_le(a: AStarNode, b: AStarNode) -> bool {
    !entry_lt(b, a)
}

/// A flat row-major index stays inside a `h * w` table.
pub proof fn lemma_idx_bound(h: int, w: int, r: int, c: int)
    requires
        0 <= r < h,
        0 <= c < w,
    ensures
        0 <= r * w + c < h * w,
{
    assert(0 <= r * w + c < h * w) by (nonlinear_arith)
        requires
            0 <= r < h,
            0 <= c < w,
    ;
}

/// Flat row-major indexing is injective on in-bounds coordinates.
pub proof fn lemma_idx_inj(w: int, r1: int, c1: int, r2: int, c2: int)
    requires
        w > 0,
        0 <= c1 < w,
        0 <= c2 < w,
        0 <= r1,
        0 <= r2,
        r1 * w + c1 == r2 * w + c2,
    ensures
        r1 == r2 && c1 == c2,
{
    assert(r1 == r2 && c1 == c2) by (nonlinear_arith)
        requires
            w > 0,
            0 <= c1 < w,
            0 <= c2 < w,
            0 <= r1,
            0 <= r2,
            r1 * w + c1 == r2 * w + c2,
    ;
}

/// Classification a cell receives at construction: `Wall` where the
/// passability grid is false, `Discovered` at the start, `Unvisited`
/// elsewhere.
pub open spec fn init_cell(m: Seq<Seq<bool>>, start: (usize, usize), r: int, c: int) -> CellType {
    if !m[r][c] {
        CellType::Wall
    } else if r == start.0 && c == start.1 {
        CellType::Discovered
    } else {
        CellType::Unvisited
    }
}

/// Some position at or after `k` in `s` holds `q`.
pub open spec fn seq_suffix_contains(s: Seq<(usize, usize)>, k: int, q: (usize, usize)) -> bool {
    exists|j: int| k <= j < s.len() && s[j] == q
}

/// The rows of a passability grid, as a sequence of boolean sequences.
pub open spec fn grid_view(map: Vec<Vec<bool>>) -> Seq<Seq<bool>> {
    Seq::new(map@.len(), |i: int| map@[i]@)
}

/// The construction grid is non-empty and rectangular.
pub open spec fn grid_dims_ok(m: Seq<Seq<bool>>) -> bool {
    &&& m.len() > 0
    &&& m[0].len() > 0
    &&& forall|r: int| 0 <= r < m.len() ==> #[trigger] m[r].len() == m[0].len()
}

/// Path validity: the recorded predecessor chain of any discovered cell is
/// a four-directionally connected, wall-free path that starts at the start
/// cell, ends at the cell itself, and whose position along the chain equals
/// its recorded distance — so the chain has exactly `dist + 1` cells.
/// Every cell before the last is finalized, and each is the recorded
/// predecessor of the next.
pub proof fn lemma_path_seq_valid(s: SlowAStar, r: int, c: int)
    requires
        s.wf(),
        s.in_bounds(r, c),
        s.is_discovered(r, c),
    ensures
        ({
            let pth = s.path_seq(r, c);
            &&& pth.len() == s.dist_of(r, c) + 1
            &&& pth[pth.len() - 1] == ((r as usize, c as usize))
            &&& pth[0] == s.start
            &&& forall|j: int|
                0 <= j < pth.len() ==> {
                    let q = #[trigger] pth[j];
                    &&& s.in_bounds(q.0 as int, q.1 as int)
                    &&& s.is_discovered(q.0 as int, q.1 as int)
                    &&& !s.is_wall(q.0 as int, q.1 as int)
                    &&& s.dist_of(q.0 as int, q.1 as int) == j
                }
            &&& forall|j: int|
                0 <= j < pth.len() - 1 ==> {
                    let q = #[trigger] pth[j];
                    let q2 = pth[j + 1];
                    &&& adjacent(q.0 as int, q.1 as int, q2.0 as int, q2.1 as int)
                    &&& s.is_closed(q.0 as int, q.1 as int)
                    &&& q == s.parent_of(q2.0 as int, q2.1 as int)
                }
        }),
    decreases s.dist_of(r, c),
{
    reveal(SlowAStar::wf);
    if s.dist_of(r, c) == 0 {
        assert(s.path_seq(r, c) == seq![(r as usize, c as usize)]);
        assert(r == s.start.0 && c == s.start.1);
    } else {
        let p = s.parent_of(r, c);
        assert(s.parent_ok(r, c));
        lemma_path_seq_valid(s, p.0 as int, p.1 as int);
        let inner = s.path_seq(p.0 as int, p.1 as int);
        let pth = s.path_seq(r, c);
        assert(pth == inner.push((r as usize, c as usize)));
        assert(pth[pth.len() - 1] == ((r as usize, c as usize)));
        assert(pth[inner.len() as int - 1] == inner[inner.len() as int - 1]);
    }
}

/// Tie-break stability: there is at most one chosen frontier position, so
/// which cell a step finalizes is a function of the engine state alone.
pub proof fn lemma_chosen_unique(s: SlowAStar, i: int, j: int)
    requires
        s.is_chosen_index(i),
        s.is_chosen_index(j),
    ensures
        i == j,
{
    if i < j {
        assert(entry_lt(s.frontier@[j], s.frontier@[i]));
        assert(entry_le(s.frontier@[i], s.frontier@[j]));
    } else if j < i {
        assert(entry_lt(s.frontier@[i], s.frontier@[j]));
        assert(entry_le(s.frontier@[j], s.frontier@[i]));
    }
}

/// The predecessor chain only reads the distance and predecessor tables,
/// so two states that agree on them (and on the grid dimensions) have the
/// same chain.
pub proof fn lemma_path_seq_agree(s1: SlowAStar, s2: SlowAStar, r: int, c: int)
    requires
        s1.wf(),
        s1.in_bounds(r, c),
        s1.is_discovered(r, c),
        s1.dist@ == s2.dist@,
        s1.parent@ == s2.parent@,
        s1.width == s2.width,
        s1.height == s2.height,
    ensures
        s1.path_seq(r, c) == s2.path_seq(r, c),
    decreases s1.dist_of(r, c),
{
    reveal(SlowAStar::wf);
    if s1.dist_of(r, c) == 0 {
        assert(s2.dist_of(r, c) == 0);
    } else {
        assert(s1.parent_ok(r, c));
        let p = s1.parent_of(r, c);
        assert(s1.is_discovered(p.0 as int, p.1 as int));
        lemma_path_seq_agree(s1, s2, p.0 as int, p.1 as int);
    }
}

/// The engine invariant does not depend on the `done` flag (except that
/// path cells need a finished search) and survives any frontier change
/// whose entries still point at in-bounds, discovered cells.
pub proof fn lemma_wf_tables(os: SlowAStar, ns: SlowAStar)
    requires
        os.wf(),
        ns.height == os.height,
        ns.width == os.width,
        ns.start == os.start,
        ns.dest == os.dest,
        ns.cells@ == os.cells@,
        ns.dist@ == os.dist@,
        ns.parent@ == os.parent@,
        ns.frontier@ == os.frontier@ || ns.wf_frontier(),
        !ns.done ==> !os.done,
    ensures
        ns.wf(),
        ns.count_closed() == os.count_closed(),
{
    reveal(SlowAStar::wf);
    assert(ns.count_closed() == os.count_closed());
    assert(ns.cell(os.start.0 as int, os.start.1 as int) == os.cell(
        os.start.0 as int,
        os.start.1 as int,
    ));
    assert(ns.cell(os.dest.0 as int, os.dest.1 as int) == os.cell(
        os.dest.0 as int,
        os.dest.1 as int,
    ));
    assert(ns.dist_of(os.start.0 as int, os.start.1 as int) == os.dist_of(
        os.start.0 as int,
        os.start.1 as int,
    ));
    assert(ns.wf_endpoints());
    assert forall|r: int, c: int|
        ns.in_bounds(r, c) && ns.is_discovered(r, c) implies #[trigger] ns.dist_of(r, c)
        <= ns.count_closed() && (ns.dist_of(r, c) > 0 ==> ns.parent_ok(r, c)) && (ns.dist_of(r, c)
        == 0 ==> r == ns.start.0 && c == ns.start.1) by {
        assert(ns.cell(r, c) == os.cell(r, c));
        assert(ns.dist_of(r, c) == os.dist_of(r, c));
        assert(os.is_discovered(r, c));
        assert(os.dist_of(r, c) <= os.count_closed());
        if os.dist_of(r, c) > 0 {
            assert(os.parent_ok(r, c));
            let p = os.parent_of(r, c);
            assert(ns.parent_of(r, c) == p);
            assert(ns.cell(p.0 as int, p.1 as int) == os.cell(p.0 as int, p.1 as int));
            assert(ns.dist_of(p.0 as int, p.1 as int) == os.dist_of(p.0 as int, p.1 as int));
        }
    }
    if ns.frontier@ == os.frontier@ {
        assert forall|k: int| 0 <= k < ns.frontier@.len() implies {
            let e = #[trigger] ns.frontier@[k];
            ns.in_bounds(e.loc.0 as int, e.loc.1 as int) && ns.is_discovered(
                e.loc.0 as int,
                e.loc.1 as int,
            )
        } by {
            let e = ns.frontier@[k];
            assert(e == os.frontier@[k]);
            assert(os.is_discovered(e.loc.0 as int, e.loc.1 as int));
            assert(ns.cell(e.loc.0 as int, e.loc.1 as int) == os.cell(
                e.loc.0 as int,
                e.loc.1 as int,
            ));
        }
    }
    if !ns.done {
        assert forall|r: int, c: int| ns.in_bounds(r, c) implies #[trigger] ns.cell(r, c)
            != CellType::OnPath by {
            assert(ns.cell(r, c) == os.cell(r, c));
            assert(os.cell(r, c) != CellType::OnPath);
        }
    }
    assert(ns.wf());
}

/// Finalizing the chosen cell — still classified `Discovered` — preserves
/// the engine invariant and raises the finalized count by exactly one.
pub proof fn lemma_finalize_preserves(os: SlowAStar, ns: SlowAStar, chr: usize, chc: usize)
    requires
        os.wf(),
        !os.done,
        os.in_bounds(chr as int, chc as int),
        os.cell(chr as int, chc as int) == CellType::Discovered,
        ns.height == os.height,
        ns.width == os.width,
        ns.start == os.start,
        ns.dest == os.dest,
        ns.dist@ == os.dist@,
        ns.parent@ == os.parent@,
        ns.frontier@ == os.frontier@,
        ns.cells@ == os.cells@.update(os.idx(chr as int, chc as int), CellType::Finalized),
    ensures
        ns.wf(),
        ns.wf_dims(),
        ns.count_closed() == os.count_closed() + 1,
        ns.is_closed(chr as int, chc as int),
        os.dist_of(chr as int, chc as int) < ns.count_closed(),
        forall|r: int, c: int|
            os.in_bounds(r, c) && !(r == chr && c == chc) ==> #[trigger] ns.cell(r, c) == os.cell(
                r,
                c,
            ),
{
    reveal(SlowAStar::wf);
    let w = os.width as int;
    let h = os.height as int;
    let fii = os.idx(chr as int, chc as int);
    lemma_idx_bound(h, w, chr as int, chc as int);
    lemma_count_upto_update(
        os.cells@,
        |t: CellType| is_closed_cell(t),
        fii,
        CellType::Finalized,
        os.cells@.len() as int,
    );
    assert(ns.count_closed() == os.count_closed() + 1);
    assert forall|r: int, c: int|
        os.in_bounds(r, c) && !(r == chr && c == chc) implies #[trigger] ns.cell(r, c) == os.cell(
        r,
        c,
    ) by {
        lemma_idx_bound(h, w, r, c);
        if r * w + c == fii {
            lemma_idx_inj(w, r, c, chr as int, chc as int);
        }
    }
    lemma_idx_bound(h, w, os.start.0 as int, os.start.1 as int);
    lemma_idx_bound(h, w, os.dest.0 as int, os.dest.1 as int);
    assert(ns.cell(os.start.0 as int, os.start.1 as int) == os.cell(
        os.start.0 as int,
        os.start.1 as int,
    ) || ns.cell(os.start.0 as int, os.start.1 as int) == CellType::Finalized);
    assert(ns.cell(os.dest.0 as int, os.dest.1 as int) == os.cell(
        os.dest.0 as int,
        os.dest.1 as int,
    ) || ns.cell(os.dest.0 as int, os.dest.1 as int) == CellType::Finalized);
    assert(ns.wf_endpoints());
    assert forall|r: int, c: int|
        ns.in_bounds(r, c) && ns.is_discovered(r, c) implies #[trigger] ns.dist_of(r, c)
        <= ns.count_closed() && (ns.dist_of(r, c) > 0 ==> ns.parent_ok(r, c)) && (ns.dist_of(r, c)
        == 0 ==> r == ns.start.0 && c == ns.start.1) by {
        lemma_idx_bound(h, w, r, c);
        assert(ns.cell(r, c) == os.cell(r, c) || (r == chr && c == chc));
        assert(os.is_discovered(r, c));
        assert(ns.dist_of(r, c) == os.dist_of(r, c));
        assert(os.dist_of(r, c) <= os.count_closed());
        if os.dist_of(r, c) > 0 {
            assert(os.parent_ok(r, c));
            let p = os.parent_of(r, c);
            lemma_idx_bound(h, w, p.0 as int, p.1 as int);
            assert(ns.cell(p.0 as int, p.1 as int) == os.cell(p.0 as int, p.1 as int) || (p.0
                == chr && p.1 == chc));
            assert(ns.is_closed(p.0 as int, p.1 as int));
            assert(ns.parent_ok(r, c));
        }
    }
    assert forall|k: int| 0 <= k < ns.frontier@.len() implies {
        let e = #[trigger] ns.frontier@[k];
        ns.in_bounds(e.loc.0 as int, e.loc.1 as int) && ns.is_discovered(
            e.loc.0 as int,
            e.loc.1 as int,
        )
    } by {
        let e = ns.frontier@[k];
        assert(e == os.frontier@[k]);
        assert(os.is_discovered(e.loc.0 as int, e.loc.1 as int));
        assert(ns.cell(e.loc.0 as int, e.loc.1 as int) == os.cell(e.loc.0 as int, e.loc.1 as int)
            || (e.loc.0 == chr && e.loc.1 == chc));
    }
    if !ns.done {
        assert forall|r: int, c: int| ns.in_bounds(r, c) implies #[trigger] ns.cell(r, c)
            != CellType::OnPath by {
            assert(ns.cell(r, c) == os.cell(r, c) || (r == chr && c == chc));
            assert(os.cell(r, c) != CellType::OnPath);
        }
    }
    assert(ns.wf());
}

/// Per-cell effect of relaxing one neighbor `(nr, nc)` of the finalized
/// cell `(chr, chc)`: the neighbor is rediscovered if eligible, and no
/// other cell's classification, distance or predecessor changes.
pub open spec fn relax_cells_rel(
    pre: SlowAStar,
    post: SlowAStar,
    chr: usize,
    chc: usize,
    nr: int,
    nc: int,
) -> bool {
    let d = pre.dist_of(chr as int, chc as int);
    &&& post.height == pre.height
    &&& post.width == pre.width
    &&& (pre.eligible(d, nr, nc) ==> post.cell(nr, nc) == CellType::Discovered && post.dist_of(
        nr,
        nc,
    ) == d + 1 && post.parent_of(nr, nc) == ((chr, chc)))
    &&& (!pre.eligible(d, nr, nc) ==> post.cell(nr, nc) == pre.cell(nr, nc) && post.dist_of(nr, nc)
        == pre.dist_of(nr, nc) && post.parent_of(nr, nc) == pre.parent_of(nr, nc))
    &&& forall|r: int, c: int|
        pre.in_bounds(r, c) && !(r == nr && c == nc) ==> #[trigger] post.cell(r, c) == pre.cell(
            r,
            c,
        ) && post.dist_of(r, c) == pre.dist_of(r, c) && post.parent_of(r, c) == pre.parent_of(r, c)
}

/// Combined per-cell effect of the whole neighbor pass on a state whose
/// chosen cell is already finalized, together with the frontier growing by
/// the eligible neighbors' entries in order (up, left, right, down).
pub open spec fn neighbors_effect(pre: SlowAStar, post: SlowAStar, chr: usize, chc: usize) -> bool {
    let d = pre.dist_of(chr as int, chc as int);
    &&& post.frontier@ == pre.frontier@ + pre.push_if(d, chr as int - 1, chc as int) + pre.push_if(
        d,
        chr as int,
        chc as int - 1,
    ) + pre.push_if(d, chr as int, chc as int + 1) + pre.push_if(d, chr as int + 1, chc as int)
    &&& forall|r: int, c: int|
        pre.in_bounds(r, c) && !(r == chr && c == chc) ==> {
            &&& (adjacent(chr as int, chc as int, r, c) && pre.eligible(d, r, c)
                ==> #[trigger] post.cell(r, c) == CellType::Discovered && post.dist_of(r, c) == d
                + 1 && post.parent_of(r, c) == ((chr, chc)))
            &&& (!(adjacent(chr as int, chc as int, r, c) && pre.eligible(d, r, c)) ==> post.cell(
                r,
                c,
            ) == pre.cell(r, c) && post.dist_of(r, c) == pre.dist_of(r, c) && post.parent_of(r, c)
                == pre.parent_of(r, c))
        }
}

/// Composing the four neighbor relaxations (up, left, right, down) yields
/// the per-cell effect of the whole pass: the neighbors are pairwise
/// distinct cells, distinct from the finalized cell, so the passes do not
/// interfere.
#[verifier::rlimit(100)]
pub proof fn lemma_compose_relax(
    os: SlowAStar,
    s2: SlowAStar,
    s3: SlowAStar,
    s4: SlowAStar,
    fv: SlowAStar,
    chr: usize,
    chc: usize,
)
    requires
        os.in_bounds(chr as int, chc as int),
        relax_cells_rel(os, s2, chr, chc, chr as int - 1, chc as int),
        relax_cells_rel(s2, s3, chr, chc, chr as int, chc as int - 1),
        relax_cells_rel(s3, s4, chr, chc, chr as int, chc as int + 1),
        relax_cells_rel(s4, fv, chr, chc, chr as int + 1, chc as int),
    ensures
        fv.height == os.height,
        fv.width == os.width,
        fv.cell(chr as int, chc as int) == os.cell(chr as int, chc as int),
        fv.dist_of(chr as int, chc as int) == os.dist_of(chr as int, chc as int),
        fv.parent_of(chr as int, chc as int) == os.parent_of(chr as int, chc as int),
        forall|r: int, c: int|
            os.in_bounds(r, c) && !(r == chr && c == chc) ==> {
                let d = os.dist_of(chr as int, chc as int);
                &&& (adjacent(chr as int, chc as int, r, c) && os.eligible(d, r, c)
                    ==> #[trigger] fv.cell(r, c) == CellType::Discovered && fv.dist_of(r, c) == d
                    + 1 && fv.parent_of(r, c) == ((chr, chc)))
                &&& (!(adjacent(chr as int, chc as int, r, c) && os.eligible(d, r, c))
                    ==> fv.cell(r, c) == os.cell(r, c) && fv.dist_of(r, c) == os.dist_of(r, c)
                    && fv.parent_of(r, c) == os.parent_of(r, c))
            },
{
    let d = os.dist_of(chr as int, chc as int);
    assert(s2.cell(chr as int, chc as int) == os.cell(chr as int, chc as int) && s2.dist_of(
        chr as int,
        chc as int,
    ) == d && s2.parent_of(chr as int, chc as int) == os.parent_of(chr as int, chc as int));
    assert(s3.cell(chr as int, chc as int) == os.cell(chr as int, chc as int) && s3.dist_of(
        chr as int,
        chc as int,
    ) == d && s3.parent_of(chr as int, chc as int) == os.parent_of(chr as int, chc as int));
    assert(s4.cell(chr as int, chc as int) == os.cell(chr as int, chc as int) && s4.dist_of(
        chr as int,
        chc as int,
    ) == d && s4.parent_of(chr as int, chc as int) == os.parent_of(chr as int, chc as int));
    assert(fv.cell(chr as int, chc as int) == os.cell(chr as int, chc as int) && fv.dist_of(
        chr as int,
        chc as int,
    ) == d && fv.parent_of(chr as int, chc as int) == os.parent_of(chr as int, chc as int));
    assert forall|r: int, c: int|
        os.in_bounds(r, c) && !(r == chr && c == chc) implies {
        &&& (adjacent(chr as int, chc as int, r, c) && os.eligible(d, r, c) ==> #[trigger] fv.cell(
            r,
            c,
        ) == CellType::Discovered && fv.dist_of(r, c) == d + 1 && fv.parent_of(r, c) == ((
        chr,
        chc,
        )))
        &&& (!(adjacent(chr as int, chc as int, r, c) && os.eligible(d, r, c)) ==> fv.cell(r, c)
            == os.cell(r, c) && fv.dist_of(r, c) == os.dist_of(r, c) && fv.parent_of(r, c)
            == os.parent_of(r, c))
    } by {
        if r == chr as int - 1 && c == chc as int {
            assert(s3.cell(r, c) == s2.cell(r, c) && s3.dist_of(r, c) == s2.dist_of(r, c)
                && s3.parent_of(r, c) == s2.parent_of(r, c));
            assert(s4.cell(r, c) == s3.cell(r, c) && s4.dist_of(r, c) == s3.dist_of(r, c)
                && s4.parent_of(r, c) == s3.parent_of(r, c));
            assert(fv.cell(r, c) == s4.cell(r, c) && fv.dist_of(r, c) == s4.dist_of(r, c)
                && fv.parent_of(r, c) == s4.parent_of(r, c));
        } else if r == chr as int && c == chc as int - 1 {
            assert(s2.cell(r, c) == os.cell(r, c) && s2.dist_of(r, c) == os.dist_of(r, c)
                && s2.parent_of(r, c) == os.parent_of(r, c));
            assert(s2.eligible(d, r, c) == os.eligible(d, r, c));
            assert(s4.cell(r, c) == s3.cell(r, c) && s4.dist_of(r, c) == s3.dist_of(r, c)
                && s4.parent_of(r, c) == s3.parent_of(r, c));
            assert(fv.cell(r, c) == s4.cell(r, c) && fv.dist_of(r, c) == s4.dist_of(r, c)
                && fv.parent_of(r, c) == s4.parent_of(r, c));
        } else if r == chr as int && c == chc as int + 1 {
            assert(s2.cell(r, c) == os.cell(r, c) && s2.dist_of(r, c) == os.dist_of(r, c)
                && s2.parent_of(r, c) == os.parent_of(r, c));
            assert(s3.cell(r, c) == s2.cell(r, c) && s3.dist_of(r, c) == s2.dist_of(r, c)
                && s3.parent_of(r, c) == s2.parent_of(r, c));
            assert(s3.eligible(d, r, c) == os.eligible(d, r, c));
            assert(fv.cell(r, c) == s4.cell(r, c) && fv.dist_of(r, c) == s4.dist_of(r, c)
                && fv.parent_of(r, c) == s4.parent_of(r, c));
        } else if r == chr as int + 1 && c == chc as int {
            assert(s2.cell(r, c) == os.cell(r, c) && s2.dist_of(r, c) == os.dist_of(r, c)
                && s2.parent_of(r, c) == os.parent_of(r, c));
            assert(s3.cell(r, c) == s2.cell(r, c) && s3.dist_of(r, c) == s2.dist_of(r, c)
                && s3.parent_of(r, c) == s2.parent_of(r, c));
            assert(s4.cell(r, c) == s3.cell(r, c) && s4.dist_of(r, c) == s3.dist_of(r, c)
                && s4.parent_of(r, c) == s3.parent_of(r, c));
            assert(s4.eligible(d, r, c) == os.eligible(d, r, c));
        } else {
            assert(!adjacent(chr as int, chc as int, r, c));
            assert(s2.cell(r, c) == os.cell(r, c) && s2.dist_of(r, c) == os.dist_of(r, c)
                && s2.parent_of(r, c) == os.parent_of(r, c));
            assert(s3.cell(r, c) == s2.cell(r, c) && s3.dist_of(r, c) == s2.dist_of(r, c)
                && s3.parent_of(r, c) == s2.parent_of(r, c));
            assert(s4.cell(r, c) == s3.cell(r, c) && s4.dist_of(r, c) == s3.dist_of(r, c)
                && s4.parent_of(r, c) == s3.parent_of(r, c));
            assert(fv.cell(r, c) == s4.cell(r, c) && fv.dist_of(r, c) == s4.dist_of(r, c)
                && fv.parent_of(r, c) == s4.parent_of(r, c));
        }
    }
}

/// Translates the neighbor pass, which ran on the state with the chosen
/// cell already finalized, back to the state the step started from: the two
/// states agree on every cell but the finalized one, which is not its own
/// neighbor.
#[verifier::rlimit(100)]
pub proof fn lemma_continuing_translate(
    os: SlowAStar,
    s1: SlowAStar,
    fv: SlowAStar,
    chr: usize,
    chc: usize,
    bi: int,
)
    requires
        os.wf(),
        os.in_bounds(chr as int, chc as int),
        os.cell(chr as int, chc as int) == CellType::Discovered,
        s1.height == os.height,
        s1.width == os.width,
        s1.dest == os.dest,
        s1.dist@ == os.dist@,
        s1.parent@ == os.parent@,
        s1.frontier@ == os.frontier@.remove(bi),
        s1.cell(chr as int, chc as int) == CellType::Finalized,
        forall|r: int, c: int|
            os.in_bounds(r, c) && !(r == chr && c == chc) ==> #[trigger] s1.cell(r, c) == os.cell(
                r,
                c,
            ),
        fv.height == s1.height,
        fv.width == s1.width,
        fv.cell(chr as int, chc as int) == CellType::Finalized,
        fv.dist_of(chr as int, chc as int) == s1.dist_of(chr as int, chc as int),
        fv.parent_of(chr as int, chc as int) == s1.parent_of(chr as int, chc as int),
        neighbors_effect(s1, fv, chr, chc),
    ensures
        ({
            let d = os.dist_of(chr as int, chc as int);
            &&& fv.dist_of(chr as int, chc as int) == d
            &&& fv.frontier@ == os.frontier@.remove(bi) + os.push_if(d, chr as int - 1, chc as int)
                + os.push_if(d, chr as int, chc as int - 1) + os.push_if(
                d,
                chr as int,
                chc as int + 1,
            ) + os.push_if(d, chr as int + 1, chc as int)
            &&& forall|r: int, c: int|
                os.in_bounds(r, c) && !(r == chr && c == chc) ==> {
                    &&& (adjacent(chr as int, chc as int, r, c) && os.eligible(d, r, c)
                        ==> #[trigger] fv.cell(r, c) == CellType::Discovered && fv.dist_of(r, c)
                        == d + 1 && fv.parent_of(r, c) == ((chr, chc)))
                    &&& (!(adjacent(chr as int, chc as int, r, c) && os.eligible(d, r, c))
                        ==> fv.cell(r, c) == os.cell(r, c) && fv.dist_of(r, c) == os.dist_of(r, c)
                        && fv.parent_of(r, c) == os.parent_of(r, c))
                }
            &&& forall|r: int, c: int|
                os.in_bounds(r, c) ==> {
                    &&& (os.is_wall(r, c) <==> fv.is_wall(r, c))
                    &&& cell_rank(os.cell(r, c)) <= cell_rank(#[trigger] fv.cell(r, c))
                    &&& (os.is_closed(r, c) ==> fv.is_closed(r, c) && fv.dist_of(r, c)
                        == os.dist_of(r, c) && fv.parent_of(r, c) == os.parent_of(r, c))
                }
        }),
{
    reveal(SlowAStar::wf);
    let d = os.dist_of(chr as int, chc as int);
    assert(s1.dist_of(chr as int, chc as int) == d);
    assert(s1.eligible(d, chr as int - 1, chc as int) == os.eligible(d, chr as int - 1, chc as int)
        && s1.push_if(d, chr as int - 1, chc as int) == os.push_if(
        d,
        chr as int - 1,
        chc as int,
    )) by {
        if os.in_bounds(chr as int - 1, chc as int) {
            assert(s1.cell(chr as int - 1, chc as int) == os.cell(chr as int - 1, chc as int));
        }
    }
    assert(s1.eligible(d, chr as int, chc as int - 1) == os.eligible(d, chr as int, chc as int - 1)
        && s1.push_if(d, chr as int, chc as int - 1) == os.push_if(
        d,
        chr as int,
        chc as int - 1,
    )) by {
        if os.in_bounds(chr as int, chc as int - 1) {
            assert(s1.cell(chr as int, chc as int - 1) == os.cell(chr as int, chc as int - 1));
        }
    }
    assert(s1.eligible(d, chr as int, chc as int + 1) == os.eligible(d, chr as int, chc as int + 1)
        && s1.push_if(d, chr as int, chc as int + 1) == os.push_if(
        d,
        chr as int,
        chc as int + 1,
    )) by {
        if os.in_bounds(chr as int, chc as int + 1) {
            assert(s1.cell(chr as int, chc as int + 1) == os.cell(chr as int, chc as int + 1));
        }
    }
    assert(s1.eligible(d, chr as int + 1, chc as int) == os.eligible(d, chr as int + 1, chc as int)
        && s1.push_if(d, chr as int + 1, chc as int) == os.push_if(
        d,
        chr as int + 1,
        chc as int,
    )) by {
        if os.in_bounds(chr as int + 1, chc as int) {
            assert(s1.cell(chr as int + 1, chc as int) == os.cell(chr as int + 1, chc as int));
        }
    }
    assert forall|r: int, c: int|
        os.in_bounds(r, c) && !(r == chr && c == chc) implies {
        &&& (adjacent(chr as int, chc as int, r, c) && os.eligible(d, r, c) ==> #[trigger] fv.cell(
            r,
            c,
        ) == CellType::Discovered && fv.dist_of(r, c) == d + 1 && fv.parent_of(r, c) == ((
        chr,
        chc,
        )))
        &&& (!(adjacent(chr as int, chc as int, r, c) && os.eligible(d, r, c)) ==> fv.cell(r, c)
            == os.cell(r, c) && fv.dist_of(r, c) == os.dist_of(r, c) && fv.parent_of(r, c)
            == os.parent_of(r, c))
    } by {
        assert(s1.cell(r, c) == os.cell(r, c));
        assert(s1.dist_of(r, c) == os.dist_of(r, c));
        assert(s1.parent_of(r, c) == os.parent_of(r, c));
        if adjacent(chr as int, chc as int, r, c) {
            assert(s1.eligible(d, r, c) == os.eligible(d, r, c));
        }
    }
    assert forall|r: int, c: int|
        os.in_bounds(r, c) implies {
        &&& (os.is_wall(r, c) <==> fv.is_wall(r, c))
        &&& cell_rank(os.cell(r, c)) <= cell_rank(#[trigger] fv.cell(r, c))
        &&& (os.is_closed(r, c) ==> fv.is_closed(r, c) && fv.dist_of(r, c) == os.dist_of(r, c)
            && fv.parent_of(r, c) == os.parent_of(r, c))
    } by {
        if r == chr as int && c == chc as int {
            assert(fv.cell(r, c) == CellType::Finalized);
            assert(fv.dist_of(r, c) == os.dist_of(r, c));
            assert(fv.parent_of(r, c) == os.parent_of(r, c));
        } else if adjacent(chr as int, chc as int, r, c) && os.eligible(d, r, c) {
            assert(fv.cell(r, c) == CellType::Discovered);
            assert(os.cell(r, c) == CellType::Unvisited || os.cell(r, c) == CellType::Discovered);
        } else {
            assert(fv.cell(r, c) == os.cell(r, c) && fv.dist_of(r, c) == os.dist_of(r, c)
                && fv.parent_of(r, c) == os.parent_of(r, c));
        }
    }
}

/// Translates the path marking, which ran on the state with the
/// destination already finalized, back to the state the step started from,
/// and shows the whole completing step is monotone.
#[verifier::rlimit(100)]
pub proof fn lemma_complete_translate(
    os: SlowAStar,
    s2: SlowAStar,
    fv: SlowAStar,
    chr: usize,
    chc: usize,
)
    requires
        os.wf(),
        !os.done,
        os.in_bounds(chr as int, chc as int),
        os.cell(chr as int, chc as int) == CellType::Discovered,
        (chr, chc) == os.dest,
        s2.wf(),
        s2.height == os.height,
        s2.width == os.width,
        s2.start == os.start,
        s2.dest == os.dest,
        s2.dist@ == os.dist@,
        s2.parent@ == os.parent@,
        s2.cell(chr as int, chc as int) == CellType::Finalized,
        forall|r: int, c: int|
            os.in_bounds(r, c) && !(r == chr && c == chc) ==> #[trigger] s2.cell(r, c) == os.cell(
                r,
                c,
            ),
        fv.height == s2.height,
        fv.width == s2.width,
        fv.dist@ == s2.dist@,
        fv.parent@ == s2.parent@,
        ({
            let chain = s2.path_seq(os.dest.0 as int, os.dest.1 as int);
            forall|r: int, c: int|
                os.in_bounds(r, c) ==> {
                    &&& (chain.contains(((r as usize, c as usize))) ==> #[trigger] fv.cell(r, c)
                        == CellType::OnPath)
                    &&& (!chain.contains(((r as usize, c as usize))) ==> fv.cell(r, c) == s2.cell(
                        r,
                        c,
                    ))
                }
        }),
    ensures
        fv.is_closed(chr as int, chc as int),
        fv.dist_of(chr as int, chc as int) == os.dist_of(chr as int, chc as int),
        ({
            let chain = fv.path_seq(os.dest.0 as int, os.dest.1 as int);
            forall|r: int, c: int|
                os.in_bounds(r, c) ==> {
                    &&& (chain.contains(((r as usize, c as usize))) ==> #[trigger] fv.cell(r, c)
                        == CellType::OnPath)
                    &&& (!chain.contains(((r as usize, c as usize))) ==> fv.cell(r, c) == os.cell(
                        r,
                        c,
                    ))
                }
        }),
        forall|r: int, c: int|
            os.in_bounds(r, c) ==> {
                &&& (os.is_wall(r, c) <==> fv.is_wall(r, c))
                &&& cell_rank(os.cell(r, c)) <= cell_rank(#[trigger] fv.cell(r, c))
                &&& (os.is_closed(r, c) ==> fv.is_closed(r, c) && fv.dist_of(r, c) == os.dist_of(
                    r,
                    c,
                ) && fv.parent_of(r, c) == os.parent_of(r, c))
            },
{
    reveal(SlowAStar::wf);
    let chain = s2.path_seq(os.dest.0 as int, os.dest.1 as int);
    lemma_path_seq_valid(s2, os.dest.0 as int, os.dest.1 as int);
    lemma_path_seq_agree(s2, fv, os.dest.0 as int, os.dest.1 as int);
    assert(chain[chain.len() - 1] == ((os.dest.0, os.dest.1)));
    assert(chain.contains(((os.dest.0, os.dest.1))));
    assert(fv.cell(chr as int, chc as int) == CellType::OnPath);
    assert forall|r: int, c: int|
        os.in_bounds(r, c) implies {
        &&& (chain.contains(((r as usize, c as usize))) ==> #[trigger] fv.cell(r, c)
            == CellType::OnPath)
        &&& (!chain.contains(((r as usize, c as usize))) ==> fv.cell(r, c) == os.cell(r, c))
    } by {
        if !chain.contains(((r as usize, c as usize))) {
            assert(!(r == chr && c == chc));
            assert(fv.cell(r, c) == s2.cell(r, c));
            assert(s2.cell(r, c) == os.cell(r, c));
        }
    }
    assert forall|r: int, c: int|
        os.in_bounds(r, c) implies {
        &&& (os.is_wall(r, c) <==> fv.is_wall(r, c))
        &&& cell_rank(os.cell(r, c)) <= cell_rank(#[trigger] fv.cell(r, c))
        &&& (os.is_closed(r, c) ==> fv.is_closed(r, c) && fv.dist_of(r, c) == os.dist_of(r, c)
            && fv.parent_of(r, c) == os.parent_of(r, c))
    } by {
        assert(fv.dist_of(r, c) == os.dist_of(r, c));
        assert(fv.parent_of(r, c) == os.parent_of(r, c));
        if chain.contains(((r as usize, c as usize))) {
            let j = choose|j: int| 0 <= j < chain.len() && chain[j] == ((r as usize, c as usize));
            assert(chain[j] == ((r as usize, c as usize)));
            assert(s2.is_discovered(r, c));
            assert(!s2.is_wall(r, c));
            assert(s2.dist_of(r, c) == j);
            if j < chain.len() - 1 {
                assert(s2.is_closed(r, c));
                assert(s2.dist_of(os.dest.0 as int, os.dest.1 as int) == chain.len() - 1);
                assert(!(r == chr && c == chc));
                assert(s2.cell(r, c) == os.cell(r, c));
            } else {
                assert(((r as usize, c as usize)) == ((os.dest.0, os.dest.1)));
                assert(r == chr && c == chc);
            }
            assert(fv.cell(r, c) == CellType::OnPath);
        } else {
            assert(fv.cell(r, c) == os.cell(r, c));
        }
    }
}

/// Dropping one frontier entry preserves the engine invariant: the
/// remaining entries were all already present.
pub proof fn lemma_remove_entry_wf(os: SlowAStar, ns: SlowAStar, bi: int)
    requires
        os.wf(),
        0 <= bi < os.frontier@.len(),
        ns.height == os.height,
        ns.width == os.width,
        ns.start == os.start,
        ns.dest == os.dest,
        ns.cells@ == os.cells@,
        ns.dist@ == os.dist@,
        ns.parent@ == os.parent@,
        ns.done == os.done,
        ns.frontier@ == os.frontier@.remove(bi),
    ensures
        ns.wf(),
        ns.wf_dims(),
        ns.count_closed() == os.count_closed(),
{
    reveal(SlowAStar::wf);
    assert forall|k: int| 0 <= k < ns.frontier@.len() implies {
        let en = #[trigger] ns.frontier@[k];
        ns.in_bounds(en.loc.0 as int, en.loc.1 as int) && ns.is_discovered(
            en.loc.0 as int,
            en.loc.1 as int,
        )
    } by {
        if k < bi {
            assert(ns.frontier@[k] == os.frontier@[k]);
        } else {
            assert(ns.frontier@[k] == os.frontier@[k + 1]);
        }
        let en = ns.frontier@[k];
        assert(os.is_discovered(en.loc.0 as int, en.loc.1 as int));
        assert(ns.cell(en.loc.0 as int, en.loc.1 as int) == os.cell(
            en.loc.0 as int,
            en.loc.1 as int,
        ));
    }
    lemma_wf_tables(os, ns);
}

/// Setting the `done` flag preserves the invariant, and while no path has
/// been marked yet, none appears from setting it.
pub proof fn lemma_done_set(s1: SlowAStar, s2: SlowAStar)
    requires
        s1.wf(),
        !s1.done,
        s2.height == s1.height,
        s2.width == s1.width,
        s2.start == s1.start,
        s2.dest == s1.dest,
        s2.cells@ == s1.cells@,
        s2.dist@ == s1.dist@,
        s2.parent@ == s1.parent@,
        s2.frontier@ == s1.frontier@,
    ensures
        s2.wf(),
        s2.count_closed() == s1.count_closed(),
        forall|r: int, c: int|
            s2.in_bounds(r, c) ==> #[trigger] s2.cell(r, c) != CellType::OnPath,
{
    reveal(SlowAStar::wf);
    lemma_wf_tables(s1, s2);
    assert forall|r: int, c: int| s2.in_bounds(r, c) implies #[trigger] s2.cell(r, c)
        != CellType::OnPath by {
        assert(s2.cell(r, c) == s1.cell(r, c));
        assert(s1.cell(r, c) != CellType::OnPath);
    }
}

/// The selected frontier entry points at an in-bounds cell that is still
/// `Discovered`: a finalized cell would make the entry stale.
pub proof fn lemma_chosen_cell_discovered(os: SlowAStar, bi: int)
    requires
        os.wf(),
        os.is_chosen_index(bi),
    ensures
        os.in_bounds(os.frontier@[bi].loc.0 as int, os.frontier@[bi].loc.1 as int),
        os.cell(os.frontier@[bi].loc.0 as int, os.frontier@[bi].loc.1 as int)
            == CellType::Discovered,
{
    reveal(SlowAStar::wf);
    let en = os.frontier@[bi];
    assert(os.is_discovered(en.loc.0 as int, en.loc.1 as int));
    assert(!os.stale_at(bi));
}

/// The incremental search engine. It owns the classification grid, the
/// distance and predecessor tables and the frontier; `expand_one` is the
/// sole mutator after construction.
pub struct SlowAStar {
    /// Number of grid rows.
    pub height: usize,
    /// Number of grid columns.
    pub width: usize,
    /// The start coordinate, the one cell with distance zero.
    pub start: (usize, usize),
    /// The destination coordinate.
    pub dest: (usize, usize),
    /// Classification grid, flat row-major.
    pub cells: Vec<CellType>,
    /// Best known distance from the start, flat row-major; meaningful only
    /// where the cell is discovered.
    pub dist: Vec<usize>,
    /// Predecessor on the best known path, flat row-major; meaningful only
    /// where the cell is discovered with positive distance.
    pub parent: Vec<(usize, usize)>,
    /// Scored frontier entries, possibly with stale duplicates.
    pub frontier: Vec<AStarNode>,
    /// True once a step has returned `Complete` or failed with `Exhausted`.
    pub done: bool,
}

impl SlowAStar {
    /// Coordinate lies inside the grid.
    pub open spec fn in_bounds(self, r: int, c: int) -> bool {
        0 <= r < self.height && 0 <= c < self.width
    }

    /// Flat index of a coordinate.
    pub open spec fn idx(self, r: int, c: int) -> int {
        r * self.width + c
    }

    /// Classification of a cell.
    pub open spec fn cell(self, r: int, c: int) -> CellType {
        self.cells@[self.idx(r, c)]
    }

    /// Recorded distance from the start.
    pub open spec fn dist_of(self, r: int, c: int) -> int {
        self.dist@[self.idx(r, c)] as int
    }

    /// Recorded predecessor.
    pub open spec fn parent_of(self, r: int, c: int) -> (usize, usize) {
        self.parent@[self.idx(r, c)]
    }

    /// The cell can never be entered.
    pub open spec fn is_wall(self, r: int, c: int) -> bool {
        is_wall_cell(self.cell(r, c))
    }

    /// The cell has been assigned a distance (open or closed).
    pub open spec fn is_discovered(self, r: int, c: int) -> bool {
        is_discovered_cell(self.cell(r, c))
    }

    /// The cell has left the frontier; its distance is frozen.
    pub open spec fn is_closed(self, r: int, c: int) -> bool {
        is_closed_cell(self.cell(r, c))
    }

    /// The cell is in the open set: discovered but not finalized.
    pub open spec fn is_open(self, r: int, c: int) -> bool {
        is_open_cell(self.cell(r, c))
    }

    /// Number of finalized cells.
    pub open spec fn count_closed(self) -> int {
        count_upto(self.cells@, |t: CellType| is_closed_cell(t), self.cells@.len() as int)
    }

    /// Number of traversable cells.
    pub open spec fn count_traversable(self) -> int {
        count_upto(self.cells@, |t: CellType| !is_wall_cell(t), self.cells@.len() as int)
    }

    /// The tables have matching sizes and scores can never overflow.
    pub open spec fn wf_dims(self) -> bool {
        &&& self.height > 0
        &&& self.width > 0
        &&& self.cells@.len() == self.height * self.width
        &&& self.dist@.len() == self.height * self.width
        &&& self.parent@.len() == self.height * self.width
        &&& self.height * self.width + self.height + self.width <= usize::MAX
    }

    /// The endpoints are in bounds and traversable; the start is always
    /// discovered, at distance zero.
    pub open spec fn wf_endpoints(self) -> bool {
        &&& self.in_bounds(self.start.0 as int, self.start.1 as int)
        &&& self.in_bounds(self.dest.0 as int, self.dest.1 as int)
        &&& !self.is_wall(self.start.0 as int, self.start.1 as int)
        &&& !self.is_wall(self.dest.0 as int, self.dest.1 as int)
        &&& self.is_discovered(self.start.0 as int, self.start.1 as int)
        &&& self.dist_of(self.start.0 as int, self.start.1 as int) == 0
    }

    /// Every recorded distance is bounded by the number of finalized cells.
    pub open spec fn wf_dist(self) -> bool {
        forall|r: int, c: int|
            self.in_bounds(r, c) && self.is_discovered(r, c) ==> #[trigger] self.dist_of(r, c)
                <= self.count_closed()
    }

    /// The predecessor of a discovered cell with positive distance is an
    /// adjacent, finalized cell exactly one step closer to the start.
    pub open spec fn parent_ok(self, r: int, c: int) -> bool {
        let p = self.parent_of(r, c);
        &&& self.in_bounds(p.0 as int, p.1 as int)
        &&& adjacent(r, c, p.0 as int, p.1 as int)
        &&& self.is_closed(p.0 as int, p.1 as int)
        &&& self.dist_of(p.0 as int, p.1 as int) == self.dist_of(r, c) - 1
    }

    /// `parent_ok` holds wherever a predecessor is meaningful.
    pub open spec fn wf_parents(self) -> bool {
        forall|r: int, c: int|
            self.in_bounds(r, c) && self.is_discovered(r, c) && #[trigger] self.dist_of(r, c) > 0
                ==> self.parent_ok(r, c)
    }

    /// The start is the only discovered cell at distance zero.
    pub open spec fn wf_zero(self) -> bool {
        forall|r: int, c: int|
            self.in_bounds(r, c) && self.is_discovered(r, c) && #[trigger] self.dist_of(r, c) == 0
                ==> r == self.start.0 && c == self.start.1
    }

    /// Every frontier entry points at an in-bounds, discovered cell.
    pub open spec fn wf_frontier(self) -> bool {
        forall|k: int|
            0 <= k < self.frontier@.len() ==> {
                let e = #[trigger] self.frontier@[k];
                self.in_bounds(e.loc.0 as int, e.loc.1 as int) && self.is_discovered(
                    e.loc.0 as int,
                    e.loc.1 as int,
                )
            }
    }

    /// Path cells appear only after the search has terminated.
    pub open spec fn wf_no_path_yet(self) -> bool {
        !self.done ==> forall|r: int, c: int|
            self.in_bounds(r, c) ==> #[trigger] self.cell(r, c) != CellType::OnPath
    }

    /// The engine's full invariant: established by `new`, preserved by
    /// `expand_one`.
    #[verifier::opaque]
    pub open spec fn wf(self) -> bool {
        &&& self.wf_dims()
        &&& self.wf_endpoints()
        &&& self.wf_dist()
        &&& self.wf_parents()
        &&& self.wf_zero()
        &&& self.wf_frontier()
        &&& self.wf_no_path_yet()
    }

    /// The engine still accepts steps: no step has yet returned `Complete`
    /// or failed with `Exhausted`.
    pub open spec fn running(self) -> bool {
        !self.done
    }

    /// The frontier entry at position `k` is stale: its cell was finalized
    /// through a cheaper path after the entry was pushed, so the entry must
    /// be ignored.
    pub open spec fn stale_at(self, k: int) -> bool {
        self.is_closed(self.frontier@[k].loc.0 as int, self.frontier@[k].loc.1 as int)
    }

    /// Position `i` holds the entry `expand_one` selects: the first
    /// non-stale entry that is minimal in the (score, row, column) order.
    /// There is at most one such position, so the selection is a function
    /// of the engine state.
    pub open spec fn is_chosen_index(self, i: int) -> bool {
        &&& 0 <= i < self.frontier@.len()
        &&& !self.stale_at(i)
        &&& forall|j: int|
            0 <= j < self.frontier@.len() && !self.stale_at(j) ==> entry_le(
                self.frontier@[i],
                #[trigger] self.frontier@[j],
            )
        &&& forall|j: int|
            0 <= j < i && !self.stale_at(j) ==> entry_lt(
                self.frontier@[i],
                #[trigger] self.frontier@[j],
            )
    }

    /// Some frontier entry is still usable; otherwise the search space is
    /// exhausted.
    pub open spec fn has_chosen(self) -> bool {
        exists|i: int| self.is_chosen_index(i)
    }

    /// The position `expand_one` selects (meaningful when `has_chosen`).
    pub open spec fn chosen_index(self) -> int {
        choose|i: int| self.is_chosen_index(i)
    }

    /// The coordinate `expand_one` finalizes next (when `has_chosen`).
    pub open spec fn chosen_loc(self) -> (usize, usize) {
        self.frontier@[self.chosen_index()].loc
    }

    /// A neighbor of the cell being finalized that must be (re)discovered:
    /// in bounds and either never discovered, or still open with a strictly
    /// worse recorded distance than one step beyond distance `d`.
    pub open spec fn eligible(self, d: int, nr: int, nc: int) -> bool {
        &&& self.in_bounds(nr, nc)
        &&& (self.cell(nr, nc) == CellType::Unvisited || (self.cell(nr, nc)
            == CellType::Discovered && d + 1 < self.dist_of(nr, nc)))
    }

    /// The frontier entry pushed for a neighbor rediscovered at distance
    /// `d + 1`.
    pub open spec fn relax_entry(self, d: int, nr: int, nc: int) -> AStarNode {
        AStarNode {
            loc: (nr as usize, nc as usize),
            score: (d + 1 + manhattan(nr, nc, self.dest.0 as int, self.dest.1 as int)) as usize,
        }
    }

    /// What one neighbor contributes to the frontier: one fresh entry if it
    /// is eligible, nothing otherwise.
    pub open spec fn push_if(self, d: int, nr: int, nc: int) -> Seq<AStarNode> {
        if self.eligible(d, nr, nc) {
            seq![self.relax_entry(d, nr, nc)]
        } else {
            Seq::empty()
        }
    }

    /// Scans the frontier for the first non-stale entry that is minimal in
    /// the (score, row, column) order; `None` means every entry is stale.
    fn find_chosen(&self) -> (res: Option<usize>)
        requires
            self.wf(),
        ensures
            match res {
                Some(i) => self.is_chosen_index(i as int),
                None => !self.has_chosen(),
            },
    {
        proof {
            reveal(SlowAStar::wf);
        }
        let mut best: usize = 0;
        let mut found = false;
        let mut k: usize = 0;
        while k < self.frontier.len()
            invariant
                self.wf(),
                k <= self.frontier@.len(),
                !found ==> forall|j: int| 0 <= j < k ==> #[trigger] self.stale_at(j),
                found ==> best < k && !self.stale_at(best as int) && (forall|j: int|
                    0 <= j < k && !self.stale_at(j) ==> entry_le(
                        self.frontier@[best as int],
                        #[trigger] self.frontier@[j],
                    )) && (forall|j: int|
                    0 <= j < best && !self.stale_at(j) ==> entry_lt(
                        self.frontier@[best as int],
                        #[trigger] self.frontier@[j],
                    )),
            decreases self.frontier@.len() - k,
        {
            proof {
                reveal(SlowAStar::wf);
            }
            let e = self.frontier[k];
            let fi = self.fidx(e.loc.0, e.loc.1);
            let cellv = self.cells[fi];
            let closed_here = cellv == CellType::Finalized || cellv == CellType::OnPath;
            proof {
                assert(closed_here == self.stale_at(k as int));
            }
            if !closed_here {
                if !found {
                    best = k;
                    found = true;
                } else {
                    let b = self.frontier[best];
                    let lt = e.score < b.score || (e.score == b.score && (e.loc.0 < b.loc.0 || (
                    e.loc.0 == b.loc.0 && e.loc.1 < b.loc.1)));
                    proof {
                        assert(lt == entry_lt(e, b));
                    }
                    if lt {
                        best = k;
                    }
                }
            }
            k = k + 1;
        }
        if found {
            Some(best)
        } else {
            proof {
                if self.has_chosen() {
                    let i = choose|i: int| self.is_chosen_index(i);
                    assert(self.stale_at(i));
                }
            }
            None
        }
    }

    /// Flat index of an in-bounds coordinate, as executable code.
    fn fidx(&self, r: usize, c: usize) -> (i: usize)
        requires
            self.wf_dims(),
            r < self.height,
            c < self.width,
        ensures
            i == self.idx(r as int, c as int),
            i < self.cells@.len(),
    {
        proof {
            lemma_idx_bound(self.height as int, self.width as int, r as int, c as int);
        }
        r * self.width + c
    }

    /// Score of a frontier entry: known distance from the start plus the
    /// Manhattan distance still to cover, the admissible heuristic for
    /// four-directional unit-cost movement.
    pub fn score_point(pt: (usize, usize), dist_from_start: usize, dest: (usize, usize)) -> (score:
        usize)
        requires
            dist_from_start + manhattan(pt.0 as int, pt.1 as int, dest.0 as int, dest.1 as int)
                <= usize::MAX,
        ensures
            score == dist_from_start + manhattan(
                pt.0 as int,
                pt.1 as int,
                dest.0 as int,
                dest.1 as int,
            ),
    {
        let dr = if pt.0 < dest.0 {
            dest.0 - pt.0
        } else {
            pt.0 - dest.0
        };
        let dc = if pt.1 < dest.1 {
            dest.1 - pt.1
        } else {
            pt.1 - dest.1
        };
        dist_from_start + dr + dc
    }

    /// The predecessor chain of a discovered cell, from the start (at
    /// distance zero) up to the cell itself: `parent` followed backward
    /// until a distance of zero is reached. Each finalized predecessor is
    /// one step closer to the start, so the walk terminates.
    pub open spec fn path_seq(self, r: int, c: int) -> Seq<(usize, usize)>
        decreases self.dist_of(r, c),
            when self.in_bounds(r, c) && (self.dist_of(r, c) > 0 ==> {
                let p = self.parent_of(r, c);
                self.in_bounds(p.0 as int, p.1 as int) && self.dist_of(p.0 as int, p.1 as int)
                    == self.dist_of(r, c) - 1
            })
    {
        if self.dist_of(r, c) == 0 {
            seq![(r as usize, c as usize)]
        } else {
            let p = self.parent_of(r, c);
            self.path_seq(p.0 as int, p.1 as int).push((r as usize, c as usize))
        }
    }

    /// Processes one four-directional neighbor `(nr, nc)` of the cell
    /// `(chr, chc)` that is being finalized at distance `d`: if the
    /// neighbor is eligible, its tables are updated to distance `d + 1`
    /// with predecessor `(chr, chc)`, it is classified `Discovered`, and a
    /// fresh frontier entry is pushed; otherwise nothing changes.
    fn relax(&mut self, chr: usize, chc: usize, nr: usize, nc: usize)
        requires
            old(self).wf(),
            old(self).in_bounds(chr as int, chc as int),
            old(self).in_bounds(nr as int, nc as int),
            adjacent(chr as int, chc as int, nr as int, nc as int),
            old(self).is_closed(chr as int, chc as int),
            old(self).dist_of(chr as int, chc as int) < old(self).count_closed(),
        ensures
            final(self).wf(),
            final(self).height == old(self).height,
            final(self).width == old(self).width,
            final(self).start == old(self).start,
            final(self).dest == old(self).dest,
            final(self).done == old(self).done,
            final(self).count_closed() == old(self).count_closed(),
            ({
                let d = old(self).dist_of(chr as int, chc as int);
                if old(self).eligible(d, nr as int, nc as int) {
                    final(self).frontier@ == old(self).frontier@ + seq![
                        old(self).relax_entry(d, nr as int, nc as int),
                    ]
                } else {
                    final(self).frontier@ == old(self).frontier@
                }
            }),
            relax_cells_rel(*old(self), *final(self), chr, chc, nr as int, nc as int),
    {
        proof {
            reveal(SlowAStar::wf);
        }
        let ghost os = *old(self);
        let ghost w = os.width as int;
        let ghost h = os.height as int;
        let fi = self.fidx(nr, nc);
        let chfi = self.fidx(chr, chc);
        let cellv = self.cells[fi];
        let d = self.dist[chfi];
        proof {
            lemma_count_upto_bounds(
                os.cells@,
                |t: CellType| is_closed_cell(t),
                os.cells@.len() as int,
            );
        }
        let eligible_now = cellv == CellType::Unvisited || (cellv == CellType::Discovered && d + 1
            < self.dist[fi]);
        proof {
            assert(eligible_now == os.eligible(d as int, nr as int, nc as int));
        }
        if eligible_now {
            let nd = d + 1;
            self.cells[fi] = CellType::Discovered;
            self.dist[fi] = nd;
            self.parent[fi] = (chr, chc);
            proof {
                assert(manhattan(nr as int, nc as int, os.dest.0 as int, os.dest.1 as int) <= h
                    + w);
            }
            let sc = Self::score_point((nr, nc), nd, self.dest);
            self.frontier.push(AStarNode { loc: (nr, nc), score: sc });
            proof {
                let ns = *self;
                let fii = os.idx(nr as int, nc as int);
                assert(ns.cells@ == os.cells@.update(fii, CellType::Discovered));
                assert(ns.frontier@ == os.frontier@ + seq![
                    os.relax_entry(d as int, nr as int, nc as int),
                ]);
                // The finalized-cell count is untouched: the neighbor was
                // open or unvisited and stays open.
                lemma_count_upto_update(
                    os.cells@,
                    |t: CellType| is_closed_cell(t),
                    fii,
                    CellType::Discovered,
                    os.cells@.len() as int,
                );
                assert(ns.count_closed() == os.count_closed());
                // The start cell is never eligible: its distance is zero.
                assert(!(nr as int == os.start.0 && nc as int == os.start.1));
                lemma_idx_bound(h, w, os.start.0 as int, os.start.1 as int);
                if os.idx(os.start.0 as int, os.start.1 as int) == fii {
                    lemma_idx_inj(w, nr as int, nc as int, os.start.0 as int, os.start.1 as int);
                }
                lemma_idx_bound(h, w, os.dest.0 as int, os.dest.1 as int);
                assert(ns.cell(os.dest.0 as int, os.dest.1 as int) != CellType::Wall);
                assert(ns.wf_endpoints());
                // Distances stay bounded by the finalized-cell count.
                assert forall|r: int, c: int|
                    ns.in_bounds(r, c) && ns.is_discovered(r, c) implies #[trigger] ns.dist_of(r, c)
                    <= ns.count_closed() by {
                    lemma_idx_bound(h, w, r, c);
                    if r * w + c == fii {
                        lemma_idx_inj(w, r, c, nr as int, nc as int);
                    } else {
                        assert(os.in_bounds(r, c) && os.is_discovered(r, c));
                        assert(os.dist_of(r, c) <= os.count_closed());
                    }
                }
                // Predecessor facts survive: the updated cell points at the
                // finalized cell, every other predecessor is unchanged and
                // cannot be the updated cell, which was not finalized.
                assert forall|r: int, c: int|
                    ns.in_bounds(r, c) && ns.is_discovered(r, c) && #[trigger] ns.dist_of(r, c) > 0
                    implies ns.parent_ok(r, c) by {
                    lemma_idx_bound(h, w, r, c);
                    lemma_idx_bound(h, w, chr as int, chc as int);
                    if os.idx(chr as int, chc as int) == fii {
                        lemma_idx_inj(w, chr as int, chc as int, nr as int, nc as int);
                    }
                    if r * w + c == fii {
                        lemma_idx_inj(w, r, c, nr as int, nc as int);
                        assert(ns.parent_of(r, c) == (chr, chc));
                        assert(ns.cell(chr as int, chc as int) == os.cell(chr as int, chc as int));
                        assert(ns.dist_of(chr as int, chc as int) == d);
                    } else {
                        assert(os.is_discovered(r, c) && os.dist_of(r, c) > 0);
                        assert(os.parent_ok(r, c));
                        let p = os.parent_of(r, c);
                        lemma_idx_bound(h, w, p.0 as int, p.1 as int);
                        if os.idx(p.0 as int, p.1 as int) == fii {
                            lemma_idx_inj(w, p.0 as int, p.1 as int, nr as int, nc as int);
                        }
                        assert(ns.parent_of(r, c) == p);
                        assert(ns.cell(p.0 as int, p.1 as int) == os.cell(p.0 as int, p.1 as int));
                    }
                }
                // The start stays the only cell at distance zero.
                assert forall|r: int, c: int|
                    ns.in_bounds(r, c) && ns.is_discovered(r, c) && #[trigger] ns.dist_of(r, c)
                        == 0 implies r == ns.start.0 && c == ns.start.1 by {
                    lemma_idx_bound(h, w, r, c);
                    if r * w + c == fii {
                        lemma_idx_inj(w, r, c, nr as int, nc as int);
                    } else {
                        assert(os.is_discovered(r, c) && os.dist_of(r, c) == 0);
                    }
                }
                // Frontier entries still point at discovered cells.
                assert forall|k: int| 0 <= k < ns.frontier@.len() implies {
                    let e = #[trigger] ns.frontier@[k];
                    ns.in_bounds(e.loc.0 as int, e.loc.1 as int) && ns.is_discovered(
                        e.loc.0 as int,
                        e.loc.1 as int,
                    )
                } by {
                    let e = ns.frontier@[k];
                    if k < os.frontier@.len() {
                        assert(e == os.frontier@[k]);
                        lemma_idx_bound(h, w, e.loc.0 as int, e.loc.1 as int);
                        if e.loc.0 as int * w + e.loc.1 as int != fii {
                            assert(ns.cell(e.loc.0 as int, e.loc.1 as int) == os.cell(
                                e.loc.0 as int,
                                e.loc.1 as int,
                            ));
                        }
                    } else {
                        assert(e.loc == (nr, nc));
                    }
                }
                // No path cell appears while the search is running.
                if !ns.done {
                    assert forall|r: int, c: int| ns.in_bounds(r, c) implies #[trigger] ns.cell(
                        r,
                        c,
                    ) != CellType::OnPath by {
                        lemma_idx_bound(h, w, r, c);
                        if r * w + c != fii {
                            assert(ns.cell(r, c) == os.cell(r, c));
                        }
                    }
                }
                assert(ns.wf());
                assert forall|r: int, c: int|
                    os.in_bounds(r, c) && !(r == nr && c == nc) implies #[trigger] ns.cell(r, c)
                    == os.cell(r, c) && ns.dist_of(r, c) == os.dist_of(r, c) && ns.parent_of(r, c)
                    == os.parent_of(r, c) by {
                    lemma_idx_bound(h, w, r, c);
                    if r * w + c == fii {
                        lemma_idx_inj(w, r, c, nr as int, nc as int);
                    }
                }
                assert(ns.cell(nr as int, nc as int) == CellType::Discovered);
                assert(ns.dist_of(nr as int, nc as int) == d + 1);
                assert(ns.parent_of(nr as int, nc as int) == (chr, chc));
            }
        }
    }

    /// Relaxes the four neighbors (up, left, right, down) of the cell
    /// `(chr, chc)` that has just been finalized: each eligible neighbor is
    /// rediscovered one step farther with `(chr, chc)` as predecessor and
    /// gets a fresh frontier entry; everything else is untouched.
    #[verifier::rlimit(100)]
    fn expand_neighbors(&mut self, chr: usize, chc: usize)
        requires
            old(self).wf(),
            old(self).in_bounds(chr as int, chc as int),
            old(self).cell(chr as int, chc as int) == CellType::Finalized,
            old(self).dist_of(chr as int, chc as int) < old(self).count_closed(),
        ensures
            final(self).wf(),
            final(self).height == old(self).height,
            final(self).width == old(self).width,
            final(self).start == old(self).start,
            final(self).dest == old(self).dest,
            final(self).done == old(self).done,
            final(self).count_closed() == old(self).count_closed(),
            final(self).cell(chr as int, chc as int) == CellType::Finalized,
            final(self).dist_of(chr as int, chc as int) == old(self).dist_of(
                chr as int,
                chc as int,
            ),
            final(self).parent_of(chr as int, chc as int) == old(self).parent_of(
                chr as int,
                chc as int,
            ),
            neighbors_effect(*old(self), *final(self), chr, chc),
    {
        proof {
            reveal(SlowAStar::wf);
        }
        let ghost os = *old(self);
        let chfi = self.fidx(chr, chc);
        let d = self.dist[chfi];
        if chr > 0 {
            self.relax(chr, chc, chr - 1, chc);
        }
        let ghost s2 = *self;
        proof {
            assert(s2.is_closed(chr as int, chc as int));
            assert(s2.dist_of(chr as int, chc as int) == d);
            assert(s2.count_closed() == os.count_closed());
            assert(relax_cells_rel(os, s2, chr, chc, chr as int - 1, chc as int));
            assert(s2.frontier@ == os.frontier@ + os.push_if(d as int, chr as int - 1, chc as int)) by {
                if !os.eligible(d as int, chr as int - 1, chc as int) {
                    assert(os.frontier@ + os.push_if(d as int, chr as int - 1, chc as int) =~= os.frontier@);
                }
            }
        }
        if chc > 0 {
            self.relax(chr, chc, chr, chc - 1);
        }
        let ghost s3 = *self;
        proof {
            assert(s3.is_closed(chr as int, chc as int));
            assert(s3.dist_of(chr as int, chc as int) == d);
            assert(s3.count_closed() == os.count_closed());
            assert(s2.eligible(d as int, chr as int, chc as int - 1) == os.eligible(
                d as int,
                chr as int,
                chc as int - 1,
            ));
            assert(relax_cells_rel(s2, s3, chr, chc, chr as int, chc as int - 1));
            assert(s3.frontier@ == s2.frontier@ + os.push_if(d as int, chr as int, chc as int - 1)) by {
                if !os.eligible(d as int, chr as int, chc as int - 1) {
                    assert(s2.frontier@ + os.push_if(d as int, chr as int, chc as int - 1) =~= s2.frontier@);
                }
            }
        }
        if chc + 1 < self.width {
            self.relax(chr, chc, chr, chc + 1);
        }
        let ghost s4 = *self;
        proof {
            assert(s4.is_closed(chr as int, chc as int));
            assert(s4.dist_of(chr as int, chc as int) == d);
            assert(s4.count_closed() == os.count_closed());
            assert(s3.eligible(d as int, chr as int, chc as int + 1) == os.eligible(
                d as int,
                chr as int,
                chc as int + 1,
            ));
            assert(relax_cells_rel(s3, s4, chr, chc, chr as int, chc as int + 1));
            assert(s4.frontier@ == s3.frontier@ + os.push_if(d as int, chr as int, chc as int + 1)) by {
                if !os.eligible(d as int, chr as int, chc as int + 1) {
                    assert(s3.frontier@ + os.push_if(d as int, chr as int, chc as int + 1) =~= s3.frontier@);
                }
            }
        }
        if chr + 1 < self.height {
            self.relax(chr, chc, chr + 1, chc);
        }
        let ghost fv = *self;
        proof {
            assert(fv.is_closed(chr as int, chc as int));
            assert(fv.cell(chr as int, chc as int) == CellType::Finalized);
            assert(fv.dist_of(chr as int, chc as int) == d);
            assert(fv.count_closed() == os.count_closed());
            assert(s4.eligible(d as int, chr as int + 1, chc as int) == os.eligible(
                d as int,
                chr as int + 1,
                chc as int,
            ));
            assert(relax_cells_rel(s4, fv, chr, chc, chr as int + 1, chc as int));
            assert(fv.frontier@ == s4.frontier@ + os.push_if(d as int, chr as int + 1, chc as int)) by {
                if !os.eligible(d as int, chr as int + 1, chc as int) {
                    assert(s4.frontier@ + os.push_if(d as int, chr as int + 1, chc as int) =~= s4.frontier@);
                }
            }
            assert(fv.frontier@ == os.frontier@ + os.push_if(
                d as int,
                chr as int - 1,
                chc as int,
            ) + os.push_if(d as int, chr as int, chc as int - 1) + os.push_if(
                d as int,
                chr as int,
                chc as int + 1,
            ) + os.push_if(d as int, chr as int + 1, chc as int));
            lemma_compose_relax(os, s2, s3, s4, fv, chr, chc);
            assert(neighbors_effect(os, fv, chr, chc));
        }
    }

    /// Performs exactly one node expansion, the sole mutator after
    /// construction.
    ///
    /// The entry selected is the first non-stale frontier minimum in the
    /// (score, row, column) order (`is_chosen_index`); its cell — provably
    /// still `Discovered`, never an already-finalized cell — is finalized,
    /// raising the finalized count by exactly one. If that cell is the
    /// destination, the predecessor chain is overlaid as `OnPath` and the
    /// step reports `Complete`. Otherwise every eligible four-directional
    /// neighbor (in order: up, left, right, down) is rediscovered one step
    /// farther with the finalized cell as predecessor, a fresh scored entry
    /// is pushed for each, and the step reports `Continuing`. If every
    /// frontier entry is stale or the frontier is empty, the step fails
    /// with `Exhausted`: no path exists.
    ///
    /// Classification is monotone: walls stay walls, no cell's state ever
    /// moves backward, and a finalized cell keeps its distance and
    /// predecessor forever.
    #[verifier::rlimit(100)]
    pub fn expand_one(&mut self) -> (res: Result<StepResult, SearchError>)
        requires
            old(self).wf(),
            old(self).running(),
        ensures
            final(self).wf(),
            final(self).height == old(self).height,
            final(self).width == old(self).width,
            final(self).start == old(self).start,
            final(self).dest == old(self).dest,
            res is Err <==> !old(self).has_chosen(),
            res is Err ==> res == Err::<StepResult, SearchError>(SearchError::Exhausted) && final(self).cells@ == old(self).cells@ && final(self).dist@ == old(self).dist@ && final(self).parent@ == old(self).parent@ && final(self).frontier@ == old(self).frontier@,
            final(self).done == !(res == Ok::<StepResult, SearchError>(StepResult::Continuing)),
            res is Ok ==> ({
                let i = old(self).chosen_index();
                let ch = old(self).chosen_loc();
                &&& old(self).is_chosen_index(i)
                &&& old(self).cell(ch.0 as int, ch.1 as int) == CellType::Discovered
                &&& final(self).is_closed(ch.0 as int, ch.1 as int)
                &&& final(self).count_closed() == old(self).count_closed() + 1
                &&& final(self).dist_of(ch.0 as int, ch.1 as int) == old(self).dist_of(
                    ch.0 as int,
                    ch.1 as int,
                )
                &&& (res == Ok::<StepResult, SearchError>(StepResult::Complete) <==> ch == old(
                    self,
                ).dest)
            }),
            res == Ok::<StepResult, SearchError>(StepResult::Continuing) ==> ({
                let i = old(self).chosen_index();
                let ch = old(self).chosen_loc();
                let d = old(self).dist_of(ch.0 as int, ch.1 as int);
                &&& final(self).cell(ch.0 as int, ch.1 as int) == CellType::Finalized
                &&& final(self).frontier@ == old(self).frontier@.remove(i) + old(self).push_if(
                    d,
                    ch.0 as int - 1,
                    ch.1 as int,
                ) + old(self).push_if(d, ch.0 as int, ch.1 as int - 1) + old(self).push_if(
                    d,
                    ch.0 as int,
                    ch.1 as int + 1,
                ) + old(self).push_if(d, ch.0 as int + 1, ch.1 as int)
                &&& forall|r: int, c: int|
                    old(self).in_bounds(r, c) && !(r == ch.0 && c == ch.1) ==> {
                        &&& (adjacent(ch.0 as int, ch.1 as int, r, c) && old(self).eligible(d, r, c)
                            ==> #[trigger] final(self).cell(r, c) == CellType::Discovered && final(self).dist_of(r, c) == d + 1 && final(self).parent_of(r, c) == ch)
                        &&& (!(adjacent(ch.0 as int, ch.1 as int, r, c) && old(self).eligible(
                            d,
                            r,
                            c,
                        )) ==> final(self).cell(r, c) == old(self).cell(r, c) && final(self).dist_of(r, c) == old(self).dist_of(r, c) && final(self).parent_of(r, c)
                            == old(self).parent_of(r, c))
                    }
            }),
            res == Ok::<StepResult, SearchError>(StepResult::Complete) ==> ({
                let i = old(self).chosen_index();
                let chain = final(self).path_seq(old(self).dest.0 as int, old(self).dest.1 as int);
                &&& final(self).dist@ == old(self).dist@
                &&& final(self).parent@ == old(self).parent@
                &&& final(self).frontier@ == old(self).frontier@.remove(i)
                &&& forall|r: int, c: int|
                    old(self).in_bounds(r, c) ==> {
                        &&& (chain.contains(((r as usize, c as usize)))
                            ==> #[trigger] final(self).cell(r, c) == CellType::OnPath)
                        &&& (!chain.contains(((r as usize, c as usize))) ==> final(self).cell(r, c)
                            == old(self).cell(r, c))
                    }
            }),
            forall|r: int, c: int|
                old(self).in_bounds(r, c) ==> {
                    &&& (old(self).is_wall(r, c) <==> final(self).is_wall(r, c))
                    &&& cell_rank(old(self).cell(r, c)) <= cell_rank(
                        #[trigger] final(self).cell(r, c),
                    )
                    &&& (old(self).is_closed(r, c) ==> final(self).is_closed(r, c) && final(self).dist_of(r, c) == old(self).dist_of(r, c) && final(self).parent_of(r, c)
                        == old(self).parent_of(r, c))
                }
    {
        let ghost os = *old(self);
        let ghost w = os.width as int;
        let ghost h = os.height as int;
        let choice = self.find_chosen();
        let bi = match choice {
            None => {
                self.done = true;
                proof {
                    lemma_wf_tables(os, *self);
                }
                return Err(SearchError::Exhausted);
            },
            Some(b) => b,
        };
        proof {
            assert(os.is_chosen_index(bi as int));
            assert(os.has_chosen());
            assert(os.is_chosen_index(os.chosen_index()));
            lemma_chosen_unique(os, bi as int, os.chosen_index());
        }
        let e = self.frontier[bi];
        let chr = e.loc.0;
        let chc = e.loc.1;
        proof {
            assert(os.chosen_loc() == (chr, chc));
            // The defended invariant: the selected cell is never one that
            // was already finalized.
            lemma_chosen_cell_discovered(os, bi as int);
        }
        self.frontier.remove(bi);
        let ghost os1 = *self;
        proof {
            assert(os1.frontier@ == os.frontier@.remove(bi as int));
            lemma_remove_entry_wf(os, os1, bi as int);
        }
        let fi = self.fidx(chr, chc);
        self.cells[fi] = CellType::Finalized;
        let ghost s1 = *self;
        proof {
            lemma_finalize_preserves(os1, s1, chr, chc);
            assert(s1.count_closed() == os.count_closed() + 1);
        }
        if chr == self.dest.0 && chc == self.dest.1 {
            self.done = true;
            let ghost s2 = *self;
            proof {
                lemma_done_set(s1, s2);
            }
            self.mark_path();
            proof {
                let fv = *self;
                assert forall|r: int, c: int|
                    os.in_bounds(r, c) && !(r == chr && c == chc) implies #[trigger] s2.cell(r, c)
                    == os.cell(r, c) by {
                    assert(s1.cell(r, c) == os1.cell(r, c));
                }
                lemma_complete_translate(os, s2, fv, chr, chc);
                assert(fv.count_closed() == os.count_closed() + 1);
                assert(fv.frontier@ == os.frontier@.remove(bi as int));
                assert(fv.dist@ == os.dist@ && fv.parent@ == os.parent@);
            }
            return Ok(StepResult::Complete);
        }
        let d = self.dist[fi];
        proof {
            assert(d == os.dist_of(chr as int, chc as int));
            assert(d < s1.count_closed());
            assert(s1.frontier@ == os.frontier@.remove(bi as int));
        }
        self.expand_neighbors(chr, chc);
        let ghost fv = *self;
        proof {
            assert(fv.count_closed() == os.count_closed() + 1);
            assert(s1.dist_of(chr as int, chc as int) == d);
            lemma_continuing_translate(os, s1, fv, chr, chc, bi as int);
        }
        Ok(StepResult::Continuing)
    }

    /// Walks the predecessor chain backward from the destination, which has
    /// just been finalized, classifying every cell on it `OnPath`. Exactly
    /// the chain cells end up `OnPath`; nothing else changes.
    #[verifier::rlimit(100)]
    #[verifier::loop_isolation(false)]
    fn mark_path(&mut self)
        requires
            old(self).wf(),
            old(self).done,
            old(self).is_closed(old(self).dest.0 as int, old(self).dest.1 as int),
            forall|r: int, c: int|
                old(self).in_bounds(r, c) ==> #[trigger] old(self).cell(r, c)
                    != CellType::OnPath,
        ensures
            final(self).wf(),
            final(self).height == old(self).height,
            final(self).width == old(self).width,
            final(self).start == old(self).start,
            final(self).dest == old(self).dest,
            final(self).done == old(self).done,
            final(self).dist@ == old(self).dist@,
            final(self).parent@ == old(self).parent@,
            final(self).frontier@ == old(self).frontier@,
            final(self).count_closed() == old(self).count_closed(),
            ({
                let chain = old(self).path_seq(
                    old(self).dest.0 as int,
                    old(self).dest.1 as int,
                );
                forall|r: int, c: int|
                    old(self).in_bounds(r, c) ==> {
                        &&& (chain.contains(((r as usize, c as usize)))
                            ==> #[trigger] final(self).cell(r, c) == CellType::OnPath)
                        &&& (!chain.contains(((r as usize, c as usize))) ==> final(self).cell(r, c)
                            == old(self).cell(r, c))
                    }
            }),
    {
        proof {
            reveal(SlowAStar::wf);
        }
        let ghost os = *old(self);
        let ghost w = os.width as int;
        let ghost h = os.height as int;
        let ghost chain = os.path_seq(os.dest.0 as int, os.dest.1 as int);
        proof {
            lemma_path_seq_valid(os, os.dest.0 as int, os.dest.1 as int);
        }
        let mut pr = self.dest.0;
        let mut pc = self.dest.1;
        let mut fi = self.fidx(pr, pc);
        let ghost mut k = chain.len() - 1;
        self.cells[fi] = CellType::OnPath;
        let mut dcur = self.dist[fi];
        proof {
            lemma_count_upto_update(
                os.cells@,
                |t: CellType| is_closed_cell(t),
                os.idx(pr as int, pc as int),
                CellType::OnPath,
                os.cells@.len() as int,
            );
            assert(chain[k as int] == (pr, pc));
            assert forall|r: int, c: int| os.in_bounds(r, c) implies {
                &&& (seq_suffix_contains(chain, k as int, ((r as usize, c as usize)))
                    ==> #[trigger] self.cell(r, c) == CellType::OnPath)
                &&& (!seq_suffix_contains(chain, k as int, ((r as usize, c as usize)))
                    ==> self.cell(r, c) == os.cell(r, c))
            } by {
                lemma_idx_bound(h, w, r, c);
                if r * w + c == os.idx(pr as int, pc as int) {
                    lemma_idx_inj(w, r, c, pr as int, pc as int);
                    assert(chain[k as int] == ((r as usize, c as usize)));
                    assert(seq_suffix_contains(chain, k as int, ((r as usize, c as usize))));
                } else {
                    if seq_suffix_contains(chain, k as int, ((r as usize, c as usize))) {
                        let j = choose|j: int|
                            k <= j < chain.len() && chain[j] == ((r as usize, c as usize));
                        assert(j == k);
                        lemma_idx_inj(w, r, c, pr as int, pc as int);
                    }
                }
            }
        }
        while dcur != 0
            invariant
                os.wf(),
                chain == os.path_seq(os.dest.0 as int, os.dest.1 as int),
                chain.len() == os.dist_of(os.dest.0 as int, os.dest.1 as int) + 1,
                0 <= k < chain.len(),
                chain[k as int] == (pr, pc),
                os.in_bounds(pr as int, pc as int),
                dcur == os.dist_of(pr as int, pc as int),
                dcur == k,
                fi == os.idx(pr as int, pc as int),
                self.height == os.height,
                self.width == os.width,
                self.start == os.start,
                self.dest == os.dest,
                self.done == os.done,
                self.dist@ == os.dist@,
                self.parent@ == os.parent@,
                self.frontier@ == os.frontier@,
                self.cells@.len() == os.cells@.len(),
                self.count_closed() == os.count_closed(),
                forall|j: int| 0 <= j < chain.len() ==> {
                    let q = #[trigger] chain[j];
                    &&& os.in_bounds(q.0 as int, q.1 as int)
                    &&& os.dist_of(q.0 as int, q.1 as int) == j
                    &&& (j < chain.len() - 1 ==> os.is_closed(q.0 as int, q.1 as int) && q
                        == os.parent_of(chain[j + 1].0 as int, chain[j + 1].1 as int))
                },
                os.is_closed(os.dest.0 as int, os.dest.1 as int),
                forall|r: int, c: int| os.in_bounds(r, c) ==> {
                    &&& (seq_suffix_contains(chain, k as int, ((r as usize, c as usize)))
                        ==> #[trigger] self.cell(r, c) == CellType::OnPath)
                    &&& (!seq_suffix_contains(chain, k as int, ((r as usize, c as usize)))
                        ==> self.cell(r, c) == os.cell(r, c))
                },
            decreases dcur,
        {
            let ghost prev = *self;
            proof {
                lemma_idx_bound(h, w, pr as int, pc as int);
                assert(chain[k as int] == (pr, pc));
                if k as int == chain.len() - 1 {
                    assert(chain[k as int] == ((os.dest.0, os.dest.1)));
                    assert(os.is_discovered(pr as int, pc as int));
                } else {
                    assert(os.is_closed(pr as int, pc as int));
                    assert(os.is_discovered(pr as int, pc as int));
                }
                assert(os.dist_of(pr as int, pc as int) == k as int);
                assert(os.parent_ok(pr as int, pc as int));
            }
            let p = self.parent[fi];
            proof {
                assert(p == os.parent_of(pr as int, pc as int));
                assert(chain[k as int - 1] == os.parent_of(
                    chain[k as int].0 as int,
                    chain[k as int].1 as int,
                ));
                assert(chain[k as int - 1] == p);
            }
            pr = p.0;
            pc = p.1;
            proof {
                assert(chain[k as int - 1] == (pr, pc));
                k = k - 1;
                assert(os.in_bounds(pr as int, pc as int));
            }
            fi = self.fidx(pr, pc);
            self.cells[fi] = CellType::OnPath;
            dcur = self.dist[fi];
            proof {
                lemma_count_upto_update(
                    prev.cells@,
                    |t: CellType| is_closed_cell(t),
                    os.idx(pr as int, pc as int),
                    CellType::OnPath,
                    prev.cells@.len() as int,
                );
                // The freshly marked cell was already finalized, so the
                // finalized count is unchanged.
                lemma_idx_bound(h, w, pr as int, pc as int);
                assert(os.is_closed(pr as int, pc as int));
                assert(seq_suffix_contains(chain, k + 1, chain[k + 1]));
                assert(prev.cell(pr as int, pc as int) == CellType::OnPath || prev.cell(
                    pr as int,
                    pc as int,
                ) == os.cell(pr as int, pc as int));
                assert(is_closed_cell(prev.cells@[os.idx(pr as int, pc as int)]));
                assert(self.count_closed() == os.count_closed());
                assert forall|r: int, c: int| os.in_bounds(r, c) implies {
                    &&& (seq_suffix_contains(chain, k as int, ((r as usize, c as usize)))
                        ==> #[trigger] self.cell(r, c) == CellType::OnPath)
                    &&& (!seq_suffix_contains(chain, k as int, ((r as usize, c as usize)))
                        ==> self.cell(r, c) == os.cell(r, c))
                } by {
                    lemma_idx_bound(h, w, r, c);
                    if r * w + c == os.idx(pr as int, pc as int) {
                        lemma_idx_inj(w, r, c, pr as int, pc as int);
                        assert(chain[k as int] == ((r as usize, c as usize)));
                        assert(seq_suffix_contains(chain, k as int, ((r as usize, c as usize))));
                    } else {
                        assert(self.cell(r, c) == prev.cell(r, c));
                        if seq_suffix_contains(chain, k as int, ((r as usize, c as usize))) {
                            let j = choose|j: int|
                                k <= j < chain.len() && chain[j] == ((r as usize, c as usize));
                            if j == k {
                                lemma_idx_inj(w, r, c, pr as int, pc as int);
                            } else {
                                assert(seq_suffix_contains(
                                    chain,
                                    k + 1,
                                    ((r as usize, c as usize)),
                                ));
                            }
                        } else {
                            assert(!seq_suffix_contains(chain, k + 1, ((r as usize, c as usize))));
                        }
                    }
                }
            }
        }
        proof {
            assert(k == 0);
            let ns = *self;
            // Every chain cell is marked; everything else is untouched.
            assert forall|r: int, c: int| os.in_bounds(r, c) implies {
                &&& (chain.contains(((r as usize, c as usize))) ==> #[trigger] ns.cell(r, c)
                    == CellType::OnPath)
                &&& (!chain.contains(((r as usize, c as usize))) ==> ns.cell(r, c) == os.cell(
                    r,
                    c,
                ))
            } by {
                if chain.contains(((r as usize, c as usize))) {
                    let j = choose|j: int| 0 <= j < chain.len() && chain[j] == ((
                    r as usize,
                    c as usize,
                ));
                    assert(seq_suffix_contains(chain, 0, ((r as usize, c as usize))));
                } else {
                    if seq_suffix_contains(chain, 0, ((r as usize, c as usize))) {
                        let j = choose|j: int|
                            0 <= j < chain.len() && chain[j] == ((r as usize, c as usize));
                        assert(chain.contains(((r as usize, c as usize))));
                    }
                }
            }
            // The invariant holds again: path cells are allowed because the
            // search is finished, finalized cells stayed finalized, and
            // distances, predecessors and the frontier are untouched.
            assert forall|r: int, c: int|
                ns.in_bounds(r, c) && ns.is_discovered(r, c) implies #[trigger] ns.dist_of(r, c)
                <= ns.count_closed() && (ns.dist_of(r, c) > 0 ==> ns.parent_ok(r, c)) && (
            ns.dist_of(r, c) == 0 ==> r == ns.start.0 && c == ns.start.1) by {
                assert(ns.dist_of(r, c) == os.dist_of(r, c));
                assert(ns.cell(r, c) == CellType::OnPath || ns.cell(r, c) == os.cell(r, c));
                assert(os.cell(r, c) != CellType::OnPath);
                if ns.cell(r, c) == CellType::OnPath {
                    assert(chain.contains(((r as usize, c as usize))));
                    let j = choose|j: int|
                        0 <= j < chain.len() && chain[j] == ((r as usize, c as usize));
                    assert(chain[j] == ((r as usize, c as usize)));
                    assert(os.is_discovered(r, c));
                } else {
                    assert(ns.cell(r, c) == os.cell(r, c));
                }
                assert(os.is_discovered(r, c));
                assert(os.dist_of(r, c) <= os.count_closed());
                if os.dist_of(r, c) > 0 {
                    assert(os.parent_ok(r, c));
                    let p = os.parent_of(r, c);
                    assert(ns.parent_of(r, c) == p);
                    assert(ns.cell(p.0 as int, p.1 as int) == CellType::OnPath || ns.cell(
                        p.0 as int,
                        p.1 as int,
                    ) == os.cell(p.0 as int, p.1 as int));
                    assert(ns.is_closed(p.0 as int, p.1 as int));
                    assert(ns.parent_ok(r, c));
                }
            }
            assert forall|kk: int| 0 <= kk < ns.frontier@.len() implies {
                let e = #[trigger] ns.frontier@[kk];
                ns.in_bounds(e.loc.0 as int, e.loc.1 as int) && ns.is_discovered(
                    e.loc.0 as int,
                    e.loc.1 as int,
                )
            } by {
                let e = ns.frontier@[kk];
                assert(os.is_discovered(e.loc.0 as int, e.loc.1 as int));
                assert(ns.cell(e.loc.0 as int, e.loc.1 as int) == CellType::OnPath || ns.cell(
                    e.loc.0 as int,
                    e.loc.1 as int,
                ) == os.cell(e.loc.0 as int, e.loc.1 as int));
            }
            assert(ns.cell(os.start.0 as int, os.start.1 as int) == CellType::OnPath || ns.cell(
                os.start.0 as int,
                os.start.1 as int,
            ) == os.cell(os.start.0 as int, os.start.1 as int));
            assert(ns.cell(os.dest.0 as int, os.dest.1 as int) == CellType::OnPath || ns.cell(
                os.dest.0 as int,
                os.dest.1 as int,
            ) == os.cell(os.dest.0 as int, os.dest.1 as int));
            assert(ns.wf_endpoints());
            assert(ns.wf());
        }
    }

    /// Read-only view of the classification grid, row by row: what an
    /// external display reads after every step. Valid in any state,
    /// including before the first step and after termination.
    pub fn get_map_picture(&self) -> (picture: Vec<Vec<CellType>>)
        requires
            self.wf(),
        ensures
            picture@.len() == self.height,
            forall|r: int| 0 <= r < self.height ==> #[trigger] picture@[r]@.len() == self.width,
            forall|r: int, c: int|
                self.in_bounds(r, c) ==> #[trigger] picture@[r]@[c] == self.cell(r, c),
    {
        proof {
            reveal(SlowAStar::wf);
        }
        let mut picture: Vec<Vec<CellType>> = Vec::new();
        let mut r: usize = 0;
        while r < self.height
            invariant
                self.wf(),
                self.wf_dims(),
                r <= self.height,
                picture@.len() == r,
                forall|rr: int| 0 <= rr < r ==> #[trigger] picture@[rr]@.len() == self.width,
                forall|rr: int, cc: int|
                    0 <= rr < r && 0 <= cc < self.width ==> #[trigger] picture@[rr]@[cc]
                        == self.cell(rr, cc),
            decreases self.height - r,
        {
            proof {
                reveal(SlowAStar::wf);
            }
            let mut row: Vec<CellType> = Vec::new();
            let mut c: usize = 0;
            while c < self.width
                invariant
                    self.wf(),
                    self.wf_dims(),
                    r < self.height,
                    c <= self.width,
                    row@.len() == c,
                    forall|cc: int| 0 <= cc < c ==> #[trigger] row@[cc] == self.cell(r as int, cc),
                decreases self.width - c,
            {
                proof {
                    reveal(SlowAStar::wf);
                }
                let fi = self.fidx(r, c);
                row.push(self.cells[fi]);
                c = c + 1;
            }
            picture.push(row);
            r = r + 1;
        }
        picture
    }

    /// Best known distance from the start: `Some` exactly for discovered
    /// cells (in bounds, reached by the search), `None` for walls,
    /// unvisited cells and out-of-bounds coordinates.
    pub fn best_distance(&self, r: usize, c: usize) -> (dist: Option<usize>)
        requires
            self.wf(),
        ensures
            dist is Some <==> (self.in_bounds(r as int, c as int) && self.is_discovered(
                r as int,
                c as int,
            )),
            dist is Some ==> dist->0 == self.dist_of(r as int, c as int),
    {
        proof {
            reveal(SlowAStar::wf);
        }
        if !(r < self.height && c < self.width) {
            return None;
        }
        let fi = self.fidx(r, c);
        let cellv = self.cells[fi];
        if cellv == CellType::Discovered || cellv == CellType::Finalized || cellv
            == CellType::OnPath {
            Some(self.dist[fi])
        } else {
            None
        }
    }

    /// Builds an engine from a passability grid (`true` = traversable) and
    /// the two endpoints. The grid must be non-empty and rectangular
    /// (`EmptyGrid` otherwise) and the endpoints in bounds
    /// (`InvalidCoordinate` otherwise); by caller contract both endpoints
    /// are traversable. On success the classification grid is `Wall`
    /// exactly where the passability grid is false, the start is the one
    /// discovered cell, at distance zero, and the frontier holds a single
    /// entry for the start.
    pub fn new(map: Vec<Vec<bool>>, start: (usize, usize), dest: (usize, usize)) -> (result: Result<
        SlowAStar,
        SearchError,
    >)
        requires
            grid_dims_ok(grid_view(map)) ==> grid_view(map).len() * grid_view(map)[0].len()
                + grid_view(map).len() + grid_view(map)[0].len() <= usize::MAX,
            (grid_dims_ok(grid_view(map)) && start.0 < grid_view(map).len() && start.1
                < grid_view(map)[0].len() && dest.0 < grid_view(map).len() && dest.1
                < grid_view(map)[0].len()) ==> (grid_view(map)[start.0 as int][start.1 as int]
                && grid_view(map)[dest.0 as int][dest.1 as int]),
        ensures
            result is Err <==> (!grid_dims_ok(grid_view(map)) || !(start.0 < grid_view(map).len()
                && start.1 < grid_view(map)[0].len() && dest.0 < grid_view(map).len() && dest.1
                < grid_view(map)[0].len())),
            result == Err::<SlowAStar, SearchError>(SearchError::EmptyGrid) <==> !grid_dims_ok(
                grid_view(map),
            ),
            result is Err && grid_dims_ok(grid_view(map)) ==> result == Err::<
                SlowAStar,
                SearchError,
            >(SearchError::InvalidCoordinate),
            result is Ok ==> {
                let s = result->Ok_0;
                &&& s.wf()
                &&& s.running()
                &&& s.height == grid_view(map).len()
                &&& s.width == grid_view(map)[0].len()
                &&& s.start == start
                &&& s.dest == dest
                &&& forall|r: int, c: int|
                    s.in_bounds(r, c) ==> #[trigger] s.cell(r, c) == init_cell(
                        grid_view(map),
                        start,
                        r,
                        c,
                    )
                &&& s.dist_of(start.0 as int, start.1 as int) == 0
                &&& s.count_closed() == 0
                &&& s.frontier@.len() == 1
                &&& s.frontier@[0].loc == start
                &&& s.frontier@[0].score == manhattan(
                    start.0 as int,
                    start.1 as int,
                    dest.0 as int,
                    dest.1 as int,
                )
            },
    {
        let ghost m = grid_view(map);
        let height = map.len();
        if height == 0 {
            return Err(SearchError::EmptyGrid);
        }
        let width = map[0].len();
        if width == 0 {
            return Err(SearchError::EmptyGrid);
        }
        let mut r: usize = 0;
        while r < height
            invariant
                m == grid_view(map),
                height == m.len(),
                width == m[0].len(),
                width > 0,
                r <= height,
                forall|rr: int| 0 <= rr < r ==> #[trigger] m[rr].len() == width,
            decreases height - r,
        {
            if map[r].len() != width {
                proof {
                    assert(m[r as int].len() != width);
                }
                return Err(SearchError::EmptyGrid);
            }
            assert(m[r as int].len() == width);
            r = r + 1;
        }
        assert(grid_dims_ok(m));
        if !(start.0 < height && start.1 < width && dest.0 < height && dest.1 < width) {
            return Err(SearchError::InvalidCoordinate);
        }
        let total = height * width;
        let mut cells: Vec<CellType> = Vec::new();
        let mut r: usize = 0;
        while r < height
            invariant
                grid_dims_ok(m),
                m == grid_view(map),
                height == m.len(),
                width == m[0].len(),
                height * width + height + width <= usize::MAX,
                r <= height,
                cells@.len() == r * width,
                cells@.len() <= height * width,
                forall|rr: int, cc: int|
                    0 <= rr < r && 0 <= cc < width ==> cells@[rr * width + cc] == #[trigger]
                    init_cell(m, start, rr, cc),
                forall|j: int| 0 <= j < cells@.len() ==> !is_closed_cell(#[trigger] cells@[j]),
            decreases height - r,
        {
            let row = &map[r];
            let mut c: usize = 0;
            while c < width
                invariant
                    grid_dims_ok(m),
                    m == grid_view(map),
                    height == m.len(),
                    width == m[0].len(),
                    height * width + height + width <= usize::MAX,
                    r < height,
                    c <= width,
                    row@ == map@[r as int]@,
                    row@.len() == width,
                    cells@.len() == r * width + c,
                    cells@.len() <= height * width,
                    forall|rr: int, cc: int|
                        0 <= rr < r && 0 <= cc < width ==> cells@[rr * width + cc] == #[trigger]
                        init_cell(m, start, rr, cc),
                    forall|cc: int|
                        0 <= cc < c ==> cells@[r * width + cc] == #[trigger] init_cell(
                            m,
                            start,
                            r as int,
                            cc,
                        ),
                    forall|j: int| 0 <= j < cells@.len() ==> !is_closed_cell(#[trigger] cells@[j]),
                decreases width - c,
            {
                proof {
                    lemma_idx_bound(height as int, width as int, r as int, c as int);
                    assert(m[r as int][c as int] == row@[c as int]);
                }
                let open_here = row[c];
                let state = if !open_here {
                    CellType::Wall
                } else if r == start.0 && c == start.1 {
                    CellType::Discovered
                } else {
                    CellType::Unvisited
                };
                cells.push(state);
                c = c + 1;
                proof {
                    assert forall|rr: int, cc: int| 0 <= rr < r && 0 <= cc < width implies cells@[rr
                        * width + cc] == #[trigger] init_cell(m, start, rr, cc) by {
                        lemma_idx_bound(r as int, width as int, rr, cc);
                        assert(rr * width + cc < r * width) by (nonlinear_arith)
                            requires
                                0 <= rr < r,
                                0 <= cc < width,
                        ;
                    }
                }
            }
            r = r + 1;
            proof {
                assert((r - 1) * width + width == r * width) by (nonlinear_arith);
                assert forall|rr: int, cc: int| 0 <= rr < r && 0 <= cc < width implies cells@[rr
                    * width + cc] == #[trigger] init_cell(m, start, rr, cc) by {
                    lemma_idx_bound(r as int, width as int, rr, cc);
                    assert(rr * width + cc < r * width) by (nonlinear_arith)
                        requires
                            0 <= rr < r,
                            0 <= cc < width,
                    ;
                }
            }
        }
        proof {
            lemma_idx_bound(height as int, width as int, start.0 as int, start.1 as int);
        }
        let mut dist: Vec<usize> = Vec::new();
        let mut parent: Vec<(usize, usize)> = Vec::new();
        let mut i: usize = 0;
        while i < total
            invariant
                i <= total,
                dist@.len() == i,
                parent@.len() == i,
                forall|j: int| 0 <= j < i ==> #[trigger] dist@[j] == 0,
            decreases total - i,
        {
            dist.push(0);
            parent.push((0, 0));
            i = i + 1;
        }
        let mut frontier: Vec<AStarNode> = Vec::new();
        proof {
            assert(manhattan(start.0 as int, start.1 as int, dest.0 as int, dest.1 as int)
                <= height + width);
        }
        let start_score = Self::score_point(start, 0, dest);
        frontier.push(AStarNode { loc: start, score: start_score });
        let engine = SlowAStar {
            height,
            width,
            start,
            dest,
            cells,
            dist,
            parent,
            frontier,
            done: false,
        };
        proof {
            reveal(SlowAStar::wf);
            assert forall|r: int, c: int| engine.in_bounds(r, c) implies #[trigger] engine.cell(
                r,
                c,
            ) == init_cell(m, start, r, c) by {
                lemma_idx_bound(height as int, width as int, r, c);
                assert(init_cell(m, start, r, c) == engine.cells@[r * width + c]);
            }
            assert(engine.cell(start.0 as int, start.1 as int) == CellType::Discovered);
            assert(engine.count_closed() == 0) by {
                lemma_count_upto_zero(
                    engine.cells@,
                    |t: CellType| is_closed_cell(t),
                    engine.cells@.len() as int,
                );
            }
            assert forall|r: int, c: int|
                engine.in_bounds(r, c) && engine.is_discovered(r, c) implies #[trigger]
            engine.dist_of(r, c) <= engine.count_closed() && (engine.dist_of(r, c) > 0
                ==> engine.parent_ok(r, c)) by {
                lemma_idx_bound(height as int, width as int, r, c);
                assert(engine.dist@[r * width + c] == 0);
            }
            assert forall|r: int, c: int|
                engine.in_bounds(r, c) && engine.is_discovered(r, c) && #[trigger] engine.dist_of(
                    r,
                    c,
                ) == 0 implies r == start.0 && c == start.1 by {
                lemma_idx_bound(height as int, width as int, r, c);
                assert(engine.cell(r, c) == init_cell(m, start, r, c));
            }
            assert(engine.wf_zero());
            assert forall|r: int, c: int| engine.in_bounds(r, c) implies #[trigger] engine.cell(
                r,
                c,
            ) != CellType::OnPath by {
                lemma_idx_bound(height as int, width as int, r, c);
                assert(!is_closed_cell(engine.cells@[r * width + c]));
            }
            assert(engine.cell(dest.0 as int, dest.1 as int) == init_cell(
                m,
                start,
                dest.0 as int,
                dest.1 as int,
            ));
            assert(engine.wf_endpoints());
            assert(engine.wf_frontier());
            assert(engine.wf());
        }
        Ok(engine)
    }
}

} // verus!
