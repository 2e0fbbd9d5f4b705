//! Per-cell classification states, step outcomes and error kinds of the
//! incremental search, together with the spec-level view of each state.

use vstd::prelude::*;

verus! {

/// Classification of one grid cell, as reported to the caller after every
/// step. A traversable cell advances monotonically
/// `Unvisited -> Discovered -> Finalized -> OnPath`; a wall stays `Wall`
/// for the engine's whole lifetime.
#[derive(Clone, Copy, PartialEq, Eq, Structural, Debug)]
pub enum CellType {
    /// Never traversable; fixed at construction from the passability grid.
    Wall,
    /// Traversable, not yet discovered by the search.
    Unvisited,
    /// In the frontier: a cost is known, but a cheaper path may still turn up.
    Discovered,
    /// Removed from the frontier; its recorded distance is final.
    Finalized,
    /// Part of the reconstructed path, overlaid on finalized cells only
    /// after the search completes.
    OnPath,
}

/// Outcome of one successful `expand_one` step.
#[derive(Clone, Copy, PartialEq, Eq, Structural, Debug)]
pub enum StepResult {
    /// A cell was finalized, but it was not the destination.
    Continuing,
    /// The destination was finalized and the path has been marked.
    Complete,
}

/// Terminal failures of the engine.
#[derive(Clone, Copy, PartialEq, Eq, Structural, Debug)]
pub enum SearchError {
    /// The frontier ran out before the destination was found: no path exists.
    Exhausted,
    /// A construction coordinate lies outside the grid.
    InvalidCoordinate,
    /// The construction grid has no rows, no columns, or ragged rows.
    EmptyGrid,
}

/// A cell that has left the frontier: its distance from the start is frozen.
pub open spec fn is_closed_cell(t: CellType) -> bool {
    t == CellType::Finalized || t == CellType::OnPath
}

/// A cell the search has assigned a distance to (frontier or finalized).
pub open spec fn is_discovered_cell(t: CellType) -> bool {
    t == CellType::Discovered || t == CellType::Finalized || t == CellType::OnPath
}

/// A cell that is discovered but not yet finalized: the open set.
pub open spec fn is_open_cell(t: CellType) -> bool {
    t == CellType::Discovered
}

/// A cell that can never be entered.
pub open spec fn is_wall_cell(t: CellType) -> bool {
    t == CellType::Wall
}

/// Position of a non-wall state in the monotone lifecycle
/// `Unvisited -> Discovered -> Finalized -> OnPath`. A cell's rank never
/// decreases across steps.
pub open spec fn cell_rank(t: CellType) -> int {
    match t {
        CellType::Wall => 0,
        CellType::Unvisited => 0,
        CellType::Discovered => 1,
        CellType::Finalized => 2,
        CellType::OnPath => 3,
    }
}

} // verus!
