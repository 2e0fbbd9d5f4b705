//! Incremental shortest-path search over a 2D grid of open and blocked
//! cells. One call to `SlowAStar::expand_one` finalizes exactly one cell,
//! so a caller can watch the frontier, the finalized region and finally
//! the reconstructed path grow step by step through `get_map_picture`.

pub mod cells;
pub mod counting;
pub mod engine;
pub mod laws;
