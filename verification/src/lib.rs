//! A fixed-size 2-D grid on which a user paints obstacles and terrain,
//! designates a start and an end cell, and computes a least-cost route
//! between them with a weighted A* search over 8-directional moves.

use vstd::prelude::*;

pub mod grid_map;
pub mod path_finder;

verus! {

/// Number of columns of the grid.
pub const GRID_WIDTH: usize = 30;

/// Number of rows of the grid.
pub const GRID_HEIGHT: usize = 20;

/// Number of cells of the grid (row-major storage).
pub const GRID_AREA: usize = GRID_WIDTH * GRID_HEIGHT;

/// State of one grid cell. `Start` and `End` are each held by at most one
/// cell at a time; `Path` marks cells of the most recently computed route.
#[derive(Clone, Copy, Debug, PartialEq, Eq)]
pub enum CellState {
    Free,
    Occupied,
    Unknown,
    Start,
    End,
    Path,
}

/// A coordinate pair lies inside the grid.
pub open spec fn in_bounds(p: (usize, usize)) -> bool {
    p.0 < GRID_WIDTH && p.1 < GRID_HEIGHT
}

/// Row-major index of the cell at column `x`, row `y`.
pub open spec fn cell_index_spec(x: int, y: int) -> int {
    y * (GRID_WIDTH as int) + x
}

/// Absolute difference of two integers.
pub open spec fn dist1(u: int, v: int) -> int {
    if u >= v {
        u - v
    } else {
        v - u
    }
}

/// Two distinct coordinates that differ by at most one in each component:
/// one 8-connected move apart.
pub open spec fn adjacent8(a: (usize, usize), b: (usize, usize)) -> bool {
    &&& dist1(a.0 as int, b.0 as int) <= 1
    &&& dist1(a.1 as int, b.1 as int) <= 1
    &&& !(a.0 == b.0 && a.1 == b.1)
}

/// Row-major index of the cell at column `x`, row `y`.
pub fn cell_index(x: usize, y: usize) -> (i: usize)
    requires
        x < GRID_WIDTH,
        y < GRID_HEIGHT,
    ensures
        i == cell_index_spec(x as int, y as int),
        i < GRID_AREA,
{
    y * GRID_WIDTH + x
}

} // verus!
