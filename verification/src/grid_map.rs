//! The grid model: the authoritative cell array, the cursor, and the
//! start/end designations, with the state-transition protocol that keeps
//! at most one `Start` and at most one `End` cell at any time.

use vstd::assert_by_contradiction;
use vstd::prelude::*;

use crate::cell_index;
use crate::cell_index_spec;
use crate::in_bounds;
use crate::path_finder::find_path;
use crate::path_finder::lemma_path_cost_bounds;
use crate::path_finder::path_cost;
use crate::path_finder::valid_path;
use crate::CellState;
use crate::GRID_AREA;
use crate::GRID_HEIGHT;
use crate::GRID_WIDTH;

verus! {

/// Some route entry with position in `lo..hi` occupies the cell with
/// row-major index `j`.
pub open spec fn route_covers(p: Seq<(usize, usize)>, lo: int, hi: int, j: int) -> bool {
    exists|u: int| lo <= u < hi && cell_index_spec(p[u].0 as int, p[u].1 as int) == j
}

/// Grid `g1` is `g0` with the interior of route `pv` (every entry but the
/// first and last) written as `Path`: the interior cells hold `Path`, and
/// every cell not covered by the interior is unchanged.
pub open spec fn route_marked(g0: Seq<Cell>, g1: Seq<Cell>, pv: Seq<(usize, usize)>) -> bool {
    &&& forall|t: int|
        1 <= t < pv.len() - 1 ==> g1[cell_index_spec(
            (#[trigger] pv[t]).0 as int,
            pv[t].1 as int,
        )].state == CellState::Path
    &&& forall|j: int|
        0 <= j < GRID_AREA && !(#[trigger] route_covers(pv, 1, pv.len() - 1, j)) ==> g1[j]
            == g0[j]
}

/// The designation `pos` is consistent with the cells of `grid` holding
/// state `s`: a designated cell holds `s`, and every cell holding `s` is the
/// designated one — so at most one cell ever holds `s`.
pub open spec fn designation_ok(grid: Seq<Cell>, pos: Option<(usize, usize)>, s: CellState) -> bool {
    &&& match pos {
        Some(p) => in_bounds(p) && grid[cell_index_spec(p.0 as int, p.1 as int)].state == s,
        None => true,
    }
    &&& forall|x: int, y: int|
        0 <= x < GRID_WIDTH && 0 <= y < GRID_HEIGHT && grid[#[trigger] cell_index_spec(
            x,
            y,
        )].state == s ==> pos == Some((x as usize, y as usize))
}

/// One grid cell; it has no identity of its own beyond its position.
#[derive(Clone, Copy, Debug, PartialEq)]
pub struct Cell {
    pub state: CellState,
}

impl Cell {
    /// A fresh cell is `Free`.
    pub fn new() -> (c: Cell)
        ensures
            c.state == CellState::Free,
    {
        Cell { state: CellState::Free }
    }
}

/// The cycle applied by the primary action: `Free -> Occupied -> Unknown -> Free`;
/// endpoint and path cells are fixed points.
pub open spec fn primary_cycle(s: CellState) -> CellState {
    match s {
        CellState::Free => CellState::Occupied,
        CellState::Occupied => CellState::Unknown,
        CellState::Unknown => CellState::Free,
        _ => s,
    }
}

/// The grid model. The cell array is stored row-major; `current_cell_position`
/// is the coordinate most recently indicated by the input adapter.
pub struct GridMap {
    pub grid: Vec<Cell>,
    pub current_cell_position: (usize, usize),
    pub start_position: Option<(usize, usize)>,
    pub end_position: Option<(usize, usize)>,
}

impl GridMap {
    /// Well-formedness: the cell array has the fixed size, the cursor is in
    /// bounds, and the start/end designations are consistent and unique.
    pub open spec fn wf(self) -> bool {
        &&& self.grid@.len() == GRID_AREA
        &&& in_bounds(self.current_cell_position)
        &&& designation_ok(self.grid@, self.start_position, CellState::Start)
        &&& designation_ok(self.grid@, self.end_position, CellState::End)
    }

    /// The state produced by `new` and restored by `reset`: every cell `Free`,
    /// cursor at the origin, no endpoint designated.
    pub open spec fn is_initial(self) -> bool {
        &&& self.grid@.len() == GRID_AREA
        &&& forall|i: int| 0 <= i < GRID_AREA ==> self.grid@[i].state == CellState::Free
        &&& self.current_cell_position == (0usize, 0usize)
        &&& self.start_position is None
        &&& self.end_position is None
    }

    /// A grid of the configured dimensions with every cell `Free`, the cursor
    /// at the origin, and no start or end designation.
    pub fn new() -> (g: GridMap)
        ensures
            g.wf(),
            g.is_initial(),
    {
        let mut grid: Vec<Cell> = Vec::new();
        let mut i: usize = 0;
        while i < GRID_AREA
            invariant
                i <= GRID_AREA,
                grid@.len() == i,
                forall|j: int| 0 <= j < i ==> grid@[j].state == CellState::Free,
            decreases GRID_AREA - i,
        {
            grid.push(Cell::new());
            i = i + 1;
        }
        GridMap { grid, current_cell_position: (0, 0), start_position: None, end_position: None }
    }

    /// Restores the `new()` state in place: all cells `Free`, cursor at the
    /// origin, start and end designations cleared.
    pub fn reset(&mut self)
        ensures
            final (self).wf(),
            final (self).is_initial(),
    {
        *self = GridMap::new();
    }

    /// Records the coordinate most recently indicated by the input adapter.
    /// The caller supplies a coordinate already clamped to the grid bounds.
    pub fn set_cursor(&mut self, x: usize, y: usize)
        requires
            old(self).wf(),
            x < GRID_WIDTH,
            y < GRID_HEIGHT,
        ensures
            final (self).wf(),
            final (self).current_cell_position == (x, y),
            final (self).grid@ == old(self).grid@,
            final (self).start_position == old(self).start_position,
            final (self).end_position == old(self).end_position,
    {
        self.current_cell_position = (x, y);
    }

    /// The state of the cell at column `x`, row `y` (bounds-checked accessor).
    pub fn cell_state(&self, x: usize, y: usize) -> (s: CellState)
        requires
            self.grid@.len() == GRID_AREA,
            x < GRID_WIDTH,
            y < GRID_HEIGHT,
        ensures
            s == self.grid@[cell_index_spec(x as int, y as int)].state,
    {
        let i = cell_index(x, y);
        self.grid[i].state
    }

    /// Cycles the cell under the cursor through
    /// `Free -> Occupied -> Unknown -> Free`; a `Start`, `End` or `Path` cell
    /// is left unchanged. No other cell, nor any designation, is affected.
    pub fn primary_action(&mut self)
        requires
            old(self).wf(),
        ensures
            final (self).wf(),
            final (self).current_cell_position == old(self).current_cell_position,
            final (self).start_position == old(self).start_position,
            final (self).end_position == old(self).end_position,
            final (self).grid@.len() == old(self).grid@.len(),
            ({
                let ci = cell_index_spec(
                    old(self).current_cell_position.0 as int,
                    old(self).current_cell_position.1 as int,
                );
                &&& final (self).grid@[ci].state == primary_cycle(old(self).grid@[ci].state)
                &&& forall|j: int|
                    0 <= j < GRID_AREA && j != ci ==> final (self).grid@[j] == old(self).grid@[j]
            }),
    {
        let (cx, cy) = self.current_cell_position;
        let ci = cell_index(cx, cy);
        match self.grid[ci].state {
            CellState::Free => {
                self.grid[ci] = Cell { state: CellState::Occupied };
            },
            CellState::Occupied => {
                self.grid[ci] = Cell { state: CellState::Unknown };
            },
            CellState::Unknown => {
                self.grid[ci] = Cell { state: CellState::Free };
            },
            _ => {},
        }
    }

    /// Designates endpoints with the cell under the cursor:
    /// an `End` cell is demoted to `Unknown` and the end designation cleared;
    /// a `Start` cell slides to `End` (taking the end designation with it)
    /// when no end is designated yet; any other cell becomes `Start` if no
    /// start is designated, else `End` if no end is designated. When both
    /// endpoints are already placed the action has no effect — the user must
    /// clear one first.
    pub fn secondary_action(&mut self)
        requires
            old(self).wf(),
        ensures
            final (self).wf(),
            final (self).current_cell_position == old(self).current_cell_position,
            final (self).grid@.len() == old(self).grid@.len(),
            ({
                let p = old(self).current_cell_position;
                let ci = cell_index_spec(p.0 as int, p.1 as int);
                let s = old(self).grid@[ci].state;
                &&& forall|j: int|
                    0 <= j < GRID_AREA && j != ci ==> final (self).grid@[j] == old(self).grid@[j]
                &&& if s == CellState::End {
                    &&& final (self).grid@[ci].state == CellState::Unknown
                    &&& final (self).end_position is None
                    &&& final (self).start_position == old(self).start_position
                } else if s == CellState::Start {
                    if old(self).end_position is None {
                        &&& final (self).grid@[ci].state == CellState::End
                        &&& final (self).end_position == Some(p)
                        &&& final (self).start_position is None
                    } else {
                        &&& final (self).grid@[ci] == old(self).grid@[ci]
                        &&& final (self).start_position == old(self).start_position
                        &&& final (self).end_position == old(self).end_position
                    }
                } else if old(self).start_position is None {
                    &&& final (self).grid@[ci].state == CellState::Start
                    &&& final (self).start_position == Some(p)
                    &&& final (self).end_position == old(self).end_position
                } else if old(self).end_position is None {
                    &&& final (self).grid@[ci].state == CellState::End
                    &&& final (self).end_position == Some(p)
                    &&& final (self).start_position == old(self).start_position
                } else {
                    &&& final (self).grid@[ci] == old(self).grid@[ci]
                    &&& final (self).start_position == old(self).start_position
                    &&& final (self).end_position == old(self).end_position
                }
            }),
    {
        let (cx, cy) = self.current_cell_position;
        let ci = cell_index(cx, cy);
        match self.grid[ci].state {
            CellState::End => {
                self.grid[ci] = Cell { state: CellState::Unknown };
                self.end_position = None;
            },
            CellState::Start => {
                match self.end_position {
                    None => {
                        // Slide the unique start designation to an end
                        // designation in one action.
                        self.grid[ci] = Cell { state: CellState::End };
                        self.end_position = Some((cx, cy));
                        self.start_position = None;
                    },
                    Some(_) => {
                        // An end is already designated elsewhere; promoting
                        // this cell too would duplicate `End`.
                    },
                }
            },
            _ => {
                match self.start_position {
                    None => {
                        self.grid[ci] = Cell { state: CellState::Start };
                        self.start_position = Some((cx, cy));
                    },
                    Some(_) => {
                        match self.end_position {
                            None => {
                                self.grid[ci] = Cell { state: CellState::End };
                                self.end_position = Some((cx, cy));
                            },
                            Some(_) => {
                                // Both endpoints are placed; the user must
                                // clear one first.
                            },
                        }
                    },
                }
            },
        }
    }

    /// Runs the search when both a start and an end are designated — it then
    /// always finds a route, and the interior of the returned route (all
    /// cells but the two endpoints, which keep their `Start`/`End` states) is
    /// written as `Path`, with no other cell changed. When an endpoint is
    /// missing it does nothing and returns `None` without searching.
    pub fn solve(&mut self) -> (r: Option<Vec<(usize, usize)>>)
        requires
            old(self).wf(),
        ensures
            final (self).wf(),
            final (self).current_cell_position == old(self).current_cell_position,
            final (self).start_position == old(self).start_position,
            final (self).end_position == old(self).end_position,
            final (self).grid@.len() == GRID_AREA,
            old(self).start_position is None || old(self).end_position is None ==> r is None,
            old(self).start_position is Some && old(self).end_position is Some ==> r is Some,
            r is None ==> final (self).grid@ == old(self).grid@,
            r matches Some(path) ==> ({
                let s = old(self).start_position->0;
                let e = old(self).end_position->0;
                &&& old(self).start_position is Some
                &&& old(self).end_position is Some
                &&& valid_path(path@, s, e)
                &&& path@.len() - 1 <= path_cost(path@, old(self).grid@) <= 1400 * (path@.len()
                    - 1)
                &&& route_marked(old(self).grid@, final (self).grid@, path@)
            }),
    {
        let s = match self.start_position {
            Some(p) => p,
            None => {
                return None;
            },
        };
        let e = match self.end_position {
            Some(p) => p,
            None => {
                return None;
            },
        };
        proof {
            // The two designated cells hold different states, so they differ.
            assert(old(self).grid@[cell_index_spec(s.0 as int, s.1 as int)].state
                == CellState::Start);
            assert(old(self).grid@[cell_index_spec(e.0 as int, e.1 as int)].state
                == CellState::End);
            assert(s != e);
        }
        let path = match find_path(s, e, &self.grid) {
            Some(p) => p,
            None => {
                return None;
            },
        };
        proof {
            assert(path@.len() >= 2);
            lemma_path_cost_bounds(path@, self.grid@);
        }
        mark_route_cells(&mut self.grid, &path);
        proof {
            lemma_mark_route_post(old(self).grid@, self.grid@, path@, s, e);
        }
        Some(path)
    }

}

/// Writes the interior of a route (every entry but the first and the last)
/// as `Path` cells, in order.
fn mark_route_cells(grid: &mut Vec<Cell>, path: &Vec<(usize, usize)>)
    requires
        old(grid)@.len() == GRID_AREA,
        path@.len() >= 2,
        forall|u: int| 0 <= u < path@.len() ==> in_bounds(#[trigger] path@[u]),
    ensures
        final (grid)@ == marked_upto(old(grid)@, path@, path@.len() - 1),
{
    let n = path.len();
    let mut t: usize = 1;
    while t + 1 < n
        invariant
            n == path@.len(),
            1 <= t <= n - 1,
            grid@.len() == GRID_AREA,
            forall|u: int| 0 <= u < path@.len() ==> in_bounds(#[trigger] path@[u]),
            grid@ == marked_upto(old(grid)@, path@, t as int),
        decreases n - t,
    {
        let p = path[t];
        let ci = cell_index(p.0, p.1);
        grid[ci] = Cell { state: CellState::Path };
        t = t + 1;
    }
}

/// Marking the interior of a route as `Path` leaves the endpoint
/// designations consistent and unique: the route visits no cell twice, so
/// neither endpoint cell is overwritten, and a marked cell holds `Path`,
/// never `Start` or `End`.
proof fn lemma_mark_preserves_designations(
    gold: Seq<Cell>,
    gnew: Seq<Cell>,
    pv: Seq<(usize, usize)>,
    s: (usize, usize),
    e: (usize, usize),
)
    requires
        gold.len() == GRID_AREA,
        gnew.len() == GRID_AREA,
        designation_ok(gold, Some(s), CellState::Start),
        designation_ok(gold, Some(e), CellState::End),
        valid_path(pv, s, e),
        route_marked(gold, gnew, pv),
    ensures
        designation_ok(gnew, Some(s), CellState::Start),
        designation_ok(gnew, Some(e), CellState::End),
{
    let n = pv.len() as int;
    let s_ix = cell_index_spec(s.0 as int, s.1 as int);
    let e_ix = cell_index_spec(e.0 as int, e.1 as int);
    assert_by_contradiction!(!route_covers(pv, 1, n - 1, s_ix), {
        let u = choose|u: int|
            1 <= u < n - 1 && cell_index_spec(pv[u].0 as int, pv[u].1 as int) == s_ix;
        assert(in_bounds(pv[u]) && in_bounds(pv[0]));
        assert(pv[u].0 == s.0 && pv[u].1 == s.1);
        assert(pv[u] == pv[0]);
    });
    assert_by_contradiction!(!route_covers(pv, 1, n - 1, e_ix), {
        let u = choose|u: int|
            1 <= u < n - 1 && cell_index_spec(pv[u].0 as int, pv[u].1 as int) == e_ix;
        assert(in_bounds(pv[u]) && in_bounds(pv[n - 1]));
        assert(pv[u].0 == e.0 && pv[u].1 == e.1);
        assert(pv[u] == pv[n - 1]);
    });
    assert(gnew[s_ix].state == CellState::Start);
    assert(gnew[e_ix].state == CellState::End);
    assert forall|x: int, y: int|
        0 <= x < GRID_WIDTH && 0 <= y < GRID_HEIGHT && gnew[#[trigger] cell_index_spec(
            x,
            y,
        )].state == CellState::Start implies Some((x as usize, y as usize)) == Some(s) by {
        let j = cell_index_spec(x, y);
        if route_covers(pv, 1, n - 1, j) {
            let u = choose|u: int|
                1 <= u < n - 1 && cell_index_spec(pv[u].0 as int, pv[u].1 as int) == j;
            assert(gnew[j].state == CellState::Path);
        } else {
            assert(gnew[j] == gold[j]);
        }
    }
    assert forall|x: int, y: int|
        0 <= x < GRID_WIDTH && 0 <= y < GRID_HEIGHT && gnew[#[trigger] cell_index_spec(
            x,
            y,
        )].state == CellState::End implies Some((x as usize, y as usize)) == Some(e) by {
        let j = cell_index_spec(x, y);
        if route_covers(pv, 1, n - 1, j) {
            let u = choose|u: int|
                1 <= u < n - 1 && cell_index_spec(pv[u].0 as int, pv[u].1 as int) == j;
            assert(gnew[j].state == CellState::Path);
        } else {
            assert(gnew[j] == gold[j]);
        }
    }
}

/// After the interior of a valid route is written as `Path`, the grid keeps
/// its size, the marked cells hold `Path`, every other cell is unchanged,
/// and the endpoint designations stay consistent and unique.
proof fn lemma_mark_route_post(
    g0: Seq<Cell>,
    g1: Seq<Cell>,
    pv: Seq<(usize, usize)>,
    s: (usize, usize),
    e: (usize, usize),
)
    requires
        g0.len() == GRID_AREA,
        designation_ok(g0, Some(s), CellState::Start),
        designation_ok(g0, Some(e), CellState::End),
        valid_path(pv, s, e),
        pv.len() >= 2,
        g1 == marked_upto(g0, pv, pv.len() - 1),
    ensures
        g1.len() == GRID_AREA,
        designation_ok(g1, Some(s), CellState::Start),
        designation_ok(g1, Some(e), CellState::End),
        route_marked(g0, g1, pv),
{
    lemma_marked_upto_props(g0, pv, pv.len() - 1);
    assert(route_marked(g0, g1, pv));
    lemma_mark_preserves_designations(g0, g1, pv, s, e);
}

/// The grid after the route entries with positions `1..t` have been written
/// as `Path` cells, in order.
spec fn marked_upto(g: Seq<Cell>, p: Seq<(usize, usize)>, t: int) -> Seq<Cell>
    decreases t,
{
    if t <= 1 {
        g
    } else {
        marked_upto(g, p, t - 1).update(
            cell_index_spec(p[t - 1].0 as int, p[t - 1].1 as int),
            Cell { state: CellState::Path },
        )
    }
}

/// After marking the route entries with positions `1..t`, those cells hold
/// `Path` and every other cell is unchanged.
proof fn lemma_marked_upto_props(g: Seq<Cell>, p: Seq<(usize, usize)>, t: int)
    requires
        g.len() == GRID_AREA,
        1 <= t <= p.len(),
        forall|u: int| 0 <= u < p.len() ==> in_bounds(#[trigger] p[u]),
    ensures
        marked_upto(g, p, t).len() == g.len(),
        forall|u: int|
            1 <= u < t ==> marked_upto(g, p, t)[cell_index_spec(
                (#[trigger] p[u]).0 as int,
                p[u].1 as int,
            )].state == CellState::Path,
        forall|j: int|
            0 <= j < GRID_AREA && !(#[trigger] route_covers(p, 1, t, j)) ==> marked_upto(
                g,
                p,
                t,
            )[j] == g[j],
    decreases t,
{
    if t > 1 {
        lemma_marked_upto_props(g, p, t - 1);
        let m1 = marked_upto(g, p, t - 1);
        let ci = cell_index_spec(p[t - 1].0 as int, p[t - 1].1 as int);
        let m = m1.update(ci, Cell { state: CellState::Path });
        assert(0 <= ci < GRID_AREA);
        assert forall|j: int|
            0 <= j < GRID_AREA && !(#[trigger] route_covers(p, 1, t, j)) implies m[j] == g[j] by {
            assert(1 <= t - 1 < t);
            assert(!route_covers(p, 1, t - 1, j));
            assert(j != ci);
        }
    }
}

/// Law: a grid after `reset` and a freshly constructed grid agree on every
/// query — every cell is `Free`, the cursor is at the origin, and no start
/// or end is designated.
pub proof fn lemma_reset_matches_new(a: GridMap, b: GridMap)
    requires
        a.is_initial(),
        b.is_initial(),
    ensures
        a.grid@ =~= b.grid@,
        a.current_cell_position == b.current_cell_position,
        a.start_position == b.start_position,
        a.end_position == b.end_position,
{
    assert forall|i: int| 0 <= i < GRID_AREA implies a.grid@[i] == b.grid@[i] by {
        assert(a.grid@[i].state == CellState::Free);
        assert(b.grid@[i].state == CellState::Free);
    }
}

/// Law: applying the primary cycle three times returns every cell state to
/// itself, and `Start`, `End` and `Path` cells are fixed points of one
/// application.
pub proof fn lemma_primary_cycle_closure(s: CellState)
    ensures
        primary_cycle(primary_cycle(primary_cycle(s))) == s,
        (s == CellState::Start || s == CellState::End || s == CellState::Path) ==> primary_cycle(s)
            == s,
{
}

/// Law: a well-formed grid holds at most one `Start` cell and at most one
/// `End` cell. Every operation of the model preserves well-formedness, so
/// this holds after any sequence of actions.
pub proof fn lemma_endpoints_unique(g: GridMap, x1: int, y1: int, x2: int, y2: int)
    requires
        g.wf(),
        0 <= x1 < GRID_WIDTH,
        0 <= y1 < GRID_HEIGHT,
        0 <= x2 < GRID_WIDTH,
        0 <= y2 < GRID_HEIGHT,
        g.grid@[cell_index_spec(x1, y1)].state == g.grid@[cell_index_spec(x2, y2)].state,
        g.grid@[cell_index_spec(x1, y1)].state == CellState::Start || g.grid@[cell_index_spec(
            x1,
            y1,
        )].state == CellState::End,
    ensures
        x1 == x2 && y1 == y2,
{
}

} // verus!

