//! Weighted A* search over the grid: 8-directional moves, terrain costs
//! derived from the state of the cell being left, diagonal moves scaled by
//! the integer approximation 14/10 of sqrt(2), and a Manhattan-distance
//! heuristic.

use vstd::prelude::*;

use crate::adjacent8;
use crate::cell_index;
use crate::cell_index_spec;
use crate::dist1;
use crate::grid_map::Cell;
use crate::in_bounds;
use crate::CellState;
use crate::GRID_AREA;
use crate::GRID_HEIGHT;
use crate::GRID_WIDTH;

verus! {

/// Sentinel g-score: strictly larger than the cost of any route the search
/// can record (at most `GRID_AREA` relaxations, each adding at most 1400).
pub const INFINITY: usize = 1_000_000;

/// Manhattan distance between two cells.
pub open spec fn manhattan(a: (usize, usize), b: (usize, usize)) -> int {
    dist1(a.0 as int, b.0 as int) + dist1(a.1 as int, b.1 as int)
}

/// Traversal cost of leaving a cell in state `s` by an orthogonal move.
/// `Occupied` (and endpoint) cells are a steep deterrent, not a wall.
pub open spec fn base_cost(s: CellState) -> int {
    match s {
        CellState::Free => 1,
        CellState::Unknown => 5,
        CellState::Path => 50,
        _ => 1000,
    }
}

/// Both coordinates change: the move is diagonal.
pub open spec fn is_diagonal(from: (usize, usize), to: (usize, usize)) -> bool {
    dist1(from.0 as int, to.0 as int) == 1 && dist1(from.1 as int, to.1 as int) == 1
}

/// Cost of moving from `from` to an adjacent cell `to`: the base cost of the
/// state of `from`, scaled by 14/10 (integer division) for a diagonal move.
pub open spec fn move_cost(from: (usize, usize), to: (usize, usize), grid: Seq<Cell>) -> int {
    let base = base_cost(grid[cell_index_spec(from.0 as int, from.1 as int)].state);
    if is_diagonal(from, to) {
        base * 14 / 10
    } else {
        base
    }
}

/// A sequence of cells is a path from `start` to `end`: it begins at `start`,
/// ends at `end`, stays in bounds, advances by 8-connected moves, and never
/// revisits a cell.
pub open spec fn valid_path(p: Seq<(usize, usize)>, start: (usize, usize), end: (usize, usize)) -> bool {
    &&& p.len() >= 1
    &&& p[0] == start
    &&& p[p.len() - 1] == end
    &&& forall|i: int| 0 <= i < p.len() ==> in_bounds(#[trigger] p[i])
    &&& forall|i: int| 0 <= i < p.len() - 1 ==> adjacent8(#[trigger] p[i], p[i + 1])
    &&& forall|i: int, j: int| 0 <= i < j < p.len() ==> p[i] != p[j]
}

/// Total cost of a route: the sum of the move costs of its consecutive
/// steps. Minimality of a returned route is deliberately not claimed: the
/// Manhattan heuristic is not admissible once diagonal moves are discounted
/// to 14/10 of the base cost, so the search is only approximately optimal.
pub open spec fn path_cost(p: Seq<(usize, usize)>, grid: Seq<Cell>) -> int
    decreases p.len(),
{
    if p.len() <= 1 {
        0
    } else {
        move_cost(p[0], p[1], grid) + path_cost(p.drop_first(), grid)
    }
}

/// Law: every step of an in-bounds route costs between 1 and 1400, so a
/// route's total cost is bounded on both sides by its step count.
pub proof fn lemma_path_cost_bounds(p: Seq<(usize, usize)>, grid: Seq<Cell>)
    requires
        grid.len() == GRID_AREA,
        forall|i: int| 0 <= i < p.len() ==> in_bounds(#[trigger] p[i]),
        p.len() >= 1,
    ensures
        p.len() - 1 <= path_cost(p, grid) <= 1400 * (p.len() - 1),
    decreases p.len(),
{
    if p.len() > 1 {
        assert forall|i: int| 0 <= i < p.drop_first().len() implies in_bounds(
            #[trigger] p.drop_first()[i],
        ) by {
            assert(p.drop_first()[i] == p[i + 1]);
        }
        lemma_path_cost_bounds(p.drop_first(), grid);
        let s = grid[cell_index_spec(p[0].0 as int, p[0].1 as int)].state;
        assert(base_cost(s) == 1 || base_cost(s) == 5 || base_cost(s) == 50 || base_cost(s)
            == 1000);
        assert(1 <= move_cost(p[0], p[1], grid) <= 1400);
    }
}

/// Manhattan distance between cells `a` and `b`, the search heuristic.
pub fn heuristic(a: (usize, usize), b: (usize, usize)) -> (h: usize)
    requires
        in_bounds(a),
        in_bounds(b),
    ensures
        h == manhattan(a, b),
{
    let dx = if a.0 > b.0 {
        a.0 - b.0
    } else {
        b.0 - a.0
    };
    let dy = if a.1 > b.1 {
        a.1 - b.1
    } else {
        b.1 - a.1
    };
    dx + dy
}

/// Cost of moving from cell `from` to the adjacent cell `to` on the given
/// grid snapshot.
pub fn cost(from: (usize, usize), to: (usize, usize), grid: &Vec<Cell>) -> (c: usize)
    requires
        grid@.len() == GRID_AREA,
        in_bounds(from),
        in_bounds(to),
    ensures
        c == move_cost(from, to, grid@),
        1 <= c <= 1400,
{
    let dx = if from.0 > to.0 {
        from.0 - to.0
    } else {
        to.0 - from.0
    };
    let dy = if from.1 > to.1 {
        from.1 - to.1
    } else {
        to.1 - from.1
    };
    let diagonal = dx == 1 && dy == 1;
    let i = cell_index(from.0, from.1);
    let base: usize = match grid[i].state {
        CellState::Free => 1,
        CellState::Unknown => 5,
        CellState::Path => 50,
        _ => 1000,
    };
    if diagonal {
        base * 14 / 10
    } else {
        base
    }
}

/// One entry of the open set: a cell together with its f-score (priority)
/// and g-score at the time it was pushed.
#[derive(Clone, Copy, Debug, PartialEq, Eq)]
pub struct Node {
    x: usize,
    y: usize,
    f: usize,
    g: usize,
}

/// Removes and returns an entry with the least f-score. Among equal
/// f-scores the earliest-pushed entry wins, so the search is deterministic.
fn pop_min(open: &mut Vec<Node>) -> (r: Node)
    requires
        old(open)@.len() >= 1,
    ensures
        final (open)@.len() == old(open)@.len() - 1,
        exists|k: int|
            0 <= k < old(open)@.len() && r == #[trigger] old(open)@[k] && final (open)@ == old(
                open,
            )@.remove(k),
        forall|j: int|
            0 <= j < final (open)@.len() ==> exists|k: int|
                0 <= k < old(open)@.len() && #[trigger] final (open)@[j] == old(open)@[k],
        forall|j: int| 0 <= j < old(open)@.len() ==> r.f <= (#[trigger] old(open)@[j]).f,
{
    let mut best: usize = 0;
    let mut i: usize = 1;
    while i < open.len()
        invariant
            open@ == old(open)@,
            1 <= i <= open@.len(),
            best < i,
            forall|j: int| 0 <= j < i ==> open@[best as int].f <= (#[trigger] open@[j]).f,
        decreases open@.len() - i,
    {
        if open[i].f < open[best].f {
            best = i;
        }
        i = i + 1;
    }
    let r = open.remove(best);
    proof {
        old(open)@.remove_ensures(best as int);
        assert(r == old(open)@[best as int]);
        assert(open@ == old(open)@.remove(best as int));
        assert forall|j: int| 0 <= j < open@.len() implies exists|k: int|
            0 <= k < old(open)@.len() && #[trigger] open@[j] == old(open)@[k] by {
            if j < best {
                assert(open@[j] == old(open)@[j]);
            } else {
                assert(open@[j] == old(open)@[j + 1]);
            }
        }
    }
    r
}

/// Sum of a sequence of scores; the termination measure of the search.
spec fn sum_of(s: Seq<usize>) -> nat
    decreases s.len(),
{
    if s.len() == 0 {
        0
    } else {
        (s[0] + sum_of(s.drop_first())) as nat
    }
}

/// Replacing one element changes the sum by the difference of the elements.
proof fn lemma_sum_update(s: Seq<usize>, i: int, v: usize)
    requires
        0 <= i < s.len(),
    ensures
        sum_of(s.update(i, v)) == sum_of(s) - s[i] + v,
    decreases s.len(),
{
    if i == 0 {
        assert(s.update(0, v).drop_first() =~= s.drop_first());
        assert(s.update(0, v)[0] == v);
    } else {
        lemma_sum_update(s.drop_first(), i - 1, v);
        assert(s.update(i, v).drop_first() =~= s.drop_first().update(i - 1, v));
        assert(s.update(i, v)[0] == s[0]);
    }
}

/// The g-score recorded for cell `p`.
spec fn g_at(g: Seq<usize>, p: (usize, usize)) -> usize {
    g[cell_index_spec(p.0 as int, p.1 as int)]
}

/// The recorded predecessor of cell `(x, y)` is in bounds, adjacent, and has
/// a strictly smaller g-score — so predecessor chains descend to `start`.
spec fn pred_ok(came_from: Seq<(usize, usize)>, g: Seq<usize>, x: int, y: int) -> bool {
    let p = came_from[cell_index_spec(x, y)];
    &&& in_bounds(p)
    &&& adjacent8(p, (x as usize, y as usize))
    &&& g_at(g, p) < g[cell_index_spec(x, y)]
}

/// An open-set entry names an in-bounds cell whose g-score is settled
/// (below the sentinel).
spec fn node_ok(n: Node, g: Seq<usize>) -> bool {
    &&& n.x < GRID_WIDTH
    &&& n.y < GRID_HEIGHT
    &&& g[cell_index_spec(n.x as int, n.y as int)] < INFINITY
}

/// The search state invariant: score and back-pointer tables cover the grid,
/// all g-scores are at most the sentinel, the start cell is settled at 0, the
/// open set names settled cells, and every settled cell other than the start
/// has a valid back-pointer with a strictly smaller g-score.
spec fn search_inv(
    open: Seq<Node>,
    came_from: Seq<(usize, usize)>,
    g: Seq<usize>,
    f: Seq<usize>,
    start: (usize, usize),
) -> bool {
    &&& g.len() == GRID_AREA
    &&& f.len() == GRID_AREA
    &&& came_from.len() == GRID_AREA
    &&& forall|j: int| 0 <= j < GRID_AREA ==> g[j] <= INFINITY
    &&& g[cell_index_spec(start.0 as int, start.1 as int)] == 0
    &&& forall|k: int| 0 <= k < open.len() ==> node_ok(#[trigger] open[k], g)
    &&& forall|x: int, y: int|
        0 <= x < GRID_WIDTH && 0 <= y < GRID_HEIGHT && !(x == start.0 as int && y
            == start.1 as int) && g[#[trigger] cell_index_spec(x, y)] < INFINITY ==> pred_ok(
            came_from,
            g,
            x,
            y,
        )
}

/// Some open-set entry names the cell with row-major index `j`.
spec fn queued_at(open: Seq<Node>, j: int) -> bool {
    exists|k: int|
        0 <= k < open.len() && cell_index_spec((#[trigger] open[k]).x as int, open[k].y as int)
            == j
}

/// The neighbour of `c` displaced by `(dii - 1, djj - 1)`, when it lies in
/// bounds, is recorded no more expensive than one move through `c`.
spec fn neighbor_relaxed(g: Seq<usize>, grid: Seq<Cell>, c: (usize, usize), dii: int, djj: int) -> bool {
    let nx = c.0 + dii - 1;
    let ny = c.1 + djj - 1;
    0 <= nx < GRID_WIDTH && 0 <= ny < GRID_HEIGHT ==> g[cell_index_spec(nx, ny)]
        <= g[cell_index_spec(c.0 as int, c.1 as int)] + move_cost(
        c,
        ((nx) as usize, (ny) as usize),
        grid,
    )
}

/// Every 8-connected neighbour of `c` is recorded no more expensive than one
/// move through `c`: the cell has been fully expanded at its current g-score.
spec fn cell_expanded(g: Seq<usize>, grid: Seq<Cell>, c: (usize, usize)) -> bool {
    forall|dii: int, djj: int|
        0 <= dii < 3 && 0 <= djj < 3 && !(dii == 1 && djj == 1) ==> neighbor_relaxed(
            g,
            grid,
            c,
            dii,
            djj,
        )
}

/// While the search runs, every settled cell still owes work or has done it:
/// it keeps an entry in the open set or has been fully expanded. The target
/// is never expanded (popping it ends the search), so once settled it always
/// keeps an entry — an empty open set therefore means the target was never
/// settled, which the grid's full connectivity rules out.
spec fn frontier_inv(open: Seq<Node>, g: Seq<usize>, grid: Seq<Cell>, end: (usize, usize)) -> bool {
    &&& forall|x: int, y: int|
        0 <= x < GRID_WIDTH && 0 <= y < GRID_HEIGHT && !(x == end.0 as int && y == end.1 as int)
            && g[#[trigger] cell_index_spec(x, y)] < INFINITY ==> queued_at(
            open,
            cell_index_spec(x, y),
        ) || cell_expanded(g, grid, ((x) as usize, (y) as usize))
    &&& (g[cell_index_spec(end.0 as int, end.1 as int)] < INFINITY ==> queued_at(
        open,
        cell_index_spec(end.0 as int, end.1 as int),
    ))
}

/// One relaxation step of the search: if reaching `nxt` through `cur` is
/// strictly cheaper than the g-score recorded for `nxt`, record the new
/// g-score, f-score and back-pointer and push `nxt` into the open set.
#[verifier::rlimit(100)]
fn relax(
    grid: &Vec<Cell>,
    open_set: &mut Vec<Node>,
    came_from: &mut Vec<(usize, usize)>,
    g_score: &mut Vec<usize>,
    f_score: &mut Vec<usize>,
    cur: (usize, usize),
    nxt: (usize, usize),
    start: (usize, usize),
    end: (usize, usize),
)
    requires
        grid@.len() == GRID_AREA,
        search_inv(old(open_set)@, old(came_from)@, old(g_score)@, old(f_score)@, start),
        in_bounds(start),
        in_bounds(end),
        in_bounds(cur),
        in_bounds(nxt),
        adjacent8(cur, nxt),
        g_at(old(g_score)@, cur) < INFINITY,
    ensures
        search_inv(final (open_set)@, final (came_from)@, final (g_score)@, final (f_score)@, start),
        forall|j: int| 0 <= j < GRID_AREA ==> final (g_score)@[j] <= old(g_score)@[j],
        sum_of(final (g_score)@) <= sum_of(old(g_score)@),
        final (open_set)@.len() <= old(open_set)@.len() + 1,
        final (open_set)@.len() != old(open_set)@.len() ==> sum_of(final (g_score)@) < sum_of(
            old(g_score)@,
        ),
        g_at(final (g_score)@, cur) == g_at(old(g_score)@, cur),
        forall|j: int|
            0 <= j < GRID_AREA && final (g_score)@[j] != old(g_score)@[j] ==> queued_at(
                final (open_set)@,
                j,
            ),
        g_at(final (g_score)@, nxt) <= g_at(old(g_score)@, cur) + move_cost(cur, nxt, grid@),
        old(open_set)@.len() <= final (open_set)@.len(),
        forall|k: int|
            0 <= k < old(open_set)@.len() ==> #[trigger] final (open_set)@[k] == old(open_set)@[k],
{
    let ci = cell_index(cur.0, cur.1);
    let ni = cell_index(nxt.0, nxt.1);
    let step = cost(cur, nxt, grid);
    let tentative = g_score[ci] + step;
    if tentative < g_score[ni] {
        came_from[ni] = cur;
        proof {
            lemma_sum_update(g_score@, ni as int, tentative);
        }
        g_score[ni] = tentative;
        let fv = tentative + heuristic(nxt, end);
        f_score[ni] = fv;
        open_set.push(Node { x: nxt.0, y: nxt.1, f: fv, g: tentative });
        proof {
            let last = open_set@.len() - 1;
            assert(cell_index_spec(open_set@[last].x as int, open_set@[last].y as int)
                == ni as int);
            assert(queued_at(open_set@, ni as int));
            assert(ni != ci);
            let g0 = old(g_score)@;
            let g1 = g_score@;
            assert(g1 == g0.update(ni as int, tentative));
            assert forall|x: int, y: int|
                0 <= x < GRID_WIDTH && 0 <= y < GRID_HEIGHT && !(x == start.0 as int && y
                    == start.1 as int) && g1[#[trigger] cell_index_spec(x, y)]
                < INFINITY implies pred_ok(came_from@, g1, x, y) by {
                let ii = cell_index_spec(x, y);
                if ii == ni as int {
                    assert(x == nxt.0 as int && y == nxt.1 as int);
                    assert(came_from@[ii] == cur);
                    assert(g_at(g1, cur) <= g_at(g0, cur));
                    assert(g_at(g0, cur) == g0[ci as int]);
                    assert(step >= 1);
                } else {
                    assert(g0[ii] < INFINITY);
                    assert(pred_ok(old(came_from)@, g0, x, y));
                    let p = old(came_from)@[ii];
                    assert(came_from@[ii] == p);
                    assert(g_at(g1, p) <= g_at(g0, p));
                }
            }
        }
    }
}

/// Strictly descending g-scores along consecutive entries of a sequence give
/// a strict descent between any earlier and later entry.
proof fn lemma_desc_between(p: Seq<(usize, usize)>, g: Seq<usize>, i: int, j: int)
    requires
        forall|k: int| 0 <= k < p.len() - 1 ==> g_at(g, p[k + 1]) < g_at(g, #[trigger] p[k]),
        0 <= i < j < p.len(),
    ensures
        g_at(g, p[j]) < g_at(g, p[i]),
    decreases j - i,
{
    if j > i + 1 {
        lemma_desc_between(p, g, i, j - 1);
    }
}

/// Walks the back-pointers from `end` to `start` and returns the route in
/// start-to-end order. The strictly descending g-scores along back-pointers
/// bound the walk and rule out revisiting a cell.
#[verifier::rlimit(50)]
fn reconstruct(
    came_from: &Vec<(usize, usize)>,
    g_score: &Vec<usize>,
    start: (usize, usize),
    end: (usize, usize),
) -> (r: Vec<(usize, usize)>)
    requires
        came_from@.len() == GRID_AREA,
        g_score@.len() == GRID_AREA,
        in_bounds(start),
        in_bounds(end),
        g_score@[cell_index_spec(end.0 as int, end.1 as int)] < INFINITY,
        forall|x: int, y: int|
            0 <= x < GRID_WIDTH && 0 <= y < GRID_HEIGHT && !(x == start.0 as int && y
                == start.1 as int) && g_score@[#[trigger] cell_index_spec(x, y)] < INFINITY
                ==> pred_ok(came_from@, g_score@, x, y),
    ensures
        valid_path(r@, start, end),
{
    let mut path: Vec<(usize, usize)> = Vec::new();
    path.push((end.0, end.1));
    let mut cx = end.0;
    let mut cy = end.1;
    while !(cx == start.0 && cy == start.1)
        invariant
            came_from@.len() == GRID_AREA,
            g_score@.len() == GRID_AREA,
            in_bounds(start),
            in_bounds(end),
            forall|x: int, y: int|
                0 <= x < GRID_WIDTH && 0 <= y < GRID_HEIGHT && !(x == start.0 as int && y
                    == start.1 as int) && g_score@[#[trigger] cell_index_spec(x, y)] < INFINITY
                    ==> pred_ok(came_from@, g_score@, x, y),
            cx < GRID_WIDTH,
            cy < GRID_HEIGHT,
            g_score@[cell_index_spec(cx as int, cy as int)] < INFINITY,
            path@.len() >= 1,
            path@[0] == end,
            path@[path@.len() - 1] == (cx, cy),
            forall|t: int| 0 <= t < path@.len() ==> in_bounds(#[trigger] path@[t]),
            forall|t: int|
                0 <= t < path@.len() - 1 ==> adjacent8(#[trigger] path@[t], path@[t + 1]),
            forall|t: int|
                0 <= t < path@.len() - 1 ==> g_at(g_score@, path@[t + 1]) < g_at(
                    g_score@,
                    #[trigger] path@[t],
                ),
        decreases g_score@[cell_index_spec(cx as int, cy as int)],
    {
        let ci = cell_index(cx, cy);
        proof {
            assert(pred_ok(came_from@, g_score@, cx as int, cy as int));
        }
        let p = came_from[ci];
        path.push(p);
        cx = p.0;
        cy = p.1;
    }
    let mut route: Vec<(usize, usize)> = Vec::new();
    let mut k = path.len();
    while k > 0
        invariant
            k <= path@.len(),
            route@.len() == path@.len() - k,
            forall|j: int|
                0 <= j < route@.len() ==> #[trigger] route@[j] == path@[path@.len() - 1 - j],
        decreases k,
    {
        k = k - 1;
        let q = path[k];
        route.push(q);
    }
    proof {
        let pv = path@;
        let rv = route@;
        let n = pv.len() as int;
        assert(rv[0] == pv[n - 1]);
        assert(rv[n - 1] == pv[0]);
        assert forall|t: int| 0 <= t < n implies in_bounds(#[trigger] rv[t]) by {
            assert(rv[t] == pv[n - 1 - t]);
        }
        assert forall|t: int| 0 <= t < n - 1 implies adjacent8(#[trigger] rv[t], rv[t + 1]) by {
            assert(rv[t] == pv[n - 1 - t]);
            assert(rv[t + 1] == pv[n - 2 - t]);
            assert(adjacent8(pv[n - 2 - t], pv[n - 1 - t]));
        }
        assert forall|t: int, u: int| 0 <= t < u < n implies rv[t] != rv[u] by {
            assert(rv[t] == pv[n - 1 - t]);
            assert(rv[u] == pv[n - 1 - u]);
            lemma_desc_between(pv, g_score@, n - 1 - u, n - 1 - t);
        }
        assert(valid_path(rv, start, end));
    }
    route
}

/// Relaxes all 8-connected neighbours of `cur`. Any push into the open set
/// strictly lowers the sum of g-scores, which bounds the whole search; the
/// open set only grows, any cell whose score fell gains an entry, and `cur`
/// ends fully expanded at its unchanged g-score.
#[verifier::loop_isolation(false)]
#[verifier::rlimit(100)]
fn expand(
    grid: &Vec<Cell>,
    open_set: &mut Vec<Node>,
    came_from: &mut Vec<(usize, usize)>,
    g_score: &mut Vec<usize>,
    f_score: &mut Vec<usize>,
    cur: (usize, usize),
    start: (usize, usize),
    end: (usize, usize),
)
    requires
        grid@.len() == GRID_AREA,
        search_inv(old(open_set)@, old(came_from)@, old(g_score)@, old(f_score)@, start),
        in_bounds(start),
        in_bounds(end),
        in_bounds(cur),
        g_at(old(g_score)@, cur) < INFINITY,
    ensures
        search_inv(final (open_set)@, final (came_from)@, final (g_score)@, final (f_score)@, start),
        sum_of(final (g_score)@) < sum_of(old(g_score)@) || (sum_of(final (g_score)@) == sum_of(
            old(g_score)@,
        ) && final (open_set)@.len() <= old(open_set)@.len()),
        g_at(final (g_score)@, cur) == g_at(old(g_score)@, cur),
        forall|j: int| 0 <= j < GRID_AREA ==> final (g_score)@[j] <= old(g_score)@[j],
        old(open_set)@.len() <= final (open_set)@.len(),
        forall|k: int|
            0 <= k < old(open_set)@.len() ==> #[trigger] final (open_set)@[k] == old(open_set)@[k],
        forall|j: int|
            0 <= j < GRID_AREA && final (g_score)@[j] != old(g_score)@[j] ==> queued_at(
                final (open_set)@,
                j,
            ),
        cell_expanded(final (g_score)@, grid@, cur),
{
    let mut di: usize = 0;
    while di < 3
        invariant
            di <= 3,
            search_inv(open_set@, came_from@, g_score@, f_score@, start),
            g_at(g_score@, cur) < INFINITY,
            sum_of(g_score@) < sum_of(old(g_score)@) || (sum_of(g_score@) == sum_of(old(g_score)@)
                && open_set@.len() <= old(open_set)@.len()),
            g_at(g_score@, cur) == g_at(old(g_score)@, cur),
            forall|j: int| 0 <= j < GRID_AREA ==> g_score@[j] <= old(g_score)@[j],
            old(open_set)@.len() <= open_set@.len(),
            forall|k: int|
                0 <= k < old(open_set)@.len() ==> #[trigger] open_set@[k] == old(open_set)@[k],
            forall|j: int|
                0 <= j < GRID_AREA && g_score@[j] != old(g_score)@[j] ==> queued_at(open_set@, j),
            forall|dii: int, djj: int|
                0 <= dii < di && 0 <= djj < 3 && !(dii == 1 && djj == 1) ==> neighbor_relaxed(
                    g_score@,
                    grid@,
                    cur,
                    dii,
                    djj,
                ),
        decreases 3 - di,
    {
        let mut dj: usize = 0;
        while dj < 3
            invariant
                dj <= 3,
                search_inv(open_set@, came_from@, g_score@, f_score@, start),
                g_at(g_score@, cur) < INFINITY,
                sum_of(g_score@) < sum_of(old(g_score)@) || (sum_of(g_score@) == sum_of(
                    old(g_score)@,
                ) && open_set@.len() <= old(open_set)@.len()),
                g_at(g_score@, cur) == g_at(old(g_score)@, cur),
                forall|j: int| 0 <= j < GRID_AREA ==> g_score@[j] <= old(g_score)@[j],
                old(open_set)@.len() <= open_set@.len(),
                forall|k: int|
                    0 <= k < old(open_set)@.len() ==> #[trigger] open_set@[k] == old(open_set)@[k],
                forall|j: int|
                    0 <= j < GRID_AREA && g_score@[j] != old(g_score)@[j] ==> queued_at(
                        open_set@,
                        j,
                    ),
                forall|dii: int, djj: int|
                    0 <= dii < 3 && 0 <= djj < 3 && !(dii == 1 && djj == 1) && (dii < di || (dii
                        == di && djj < dj)) ==> neighbor_relaxed(g_score@, grid@, cur, dii, djj),
            decreases 3 - dj,
        {
            if !(di == 1 && dj == 1) {
                let sx = cur.0 + di;
                let sy = cur.1 + dj;
                if sx >= 1 && sx <= GRID_WIDTH && sy >= 1 && sy <= GRID_HEIGHT {
                    let nxt = (sx - 1, sy - 1);
                    proof {
                        assert(adjacent8(cur, nxt));
                    }
                    let ghost open_before = open_set@;
                    let ghost g_before = g_score@;
                    relax(grid, open_set, came_from, g_score, f_score, cur, nxt, start, end);
                    proof {
                        let ni = cell_index_spec(nxt.0 as int, nxt.1 as int);
                        assert forall|j: int|
                            0 <= j < GRID_AREA && g_score@[j] != old(g_score)@[j] implies queued_at(
                            open_set@,
                            j,
                        ) by {
                            if g_score@[j] != g_before[j] {
                                assert(queued_at(open_set@, j));
                            } else {
                                let kq = choose|k: int|
                                    0 <= k < open_before.len() && cell_index_spec(
                                        (#[trigger] open_before[k]).x as int,
                                        open_before[k].y as int,
                                    ) == j;
                                assert(open_set@[kq] == open_before[kq]);
                                assert(queued_at(open_set@, j));
                            }
                        }
                        assert forall|dii: int, djj: int|
                            0 <= dii < 3 && 0 <= djj < 3 && !(dii == 1 && djj == 1) && (dii < di
                                || (dii == di && djj < dj + 1)) implies neighbor_relaxed(
                            g_score@,
                            grid@,
                            cur,
                            dii,
                            djj,
                        ) by {
                            if dii == di as int && djj == dj as int {
                                assert(cur.0 + dii - 1 == nxt.0 as int);
                                assert(cur.1 + djj - 1 == nxt.1 as int);
                                assert(g_at(g_score@, nxt) <= g_at(g_before, cur) + move_cost(
                                    cur,
                                    nxt,
                                    grid@,
                                ));
                            } else {
                                assert(neighbor_relaxed(g_before, grid@, cur, dii, djj));
                            }
                        }
                    }
                } else {
                    proof {
                        assert(neighbor_relaxed(g_score@, grid@, cur, di as int, dj as int));
                    }
                }
            }
            dj = dj + 1;
        }
        di = di + 1;
    }
}

/// Chebyshev distance from `(cx, cy)` to `end`: the number of 8-connected
/// moves a straight walk needs.
spec fn cheb(cx: int, cy: int, end: (usize, usize)) -> int {
    let dx = dist1(cx, end.0 as int);
    let dy = dist1(cy, end.1 as int);
    if dx >= dy {
        dx
    } else {
        dy
    }
}

/// A fully expanded cell stays fully expanded when scores only fall
/// elsewhere and its own score is unchanged.
proof fn lemma_expanded_monotone(g1: Seq<usize>, g2: Seq<usize>, grid: Seq<Cell>, c: (usize, usize))
    requires
        g1.len() == GRID_AREA,
        g2.len() == GRID_AREA,
        in_bounds(c),
        cell_expanded(g1, grid, c),
        forall|j: int| 0 <= j < GRID_AREA ==> g2[j] <= g1[j],
        g2[cell_index_spec(c.0 as int, c.1 as int)] == g1[cell_index_spec(c.0 as int, c.1 as int)],
    ensures
        cell_expanded(g2, grid, c),
{
    assert forall|dii: int, djj: int|
        0 <= dii < 3 && 0 <= djj < 3 && !(dii == 1 && djj == 1) implies neighbor_relaxed(
        g2,
        grid,
        c,
        dii,
        djj,
    ) by {
        assert(neighbor_relaxed(g1, grid, c, dii, djj));
        let nx = c.0 + dii - 1;
        let ny = c.1 + djj - 1;
        if 0 <= nx < GRID_WIDTH && 0 <= ny < GRID_HEIGHT {
            assert(0 <= cell_index_spec(nx, ny) < GRID_AREA);
        }
    }
}

/// Walking one straight 8-connected step at a time from a settled, fully
/// expanded region toward `end`, the recorded score grows by at most 1400
/// per step, so `end` itself is settled.
proof fn lemma_walk(g: Seq<usize>, grid: Seq<Cell>, end: (usize, usize), cx: int, cy: int)
    requires
        g.len() == GRID_AREA,
        grid.len() == GRID_AREA,
        in_bounds(end),
        0 <= cx < GRID_WIDTH,
        0 <= cy < GRID_HEIGHT,
        forall|x: int, y: int|
            0 <= x < GRID_WIDTH && 0 <= y < GRID_HEIGHT && !(x == end.0 as int && y
                == end.1 as int) && g[#[trigger] cell_index_spec(x, y)] < INFINITY
                ==> cell_expanded(g, grid, ((x) as usize, (y) as usize)),
        g[cell_index_spec(cx, cy)] + 1400 * cheb(cx, cy, end) < INFINITY,
    ensures
        g[cell_index_spec(end.0 as int, end.1 as int)] < INFINITY,
    decreases cheb(cx, cy, end),
{
    if cx == end.0 as int && cy == end.1 as int {
    } else {
        let nx = if cx < end.0 as int {
            cx + 1
        } else if cx > end.0 as int {
            cx - 1
        } else {
            cx
        };
        let ny = if cy < end.1 as int {
            cy + 1
        } else if cy > end.1 as int {
            cy - 1
        } else {
            cy
        };
        let dii = nx - cx + 1;
        let djj = ny - cy + 1;
        let c = ((cx) as usize, (cy) as usize);
        assert(g[cell_index_spec(cx, cy)] < INFINITY);
        assert(cell_expanded(g, grid, c));
        assert(neighbor_relaxed(g, grid, c, dii, djj));
        let s = grid[cell_index_spec(cx, cy)].state;
        assert(base_cost(s) == 1 || base_cost(s) == 5 || base_cost(s) == 50 || base_cost(s)
            == 1000);
        assert(move_cost(c, ((nx) as usize, (ny) as usize), grid) <= 1400);
        assert(g[cell_index_spec(nx, ny)] <= g[cell_index_spec(cx, cy)] + 1400);
        assert(cheb(nx, ny, end) == cheb(cx, cy, end) - 1);
        lemma_walk(g, grid, end, nx, ny);
    }
}

/// Once the open set is empty, every settled cell is fully expanded, and a
/// straight walk from the start (settled at score 0) settles the target:
/// exhaustion cannot leave the target unreached.
proof fn lemma_exhausted_settles_end(
    open: Seq<Node>,
    g: Seq<usize>,
    grid: Seq<Cell>,
    start: (usize, usize),
    end: (usize, usize),
)
    requires
        open.len() == 0,
        g.len() == GRID_AREA,
        grid.len() == GRID_AREA,
        in_bounds(start),
        in_bounds(end),
        g[cell_index_spec(start.0 as int, start.1 as int)] == 0,
        frontier_inv(open, g, grid, end),
    ensures
        g[cell_index_spec(end.0 as int, end.1 as int)] < INFINITY,
{
    assert forall|j: int| !queued_at(open, j) by {
        if queued_at(open, j) {
            let k = choose|k: int|
                0 <= k < open.len() && cell_index_spec(
                    (#[trigger] open[k]).x as int,
                    open[k].y as int,
                ) == j;
            assert(false);
        }
    }
    assert forall|x: int, y: int|
        0 <= x < GRID_WIDTH && 0 <= y < GRID_HEIGHT && !(x == end.0 as int && y == end.1 as int)
            && g[#[trigger] cell_index_spec(x, y)] < INFINITY implies cell_expanded(
        g,
        grid,
        ((x) as usize, (y) as usize),
    ) by {
        assert(!queued_at(open, cell_index_spec(x, y)));
    }
    assert(cheb(start.0 as int, start.1 as int, end) <= 29);
    lemma_walk(g, grid, end, start.0 as int, start.1 as int);
}

/// One iteration of the search loop preserves the frontier invariant: the
/// popped entry's cell (not the target) ends fully expanded, any cell whose
/// score fell gains a fresh entry, and every other settled cell keeps its
/// entry or stays expanded.
proof fn lemma_frontier_step(
    open_pre: Seq<Node>,
    open_mid: Seq<Node>,
    open_fin: Seq<Node>,
    g_pre: Seq<usize>,
    g_fin: Seq<usize>,
    grid: Seq<Cell>,
    current: Node,
    end: (usize, usize),
)
    requires
        g_pre.len() == GRID_AREA,
        g_fin.len() == GRID_AREA,
        grid.len() == GRID_AREA,
        in_bounds(end),
        current.x < GRID_WIDTH,
        current.y < GRID_HEIGHT,
        !(current.x == end.0 && current.y == end.1),
        frontier_inv(open_pre, g_pre, grid, end),
        exists|k: int|
            0 <= k < open_pre.len() && current == #[trigger] open_pre[k] && open_mid
                == open_pre.remove(k),
        forall|j: int| 0 <= j < GRID_AREA ==> g_fin[j] <= g_pre[j],
        g_fin[cell_index_spec(current.x as int, current.y as int)] == g_pre[cell_index_spec(
            current.x as int,
            current.y as int,
        )],
        open_mid.len() <= open_fin.len(),
        forall|k: int| 0 <= k < open_mid.len() ==> #[trigger] open_fin[k] == open_mid[k],
        forall|j: int|
            0 <= j < GRID_AREA && g_fin[j] != g_pre[j] ==> queued_at(open_fin, j),
        cell_expanded(g_fin, grid, (current.x, current.y)),
    ensures
        frontier_inv(open_fin, g_fin, grid, end),
{
    let ci = cell_index_spec(current.x as int, current.y as int);
    let e_ix = cell_index_spec(end.0 as int, end.1 as int);
    let k0 = choose|k: int|
        0 <= k < open_pre.len() && current == #[trigger] open_pre[k] && open_mid
            == open_pre.remove(k);
    open_pre.remove_ensures(k0);
    assert(ci != e_ix);
    assert forall|x: int, y: int|
        0 <= x < GRID_WIDTH && 0 <= y < GRID_HEIGHT && !(x == end.0 as int && y == end.1 as int)
            && g_fin[#[trigger] cell_index_spec(x, y)] < INFINITY implies queued_at(
        open_fin,
        cell_index_spec(x, y),
    ) || cell_expanded(g_fin, grid, ((x) as usize, (y) as usize)) by {
        let j = cell_index_spec(x, y);
        if g_fin[j] != g_pre[j] {
            assert(queued_at(open_fin, j));
        } else if j == ci {
            assert(x == current.x as int && y == current.y as int);
            assert(cell_expanded(g_fin, grid, ((x) as usize, (y) as usize)));
        } else {
            assert(g_pre[j] < INFINITY);
            if queued_at(open_pre, j) {
                let kq = choose|k: int|
                    0 <= k < open_pre.len() && cell_index_spec(
                        (#[trigger] open_pre[k]).x as int,
                        open_pre[k].y as int,
                    ) == j;
                assert(cell_index_spec(open_pre[k0].x as int, open_pre[k0].y as int) == ci);
                assert(kq != k0);
                if kq < k0 {
                    assert(open_mid[kq] == open_pre[kq]);
                    assert(open_fin[kq] == open_mid[kq]);
                } else {
                    assert(open_mid[kq - 1] == open_pre[kq]);
                    assert(open_fin[kq - 1] == open_mid[kq - 1]);
                }
                assert(queued_at(open_fin, j));
            } else {
                assert(cell_expanded(g_pre, grid, ((x) as usize, (y) as usize)));
                lemma_expanded_monotone(g_pre, g_fin, grid, ((x) as usize, (y) as usize));
            }
        }
    }
    if g_fin[e_ix] < INFINITY {
        if g_fin[e_ix] != g_pre[e_ix] {
            assert(queued_at(open_fin, e_ix));
        } else {
            assert(queued_at(open_pre, e_ix));
            let kq = choose|k: int|
                0 <= k < open_pre.len() && cell_index_spec(
                    (#[trigger] open_pre[k]).x as int,
                    open_pre[k].y as int,
                ) == e_ix;
            assert(cell_index_spec(open_pre[k0].x as int, open_pre[k0].y as int) == ci);
            assert(kq != k0);
            if kq < k0 {
                assert(open_mid[kq] == open_pre[kq]);
                assert(open_fin[kq] == open_mid[kq]);
            } else {
                assert(open_mid[kq - 1] == open_pre[kq]);
                assert(open_fin[kq - 1] == open_mid[kq - 1]);
            }
            assert(queued_at(open_fin, e_ix));
        }
    }
}

/// Route from `start` to `end` on the given grid snapshot, found by
/// weighted A* over 8-connected moves. A route always exists — every cell
/// state has finite cost, so `Occupied` deters but never blocks — and one is
/// always returned. It runs from `start` to `end` inclusive, moves one
/// 8-connected step at a time, and never revisits a cell. When the two
/// endpoints coincide the route is the single shared cell. The Manhattan
/// heuristic overestimates the cost of diagonal-heavy routes, so the result
/// can cost slightly more than the true optimum; the cost table itself is
/// honoured exactly.
#[verifier::rlimit(100)]
pub fn find_path(start: (usize, usize), end: (usize, usize), grid: &Vec<Cell>) -> (r: Option<
    Vec<(usize, usize)>,
>)
    requires
        grid@.len() == GRID_AREA,
        in_bounds(start),
        in_bounds(end),
    ensures
        r is Some,
        r matches Some(path) ==> valid_path(path@, start, end),
        r matches Some(path) ==> path@.len() - 1 <= path_cost(path@, grid@) <= 1400 * (path@.len()
            - 1),
        start == end ==> (r matches Some(path) && path@ == seq![start]),
{
    if start.0 == end.0 && start.1 == end.1 {
        let mut path: Vec<(usize, usize)> = Vec::new();
        path.push(start);
        proof {
            assert(path@ =~= seq![start]);
            lemma_path_cost_bounds(path@, grid@);
        }
        return Some(path);
    }
    let mut open_set: Vec<Node> = Vec::new();
    let mut came_from: Vec<(usize, usize)> = Vec::new();
    let mut g_score: Vec<usize> = Vec::new();
    let mut f_score: Vec<usize> = Vec::new();
    let mut i: usize = 0;
    while i < GRID_AREA
        invariant
            i <= GRID_AREA,
            came_from@.len() == i,
            g_score@.len() == i,
            f_score@.len() == i,
            forall|j: int| 0 <= j < i ==> g_score@[j] == INFINITY,
        decreases GRID_AREA - i,
    {
        came_from.push((0, 0));
        g_score.push(INFINITY);
        f_score.push(INFINITY);
        i = i + 1;
    }
    let si = cell_index(start.0, start.1);
    g_score[si] = 0;
    let h0 = heuristic(start, end);
    f_score[si] = h0;
    open_set.push(Node { x: start.0, y: start.1, f: h0, g: 0 });
    proof {
        // at the outset the start cell is the only settled cell, and it is queued
        assert(cell_index_spec(open_set@[0].x as int, open_set@[0].y as int) == si as int);
        assert forall|x: int, y: int|
            0 <= x < GRID_WIDTH && 0 <= y < GRID_HEIGHT && !(x == end.0 as int && y
                == end.1 as int) && g_score@[#[trigger] cell_index_spec(x, y)]
            < INFINITY implies queued_at(open_set@, cell_index_spec(x, y)) || cell_expanded(
            g_score@,
            grid@,
            ((x) as usize, (y) as usize),
        ) by {
            assert(cell_index_spec(x, y) == si as int);
            assert(queued_at(open_set@, si as int));
        }
        assert(cell_index_spec(end.0 as int, end.1 as int) != si as int);
    }

    while open_set.len() != 0
        invariant
            grid@.len() == GRID_AREA,
            in_bounds(start),
            in_bounds(end),
            search_inv(open_set@, came_from@, g_score@, f_score@, start),
            frontier_inv(open_set@, g_score@, grid@, end),
        decreases sum_of(g_score@), open_set@.len(),
    {
        let ghost open_pre = open_set@;
        let ghost g_pre = g_score@;
        let current = pop_min(&mut open_set);
        let ghost open_mid = open_set@;
        proof {
            assert(node_ok(current, g_score@));
        }
        if current.x == end.0 && current.y == end.1 {
            let route = reconstruct(&came_from, &g_score, start, end);
            proof {
                lemma_path_cost_bounds(route@, grid@);
            }
            return Some(route);
        }
        let cur = (current.x, current.y);
        expand(grid, &mut open_set, &mut came_from, &mut g_score, &mut f_score, cur, start, end);
        proof {
            lemma_frontier_step(
                open_pre,
                open_mid,
                open_set@,
                g_pre,
                g_score@,
                grid@,
                current,
                end,
            );
        }
    }
    proof {
        // exhaustion is impossible: it would settle the target, and a settled
        // target keeps an open-set entry
        lemma_exhausted_settles_end(open_set@, g_score@, grid@, start, end);
        assert(queued_at(open_set@, cell_index_spec(end.0 as int, end.1 as int)));
        let k = choose|k: int|
            0 <= k < open_set@.len() && cell_index_spec(
                (#[trigger] open_set@[k]).x as int,
                open_set@[k].y as int,
            ) == cell_index_spec(end.0 as int, end.1 as int);
        assert(false);
    }
    None
}

} // verus!