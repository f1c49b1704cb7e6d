use grid_path::cell_index;
use grid_path::grid_map::Cell;
use grid_path::grid_map::GridMap;
use grid_path::path_finder::cost;
use grid_path::path_finder::find_path;
use grid_path::path_finder::heuristic;
use grid_path::CellState;
use grid_path::GRID_AREA;

fn all_free() -> Vec<Cell> {
    vec![Cell { state: CellState::Free }; GRID_AREA]
}

fn all_occupied() -> Vec<Cell> {
    vec![Cell { state: CellState::Occupied }; GRID_AREA]
}

fn set(grid: &mut Vec<Cell>, x: usize, y: usize, s: CellState) {
    grid[cell_index(x, y)] = Cell { state: s };
}

fn total_cost(path: &[(usize, usize)], grid: &Vec<Cell>) -> usize {
    let mut sum = 0;
    for w in path.windows(2) {
        sum += cost(w[0], w[1], grid);
    }
    sum
}

fn is_adjacent8(a: (usize, usize), b: (usize, usize)) -> bool {
    let dx = if a.0 > b.0 { a.0 - b.0 } else { b.0 - a.0 };
    let dy = if a.1 > b.1 { a.1 - b.1 } else { b.1 - a.1 };
    dx <= 1 && dy <= 1 && (dx, dy) != (0, 0)
}

#[test]
fn heuristic_is_manhattan_distance() {
    assert_eq!(heuristic((0, 0), (3, 4)), 7);
    assert_eq!(heuristic((5, 2), (1, 2)), 4);
    assert_eq!(heuristic((9, 9), (9, 9)), 0);
}

#[test]
fn cost_depends_on_departed_cell_state() {
    let mut grid = all_free();
    assert_eq!(cost((2, 2), (3, 2), &grid), 1);
    assert_eq!(cost((2, 2), (3, 3), &grid), 1);
    set(&mut grid, 2, 2, CellState::Unknown);
    assert_eq!(cost((2, 2), (3, 2), &grid), 5);
    assert_eq!(cost((2, 2), (3, 3), &grid), 7);
    set(&mut grid, 2, 2, CellState::Path);
    assert_eq!(cost((2, 2), (3, 2), &grid), 50);
    assert_eq!(cost((2, 2), (3, 3), &grid), 70);
    set(&mut grid, 2, 2, CellState::Occupied);
    assert_eq!(cost((2, 2), (3, 2), &grid), 1000);
    assert_eq!(cost((2, 2), (3, 3), &grid), 1400);
    set(&mut grid, 2, 2, CellState::Start);
    assert_eq!(cost((2, 2), (3, 2), &grid), 1000);
    set(&mut grid, 2, 2, CellState::End);
    assert_eq!(cost((2, 2), (3, 3), &grid), 1400);
}

#[test]
fn coinciding_endpoints_give_singleton_path() {
    let grid = all_free();
    let path = find_path((3, 3), (3, 3), &grid).expect("a trivial route");
    assert_eq!(path, vec![(3, 3)]);
}

#[test]
fn corridor_path_has_full_length_and_unit_costs() {
    let mut grid = all_occupied();
    for x in 0..5 {
        set(&mut grid, x, 0, CellState::Free);
    }
    let path = find_path((0, 0), (4, 0), &grid).expect("a corridor route");
    assert_eq!(path.len(), 5);
    assert_eq!(path[0], (0, 0));
    assert_eq!(path[4], (4, 0));
    assert_eq!(total_cost(&path, &grid), 4);
    for w in path.windows(2) {
        assert!(is_adjacent8(w[0], w[1]));
    }
    for i in 0..path.len() {
        for j in i + 1..path.len() {
            assert_ne!(path[i], path[j]);
        }
    }
}

#[test]
fn diagonal_detour_beats_occupied_cell() {
    let mut grid = all_free();
    set(&mut grid, 2, 1, CellState::Occupied);
    let path = find_path((1, 1), (3, 1), &grid).expect("a detour route");
    assert_eq!(path.len(), 3);
    assert_eq!(path[0], (1, 1));
    assert_eq!(path[2], (3, 1));
    assert_ne!(path[1], (2, 1));
    assert_eq!(total_cost(&path, &grid), 2);
}

#[test]
fn enclosed_start_still_yields_a_costly_path() {
    let mut grid = all_free();
    for x in 4..=6 {
        for y in 4..=6 {
            if (x, y) != (5, 5) {
                set(&mut grid, x, y, CellState::Occupied);
            }
        }
    }
    let path = find_path((5, 5), (8, 5), &grid).expect("a route out of the enclosure");
    assert_eq!(path[0], (5, 5));
    assert_eq!(*path.last().unwrap(), (8, 5));
    for w in path.windows(2) {
        assert!(is_adjacent8(w[0], w[1]));
    }
    assert!(total_cost(&path, &grid) > 1000);
}

#[test]
fn solve_without_end_leaves_grid_unchanged() {
    let mut g = GridMap::new();
    g.set_cursor(2, 2);
    g.secondary_action();
    g.set_cursor(8, 8);
    g.primary_action();
    let before: Vec<CellState> = (0..20)
        .flat_map(|y| (0..30).map(move |x| (x, y)))
        .map(|(x, y)| g.cell_state(x, y))
        .collect();
    let r = g.solve();
    assert!(r.is_none());
    let after: Vec<CellState> = (0..20)
        .flat_map(|y| (0..30).map(move |x| (x, y)))
        .map(|(x, y)| g.cell_state(x, y))
        .collect();
    assert_eq!(before, after);
    assert_eq!(g.start_position, Some((2, 2)));
    assert!(g.end_position.is_none());
}

#[test]
fn solve_marks_interior_and_keeps_endpoints() {
    let mut g = GridMap::new();
    g.set_cursor(0, 0);
    g.secondary_action();
    g.set_cursor(4, 0);
    g.secondary_action();
    let path = g.solve().expect("a route across free cells");
    assert_eq!(path.first(), Some(&(0, 0)));
    assert_eq!(path.last(), Some(&(4, 0)));
    assert_eq!(g.cell_state(0, 0), CellState::Start);
    assert_eq!(g.cell_state(4, 0), CellState::End);
    for &(x, y) in &path[1..path.len() - 1] {
        assert_eq!(g.cell_state(x, y), CellState::Path);
    }
    assert_eq!(g.cell_state(20, 10), CellState::Free);
    assert_eq!(total_cost(&path, &vec![Cell { state: CellState::Free }; GRID_AREA]), 4);
    assert_eq!(path.len(), 5);
}

#[test]
fn fully_occupied_grid_still_connects() {
    let grid = all_occupied();
    let path = find_path((0, 0), (29, 19), &grid).expect("a route across occupied ground");
    assert_eq!(path[0], (0, 0));
    assert_eq!(*path.last().unwrap(), (29, 19));
    for w in path.windows(2) {
        assert!(is_adjacent8(w[0], w[1]));
    }
    assert!(total_cost(&path, &grid) >= 1000 * (path.len() - 1));
}
