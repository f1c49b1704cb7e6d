use grid_path::grid_map::GridMap;
use grid_path::CellState;
use grid_path::GRID_HEIGHT;
use grid_path::GRID_WIDTH;

fn count_state(g: &GridMap, s: CellState) -> usize {
    let mut n = 0;
    for y in 0..GRID_HEIGHT {
        for x in 0..GRID_WIDTH {
            if g.cell_state(x, y) == s {
                n += 1;
            }
        }
    }
    n
}

fn grids_agree(a: &GridMap, b: &GridMap) -> bool {
    for y in 0..GRID_HEIGHT {
        for x in 0..GRID_WIDTH {
            if a.cell_state(x, y) != b.cell_state(x, y) {
                return false;
            }
        }
    }
    a.current_cell_position == b.current_cell_position
        && a.start_position == b.start_position
        && a.end_position == b.end_position
}

#[test]
fn new_grid_is_all_free() {
    let g = GridMap::new();
    for y in 0..GRID_HEIGHT {
        for x in 0..GRID_WIDTH {
            assert_eq!(g.cell_state(x, y), CellState::Free);
        }
    }
    assert_eq!(g.current_cell_position, (0, 0));
    assert!(g.start_position.is_none());
    assert!(g.end_position.is_none());
}

#[test]
fn reset_restores_fresh_state() {
    let mut g = GridMap::new();
    g.set_cursor(3, 4);
    g.primary_action();
    g.set_cursor(5, 5);
    g.primary_action();
    g.primary_action();
    g.set_cursor(7, 2);
    g.secondary_action();
    g.set_cursor(9, 9);
    g.secondary_action();
    g.reset();
    let fresh = GridMap::new();
    assert!(grids_agree(&g, &fresh));
}

#[test]
fn primary_action_cycles_free_occupied_unknown() {
    let mut g = GridMap::new();
    g.set_cursor(2, 3);
    assert_eq!(g.cell_state(2, 3), CellState::Free);
    g.primary_action();
    assert_eq!(g.cell_state(2, 3), CellState::Occupied);
    g.primary_action();
    assert_eq!(g.cell_state(2, 3), CellState::Unknown);
    g.primary_action();
    assert_eq!(g.cell_state(2, 3), CellState::Free);
}

#[test]
fn primary_action_leaves_endpoints_alone() {
    let mut g = GridMap::new();
    g.set_cursor(1, 1);
    g.secondary_action();
    assert_eq!(g.cell_state(1, 1), CellState::Start);
    g.primary_action();
    assert_eq!(g.cell_state(1, 1), CellState::Start);
    g.set_cursor(4, 4);
    g.secondary_action();
    assert_eq!(g.cell_state(4, 4), CellState::End);
    g.primary_action();
    assert_eq!(g.cell_state(4, 4), CellState::End);
}

#[test]
fn secondary_action_designates_start_then_end() {
    let mut g = GridMap::new();
    g.set_cursor(2, 2);
    g.secondary_action();
    assert_eq!(g.cell_state(2, 2), CellState::Start);
    assert_eq!(g.start_position, Some((2, 2)));
    assert!(g.end_position.is_none());
    g.set_cursor(6, 7);
    g.secondary_action();
    assert_eq!(g.cell_state(6, 7), CellState::End);
    assert_eq!(g.end_position, Some((6, 7)));
}

#[test]
fn secondary_action_demotes_end_to_unknown() {
    let mut g = GridMap::new();
    g.set_cursor(2, 2);
    g.secondary_action();
    g.set_cursor(6, 7);
    g.secondary_action();
    g.secondary_action();
    assert_eq!(g.cell_state(6, 7), CellState::Unknown);
    assert!(g.end_position.is_none());
    assert_eq!(g.start_position, Some((2, 2)));
}

#[test]
fn secondary_action_slides_start_to_end() {
    let mut g = GridMap::new();
    g.set_cursor(3, 3);
    g.secondary_action();
    assert_eq!(g.cell_state(3, 3), CellState::Start);
    g.secondary_action();
    assert_eq!(g.cell_state(3, 3), CellState::End);
    assert_eq!(g.end_position, Some((3, 3)));
    assert!(g.start_position.is_none());
}

#[test]
fn secondary_action_noop_when_both_placed() {
    let mut g = GridMap::new();
    g.set_cursor(1, 1);
    g.secondary_action();
    g.set_cursor(2, 2);
    g.secondary_action();
    g.set_cursor(5, 5);
    g.secondary_action();
    assert_eq!(g.cell_state(5, 5), CellState::Free);
    assert_eq!(g.start_position, Some((1, 1)));
    assert_eq!(g.end_position, Some((2, 2)));
}

#[test]
fn endpoints_stay_unique_through_action_sequences() {
    let mut g = GridMap::new();
    let cursor_moves = [
        (0, 0),
        (5, 5),
        (5, 5),
        (0, 0),
        (3, 9),
        (29, 19),
        (3, 9),
        (7, 7),
        (7, 7),
        (7, 7),
        (0, 19),
        (29, 0),
    ];
    for &(x, y) in cursor_moves.iter() {
        g.set_cursor(x, y);
        g.secondary_action();
        assert!(count_state(&g, CellState::Start) <= 1);
        assert!(count_state(&g, CellState::End) <= 1);
    }
}
