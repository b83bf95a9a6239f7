use game_of_life::board::Board;
use game_of_life::cell::Cell;

/// The coordinates of all alive cells of the board, sorted.
fn alive_positions(board: &Board) -> Vec<(usize, usize)> {
    let mut alive: Vec<(usize, usize)> = Vec::new();
    for cell in board.get_cells() {
        if cell.alive {
            alive.push((cell.x, cell.y));
        }
    }
    alive.sort();
    alive
}

/// One compute-commit step.
fn step(board: &mut Board) -> Vec<(usize, bool)> {
    board.step()
}

#[test]
fn new_board_is_empty() {
    let board = Board::new();
    assert_eq!(board.get_cells().len(), 0);
    assert_eq!(board.get_generation(), 0);
    assert!(board.get_cell(0).is_none());
}

#[test]
fn create_board_allocates_dead_cells_with_positions() {
    let mut board = Board::new();
    board.create_board(4, 3);
    let cells = board.get_cells();
    assert_eq!(cells.len(), 12);
    for (i, cell) in cells.iter().enumerate() {
        assert_eq!(cell.id, i);
        assert!(!cell.alive);
        assert_eq!(cell.x * 3 + cell.y, i);
        assert!(cell.x < 4 && cell.y < 3);
    }
    assert_eq!(board.get_generation(), 0);
}

#[test]
fn neighbor_counts_interior_edge_corner() {
    let mut board = Board::new();
    board.create_board(3, 3);
    // Interior cell (1, 1) has 8 entries, corners 3, non-corner edges 5.
    let center = board.find_cell(1, 1).unwrap();
    assert_eq!(center.get_neighbors(&board.cells).len(), 8);
    for &(x, y) in &[(0, 0), (2, 0), (0, 2), (2, 2)] {
        let corner = board.find_cell(x, y).unwrap();
        assert_eq!(corner.get_neighbors(&board.cells).len(), 3);
    }
    for &(x, y) in &[(1, 0), (0, 1), (2, 1), (1, 2)] {
        let edge = board.find_cell(x, y).unwrap();
        assert_eq!(edge.get_neighbors(&board.cells).len(), 5);
    }
}

#[test]
fn neighbor_counts_on_larger_grid() {
    let mut board = Board::new();
    board.create_board(5, 4);
    for cell in board.get_cells() {
        let count = cell.get_neighbors(&board.cells).len();
        let on_x_edge = cell.x == 0 || cell.x == 4;
        let on_y_edge = cell.y == 0 || cell.y == 3;
        let expected = if on_x_edge && on_y_edge {
            3
        } else if on_x_edge || on_y_edge {
            5
        } else {
            8
        };
        assert_eq!(count, expected, "cell at ({}, {})", cell.x, cell.y);
    }
}

/// A free-standing cell with links to ids 1..=8, of which `alive_count`
/// resolve to alive cells in the accompanying arena.
fn star_arena(alive_self: bool, alive_count: usize) -> (Cell, Vec<Cell>) {
    let mut center = Cell::new(0, alive_self, 10, 10);
    let mut arena: Vec<Cell> = Vec::new();
    arena.push(Cell::new(0, alive_self, 10, 10));
    for i in 1..9 {
        center.add_neighbor(10 + i, 10, i);
        arena.push(Cell::new(i, i <= alive_count, 10 + i, 10));
    }
    (center, arena)
}

#[test]
fn future_state_full_table() {
    for count in 0..9 {
        let (alive_cell, arena) = star_arena(true, count);
        assert_eq!(alive_cell.count_alive_neighbors(&arena), count);
        assert_eq!(alive_cell.compute_future_state(&arena), count == 2 || count == 3);
        let (dead_cell, arena) = star_arena(false, count);
        assert_eq!(dead_cell.count_alive_neighbors(&arena), count);
        assert_eq!(dead_cell.compute_future_state(&arena), count == 3);
    }
}

#[test]
fn unresolvable_neighbor_links_are_dropped() {
    let mut cell = Cell::new(0, true, 5, 5);
    cell.add_neighbor(5, 6, 1);
    cell.add_neighbor(6, 5, 99);
    let arena = vec![Cell::new(0, true, 5, 5), Cell::new(1, true, 5, 6)];
    let neighbors = cell.get_neighbors(&arena);
    assert_eq!(neighbors, vec![1]);
    assert_eq!(cell.count_alive_neighbors(&arena), 1);
}

#[test]
fn add_neighbor_overwrites_existing_coordinate() {
    let mut cell = Cell::new(0, false, 1, 1);
    cell.add_neighbor(1, 2, 7);
    cell.add_neighbor(1, 2, 9);
    let arena = vec![
        Cell::new(0, false, 1, 1),
        Cell::new(1, false, 9, 9),
        Cell::new(2, false, 9, 8),
        Cell::new(3, false, 9, 7),
        Cell::new(4, false, 9, 6),
        Cell::new(5, false, 9, 5),
        Cell::new(6, false, 9, 4),
        Cell::new(7, false, 9, 3),
        Cell::new(8, false, 9, 2),
        Cell::new(9, false, 9, 1),
    ];
    assert_eq!(cell.get_neighbors(&arena), vec![9]);
}

#[test]
fn kill_board_is_idempotent() {
    let mut board = Board::new();
    board.create_board(4, 4);
    board.update_cell_state(0, true);
    board.update_cell_state(5, true);
    board.update_cell_state(10, true);
    step(&mut board);
    board.kill_board();
    let first: Vec<(usize, bool, usize, usize)> =
        board.get_cells().iter().map(|c| (c.id, c.alive, c.x, c.y)).collect();
    let first_gen = board.get_generation();
    board.kill_board();
    let second: Vec<(usize, bool, usize, usize)> =
        board.get_cells().iter().map(|c| (c.id, c.alive, c.x, c.y)).collect();
    assert_eq!(first_gen, 0);
    assert_eq!(board.get_generation(), 0);
    assert_eq!(first, second);
    assert!(first.iter().all(|&(_, alive, _, _)| !alive));
}

#[test]
fn kill_board_keeps_dimensions_and_graph() {
    let mut board = Board::new();
    board.create_board(3, 3);
    board.update_cell_state(4, true);
    board.kill_board();
    assert_eq!(board.get_cells().len(), 9);
    let center = board.find_cell(1, 1).unwrap();
    assert_eq!(center.get_neighbors(&board.cells).len(), 8);
}

#[test]
fn fresh_board_computes_empty_generation() {
    let mut board = Board::new();
    board.create_board(6, 6);
    let next_gen = board.compute_next_generation();
    assert!(next_gen.is_empty());
}

#[test]
fn killed_board_computes_empty_generation() {
    let mut board = Board::new();
    board.create_board(4, 4);
    board.update_cell_state(5, true);
    board.update_cell_state(6, true);
    board.kill_board();
    assert!(board.compute_next_generation().is_empty());
}

#[test]
fn single_alive_center_has_nine_relevant_cells() {
    let mut board = Board::new();
    board.create_board(3, 3);
    // Center of the 3x3 grid sits at id 1 * 3 + 1 = 4.
    let (id, ok) = board.update_cell_state(4, true);
    assert_eq!((id, ok), (4, true));
    let next_gen = board.compute_next_generation();
    assert_eq!(next_gen.len(), 9);
    let mut ids: Vec<usize> = next_gen.iter().map(|&(id, _)| id).collect();
    ids.sort();
    assert_eq!(ids, vec![0, 1, 2, 3, 4, 5, 6, 7, 8]);
    assert!(next_gen.iter().all(|&(_, alive)| !alive));
    board.update_next_generation(&next_gen);
    assert!(alive_positions(&board).is_empty());
    assert_eq!(board.get_generation(), 1);
}

#[test]
fn block_is_still_life() {
    let mut board = Board::new();
    board.create_board(4, 4);
    for &(x, y) in &[(1, 1), (2, 1), (1, 2), (2, 2)] {
        let id = board.position_to_id(x, y).unwrap();
        board.update_cell_state(id, true);
    }
    step(&mut board);
    assert_eq!(alive_positions(&board), vec![(1, 1), (1, 2), (2, 1), (2, 2)]);
}

#[test]
fn glider_translates_one_diagonal_step_every_four_generations() {
    let mut board = Board::new();
    board.create_board(10, 10);
    let glider = [(1, 0), (2, 1), (0, 2), (1, 2), (2, 2)];
    for &(x, y) in &glider {
        let id = board.position_to_id(x, y).unwrap();
        let (_, ok) = board.update_cell_state(id, true);
        assert!(ok);
    }
    for _ in 0..4 {
        step(&mut board);
    }
    let mut expected: Vec<(usize, usize)> =
        glider.iter().map(|&(x, y)| (x + 1, y + 1)).collect();
    expected.sort();
    assert_eq!(alive_positions(&board), expected);
    assert_eq!(board.get_generation(), 4);
}

#[test]
fn toad_oscillates_with_period_two() {
    let mut board = Board::new();
    board.create_board(6, 6);
    let toad = [(2, 2), (3, 2), (4, 2), (1, 3), (2, 3), (3, 3)];
    for &(x, y) in &toad {
        let id = board.position_to_id(x, y).unwrap();
        board.update_cell_state(id, true);
    }
    step(&mut board);
    assert_eq!(
        alive_positions(&board),
        vec![(1, 2), (1, 3), (2, 4), (3, 1), (4, 2), (4, 3)]
    );
    step(&mut board);
    let mut expected: Vec<(usize, usize)> = toad.to_vec();
    expected.sort();
    assert_eq!(alive_positions(&board), expected);
    assert_eq!(board.get_generation(), 2);
}

#[test]
fn glider_travels_two_diagonal_steps_in_eight_generations() {
    let mut board = Board::new();
    board.create_board(12, 12);
    let glider = [(1, 0), (2, 1), (0, 2), (1, 2), (2, 2)];
    for &(x, y) in &glider {
        let id = board.position_to_id(x, y).unwrap();
        board.update_cell_state(id, true);
    }
    for _ in 0..8 {
        step(&mut board);
    }
    let mut expected: Vec<(usize, usize)> =
        glider.iter().map(|&(x, y)| (x + 2, y + 2)).collect();
    expected.sort();
    assert_eq!(alive_positions(&board), expected);
}

#[test]
fn sparse_board_has_small_relevant_set() {
    let mut board = Board::new();
    board.create_board(5, 5);
    // Center of the 5x5 grid sits at id 2 * 5 + 2 = 12; only it and its 8
    // neighbors are relevant, the other 16 cells are not revisited.
    board.update_cell_state(12, true);
    let next_gen = board.compute_next_generation();
    assert_eq!(next_gen.len(), 9);
}

#[test]
fn step_returns_post_commit_flags() {
    let mut board = Board::new();
    board.create_board(4, 4);
    for &(x, y) in &[(1, 1), (2, 1), (1, 2), (2, 2)] {
        let id = board.position_to_id(x, y).unwrap();
        board.update_cell_state(id, true);
    }
    let pairs = board.step();
    // The block is a still life: 16 relevant cells, and each returned flag
    // matches the committed state.
    assert_eq!(pairs.len(), 16);
    for (id, flag) in pairs {
        assert_eq!(board.get_cell(id).unwrap().alive, flag);
    }
    assert_eq!(board.get_generation(), 1);
}

#[test]
fn update_leaves_absent_cells_unchanged() {
    let mut board = Board::new();
    board.create_board(3, 3);
    board.update_cell_state(5, true);
    board.update_cell_state(7, true);
    let pairs = vec![(0usize, true), (5usize, false)];
    board.update_next_generation(&pairs);
    // Cells 0 and 5 were addressed; every other flag is untouched.
    assert!(board.get_cell(0).unwrap().alive);
    assert!(!board.get_cell(5).unwrap().alive);
    assert!(board.get_cell(7).unwrap().alive);
    for id in [1, 2, 3, 4, 6, 8] {
        assert!(!board.get_cell(id).unwrap().alive);
    }
}

#[test]
fn update_skips_unknown_ids() {
    let mut board = Board::new();
    board.create_board(2, 2);
    let pairs = vec![(17usize, true), (3usize, true)];
    board.update_next_generation(&pairs);
    assert_eq!(alive_positions(&board), vec![(1, 1)]);
    assert_eq!(board.get_generation(), 1);
}

#[test]
fn generation_increments_by_one_per_commit() {
    let mut board = Board::new();
    board.create_board(3, 3);
    let empty: Vec<(usize, bool)> = Vec::new();
    board.update_next_generation(&empty);
    assert_eq!(board.get_generation(), 1);
    board.update_next_generation(&vec![(0, true), (1, true), (2, true)]);
    assert_eq!(board.get_generation(), 2);
    board.update_next_generation(&empty);
    assert_eq!(board.get_generation(), 3);
    board.create_board(3, 3);
    assert_eq!(board.get_generation(), 0);
}

#[test]
fn update_cell_state_reports_unknown_id() {
    let mut board = Board::new();
    board.create_board(2, 2);
    let (id, ok) = board.update_cell_state(99, true);
    assert_eq!((id, ok), (99, false));
    assert!(alive_positions(&board).is_empty());
}

#[test]
fn get_cell_and_find_cell_agree() {
    let mut board = Board::new();
    board.create_board(3, 2);
    let by_position = board.find_cell(2, 1).unwrap();
    assert_eq!((by_position.x, by_position.y), (2, 1));
    let id = by_position.id;
    let by_id = board.get_cell(id).unwrap();
    assert_eq!((by_id.x, by_id.y), (2, 1));
    assert!(board.find_cell(3, 0).is_none());
    assert!(board.find_cell(0, 2).is_none());
}

#[test]
fn rebuild_discards_previous_epoch() {
    let mut board = Board::new();
    board.create_board(3, 3);
    board.update_cell_state(4, true);
    step(&mut board);
    board.create_board(2, 2);
    assert_eq!(board.get_generation(), 0);
    assert_eq!(board.get_cells().len(), 4);
    assert!(alive_positions(&board).is_empty());
    assert!(board.get_cell(4).is_none());
}

#[test]
fn offset_position_rejects_out_of_range() {
    assert_eq!(Cell::offset_position(0, -1), None);
    assert_eq!(Cell::offset_position(0, 0), Some(0));
    assert_eq!(Cell::offset_position(5, -5), Some(0));
    assert_eq!(Cell::offset_position(5, -6), None);
    assert_eq!(Cell::offset_position(usize::MAX, 1), None);
    assert_eq!(Cell::offset_position(usize::MAX, 0), Some(usize::MAX));
    assert_eq!(Cell::offset_position(usize::MAX, -1), Some(usize::MAX - 1));
    assert_eq!(Cell::offset_position(usize::MAX, isize::MIN), Some(usize::MAX / 2));
}

#[test]
fn set_alive_is_visible_through_registry() {
    let mut board = Board::new();
    board.create_board(2, 3);
    let (_, ok) = board.update_cell_state(3, true);
    assert!(ok);
    assert!(board.get_cell(3).unwrap().alive);
    let (_, ok) = board.update_cell_state(3, false);
    assert!(ok);
    assert!(!board.get_cell(3).unwrap().alive);
}
