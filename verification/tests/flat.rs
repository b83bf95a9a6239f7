use game_of_life::cell_manager::{compute_next_generation, Cell};

/// A dense width-by-height flat grid of dead cells with sequential ids.
fn flat_grid(width: u32, height: u32) -> Vec<Cell> {
    let mut cells: Vec<Cell> = Vec::new();
    let mut id: usize = 0;
    for x in 0..width {
        for y in 0..height {
            cells.push(Cell::new(id, false, x, y));
            id += 1;
        }
    }
    cells
}

fn set_alive_at(cells: &mut Vec<Cell>, x: u32, y: u32) {
    for cell in cells.iter_mut() {
        if cell.x == x && cell.y == y {
            cell.set_alive(true);
        }
    }
}

fn alive_positions(cells: &[Cell]) -> Vec<(u32, u32)> {
    let mut alive: Vec<(u32, u32)> = cells.iter().filter(|c| c.alive).map(|c| (c.x, c.y)).collect();
    alive.sort();
    alive
}

#[test]
fn new_cell_carries_its_fields() {
    let cell = Cell::new(7, true, 3, 9);
    assert_eq!(cell.id, 7);
    assert!(cell.alive);
    assert_eq!((cell.x, cell.y), (3, 9));
}

#[test]
fn toggle_alive_flips_twice() {
    let mut cell = Cell::new(0, true, 0, 0);
    cell.toggle_alive();
    assert!(!cell.alive);
    cell.toggle_alive();
    assert!(cell.alive);
}

#[test]
fn set_alive_overwrites() {
    let mut cell = Cell::new(0, true, 0, 0);
    cell.set_alive(false);
    assert!(!cell.alive);
    cell.set_alive(false);
    assert!(!cell.alive);
}

#[test]
fn find_by_id_returns_first_match() {
    let cells = vec![Cell::new(3, false, 0, 0), Cell::new(5, true, 1, 0), Cell::new(5, false, 2, 0)];
    let found = Cell::find_by_id(&cells, 5).unwrap();
    assert_eq!((found.x, found.y), (1, 0));
    assert!(Cell::find_by_id(&cells, 4).is_none());
}

#[test]
fn find_by_position_returns_first_match() {
    let owned = vec![Cell::new(0, false, 0, 0), Cell::new(1, true, 2, 3)];
    let refs: Vec<&Cell> = owned.iter().collect();
    let found = Cell::find_by_position(&refs, 2, 3).unwrap();
    assert_eq!(found.id, 1);
    assert!(Cell::find_by_position(&refs, 3, 2).is_none());
}

#[test]
fn offset_position_handles_signed_deltas() {
    assert_eq!(Cell::offset_position(0, 1), Some(1));
    assert_eq!(Cell::offset_position(0, -1), None);
    assert_eq!(Cell::offset_position(1, -1), Some(0));
    assert_eq!(Cell::offset_position(u32::MAX, 1), None);
    assert_eq!(Cell::offset_position(u32::MAX, 0), Some(u32::MAX));
    assert_eq!(Cell::offset_position(200, -128), Some(72));
    assert_eq!(Cell::offset_position(100, -128), None);
}

#[test]
fn neighbors_skip_missing_and_out_of_range_positions() {
    let owned = vec![
        Cell::new(0, true, 0, 0),
        Cell::new(1, true, 0, 1),
        Cell::new(2, true, 1, 0),
        Cell::new(3, true, 1, 1),
        Cell::new(4, true, 2, 2),
    ];
    let refs: Vec<&Cell> = owned.iter().collect();
    // The corner cell at (0, 0): candidates with a negative coordinate are
    // excluded, and (2, 2) is not adjacent.
    let neighbors = owned[0].neighbors(&refs);
    let mut found: Vec<(u32, u32)> = neighbors.iter().map(|c| (c.x, c.y)).collect();
    found.sort();
    assert_eq!(found, vec![(0, 1), (1, 0), (1, 1)]);
}

#[test]
fn alive_and_dead_neighbors_partition() {
    let owned = vec![Cell::new(0, true, 0, 0), Cell::new(1, false, 0, 1), Cell::new(2, true, 1, 1)];
    let refs: Vec<&Cell> = owned.iter().collect();
    let me = Cell::new(9, true, 1, 0);
    let neighbors = me.neighbors(&refs);
    assert_eq!(neighbors.len(), 3);
    let alive = me.alive_neighbors(&neighbors);
    let dead = me.dead_neighbors(&neighbors);
    assert_eq!(alive.len(), 2);
    assert_eq!(dead.len(), 1);
    assert_eq!(dead[0].id, 1);
    assert_eq!(alive.len() + dead.len(), neighbors.len());
}

#[test]
fn blinker_oscillates_in_flat_model() {
    let mut cells = flat_grid(3, 3);
    set_alive_at(&mut cells, 0, 1);
    set_alive_at(&mut cells, 1, 1);
    set_alive_at(&mut cells, 2, 1);
    let gen1 = compute_next_generation(cells);
    assert_eq!(alive_positions(&gen1), vec![(1, 0), (1, 1), (1, 2)]);
    let gen2 = compute_next_generation(gen1);
    assert_eq!(alive_positions(&gen2), vec![(0, 1), (1, 1), (2, 1)]);
}

#[test]
fn next_generation_keeps_identity_and_position() {
    let mut cells = flat_grid(2, 2);
    set_alive_at(&mut cells, 0, 0);
    let before: Vec<(usize, u32, u32)> = cells.iter().map(|c| (c.id, c.x, c.y)).collect();
    let next = compute_next_generation(cells);
    let after: Vec<(usize, u32, u32)> = next.iter().map(|c| (c.id, c.x, c.y)).collect();
    assert_eq!(before, after);
    // A lone alive cell dies; no dead cell has three alive neighbors.
    assert!(alive_positions(&next).is_empty());
}

#[test]
fn flat_block_is_still_life() {
    let mut cells = flat_grid(4, 4);
    for &(x, y) in &[(1, 1), (2, 1), (1, 2), (2, 2)] {
        set_alive_at(&mut cells, x, y);
    }
    let next = compute_next_generation(cells);
    assert_eq!(alive_positions(&next), vec![(1, 1), (1, 2), (2, 1), (2, 2)]);
}
