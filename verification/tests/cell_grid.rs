use lib::cell_grid::CellGrid;

fn cells_of(rect: (f32, f32, f32, f32), cell: f32) -> (i32, i32, i32, i32) {
    (
        (rect.0 / cell).floor() as i32,
        (rect.1 / cell).floor() as i32,
        ((rect.0 + rect.2) / cell).floor() as i32,
        ((rect.1 + rect.3) / cell).floor() as i32,
    )
}

fn insert(grid: &mut CellGrid, idx: usize, rect: (f32, f32, f32, f32)) {
    let (x0, y0, x1, y1) = cells_of(rect, 20.0);
    grid.insert_block(idx, x0, y0, x1, y1);
}

fn query(grid: &CellGrid, rect: (f32, f32, f32, f32)) -> Vec<usize> {
    let (x0, y0, x1, y1) = cells_of(rect, 20.0);
    grid.query_block(x0, y0, x1, y1)
}

#[test]
fn cell_grid_query_finds_nearby_rect() {
    let mut grid = CellGrid::new();
    insert(&mut grid, 0, (10.0, 10.0, 30.0, 30.0));
    assert!(query(&grid, (15.0, 15.0, 5.0, 5.0)).contains(&0));
}

#[test]
fn cell_grid_query_misses_distant_rect() {
    let mut grid = CellGrid::new();
    insert(&mut grid, 0, (10.0, 10.0, 30.0, 30.0));
    assert!(query(&grid, (200.0, 200.0, 5.0, 5.0)).is_empty());
}

#[test]
fn cell_grid_insert_finds_new_item() {
    let mut grid = CellGrid::new();
    insert(&mut grid, 0, (50.0, 50.0, 10.0, 10.0));
    assert!(query(&grid, (55.0, 55.0, 1.0, 1.0)).contains(&0));
}

#[test]
fn cell_grid_query_lists_each_obstacle_once() {
    let mut grid = CellGrid::new();
    grid.insert_block(7, 0, 0, 2, 2);
    grid.insert_block(3, 1, 1, 1, 1);
    grid.insert_block(9, -3, -3, -2, -2);
    assert_eq!(grid.query_block(0, 0, 2, 2), vec![7, 3]);
    assert_eq!(grid.query_block(-5, -5, -1, -1), vec![9]);
    assert_eq!(grid.query_block(3, 3, 4, 4), Vec::<usize>::new());
    assert_eq!(grid.query_block(2, 2, 1, 1), Vec::<usize>::new());
}

#[test]
fn cell_grid_empty_block_inserts_nothing() {
    let mut grid = CellGrid::new();
    grid.insert_block(1, 5, 5, 4, 4);
    assert!(grid.query_block(-10, -10, 10, 10).is_empty());
}

#[test]
fn cell_grid_query_returns_hits_in_scan_order() {
    let mut grid = CellGrid::new();
    grid.insert_block(5, 1, 0, 1, 0);
    grid.insert_block(3, 0, 1, 0, 1);
    grid.insert_block(7, 0, 0, 0, 0);
    grid.insert_block(3, 1, 1, 1, 1);
    assert_eq!(grid.query_block(0, 0, 1, 1), vec![7, 3, 5]);
}
