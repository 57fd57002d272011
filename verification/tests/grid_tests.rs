use fluid_sim::grid::{CellInit, Grid, Shape, N, SIDE, SIZE};

fn wall(g: &Grid, i: usize, j: usize) -> bool {
    g.is_wall(g.to_index(i, j))
}

fn wall_count(g: &Grid) -> usize {
    (0..SIZE).filter(|&k| g.is_wall(k)).count()
}

#[test]
fn new_grid_has_no_walls() {
    let g = Grid::new();
    assert_eq!(wall_count(&g), 0);
}

#[test]
fn outer_walls_ring_the_grid() {
    let mut g = Grid::new();
    g.set_outer_walls();
    assert_eq!(wall_count(&g), 4 * SIDE - 4);
    assert!(wall(&g, 0, 0) && wall(&g, 511, 300) && wall(&g, 200, 511));
    assert!(!wall(&g, 1, 1));
}

#[test]
fn indices_and_bounds() {
    let g = Grid::new();
    assert!(g.in_bounds(1, 1) && g.in_bounds(N, N));
    assert!(!g.in_bounds(0, 5) && !g.in_bounds(5, N + 1));
    assert_eq!(g.to_index(3, 5), 39);
    assert_eq!(g.decode_index(39), (3, 5));
    assert_eq!(g.try_index(511, 511), Some(SIZE - 1));
    assert_eq!(g.try_index(512, 0), None);
    assert_eq!(g.try_index(0usize.wrapping_sub(1), 3), None);
}

#[test]
fn iter_morton_lists_every_cell() {
    let g = Grid::new();
    let cells = g.iter_morton();
    assert_eq!(cells.len(), SIZE);
    assert_eq!(cells[0], (0, 0, 0));
    assert_eq!(cells[39], (3, 5, 39));
    for (k, &(i, j, idx)) in cells.iter().enumerate() {
        assert_eq!(idx, k);
        assert_eq!(g.to_index(i, j), k);
    }
}

#[test]
fn wall_init_statuses() {
    let mut g = Grid::new();
    // row 5, column 7: the cell (7, 5)
    assert_eq!(g.wall_init(5, 7, true), CellInit::Applied);
    assert!(wall(&g, 7, 5));
    assert!(!wall(&g, 5, 7));
    // walls are never changed
    assert_eq!(g.wall_init(5, 7, false), CellInit::IsWall);
    assert!(wall(&g, 7, 5));
    assert_eq!(g.wall_init(N + 2, 0, true), CellInit::OutOfBounds);
    assert_eq!(g.wall_init(3, 3, false), CellInit::Applied);
    assert!(!wall(&g, 3, 3));
}

#[test]
fn square_and_rectangle() {
    let mut g = Grid::new();
    g.square(100, 100, 2);
    assert_eq!(wall_count(&g), 25);
    assert!(wall(&g, 98, 102) && !wall(&g, 97, 100));
    let mut g = Grid::new();
    g.rectangle(10, 20, 3, 1);
    assert_eq!(wall_count(&g), 21);
    assert!(wall(&g, 13, 21) && !wall(&g, 10, 22));
}

#[test]
fn square_is_clipped_to_the_area() {
    let mut g = Grid::new();
    g.square(0, 0, 1);
    // only (0,0), (1,0), (0,1), (1,1) lie in the area
    assert_eq!(wall_count(&g), 4);
    let mut g = Grid::new();
    g.square(N as isize, N as isize, 1);
    // the ghost row and column 511 are left alone
    assert_eq!(wall_count(&g), 4);
    assert!(!wall(&g, 511, 511));
}

#[test]
fn circle_cells() {
    let mut g = Grid::new();
    g.circle(50, 50, 4);
    assert_eq!(wall_count(&g), 13);
    assert!(wall(&g, 52, 50) && !wall(&g, 52, 51));
    let mut g = Grid::new();
    g.circle(0, 0, 9);
    assert_eq!(wall_count(&g), 11);
}

#[test]
fn triangle_rows() {
    let mut g = Grid::new();
    g.triangle(100, 100, 4, 2);
    assert_eq!(wall_count(&g), 16);
    // base row 104 has one cell, the row three above has seven
    assert!(wall(&g, 100, 104) && !wall(&g, 99, 104));
    assert!(wall(&g, 97, 101) && wall(&g, 103, 101));
    let mut g = Grid::new();
    g.triangle(100, 100, 3, -2);
    assert_eq!(wall_count(&g), 1);
    assert!(wall(&g, 100, 103));
    let mut g = Grid::new();
    g.triangle(100, 100, 0, 5);
    assert_eq!(wall_count(&g), 0);
}

#[test]
fn triangle_outline_cells() {
    let mut g = Grid::new();
    g.triangle_outline(100, 100, 6, 3);
    assert_eq!(wall_count(&g), 18);
    for &(i, j) in &[(100usize, 97usize), (97, 103), (103, 103), (98, 100), (102, 101)] {
        assert!(wall(&g, i, j));
    }
    assert!(!wall(&g, 100, 100));
}

#[test]
fn place_object_dispatches() {
    let mut a = Grid::new();
    a.place_object(50, 50, Shape::Circle { radius_sq: 4 });
    assert_eq!(wall_count(&a), 13);
    let mut b = Grid::new();
    b.place_object(100, 100, Shape::Square { half_side: 2 });
    assert_eq!(wall_count(&b), 25);
    let mut c = Grid::new();
    c.place_object(100, 100, Shape::Triangle { height: 4, half_base: 2 });
    assert_eq!(wall_count(&c), 16);
    let mut d = Grid::new();
    d.place_object(10, 20, Shape::Rectangle { half_width: 3, half_height: 1 });
    assert_eq!(wall_count(&d), 21);
}

#[test]
fn identify_objects_numbers_connected_walls() {
    let mut g = Grid::new();
    g.square(10, 10, 1);
    g.square(30, 30, 1);
    // a wall touching the first square by its side joins it
    assert_eq!(g.wall_init(10, 12, true), CellInit::Applied);
    // a wall touching the second only by a corner stays apart
    assert_eq!(g.wall_init(40, 40, true), CellInit::Applied);
    assert_eq!(g.wall_init(32, 32, true), CellInit::Applied);
    let ids = g.identify_objects();
    assert_eq!(ids.len(), SIZE);
    let id = |i: usize, j: usize| ids[g.to_index(i, j)];
    assert_eq!(id(9, 9), 1);
    assert_eq!(id(11, 11), 1);
    assert_eq!(id(12, 10), 1);
    assert_eq!(id(30, 30), 2);
    assert_eq!(id(29, 31), 2);
    assert_eq!(id(32, 32), 3);
    assert_eq!(id(40, 40), 4);
    assert_eq!(id(20, 20), 0);
    assert_eq!(ids.iter().copied().max(), Some(4));
}

#[test]
fn identify_objects_on_empty_grid() {
    let g = Grid::new();
    let ids = g.identify_objects();
    assert!(ids.iter().all(|&k| k == 0));
}

#[test]
fn wind_tunnel_walls_and_box() {
    let mut g = Grid::new();
    let fill = g.initialize_wind_tunnel(&[5, 10]);
    assert_eq!(wall_count(&g), 510 + 508);
    assert!(wall(&g, 1, 5) && !wall(&g, 18, 5) && wall(&g, 18, 6));
    assert!(!wall(&g, 1, 0) && !wall(&g, 1, 511));
    assert_eq!(fill.len(), 11 * 508);
    assert_eq!(fill[0], g.to_index(3, 2));
    assert_eq!(fill[1], g.to_index(3, 3));
    assert_eq!(*fill.last().unwrap(), g.to_index(13, N - 1));
}

#[test]
fn karman_vortex_setup() {
    let mut g = Grid::new();
    let fill = g.setup_karman_vortex();
    assert_eq!(wall_count(&g), 17449);
    assert!(wall(&g, 85, 256));
    assert_eq!(fill.len(), 7010);
    assert_eq!(fill[0], g.to_index(1, 1));
}

#[test]
fn open_cells_skips_walls() {
    let mut g = Grid::new();
    assert_eq!(g.wall_init(3, 2, true), CellInit::Applied);
    let cells = g.open_cells(2, 3, 2, 3);
    assert_eq!(cells, vec![g.to_index(2, 2), g.to_index(3, 2), g.to_index(3, 3)]);
}

#[test]
fn set_wall_and_is_wall() {
    let mut g = Grid::new();
    let k = g.to_index(4, 9);
    g.set_wall(k, true);
    assert!(g.is_wall(k));
    g.set_wall(k, false);
    assert!(!g.is_wall(k));
}

#[test]
fn wall_rows_follow_rows_and_columns() {
    let mut g = Grid::new();
    g.set_wall(g.to_index(3, 7), true);
    g.set_wall(g.to_index(SIDE - 1, 0), true);
    let rows = g.wall_rows();
    assert_eq!(rows.len(), SIDE);
    assert!(rows.iter().all(|r| r.len() == SIDE));
    assert!(rows[7][3]);
    assert!(!rows[3][7]);
    assert!(rows[0][SIDE - 1]);
    assert_eq!(rows.iter().flatten().filter(|&&w| w).count(), 2);
}
