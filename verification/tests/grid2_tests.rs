use fluid_sim::grid::CellInit;
use fluid_sim::grid2::{Cell2Type, DoubleBuffer, Grid2};

fn solid_count(g: &Grid2) -> usize {
    (0..g.len()).filter(|&k| g.cell_type(k) == Cell2Type::Solid).count()
}

fn kind(g: &Grid2, i: usize, j: usize) -> Cell2Type {
    g.cell_type(g.idx(i, j))
}

#[test]
fn new_rounds_up_to_powers_of_two() {
    let g = Grid2::new(510, 510);
    assert_eq!((g.width(), g.height(), g.len()), (512, 512, 512 * 512));
    let g = Grid2::new(3, 3);
    assert_eq!((g.width(), g.height()), (4, 4));
    let g = Grid2::new(5, 3);
    assert_eq!((g.width(), g.height(), g.len()), (8, 4, 32));
    let g = Grid2::new(0, 0);
    assert_eq!((g.width(), g.height()), (1, 1));
}

#[test]
fn new_walls_the_outer_ring() {
    let g = Grid2::new(510, 510);
    assert_eq!(solid_count(&g), 4 * 512 - 4);
    assert_eq!(kind(&g, 0, 7), Cell2Type::Solid);
    assert_eq!(kind(&g, 511, 7), Cell2Type::Solid);
    assert_eq!(kind(&g, 7, 511), Cell2Type::Solid);
    assert_eq!(kind(&g, 7, 7), Cell2Type::Fluid);
    let g = Grid2::new(5, 3);
    assert_eq!(solid_count(&g), 2 * 8 + 2 * 4 - 4);
    assert_eq!(kind(&g, 7, 2), Cell2Type::Solid);
    assert_eq!(kind(&g, 6, 2), Cell2Type::Fluid);
}

#[test]
fn indices_bounds_and_cache() {
    let g = Grid2::new(8, 8);
    assert_eq!(g.idx(3, 5), 39);
    assert_eq!(g.decode_idx(39), (3, 5));
    assert_eq!(g.decode_idx(1000), (24, 30));
    assert!(g.in_bounds(7, 7) && !g.in_bounds(8, 0));
    assert!(g.in_simulation_bounds(1, 6) && !g.in_simulation_bounds(0, 3) && !g.in_simulation_bounds(7, 3));
    assert_eq!(g.try_idx(3, 5), Some(39));
    assert_eq!(g.try_idx(8, 5), None);
}

#[test]
fn iteration_orders() {
    let g = Grid2::new(4, 4);
    let all = g.iter_morton();
    assert_eq!(all.len(), 16);
    assert_eq!(all[3], (1, 1, 3));
    let sim = g.iter_simulation_cells();
    assert_eq!(sim, vec![(1, 1, 3), (2, 1, 6), (1, 2, 9), (2, 2, 12)]);
}

#[test]
fn wall_init_sets_and_clears() {
    let mut g = Grid2::new(8, 8);
    assert_eq!(g.wall_init(3, 4, true), CellInit::Applied);
    assert_eq!(kind(&g, 3, 4), Cell2Type::Solid);
    assert_eq!(g.wall_init(3, 4, false), CellInit::Applied);
    assert_eq!(kind(&g, 3, 4), Cell2Type::Fluid);
    assert_eq!(g.wall_init(0, 0, false), CellInit::Applied);
    assert_eq!(kind(&g, 0, 0), Cell2Type::Fluid);
    assert_eq!(g.wall_init(8, 0, true), CellInit::OutOfBounds);
}

#[test]
fn identify_objects_ring_and_inner_block() {
    let mut g = Grid2::new(8, 8);
    let ids = g.identify_objects();
    assert_eq!(ids[g.idx(0, 0)], 1);
    assert_eq!(ids[g.idx(7, 7)], 1);
    assert_eq!(ids[g.idx(3, 3)], 0);
    assert_eq!(g.wall_init(3, 3, true), CellInit::Applied);
    assert_eq!(g.wall_init(4, 3, true), CellInit::Applied);
    let ids = g.identify_objects();
    assert_eq!(ids[g.idx(3, 3)], 2);
    assert_eq!(ids[g.idx(4, 3)], 2);
    assert_eq!(ids.iter().copied().max(), Some(2));
}

#[test]
fn circle_stays_off_the_ring() {
    let mut g = Grid2::new(8, 8);
    let before = solid_count(&g);
    g.circle(4, 4, 1);
    assert_eq!(solid_count(&g), before + 5);
    assert_eq!(kind(&g, 4, 5), Cell2Type::Solid);
    assert_eq!(kind(&g, 5, 5), Cell2Type::Fluid);
}

#[test]
fn wind_tunnel_on_small_grid() {
    let mut g = Grid2::new(64, 64);
    let (fill, jets) = g.initialize_wind_tunnel(&[10]);
    assert_eq!(kind(&g, 1, 5), Cell2Type::Solid);
    assert_eq!(kind(&g, 3, 5), Cell2Type::Solid);
    assert_eq!(kind(&g, 3, 10), Cell2Type::Fluid);
    assert_eq!(fill.len(), 62);
    assert_eq!(fill[0], g.idx(2, 1));
    assert_eq!(jets, vec![g.idx(3, 10), g.idx(4, 10), g.idx(5, 10), g.idx(6, 10), g.idx(7, 10)]);
}

#[test]
fn karman_setup_on_small_grid() {
    let mut g = Grid2::new(32, 32);
    let fill = g.setup_karman_vortex(4);
    // the disc of squared radius 4 around (5, 17)
    assert_eq!(kind(&g, 5, 17), Cell2Type::Solid);
    assert_eq!(kind(&g, 7, 17), Cell2Type::Solid);
    assert_eq!(kind(&g, 7, 18), Cell2Type::Fluid);
    assert_eq!(fill.len(), 14 * 30 - 13);
    assert_eq!(fill[0], g.idx(1, 1));
}

#[test]
fn fluid_cells_on_rows_lists_rows_in_order() {
    let mut g = Grid2::new(8, 8);
    assert_eq!(g.wall_init(2, 3, true), CellInit::Applied);
    let cells = g.fluid_cells_on_rows(&[3, 1], 1, 4);
    assert_eq!(cells, vec![g.idx(1, 3), g.idx(3, 3), g.idx(1, 1), g.idx(2, 1), g.idx(3, 1)]);
}

#[test]
fn cell_kinds() {
    let mut t = Cell2Type::default();
    assert_eq!(t, Cell2Type::Fluid);
    assert!(!t.is_solid());
    t.set_solid(true);
    assert!(t.is_solid());
    t.set_solid(false);
    assert_eq!(t, Cell2Type::Fluid);
}

#[test]
fn double_buffer_swap() {
    let mut b = DoubleBuffer::new(3i32);
    assert_eq!((b.front, b.back), (3, 3));
    b.back = 8;
    b.swap();
    assert_eq!((b.front, b.back), (8, 3));
    b.swap();
    assert_eq!((b.front, b.back), (3, 8));
}

#[test]
fn solid_rows_show_the_ring() {
    let mut g = Grid2::new(5, 3);
    let _ = g.wall_init(2, 1, true);
    let rows = g.solid_rows();
    assert_eq!(rows.len(), 4);
    assert!(rows.iter().all(|r| r.len() == 8));
    assert_eq!(rows[0], vec![true; 8]);
    assert_eq!(rows[3], vec![true; 8]);
    assert_eq!(rows[1], vec![true, false, true, false, false, false, false, true]);
    assert_eq!(rows[2], vec![true, false, false, false, false, false, false, true]);
}
