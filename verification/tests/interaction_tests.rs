use fluid_sim::interaction::Pointer;

#[test]
fn press_draws_the_clamped_cell() {
    let mut p = Pointer::new();
    let a = p.step_clamped(true, Some((0, 600)), false);
    assert_eq!(a.walls, vec![(1, 510)]);
    assert!(a.restart_timer);
    assert!(p.mouse_down);
    assert_eq!(p.last_cell, Some((1, 510)));
}

#[test]
fn staying_on_a_cell_draws_nothing() {
    let mut p = Pointer::new();
    p.step_clamped(true, Some((10, 10)), true);
    let a = p.step_clamped(true, Some((10, 10)), true);
    assert!(a.walls.is_empty());
    assert!(!a.restart_timer);
}

#[test]
fn quick_drag_joins_cells_with_a_line() {
    let mut p = Pointer::new();
    p.step_clamped(true, Some((10, 10)), true);
    let a = p.step_clamped(true, Some((13, 11)), true);
    assert_eq!(a.walls, vec![(13, 11), (10, 10), (11, 10), (12, 11), (13, 11)]);
    assert!(a.restart_timer);
}

#[test]
fn slow_drag_draws_only_the_new_cell() {
    let mut p = Pointer::new();
    p.step_clamped(true, Some((10, 10)), true);
    let a = p.step_clamped(true, Some((13, 11)), false);
    assert_eq!(a.walls, vec![(13, 11)]);
}

#[test]
fn release_forgets_the_drag() {
    let mut p = Pointer::new();
    p.step_clamped(true, Some((10, 10)), true);
    let a = p.step_clamped(false, Some((10, 10)), true);
    assert!(a.walls.is_empty() && !a.restart_timer);
    assert!(!p.mouse_down);
    assert_eq!(p.last_cell, None);
    let b = p.step_clamped(true, Some((12, 12)), false);
    assert_eq!(b.walls, vec![(12, 12)]);
}

#[test]
fn pointer_outside_window_keeps_the_state() {
    let mut p = Pointer::new();
    let a = p.step_clamped(true, None, false);
    assert!(a.walls.is_empty());
    assert!(a.restart_timer);
    assert!(p.mouse_down);
    let b = p.step_clamped(true, None, false);
    assert!(!b.restart_timer);
}

#[test]
fn bounded_steps_ignore_cells_outside_the_grid() {
    let mut p = Pointer::new();
    let a = p.step_bounded(true, Some((70, 3)), true, 64, 64);
    assert!(a.walls.is_empty());
    assert_eq!(p.last_cell, None);
    let b = p.step_bounded(true, Some((62, 3)), true, 64, 64);
    assert_eq!(b.walls, vec![(62, 3)]);
    let c = p.step_bounded(true, Some((60, 4)), true, 64, 64);
    assert_eq!(c.walls, vec![(60, 4), (62, 3), (61, 3), (60, 4)]);
}
