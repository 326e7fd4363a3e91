use hexmap::hexagons::Coords;
use hexmap::sparse::{Axis, Grid};

#[test]
fn fresh_axis_reads_default_everywhere() {
    let axis: Axis<i32> = Axis::new(42);
    for i in [0, 1, 5, 1000, -1, -5, -1000] {
        assert_eq!(*axis.get(i), 42);
    }
}

#[test]
fn axis_set_then_get_does_not_disturb_neighbors() {
    let mut axis: Axis<i32> = Axis::new(0);
    axis.set(3, 7);
    assert_eq!(*axis.get(3), 7);
    assert_eq!(*axis.get(2), 0);
    assert_eq!(*axis.get(4), 0);
    assert_eq!(*axis.get(-3), 0);
    axis.set(-5, 9);
    assert_eq!(*axis.get(-5), 9);
    assert_eq!(*axis.get(-4), 0);
    assert_eq!(*axis.get(-6), 0);
    assert_eq!(*axis.get(3), 7);
    axis.set(3, 11);
    assert_eq!(*axis.get(3), 11);
    assert_eq!(*axis.get(-5), 9);
}

#[test]
fn axis_touch_materializes_without_writing() {
    let mut axis: Axis<u64> = Axis::new(5);
    axis.touch(100);
    axis.touch(-100);
    for i in [0, 50, 100, 101, -1, -100, -101] {
        assert_eq!(*axis.get(i), 5);
    }
}

#[test]
fn fresh_grid_reads_default_everywhere() {
    let grid: Grid<i32> = Grid::new(-9);
    for (x, y) in [(0, 0), (3, 4), (-2, 7), (5, -6), (-8, -8), (100, -100)] {
        assert_eq!(*grid.get(&Coords::new(x, y)), -9);
    }
}

#[test]
fn grid_set_then_get_does_not_disturb_neighbors() {
    let mut grid: Grid<i32> = Grid::new(0);
    grid.set(&Coords::new(2, -3), 17);
    assert_eq!(*grid.get(&Coords::new(2, -3)), 17);
    assert_eq!(*grid.get(&Coords::new(2, -2)), 0);
    assert_eq!(*grid.get(&Coords::new(1, -3)), 0);
    assert_eq!(*grid.get(&Coords::new(-2, 3)), 0);
    grid.set(&Coords::new(-4, 5), 23);
    assert_eq!(*grid.get(&Coords::new(-4, 5)), 23);
    assert_eq!(*grid.get(&Coords::new(2, -3)), 17);
}

#[test]
fn ensure_bounds_changes_no_cell() {
    let mut grid: Grid<i32> = Grid::new(1);
    grid.set(&Coords::new(0, 0), 5);
    grid.ensure_bounds(-20, 20, -20, 20);
    assert_eq!(*grid.get(&Coords::new(0, 0)), 5);
    for (x, y) in [(-20, -20), (20, 20), (-20, 20), (20, -20), (7, -7)] {
        assert_eq!(*grid.get(&Coords::new(x, y)), 1);
    }
}

#[test]
fn with_ensured_bounds_chains() {
    let grid: Grid<u32> = Grid::new(3).with_ensured_bounds(-5, 5, -5, 5);
    assert_eq!(*grid.get(&Coords::new(-5, -5)), 3);
    assert_eq!(*grid.get(&Coords::new(5, 5)), 3);
    assert_eq!(*grid.get(&Coords::new(0, 0)), 3);
}
