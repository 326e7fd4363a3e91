use hexmap::quad_tree::QuadTree;
use std::rc::Rc;

// The region below is the unit square scenario scaled by two, so that
// every midpoint and sample point is an integer: root rectangle
// (0, 0, 8, 8) with maximum depth 2 subdivides into 2x2 cells.
#[test]
fn scenario_write_one_corner_cell() {
    let mut tree: QuadTree<i32> = QuadTree::new(0, 0, 8, 8, 2, 0);
    tree.set_data(7, 7, &Rc::new(1));
    assert_eq!(*tree.get_data(7, 7), 1);
    assert_eq!(*tree.get_data(1, 1), 0);
    assert_eq!(*tree.get_data(7, 1), 0);
    assert_eq!(*tree.get_data(1, 7), 0);
}

#[test]
fn fresh_tree_is_uniform_single_leaf() {
    let tree: QuadTree<u32> = QuadTree::new(-4, -4, 8, 8, 3, 9);
    assert!(tree.is_single_leaf());
    for (x, y) in [(-4, 4), (0, 0), (3, -3), (-1, 2)] {
        assert_eq!(*tree.get_data(x, y), 9);
    }
}

#[test]
fn set_twice_is_same_as_once() {
    let mut once: QuadTree<i32> = QuadTree::new(0, 0, 8, 8, 2, 0);
    let mut twice: QuadTree<i32> = QuadTree::new(0, 0, 8, 8, 2, 0);
    once.set_data(7, 7, &Rc::new(1));
    twice.set_data(7, 7, &Rc::new(1));
    twice.set_data(7, 7, &Rc::new(1));
    assert_eq!(once.is_single_leaf(), twice.is_single_leaf());
    for x in 0..9 {
        for y in 0..9 {
            assert_eq!(*once.get_data(x, y), *twice.get_data(x, y));
        }
    }
}

#[test]
fn writing_old_value_back_everywhere_collapses_the_tree() {
    let mut tree: QuadTree<i32> = QuadTree::new(0, 0, 8, 8, 2, 0);
    let one = Rc::new(1);
    let zero = Rc::new(0);
    // Fragment the tree: one write near the center of each quadrant.
    for (x, y) in [(2, 6), (6, 6), (2, 2), (6, 2)] {
        tree.set_data(x, y, &one);
    }
    assert!(!tree.is_single_leaf());
    // Write the original value back at the same points: every merge
    // cascades and the tree returns to a single leaf.
    for (x, y) in [(2, 6), (6, 6), (2, 2), (6, 2)] {
        tree.set_data(x, y, &zero);
    }
    assert!(tree.is_single_leaf());
    for x in 0..9 {
        for y in 0..9 {
            assert_eq!(*tree.get_data(x, y), 0);
        }
    }
}

#[test]
fn midline_points_go_bottom_and_right() {
    let mut tree: QuadTree<i32> = QuadTree::new(0, 0, 8, 8, 1, 0);
    // (4, 4) sits on both midlines: bottom half, right half.
    tree.set_data(4, 4, &Rc::new(5));
    assert_eq!(*tree.get_data(4, 4), 5);
    assert_eq!(*tree.get_data(5, 1), 5);
    assert_eq!(*tree.get_data(3, 4), 0);
    assert_eq!(*tree.get_data(4, 5), 0);
    assert_eq!(*tree.get_data(1, 1), 0);
}

#[test]
fn writes_spread_to_the_whole_cell_and_nowhere_else() {
    let mut tree: QuadTree<i32> = QuadTree::new(0, 0, 8, 8, 2, 0);
    tree.set_data(1, 1, &Rc::new(3));
    // Cells at maximum depth are 2x2; (1, 1) lies in the cell covering
    // x in {0, 1}, y in {1, 2} of the bottom-left quadrant.
    assert_eq!(*tree.get_data(0, 1), 3);
    assert_eq!(*tree.get_data(1, 2), 3);
    assert_eq!(*tree.get_data(2, 1), 0);
    assert_eq!(*tree.get_data(1, 3), 0);
}

#[test]
fn one_shared_value_can_back_many_cells() {
    let mut tree: QuadTree<u64> = QuadTree::new(0, 0, 8, 8, 2, 100);
    let b = Rc::new(200u64);
    tree.set_data(1, 1, &b);
    tree.set_data(7, 7, &b);
    assert_eq!(*tree.get_data(1, 1), 200);
    assert_eq!(*tree.get_data(7, 7), 200);
    assert_eq!(*tree.get_data(5, 1), 100);
    assert!(Rc::strong_count(&b) >= 3);
}
