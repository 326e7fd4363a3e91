use hexmap::hexagons::{index_of_min, Coords};

fn hex_dist(a: &Coords, b: &Coords) -> i64 {
    let dx = (b.x - a.x) as i64;
    let dy = (b.y - a.y) as i64;
    (dx.abs() + dy.abs() + (dx + dy).abs()) / 2
}

#[test]
fn new_and_zero() {
    let c = Coords::new(3, -4);
    assert_eq!(c.x, 3);
    assert_eq!(c.y, -4);
    let z = Coords::zero();
    assert_eq!(z, Coords::new(0, 0));
}

#[test]
fn translate_sums_componentwise() {
    let c = Coords::new(2, -1);
    assert_eq!(c.translate(&Coords::new(5, 7)), Coords::new(7, 6));
    assert_eq!(c.translate(&Coords::new(0, 0)), c);
}

#[test]
fn directional_accessors_match_unit_offsets() {
    let c = Coords::new(10, -20);
    assert_eq!(c.to_left(), c.translate(&Coords::new(-1, 0)));
    assert_eq!(c.to_right(), c.translate(&Coords::new(1, 0)));
    assert_eq!(c.to_top_left(), c.translate(&Coords::new(-1, 1)));
    assert_eq!(c.to_top_right(), c.translate(&Coords::new(0, 1)));
    assert_eq!(c.to_bottom_left(), c.translate(&Coords::new(0, -1)));
    assert_eq!(c.to_bottom_right(), c.translate(&Coords::new(1, -1)));
}

#[test]
fn around_radius_one_is_six_neighbors_plus_center() {
    let c = Coords::new(0, 0);
    let ring = Coords::around(0, 0, 1);
    assert_eq!(ring.len(), 7);
    assert_eq!(
        ring,
        vec![
            c.to_bottom_left(),
            c.to_bottom_right(),
            c.to_left(),
            c,
            c.to_right(),
            c.to_top_left(),
            c.to_top_right(),
        ]
    );
}

#[test]
fn around_counts_are_centered_hexagonal_numbers() {
    for r in 0..4 {
        let got = Coords::around(2, -7, r);
        let r64 = r as i64;
        assert_eq!(got.len() as i64, 3 * r64 * r64 + 3 * r64 + 1);
    }
}

#[test]
fn around_is_distinct_within_radius_and_contains_center() {
    let center = Coords::new(5, -3);
    let got = Coords::around_coords(&center, 2);
    for i in 0..got.len() {
        for j in 0..i {
            assert_ne!(got[i], got[j]);
        }
        assert!(hex_dist(&center, &got[i]) <= 2);
    }
    assert!(got.contains(&center));
}

#[test]
fn around_radius_zero_is_center_only() {
    assert_eq!(Coords::around(9, 9, 0), vec![Coords::new(9, 9)]);
}

#[test]
fn index_of_min_first_strict_minimum_wins() {
    assert_eq!(index_of_min(&vec![3, 1, 2, 1]), 1);
    assert_eq!(index_of_min(&vec![5, 5, 5]), 0);
    assert_eq!(index_of_min(&vec![8]), 0);
    assert_eq!(index_of_min(&vec![2, 3, 1]), 2);
}
