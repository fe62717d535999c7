use fun_with_mazes::{Dir, ANY, DOWN, LEFT, RIGHT, UP};

fn d(b: u8) -> Dir {
    Dir::from_bits(b)
}

#[test]
fn rotations_are_inverse() {
    for b in 0u8..16 {
        assert_eq!(d(b).left().right(), d(b));
        assert_eq!(d(b).right().left(), d(b));
    }
}

#[test]
fn four_rotations_are_identity() {
    for b in 0u8..16 {
        assert_eq!(d(b).left().left().left().left(), d(b));
        assert_eq!(d(b).right().right().right().right(), d(b));
    }
}

#[test]
fn all_directions_fixed_by_rotation() {
    assert_eq!(d(ANY).left(), d(ANY));
    assert_eq!(d(ANY).right(), d(ANY));
}

#[test]
fn rotation_ring_order() {
    assert_eq!(d(LEFT).left(), d(DOWN));
    assert_eq!(d(DOWN).left(), d(RIGHT));
    assert_eq!(d(RIGHT).left(), d(UP));
    assert_eq!(d(UP).left(), d(LEFT));
    assert_eq!(d(LEFT).right(), d(UP));
    assert_eq!(d(UP | RIGHT).right(), d(RIGHT | DOWN));
}

#[test]
fn vec_of_same_point_is_empty() {
    assert_eq!(Dir::vec((3, 4), (3, 4)).as_bits(), 0);
    assert_eq!(Dir::vec((0, 0), (0, 0)).as_bits(), 0);
}

#[test]
fn vec_flags() {
    assert_eq!(Dir::vec((0, 0), (2, 3)).as_bits(), LEFT | UP);
    assert_eq!(Dir::vec((2, 3), (0, 0)).as_bits(), RIGHT | DOWN);
    assert_eq!(Dir::vec((1, 5), (4, 5)).as_bits(), LEFT);
    assert_eq!(Dir::vec((1, 5), (1, 2)).as_bits(), DOWN);
}

#[test]
fn min_rotation_of_empty_is_never_zero() {
    for t in 0u8..16 {
        assert_eq!(d(0).min_rotation(d(t)), 4);
    }
}

#[test]
fn min_rotation_values() {
    assert_eq!(d(LEFT).min_rotation(d(RIGHT)), 2);
    assert_eq!(d(LEFT).min_rotation(d(UP)), 1);
    assert_eq!(d(LEFT).min_rotation(d(DOWN)), 1);
    assert_eq!(d(LEFT).min_rotation(d(0)), 0);
    assert_eq!(d(LEFT).min_rotation(d(LEFT)), 0);
    assert_eq!(d(ANY).min_rotation(d(ANY)), 3);
    assert_eq!(d(LEFT | RIGHT).min_rotation(d(UP | LEFT)), 1);
    assert_eq!(d(UP).min_rotation(d(LEFT | RIGHT)), 3);
}

#[test]
fn has_all_and_union() {
    assert!(d(ANY).has_all(d(LEFT | DOWN)));
    assert!(!d(LEFT).has_all(d(LEFT | DOWN)));
    assert!(d(LEFT).has_all(d(0)));
    assert_eq!(d(LEFT).union(d(UP)).as_bits(), LEFT | UP);
    assert_eq!(d(LEFT).union(d(LEFT)), d(LEFT));
}
