use dla_scene::geometry::{BoundingBox, Vec3, COORD_LIMIT, DIST2_LIMIT, LENGTH_LIMIT};

fn boxed(lower: (i64, i64, i64), upper: (i64, i64, i64)) -> BoundingBox {
    BoundingBox::new(Vec3::new(lower.0, lower.1, lower.2), Vec3::new(upper.0, upper.1, upper.2))
        .unwrap()
}

#[test]
fn vector_has_given_components() {
    let v = Vec3::new(1, -2, 3);
    assert_eq!((v.x, v.y, v.z), (1, -2, 3));
}

#[test]
fn vector_sum_and_difference_are_component_wise() {
    let a = Vec3::new(1, 2, 3);
    let b = Vec3::new(10, -20, 30);
    assert_eq!(a.plus(b), Vec3::new(11, -18, 33));
    assert_eq!(a.minus(b), Vec3::new(-9, 22, -27));
}

#[test]
fn squared_distance_is_sum_of_squares() {
    assert_eq!(Vec3::new(1, 2, 3).dist2(Vec3::new(4, 6, 3)), 25);
    assert_eq!(Vec3::new(-1, -1, -1).dist2(Vec3::new(1, 1, 1)), 12);
    assert_eq!(Vec3::new(7, 7, 7).dist2(Vec3::new(7, 7, 7)), 0);
}

#[test]
fn squared_distance_across_the_whole_range() {
    let far = Vec3::new(COORD_LIMIT, COORD_LIMIT, COORD_LIMIT);
    let near = Vec3::new(-COORD_LIMIT, -COORD_LIMIT, -COORD_LIMIT);
    assert_eq!(far.dist2(near), DIST2_LIMIT);
}

#[test]
fn vector_along_an_axis_gets_the_whole_length() {
    assert_eq!(Vec3::new(5, 0, 0).with_length(3), Vec3::new(3, 0, 0));
    assert_eq!(Vec3::new(-5, 0, 0).with_length(3), Vec3::new(-3, 0, 0));
    assert_eq!(Vec3::new(0, 1, 0).with_length(7), Vec3::new(0, 7, 0));
    assert_eq!(Vec3::new(0, -1, 0).with_length(7), Vec3::new(0, -7, 0));
    assert_eq!(Vec3::new(0, 0, 2).with_length(1), Vec3::new(0, 0, 1));
    assert_eq!(Vec3::new(0, 0, -9).with_length(4), Vec3::new(0, 0, -4));
}

#[test]
fn oblique_vector_is_resized_exactly_where_its_length_is_whole() {
    assert_eq!(Vec3::new(3, 0, 4).with_length(10), Vec3::new(6, 0, 8));
    assert_eq!(Vec3::new(-3, 0, -4).with_length(5), Vec3::new(-3, 0, -4));
    assert_eq!(Vec3::new(2, -3, 6).with_length(70), Vec3::new(20, -30, 60));
    assert_eq!(Vec3::new(0, -8, 6).with_length(5), Vec3::new(0, -4, 3));
}

#[test]
fn resized_components_are_rounded_toward_zero() {
    // 2 / sqrt(2) = 1.41..; 1 / sqrt(3) = 0.57..
    assert_eq!(Vec3::new(1, 1, 0).with_length(2), Vec3::new(1, 1, 0));
    assert_eq!(Vec3::new(-1, 0, -1).with_length(2), Vec3::new(-1, 0, -1));
    assert_eq!(Vec3::new(1, 1, 1).with_length(1), Vec3::new(0, 0, 0));
    assert_eq!(Vec3::new(-1, -1, -1).with_length(1), Vec3::new(0, 0, 0));
    // 100 * (7, -2, 3) / sqrt(62) = (88.9.., -25.4.., 38.1..)
    assert_eq!(Vec3::new(7, -2, 3).with_length(100), Vec3::new(88, -25, 38));
    // 4 * (-5, 0, -10) / sqrt(125) = (-1.78.., 0, -3.57..)
    assert_eq!(Vec3::new(-5, 0, -10).with_length(4), Vec3::new(-1, 0, -3));
}

#[test]
fn zero_vector_stays_zero_and_zero_length_gives_zero() {
    assert_eq!(Vec3::new(0, 0, 0).with_length(5), Vec3::new(0, 0, 0));
    assert_eq!(Vec3::new(0, 0, 0).with_length(0), Vec3::new(0, 0, 0));
    assert_eq!(Vec3::new(3, -4, 5).with_length(0), Vec3::new(0, 0, 0));
}

#[test]
fn largest_vectors_and_lengths_are_resized() {
    let m = LENGTH_LIMIT;
    assert_eq!(Vec3::new(m, m, m).with_length(m), Vec3::new(619925131, 619925131, 619925131));
    assert_eq!(Vec3::new(-m, m, 0).with_length(m), Vec3::new(-759250124, 759250124, 0));
    assert_eq!(Vec3::new(1, 0, 0).with_length(m), Vec3::new(m, 0, 0));
    assert_eq!(Vec3::new(m, 0, 0).with_length(1), Vec3::new(1, 0, 0));
    assert_eq!(Vec3::new(m, 1, 0).with_length(m), Vec3::new(m - 1, 0, 0));
}

#[test]
fn resized_vector_is_no_longer_than_asked_and_nearly_as_long() {
    for v in [Vec3::new(1, 2, 3), Vec3::new(-17, 4, 0), Vec3::new(100, -100, 100), Vec3::new(0, 1, -1)] {
        for length in [0i64, 1, 2, 10, 1000, 123456] {
            let r = v.with_length(length);
            let origin = Vec3::new(0, 0, 0);
            assert!(r.dist2(origin) <= length * length);
            let short = Vec3::new(r.x.abs() + 1, r.y.abs() + 1, r.z.abs() + 1);
            assert!(short.dist2(origin) > length * length);
        }
    }
}

#[test]
fn box_keeps_its_corners() {
    let b = boxed((-1, -2, -3), (4, 5, 6));
    assert_eq!(b.lower(), Vec3::new(-1, -2, -3));
    assert_eq!(b.upper(), Vec3::new(4, 5, 6));
}

#[test]
fn box_with_unordered_corners_is_refused() {
    assert!(BoundingBox::new(Vec3::new(1, 0, 0), Vec3::new(0, 0, 0)).is_none());
    assert!(BoundingBox::new(Vec3::new(0, 1, 0), Vec3::new(0, 0, 0)).is_none());
    assert!(BoundingBox::new(Vec3::new(0, 0, 1), Vec3::new(0, 0, 0)).is_none());
}

#[test]
fn box_outside_coordinate_range_is_refused() {
    assert!(BoundingBox::new(Vec3::new(0, 0, 0), Vec3::new(COORD_LIMIT + 1, 0, 0)).is_none());
    assert!(BoundingBox::new(Vec3::new(0, -COORD_LIMIT - 1, 0), Vec3::new(0, 0, 0)).is_none());
    assert!(BoundingBox::new(Vec3::new(i64::MIN, 0, 0), Vec3::new(i64::MAX, 0, 0)).is_none());
}

#[test]
fn box_at_the_edge_of_the_coordinate_range_is_accepted() {
    let b = boxed(
        (-COORD_LIMIT, -COORD_LIMIT, -COORD_LIMIT),
        (COORD_LIMIT, COORD_LIMIT, COORD_LIMIT),
    );
    assert_eq!(b.center(), Vec3::new(0, 0, 0));
    assert_eq!(b.dimensions(), Vec3::new(2 * COORD_LIMIT, 2 * COORD_LIMIT, 2 * COORD_LIMIT));
    assert_eq!(b.volume(), 154_742_504_910_672_534_362_390_528_i128);
}

#[test]
fn single_point_box_is_accepted_and_degenerate() {
    let b = boxed((3, 3, 3), (3, 3, 3));
    assert!(b.is_degenerate());
    assert_eq!(b.volume(), 0);
    assert_eq!(b.dimensions(), Vec3::new(0, 0, 0));
}

#[test]
fn center_of_symmetric_box_is_origin() {
    assert_eq!(boxed((-1, -1, -1), (1, 1, 1)).center(), Vec3::new(0, 0, 0));
}

#[test]
fn center_rounds_toward_zero() {
    assert_eq!(boxed((0, 0, 0), (1, 3, 5)).center(), Vec3::new(0, 1, 2));
    assert_eq!(boxed((-1, -3, -5), (0, 0, 0)).center(), Vec3::new(0, -1, -2));
    assert_eq!(boxed((-4, -7, 2), (1, -2, 9)).center(), Vec3::new(-1, -4, 5));
}

#[test]
fn dimensions_are_differences_of_corners() {
    assert_eq!(boxed((-1, -2, -3), (4, 5, 6)).dimensions(), Vec3::new(5, 7, 9));
}

#[test]
fn volume_is_product_of_dimensions() {
    assert_eq!(boxed((-1, -2, -3), (4, 5, 6)).volume(), 315);
    assert_eq!(boxed((-1, -1, -1), (1, 1, 1)).volume(), 8);
}

#[test]
fn box_flat_along_any_axis_is_degenerate() {
    assert!(boxed((0, 0, 0), (0, 1, 1)).is_degenerate());
    assert!(boxed((0, 0, 0), (1, 0, 1)).is_degenerate());
    assert!(boxed((0, 0, 0), (1, 1, 0)).is_degenerate());
    assert!(!boxed((0, 0, 0), (1, 1, 1)).is_degenerate());
}

#[test]
fn box_contains_its_faces_and_nothing_beyond() {
    let b = boxed((-1, -2, -3), (4, 5, 6));
    assert!(b.contains(Vec3::new(-1, -2, -3)));
    assert!(b.contains(Vec3::new(4, 5, 6)));
    assert!(b.contains(Vec3::new(0, 0, 0)));
    assert!(!b.contains(Vec3::new(-2, 0, 0)));
    assert!(!b.contains(Vec3::new(0, 6, 0)));
    assert!(!b.contains(Vec3::new(0, 0, 7)));
}
