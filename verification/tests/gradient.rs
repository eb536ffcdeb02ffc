use dla_scene::aggregate::Aggregate;
use dla_scene::geometry::{BoundingBox, Vec3};
use dla_scene::gradient::{color_of_bucket, gradient_buckets, Color, ColorBucket, SHELLS};

fn aggregate_in(half: i64, cells: Vec<Vec3>) -> Aggregate {
    let bbox = BoundingBox::new(Vec3::new(-half, -half, -half), Vec3::new(half, half, half))
        .unwrap();
    Aggregate::new(cells, bbox).unwrap()
}

fn cells_of(buckets: &[ColorBucket]) -> Vec<Vec<Vec3>> {
    buckets.iter().map(|b| b.cells.clone()).collect()
}

#[test]
fn bucket_colors_are_the_scaled_base_colors() {
    assert_eq!(color_of_bucket(0), Color { r: 34, g: 70, b: 3 });
    assert_eq!(color_of_bucket(1), Color { r: 68, g: 140, b: 6 });
    assert_eq!(color_of_bucket(2), Color { r: 102, g: 210, b: 9 });
    assert_eq!(color_of_bucket(3), Color { r: 85, g: 84, b: 0 });
    assert_eq!(color_of_bucket(4), Color { r: 170, g: 168, b: 0 });
    assert_eq!(color_of_bucket(5), Color { r: 255, g: 252, b: 0 });
}

#[test]
fn bucket_colors_brighten_within_each_band() {
    for band in 0..2u64 {
        for step in 0..2u64 {
            let darker = color_of_bucket(band * 3 + step);
            let brighter = color_of_bucket(band * 3 + step + 1);
            assert!(darker.r <= brighter.r);
            assert!(darker.g <= brighter.g);
            assert!(darker.b <= brighter.b);
        }
    }
}

#[test]
fn gradient_has_one_bucket_per_shell_with_its_color() {
    let buckets = gradient_buckets(&aggregate_in(1, vec![Vec3::new(0, 0, 0)]));
    assert_eq!(buckets.len() as u64, SHELLS);
    for (i, bucket) in buckets.iter().enumerate() {
        assert_eq!(bucket.color, color_of_bucket(i as u64));
    }
}

#[test]
fn single_cell_lands_in_first_bucket() {
    let buckets = gradient_buckets(&aggregate_in(1, vec![Vec3::new(0, 0, 0)]));
    assert_eq!(
        cells_of(&buckets),
        vec![vec![Vec3::new(0, 0, 0)], vec![], vec![], vec![], vec![], vec![]]
    );
}

#[test]
fn single_cell_off_center_lands_in_last_bucket() {
    // the largest distance is 1; the limits of the shells are 0, 0, 0, 0, 0, 1
    let buckets = gradient_buckets(&aggregate_in(1, vec![Vec3::new(1, 0, 0)]));
    assert_eq!(
        cells_of(&buckets),
        vec![vec![], vec![], vec![], vec![], vec![], vec![Vec3::new(1, 0, 0)]]
    );
}

#[test]
fn cells_at_squares_up_to_25_fill_the_shells_by_their_limits() {
    // squared distances 0, 1, 4, 9, 16, 25; limits 4, 8, 12, 16, 20, 25
    let cells = (0..6).map(|x| Vec3::new(x, 0, 0)).collect();
    let buckets = gradient_buckets(&aggregate_in(5, cells));
    assert_eq!(
        cells_of(&buckets),
        vec![
            vec![Vec3::new(0, 0, 0), Vec3::new(1, 0, 0), Vec3::new(2, 0, 0)],
            vec![],
            vec![Vec3::new(3, 0, 0)],
            vec![Vec3::new(4, 0, 0)],
            vec![],
            vec![Vec3::new(5, 0, 0)],
        ]
    );
}

#[test]
fn cells_are_sorted_by_distance_whatever_their_order() {
    let cells = vec![
        Vec3::new(5, 0, 0),
        Vec3::new(2, 0, 0),
        Vec3::new(0, 0, 0),
        Vec3::new(4, 0, 0),
        Vec3::new(1, 0, 0),
        Vec3::new(3, 0, 0),
    ];
    let buckets = gradient_buckets(&aggregate_in(5, cells));
    assert_eq!(
        cells_of(&buckets),
        vec![
            vec![Vec3::new(0, 0, 0), Vec3::new(1, 0, 0), Vec3::new(2, 0, 0)],
            vec![],
            vec![Vec3::new(3, 0, 0)],
            vec![Vec3::new(4, 0, 0)],
            vec![],
            vec![Vec3::new(5, 0, 0)],
        ]
    );
}

#[test]
fn cells_at_equal_distance_keep_their_order() {
    let cells = vec![
        Vec3::new(0, 0, -3),
        Vec3::new(0, 1, 0),
        Vec3::new(-1, 0, 0),
        Vec3::new(0, 0, 1),
        Vec3::new(1, 0, 0),
        Vec3::new(0, -1, 0),
        Vec3::new(0, 0, 0),
    ];
    // the largest distance is 9; the limits are 1, 3, 4, 6, 7, 9
    let buckets = gradient_buckets(&aggregate_in(3, cells));
    assert_eq!(
        cells_of(&buckets),
        vec![
            vec![
                Vec3::new(0, 0, 0),
                Vec3::new(0, 1, 0),
                Vec3::new(-1, 0, 0),
                Vec3::new(0, 0, 1),
                Vec3::new(1, 0, 0),
                Vec3::new(0, -1, 0),
            ],
            vec![],
            vec![],
            vec![],
            vec![],
            vec![Vec3::new(0, 0, -3)],
        ]
    );
}

#[test]
fn distance_is_measured_from_the_center_of_the_box() {
    // center (2, 0, 0); squared distances 4, 0 and 4; limits 0, 1, 2, 2, 3, 4
    let bbox = BoundingBox::new(Vec3::new(0, -2, -2), Vec3::new(4, 2, 2)).unwrap();
    let cells = vec![Vec3::new(0, 0, 0), Vec3::new(2, 0, 0), Vec3::new(4, 0, 0)];
    let buckets = gradient_buckets(&Aggregate::new(cells, bbox).unwrap());
    assert_eq!(
        cells_of(&buckets),
        vec![
            vec![Vec3::new(2, 0, 0)],
            vec![],
            vec![],
            vec![],
            vec![],
            vec![Vec3::new(0, 0, 0), Vec3::new(4, 0, 0)],
        ]
    );
}

#[test]
fn gradient_partitions_the_cells() {
    let mut cells = Vec::new();
    for x in -3..=3 {
        for y in -3..=3 {
            for z in -3..=3 {
                cells.push(Vec3::new(x, y, z));
            }
        }
    }
    let buckets = gradient_buckets(&aggregate_in(4, cells.clone()));
    let total: usize = buckets.iter().map(|b| b.cells.len()).sum();
    assert_eq!(total, cells.len());
    let mut seen: Vec<Vec3> = buckets.iter().flat_map(|b| b.cells.iter().copied()).collect();
    let key = |c: &Vec3| (c.x, c.y, c.z);
    seen.sort_by_key(key);
    cells.sort_by_key(key);
    assert_eq!(seen, cells);
}

#[test]
fn every_cell_is_in_the_first_shell_that_admits_it() {
    let mut cells = Vec::new();
    for x in -4..=4 {
        for y in -2..=2 {
            cells.push(Vec3::new(x, y, x - y));
        }
    }
    let buckets = gradient_buckets(&aggregate_in(8, cells.clone()));
    let origin = Vec3::new(0, 0, 0);
    let max_d = cells.iter().map(|c| c.dist2(origin)).max().unwrap();
    let mut previous = 0;
    for (i, bucket) in buckets.iter().enumerate() {
        let limit = (i as i64 + 1) * max_d / 6;
        for c in &bucket.cells {
            let d = c.dist2(origin);
            assert!(d <= limit);
            assert!(i == 0 || d > (i as i64) * max_d / 6);
            assert!(previous <= d);
            previous = d;
        }
    }
}

#[test]
fn gradient_at_the_edge_of_the_coordinate_range() {
    let limit = dla_scene::geometry::COORD_LIMIT;
    let cells = vec![Vec3::new(limit, limit, limit), Vec3::new(0, 0, 0), Vec3::new(-limit, 0, 0)];
    let buckets = gradient_buckets(&aggregate_in(limit, cells));
    assert_eq!(
        cells_of(&buckets),
        vec![
            vec![Vec3::new(0, 0, 0)],
            vec![Vec3::new(-limit, 0, 0)],
            vec![],
            vec![],
            vec![],
            vec![Vec3::new(limit, limit, limit)],
        ]
    );
}

#[test]
fn large_gradient_agrees_with_a_stable_sort_by_distance() {
    // 29791 cells in a cube around a center off the origin, many at equal
    // distance, in an order that is far from sorted
    let mut cells = Vec::new();
    for x in 0..31 {
        for y in 0..31 {
            for z in 0..31 {
                cells.push(Vec3::new((x * 7) % 31 - 10, (y * 11) % 31 - 20, (z * 13) % 31 - 15));
            }
        }
    }
    let bbox = BoundingBox::new(Vec3::new(-10, -20, -15), Vec3::new(20, 10, 15)).unwrap();
    let center = bbox.center();
    let buckets = gradient_buckets(&Aggregate::new(cells.clone(), bbox).unwrap());
    let found: Vec<Vec3> = buckets.iter().flat_map(|b| b.cells.iter().copied()).collect();
    let mut expected = cells.clone();
    expected.sort_by_key(|c| c.dist2(center));
    assert_eq!(found, expected);
    let max_d = expected.last().unwrap().dist2(center);
    for (i, bucket) in buckets.iter().enumerate() {
        let expected: Vec<Vec3> = expected
            .iter()
            .copied()
            .filter(|c| {
                let d = c.dist2(center);
                d <= (i as i64 + 1) * max_d / 6 && (i == 0 || d > (i as i64) * max_d / 6)
            })
            .collect();
        assert_eq!(bucket.cells, expected);
    }
}
