use clipper_rust::{
    abs, cross_sign, get_overlap, get_overlap_segment, int128_mul, minkowski, orientation,
    point_in_polygon, pt2_is_between_pt1_and_pt3, range_test, reverse_path, reverse_paths,
    slopes_equal_3_points, slopes_equal_4_points, swap_points, AddPathResult, ClipperError,
    IntPoint, IntRect, Orientation, PointLocation, LO_RANGE,
};

fn pts(v: &[(i64, i64)]) -> Vec<IntPoint> {
    v.iter().map(|&(x, y)| IntPoint::new(x, y)).collect()
}

#[test]
fn area_and_orientation_match_path_direction() {
    let ccw = pts(&[(0, 0), (10, 0), (10, 10), (0, 10)]);
    let cw = pts(&[(0, 0), (0, 10), (10, 10), (10, 0)]);

    assert!(orientation(&ccw));
    assert!(!orientation(&cw));
}

#[test]
fn every_vertex_lies_on_the_boundary() {
    let poly = pts(&[(0, 0), (7, -3), (12, 4), (5, 9), (-2, 6)]);
    for v in &poly {
        assert_eq!(point_in_polygon(*v, &poly), -1);
    }
    assert_eq!(point_in_polygon(IntPoint::new(5, 3), &poly), 1);
    assert_eq!(point_in_polygon(IntPoint::new(20, 3), &poly), 0);
    // a point on an edge between vertices
    let square = pts(&[(0, 0), (10, 0), (10, 10), (0, 10)]);
    assert_eq!(point_in_polygon(IntPoint::new(5, 10), &square), -1);
    assert_eq!(point_in_polygon(IntPoint::new(0, 5), &square), -1);
    // fewer than three points hold nothing
    assert_eq!(point_in_polygon(IntPoint::new(0, 0), &pts(&[(0, 0), (1, 1)])), 0);
}

#[test]
fn reversing_a_path_flips_its_orientation() {
    let mut poly = pts(&[(0, 0), (7, -3), (12, 4), (5, 9), (-2, 6)]);
    let before = orientation(&poly);
    reverse_path(&mut poly);
    assert_eq!(orientation(&poly), !before);

    let mut many = vec![pts(&[(0, 0), (4, 0), (4, 4)]), pts(&[(1, 1), (1, 3), (3, 3)])];
    reverse_paths(&mut many);
    assert_eq!(many[0], pts(&[(4, 4), (4, 0), (0, 0)]));
    assert_eq!(many[1], pts(&[(3, 3), (1, 3), (1, 1)]));
}

#[test]
fn orientation_is_exact_for_large_coordinates() {
    let big = 1_000_000_000_000_000_000i64;
    let ccw = pts(&[(-big, -big), (big, -big), (big, big), (-big, big)]);
    assert!(orientation(&ccw));
    // a sliver whose area is far below the rounding of the coordinates
    let sliver = pts(&[(0, 0), (big, 1), (big - 1, 1)]);
    assert!(orientation(&sliver));
    let mut rev = sliver.clone();
    rev.reverse();
    assert!(!orientation(&rev));
}

#[test]
fn minkowski_difference_quads_are_counter_clockwise() {
    let pattern = pts(&[(0, 0), (2, 0), (2, 2), (0, 2)]);
    let path = pts(&[(0, 0), (10, 0), (10, 10)]);
    let mut solution = Vec::new();
    minkowski(&pattern, &path, &mut solution, false, true);
    assert_eq!(solution.len(), 12);
    assert!(solution.iter().all(|q| q.len() == 4 && orientation(q)));
    // the first quad sweeps pattern edge 0 along path edge 0
    let q = &solution[0];
    assert!(q.contains(&IntPoint::new(0, 0)));
    assert!(q.contains(&IntPoint::new(10, 0)));
    assert!(q.contains(&IntPoint::new(8, 0)));
    assert!(q.contains(&IntPoint::new(-2, 0)));

    let mut none = Vec::new();
    minkowski(&Vec::new(), &path, &mut none, true, true);
    assert!(none.is_empty());
}

#[test]
fn integer_kernels_give_exact_values() {
    assert_eq!(abs(-5), 5);
    assert_eq!(abs(7), 7);
    assert_eq!(abs(i64::MAX), i64::MAX);
    assert_eq!(int128_mul(i64::MAX, i64::MAX), (i64::MAX as i128) * (i64::MAX as i128));
    assert_eq!(int128_mul(-3, 4), -12);
    assert_eq!(cross_sign(3, 4, 2, 6), 0);
    assert_eq!(cross_sign(3, 5, 2, 6), 1);
    assert_eq!(cross_sign(-3, 5, 2, 6), -1);
    let m = i64::MAX as i128;
    assert_eq!(cross_sign(m, m, m, m - 1), 1);
}

#[test]
fn slope_tests_compare_cross_products() {
    let a = IntPoint::new(0, 0);
    let b = IntPoint::new(2, 4);
    let c = IntPoint::new(5, 10);
    assert!(slopes_equal_3_points(a, b, c, false));
    assert!(!slopes_equal_3_points(a, b, IntPoint::new(5, 11), false));
    assert!(slopes_equal_4_points(a, b, IntPoint::new(10, 10), IntPoint::new(11, 12), false));
    assert!(!slopes_equal_4_points(a, b, IntPoint::new(10, 10), IntPoint::new(12, 11), true));
}

#[test]
fn betweenness_needs_three_distinct_points() {
    let a = IntPoint::new(0, 0);
    let b = IntPoint::new(5, 5);
    let c = IntPoint::new(10, 10);
    assert!(pt2_is_between_pt1_and_pt3(a, b, c));
    assert!(!pt2_is_between_pt1_and_pt3(a, c, b));
    assert!(!pt2_is_between_pt1_and_pt3(a, a, c));
    // vertical segments compare y
    assert!(pt2_is_between_pt1_and_pt3(IntPoint::new(3, 9), IntPoint::new(3, 4), IntPoint::new(3, 1)));
}

#[test]
fn overlaps_are_open_intervals_in_any_direction() {
    assert_eq!(get_overlap(10, 0, 15, 5), Some((5, 10)));
    assert_eq!(get_overlap(0, 10, 15, 5), Some((5, 10)));
    assert_eq!(get_overlap(0, 4, 4, 8), None);
    let mut p1 = IntPoint::default();
    let mut p2 = IntPoint::default();
    // mostly vertical segments order by descending y
    assert!(get_overlap_segment(
        IntPoint::new(0, 0),
        IntPoint::new(0, 10),
        IntPoint::new(0, 12),
        IntPoint::new(0, 4),
        &mut p1,
        &mut p2,
    ));
    assert_eq!(p1, IntPoint::new(0, 10));
    assert_eq!(p2, IntPoint::new(0, 4));
    assert!(!get_overlap_segment(
        IntPoint::new(0, 0),
        IntPoint::new(10, 0),
        IntPoint::new(10, 0),
        IntPoint::new(20, 0),
        &mut p1,
        &mut p2,
    ));
}

#[test]
fn range_flag_never_switches_back() {
    let mut full = false;
    range_test(IntPoint::new(1, 1), &mut full).unwrap();
    assert!(!full);
    range_test(IntPoint::new(-LO_RANGE - 1, 0), &mut full).unwrap();
    assert!(full);
    range_test(IntPoint::new(1, 1), &mut full).unwrap();
    assert!(full);
}

#[test]
fn small_value_types_behave_as_documented() {
    let mut a = IntPoint::new(1, 2);
    let mut b = IntPoint::new(3, 4);
    swap_points(&mut a, &mut b);
    assert_eq!((a, b), (IntPoint::new(3, 4), IntPoint::new(1, 2)));
    assert_eq!(IntPoint::default(), IntPoint::new(0, 0));
    let r = IntRect::new(1, 2, 3, 4);
    assert_eq!((r.left, r.top, r.right, r.bottom), (1, 2, 3, 4));
    assert_eq!(IntRect::default(), IntRect::new(0, 0, 0, 0));
    assert!(AddPathResult::Added.was_added());
    assert!(!AddPathResult::Skipped.was_added());
    assert_eq!(AddPathResult::from(true), AddPathResult::Added);
    assert_eq!(AddPathResult::from(false), AddPathResult::Skipped);
    assert!(Orientation::CounterClockwise.is_counter_clockwise());
    assert!(!Orientation::Clockwise.is_counter_clockwise());
    assert_eq!(PointLocation::from_clipper_code(1), PointLocation::Inside);
    assert_eq!(PointLocation::from_clipper_code(-1), PointLocation::Boundary);
    assert_eq!(PointLocation::from_clipper_code(0), PointLocation::Outside);
    assert_eq!(PointLocation::from_clipper_code(7), PointLocation::Outside);
    let e = ClipperError::new("boom");
    assert_eq!(e.to_string(), "boom");
    assert_eq!(e.message, "boom");
}

#[test]
fn point_in_polygon_ignores_start_and_direction() {
    let path = pts(&[(0, 0), (10, 0), (10, 10), (5, 15), (0, 10)]);
    let probes = [(5, 5), (5, 14), (20, 5), (10, 5), (5, 0), (0, 0), (5, 15), (-1, 10), (10, 12)];
    for &(x, y) in probes.iter() {
        let p = IntPoint::new(x, y);
        let expected = point_in_polygon(p, &path);
        for r in 0..path.len() {
            let mut rot: Vec<IntPoint> = path[r..].to_vec();
            rot.extend_from_slice(&path[..r]);
            assert_eq!(point_in_polygon(p, &rot), expected);
            let mut rev = rot.clone();
            rev.reverse();
            assert_eq!(point_in_polygon(p, &rev), expected);
        }
        assert!(expected >= -1 && expected <= 1);
    }
    assert_eq!(point_in_polygon(IntPoint::new(5, 5), &path), 1);
    assert_eq!(point_in_polygon(IntPoint::new(20, 5), &path), 0);
    assert_eq!(point_in_polygon(IntPoint::new(5, 15), &path), -1);
    assert_eq!(point_in_polygon(IntPoint::new(10, 5), &path), -1);
}
