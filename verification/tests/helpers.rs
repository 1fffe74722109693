use clipper_rust::{
    get_overlap, get_overlap_segment, horz_segments_overlap, minkowski, orientation,
    point_in_polygon, range_test, reverse_path, slopes_equal_3_points, translate_path, IntPoint,
    HI_RANGE, LO_RANGE,
};

#[test]
fn point_in_polygon_reports_inside_outside_and_boundary() {
    let square = vec![
        IntPoint::new(0, 0),
        IntPoint::new(10, 0),
        IntPoint::new(10, 10),
        IntPoint::new(0, 10),
    ];

    assert_eq!(point_in_polygon(IntPoint::new(5, 5), &square), 1);
    assert_eq!(point_in_polygon(IntPoint::new(15, 5), &square), 0);
    assert_eq!(point_in_polygon(IntPoint::new(10, 5), &square), -1);
    assert_eq!(point_in_polygon(IntPoint::new(0, 0), &square), -1);
}

#[test]
fn slopes_equal_uses_i128_for_full_range() {
    let a = IntPoint::new(0, 0);
    let b = IntPoint::new(3_000_000_000, 3_000_000_000);
    let c = IntPoint::new(6_000_000_000, 6_000_000_000);

    assert!(slopes_equal_3_points(a, b, c, true));
}

#[test]
fn overlap_helpers_match_open_interval_behavior() {
    assert!(horz_segments_overlap(0, 10, 5, 15));
    assert!(!horz_segments_overlap(0, 10, 10, 15));
    assert_eq!(get_overlap(0, 10, 5, 15), Some((5, 10)));
    assert_eq!(get_overlap(0, 10, 10, 15), None);

    let mut left = IntPoint::default();
    let mut right = IntPoint::default();
    assert!(get_overlap_segment(
        IntPoint::new(0, 0),
        IntPoint::new(10, 0),
        IntPoint::new(4, 0),
        IntPoint::new(12, 0),
        &mut left,
        &mut right,
    ));
    assert_eq!(left, IntPoint::new(4, 0));
    assert_eq!(right, IntPoint::new(10, 0));
}

#[test]
fn range_test_switches_to_full_range_then_rejects_huge_coordinates() {
    let mut full_range = false;

    range_test(IntPoint::new(LO_RANGE + 1, 0), &mut full_range).unwrap();
    assert!(full_range);

    let err = range_test(IntPoint::new(HI_RANGE + 1, 0), &mut full_range).unwrap_err();
    assert_eq!(err.to_string(), "Coordinate outside allowed range");
}

#[test]
fn reverse_and_translate_paths_work_in_place_style() {
    let mut path = vec![
        IntPoint::new(0, 0),
        IntPoint::new(1, 0),
        IntPoint::new(1, 1),
    ];
    reverse_path(&mut path);
    assert_eq!(
        path,
        vec![
            IntPoint::new(1, 1),
            IntPoint::new(1, 0),
            IntPoint::new(0, 0),
        ]
    );

    let mut translated = Vec::new();
    translate_path(&path, &mut translated, IntPoint::new(10, -2));
    assert_eq!(
        translated,
        vec![
            IntPoint::new(11, -1),
            IntPoint::new(11, -2),
            IntPoint::new(10, -2),
        ]
    );
}

#[test]
fn minkowski_builds_oriented_quads() {
    let pattern = vec![
        IntPoint::new(0, 0),
        IntPoint::new(1, 0),
        IntPoint::new(1, 1),
    ];
    let path = vec![
        IntPoint::new(10, 10),
        IntPoint::new(20, 10),
        IntPoint::new(20, 20),
    ];
    let mut solution = Vec::new();

    minkowski(&pattern, &path, &mut solution, true, false);

    assert_eq!(solution.len(), 6);
    assert!(solution.iter().all(orientation));
}
