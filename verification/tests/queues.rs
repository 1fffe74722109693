use clipper_rust::{
    add_path_vertices, offset_frame, orientation, AddPathResult, EndType, IntPoint, IntRect,
    JoinType, OffsetPaths, PolyType, Scanbeam, HI_RANGE, LO_RANGE,
};

fn pts(v: &[(i64, i64)]) -> Vec<IntPoint> {
    v.iter().map(|&(x, y)| IntPoint::new(x, y)).collect()
}

#[test]
fn scanbeam_pops_largest_y_and_discards_duplicates() {
    let mut sb = Scanbeam::new();
    sb.insert(5);
    sb.insert(10);
    sb.insert(10);
    sb.insert(1);

    assert_eq!(sb.pop(), Some(10));
    assert_eq!(sb.pop(), Some(5));
    assert_eq!(sb.pop(), Some(1));
    assert_eq!(sb.pop(), None);
}

#[test]
fn scanbeam_pops_strictly_decreasing_values() {
    let mut sb = Scanbeam::default();
    for y in [3, -7, 12, 3, 0, 12, -7, 100] {
        sb.insert(y);
    }
    assert_eq!(sb.len(), 5);
    let mut last = i64::MAX;
    let mut popped = Vec::new();
    while let Some(y) = sb.pop() {
        assert!(y < last);
        last = y;
        popped.push(y);
    }
    assert_eq!(popped, vec![100, 12, 3, 0, -7]);
    sb.insert(4);
    sb.clear();
    assert_eq!(sb.pop(), None);
}

#[test]
fn add_path_rejects_open_clip_paths_with_use_lines_enabled() {
    let path = pts(&[(0, 0), (10, 0)]);
    let mut full = false;
    let err = add_path_vertices(&path, PolyType::Clip, false, false, &mut full).unwrap_err();
    assert_eq!(err.to_string(), "AddPath: Open paths must be subject.");
    assert!(!full);
}

#[test]
fn add_path_accepts_open_subject_path() {
    let path = pts(&[(0, 0), (10, 0)]);
    let mut full = false;
    let verts = add_path_vertices(&path, PolyType::Subject, false, false, &mut full).unwrap();
    assert_eq!(verts, Some(path));
    assert!(!full);
}

#[test]
fn add_path_accepts_closed_polygon_and_computes_bounds() {
    let path = pts(&[(0, 0), (10, 0), (10, 10), (0, 10)]);
    let mut full = false;
    let verts = add_path_vertices(&path, PolyType::Subject, true, false, &mut full).unwrap();
    assert_eq!(verts, Some(path));
}

#[test]
fn add_path_vertices_drops_repeats_and_collinear_points() {
    let mut full = false;
    // closing copy and a repeated vertex
    let path = pts(&[(0, 0), (10, 0), (10, 0), (10, 10), (0, 10), (0, 0)]);
    let verts = add_path_vertices(&path, PolyType::Clip, true, false, &mut full).unwrap();
    assert_eq!(verts, Some(pts(&[(0, 0), (10, 0), (10, 10), (0, 10)])));

    // a vertex in the middle of an edge goes unless collinear points are kept
    let path = pts(&[(0, 0), (5, 0), (10, 0), (10, 10), (0, 10)]);
    let verts = add_path_vertices(&path, PolyType::Subject, true, false, &mut full).unwrap();
    assert_eq!(verts, Some(pts(&[(0, 0), (10, 0), (10, 10), (0, 10)])));
    let verts = add_path_vertices(&path, PolyType::Subject, true, true, &mut full).unwrap();
    assert_eq!(verts, Some(path.clone()));

    // an open path keeps collinear points
    let verts = add_path_vertices(&path, PolyType::Subject, false, false, &mut full).unwrap();
    assert_eq!(verts, Some(path));
    assert!(!full);
}

#[test]
fn add_path_vertices_skips_degenerate_paths() {
    let mut full = false;
    let empty: Vec<IntPoint> = Vec::new();
    assert_eq!(add_path_vertices(&empty, PolyType::Subject, true, false, &mut full), Ok(None));
    let two = pts(&[(0, 0), (5, 5), (0, 0)]);
    assert_eq!(add_path_vertices(&two, PolyType::Subject, true, false, &mut full), Ok(None));
    let line = pts(&[(0, 0), (5, 5), (10, 10)]);
    assert_eq!(add_path_vertices(&line, PolyType::Subject, true, false, &mut full), Ok(None));
    let point = pts(&[(3, 3), (3, 3)]);
    assert_eq!(add_path_vertices(&point, PolyType::Subject, false, false, &mut full), Ok(None));
    assert!(!full);
}

#[test]
fn add_path_vertices_checks_coordinate_ranges() {
    let mut full = false;
    let big = pts(&[(0, 0), (LO_RANGE + 1, 0), (0, 10)]);
    let verts = add_path_vertices(&big, PolyType::Subject, true, false, &mut full).unwrap();
    assert_eq!(verts, Some(big));
    assert!(full);

    let mut full = false;
    let huge = pts(&[(0, 0), (HI_RANGE + 1, 0), (0, 10)]);
    let err = add_path_vertices(&huge, PolyType::Subject, true, false, &mut full).unwrap_err();
    assert_eq!(err.to_string(), "Coordinate outside allowed range");
    assert!(full);
}

#[test]
fn add_path_strips_duplicate_endpoints_and_tracks_lowest_point() {
    let mut offset = OffsetPaths::new();
    let path = pts(&[(0, 0), (10, 0), (10, 10), (0, 10), (0, 0)]);

    offset.add_path(&path, JoinType::Miter, EndType::ClosedPolygon);

    assert_eq!(offset.child_count(), 1);
    let node = offset.node(0);
    assert_eq!(node.contour.len(), 4);
    assert_eq!(node.join_type, JoinType::Miter);
    assert_eq!(node.end_type, EndType::ClosedPolygon);
    assert_eq!(offset.lowest_index(), Some((0, 3)));
}

#[test]
fn clear_drops_offset_nodes_and_resets_lowest() {
    let mut offset = OffsetPaths::new();
    offset.add_path(
        &pts(&[(0, 0), (10, 0), (10, 10)]),
        JoinType::Square,
        EndType::ClosedPolygon,
    );
    offset.clear();

    assert_eq!(offset.child_count(), 0);
    assert_eq!(offset.lowest_index(), None);
}

#[test]
fn fix_orientations_reverses_closed_line_when_needed() {
    let mut offset = OffsetPaths::new();
    offset.add_path(
        &pts(&[(0, 0), (0, 10), (10, 10), (10, 0)]),
        JoinType::Square,
        EndType::ClosedLine,
    );
    assert!(!orientation(&offset.node(0).contour));

    offset.fix_orientations();

    assert!(orientation(&offset.node(0).contour));
}

#[test]
fn fix_orientations_turns_the_outer_polygon_counter_clockwise() {
    let mut offset = OffsetPaths::new();
    // clockwise outer polygon, holding the lowest point
    let outer = pts(&[(0, 0), (0, 100), (100, 100), (100, 0)]);
    // counter-clockwise inner polygon
    let inner = pts(&[(10, 10), (20, 10), (20, 20), (10, 20)]);
    let line = pts(&[(0, 200), (10, 210)]);
    assert_eq!(offset.add_path(&outer, JoinType::Round, EndType::ClosedPolygon), AddPathResult::Added);
    assert_eq!(offset.add_path(&inner, JoinType::Round, EndType::ClosedPolygon), AddPathResult::Added);
    assert_eq!(offset.add_path(&line, JoinType::Round, EndType::OpenButt), AddPathResult::Added);
    assert_eq!(offset.lowest_index(), Some((0, 1)));

    offset.fix_orientations();

    assert!(orientation(&offset.node(0).contour));
    assert!(!orientation(&offset.node(1).contour));
    assert_eq!(offset.node(2).contour, line);
}

#[test]
fn offset_paths_skip_empty_and_degenerate_polygons() {
    let mut offset = OffsetPaths::new();
    let empty: Vec<IntPoint> = Vec::new();
    assert_eq!(offset.add_path(&empty, JoinType::Square, EndType::OpenRound), AddPathResult::Skipped);
    let flat = pts(&[(0, 0), (0, 0), (5, 5), (5, 5), (0, 0)]);
    assert_eq!(offset.add_path(&flat, JoinType::Square, EndType::ClosedPolygon), AddPathResult::Skipped);
    // the same points as an open path keep their distinct consecutive values
    assert_eq!(offset.add_path(&flat, JoinType::Square, EndType::OpenSquare), AddPathResult::Added);
    assert_eq!(offset.node(0).contour, pts(&[(0, 0), (5, 5), (0, 0)]));
    assert_eq!(offset.lowest_index(), None);
    assert_eq!(
        offset.add_paths(&vec![empty.clone(), flat.clone()], JoinType::Miter, EndType::ClosedPolygon),
        AddPathResult::Skipped
    );
    assert_eq!(
        offset.add_paths(&vec![empty, pts(&[(0, 0), (4, 0), (4, 4)])], JoinType::Miter, EndType::ClosedPolygon),
        AddPathResult::Added
    );
    assert_eq!(offset.child_count(), 2);
}

#[test]
fn offset_frame_surrounds_the_bounds() {
    let frame = offset_frame(&IntRect::new(0, 5, 30, 40));
    assert_eq!(frame, pts(&[(-10, 50), (40, 50), (40, -5), (-10, -5)]));
}

#[test]
fn open_paths_keep_every_vertex_but_repeats() {
    let path = vec![
        IntPoint::new(0, 0),
        IntPoint::new(0, 0),
        IntPoint::new(5, 0),
        IntPoint::new(10, 0),
        IntPoint::new(10, 0),
        IntPoint::new(10, 0),
        IntPoint::new(0, 0),
        IntPoint::new(3, 3),
    ];
    let mut full = false;
    let verts = add_path_vertices(&path, PolyType::Subject, false, false, &mut full).unwrap().unwrap();
    assert_eq!(
        verts,
        vec![
            IntPoint::new(0, 0),
            IntPoint::new(5, 0),
            IntPoint::new(10, 0),
            IntPoint::new(0, 0),
            IntPoint::new(3, 3),
        ]
    );
}
