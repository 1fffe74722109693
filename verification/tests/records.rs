use clipper_rust::{
    add_out_pt, dispose_out_rec, set_hole_state, append_records, build_result, build_result2, create_out_rec, do_simple_polygons, merge_records, split_off_record, split_record, fix_hole_linkage, fixup_first_lefts1, fixup_first_lefts2, fixup_first_lefts3,
    get_out_rec, out_rec1_right_of_out_rec2, parse_first_left, point_in_polygon_out_pt, point_is_vertex,
    poly2_contains_poly1, IntPoint, OutPtArena, OutRec, PolyTree,
};

fn rec(idx: i32, is_hole: bool, pts: Option<usize>, first_left: Option<usize>) -> OutRec {
    OutRec { idx, is_hole, is_open: false, first_left, poly_nd: None, pts, bottom_pt: None }
}

fn square(arena: &mut OutPtArena, idx: i32, x0: i64, y0: i64, side: i64) -> usize {
    let a = arena.new_ring(idx, IntPoint::new(x0, y0));
    let b = arena.insert_after(a, idx, IntPoint::new(x0 + side, y0));
    let c = arena.insert_after(b, idx, IntPoint::new(x0 + side, y0 + side));
    arena.insert_after(c, idx, IntPoint::new(x0, y0 + side));
    a
}

fn lefts(recs: &[OutRec]) -> Vec<Option<usize>> {
    recs.iter().map(|r| r.first_left).collect()
}

#[test]
fn a_record_without_points_stands_for_the_one_it_lies_in() {
    let recs = vec![rec(0, false, Some(0), None), rec(1, false, None, Some(0)), rec(2, false, None, Some(1))];
    assert_eq!(parse_first_left(&recs, Some(2)), Some(0));
    assert_eq!(parse_first_left(&recs, Some(0)), Some(0));
    assert_eq!(parse_first_left(&recs, None), None);
}

#[test]
fn records_that_stood_in_one_record_move_to_another() {
    let mut recs = vec![
        rec(0, false, Some(0), None),
        rec(1, false, None, Some(0)),
        rec(2, false, Some(1), Some(1)),
        rec(3, false, Some(2), Some(0)),
        rec(4, false, None, Some(0)),
    ];
    fixup_first_lefts3(&mut recs, 0, 3);
    assert_eq!(lefts(&recs), vec![None, Some(0), Some(3), Some(3), Some(0)]);
}

#[test]
fn a_hole_is_linked_past_holes_to_its_outer_polygon() {
    let mut recs =
        vec![rec(0, false, Some(0), None), rec(1, true, Some(1), Some(2)), rec(2, true, Some(2), Some(0))];
    fix_hole_linkage(&mut recs, 1);
    assert_eq!(lefts(&recs), vec![None, Some(0), Some(0)]);
    assert!(out_rec1_right_of_out_rec2(&recs, 2, 0));
    assert!(!out_rec1_right_of_out_rec2(&recs, 0, 2));
}

#[test]
fn walking_first_left_finds_enclosing_records() {
    let recs = vec![rec(0, false, Some(0), None), rec(1, true, Some(1), Some(2)), rec(2, true, Some(2), Some(0))];
    assert!(out_rec1_right_of_out_rec2(&recs, 1, 0));
    assert!(out_rec1_right_of_out_rec2(&recs, 1, 2));
    assert!(!out_rec1_right_of_out_rec2(&recs, 0, 1));
}

#[test]
fn merged_records_lead_to_the_one_they_were_merged_into() {
    let mut recs = Vec::new();
    assert_eq!(create_out_rec(&mut recs), 0);
    assert_eq!(create_out_rec(&mut recs), 1);
    assert_eq!(create_out_rec(&mut recs), 2);
    assert_eq!((recs[2].idx, recs[2].pts, recs[2].first_left), (2, None, None));
    recs[1].idx = 0;
    recs[2].idx = 1;
    assert_eq!(get_out_rec(&recs, 2), 0);
    assert_eq!(get_out_rec(&recs, 0), 0);
}

#[test]
fn records_inside_a_new_polygon_move_into_it() {
    let mut arena = OutPtArena::new();
    let big = square(&mut arena, 0, 0, 0, 100);
    let small = square(&mut arena, 1, 10, 10, 5);
    let far = square(&mut arena, 2, 60, 60, 5);
    let medium = square(&mut arena, 3, 5, 5, 20);
    let mut recs = vec![
        rec(0, false, Some(big), None),
        rec(1, true, Some(small), Some(0)),
        rec(2, true, Some(far), Some(0)),
        rec(3, true, Some(medium), None),
    ];
    fixup_first_lefts1(&mut recs, &arena, 0, 3);
    assert_eq!(lefts(&recs), vec![None, Some(3), Some(0), None]);
}

#[test]
fn records_are_placed_in_the_part_of_a_split_ring_that_holds_them() {
    let mut arena = OutPtArena::new();
    let outer = square(&mut arena, 0, 0, 0, 100);
    let inner = square(&mut arena, 1, 10, 10, 30);
    let in_inner = square(&mut arena, 2, 15, 15, 5);
    let in_outer = square(&mut arena, 3, 60, 60, 5);
    let mut recs = vec![
        rec(0, false, Some(outer), None),
        rec(1, true, Some(inner), Some(0)),
        rec(2, false, Some(in_inner), Some(0)),
        rec(3, false, Some(in_outer), Some(1)),
    ];
    fixup_first_lefts2(&mut recs, &arena, 1, 0);
    assert_eq!(lefts(&recs), vec![None, Some(0), Some(1), Some(0)]);
}

fn ring(arena: &mut OutPtArena, idx: i32, pts: &[IntPoint]) -> usize {
    let first = arena.new_ring(idx, pts[0]);
    let mut last = first;
    for pt in &pts[1..] {
        last = arena.insert_after(last, idx, *pt);
    }
    first
}

fn open_rec(idx: i32, pts: Option<usize>) -> OutRec {
    OutRec { idx, is_hole: false, is_open: true, first_left: None, poly_nd: None, pts, bottom_pt: None }
}

#[test]
fn fix_hole_linkage_skips_same_hole_or_empty_owners() {
    let mut recs = vec![rec(0, false, Some(0), None), rec(1, true, None, Some(0)), rec(2, true, None, Some(1))];
    fix_hole_linkage(&mut recs, 2);
    assert_eq!(recs[2].first_left, Some(0));
}

#[test]
fn point_count_and_build_result_walk_output_ring_backwards() {
    let mut arena = OutPtArena::new();
    let head = ring(&mut arena, 0, &[IntPoint::new(0, 0), IntPoint::new(10, 0), IntPoint::new(10, 10)]);
    assert_eq!(arena.ring_len(head), 3);
    let mut paths = Vec::new();
    build_result(&arena, &vec![Some(head)], &mut paths);
    assert_eq!(paths, vec![vec![IntPoint::new(10, 10), IntPoint::new(10, 0), IntPoint::new(0, 0)]]);
}

#[test]
fn build_result2_links_holes_and_open_paths_into_polytree() {
    let mut arena = OutPtArena::new();
    let outer = ring(&mut arena, 0, &[IntPoint::new(0, 0), IntPoint::new(10, 0), IntPoint::new(10, 10)]);
    let hole = ring(&mut arena, 1, &[IntPoint::new(2, 2), IntPoint::new(4, 2), IntPoint::new(4, 4)]);
    let open = ring(&mut arena, 2, &[IntPoint::new(20, 20), IntPoint::new(30, 30)]);
    let mut recs = vec![rec(0, false, Some(outer), None), rec(1, true, Some(hole), Some(0)), open_rec(2, Some(open))];
    let mut polytree = PolyTree::new();

    build_result2(&mut recs, &arena, &mut polytree);

    assert_eq!(polytree.node_count(), 4);
    assert_eq!(polytree.node(0).child_count(), 2);
    let outer_nd = recs[0].poly_nd.unwrap();
    let hole_nd = recs[1].poly_nd.unwrap();
    let open_nd = recs[2].poly_nd.unwrap();
    assert_eq!(polytree.node(outer_nd).child_count(), 1);
    assert!(polytree.node(open_nd).is_open());
    assert_eq!(polytree.node(hole_nd).parent, Some(outer_nd));
}

#[test]
fn short_rings_get_no_node_and_contours_read_backwards() {
    let mut arena = OutPtArena::new();
    let two = ring(&mut arena, 0, &[IntPoint::new(0, 0), IntPoint::new(5, 5)]);
    let square_head = square(&mut arena, 1, 0, 0, 10);
    let mut recs = vec![rec(0, false, Some(two), None), rec(1, false, Some(square_head), Some(0)), rec(2, false, None, None)];
    let mut polytree = PolyTree::new();

    build_result2(&mut recs, &arena, &mut polytree);

    assert_eq!(polytree.node_count(), 2);
    assert_eq!(recs[0].poly_nd, None);
    assert_eq!(recs[2].poly_nd, None);
    assert_eq!(recs[1].poly_nd, Some(1));
    assert_eq!(recs[1].first_left, None);
    assert_eq!(polytree.node(1).parent, Some(0));
    assert_eq!(
        polytree.node(1).contour,
        vec![IntPoint::new(0, 10), IntPoint::new(10, 10), IntPoint::new(10, 0), IntPoint::new(0, 0)]
    );
}

#[test]
fn merging_a_ring_moves_its_record_into_the_first() {
    let mut arena = OutPtArena::new();
    let a = square(&mut arena, 0, 0, 0, 10);
    let b = square(&mut arena, 1, 20, 0, 10);
    let c = square(&mut arena, 2, 22, 2, 2);
    let mut recs = vec![rec(0, false, Some(a), None), rec(1, false, Some(b), None), rec(2, true, Some(c), Some(1))];
    merge_records(&mut recs, 0, 1, 0, true);
    assert_eq!(recs[1].pts, None);
    assert_eq!(recs[1].idx, 0);
    assert_eq!(lefts(&recs), vec![None, Some(0), Some(1)]);
    assert!(!recs[0].is_hole);
}

#[test]
fn merging_takes_the_hole_state_of_the_chosen_record() {
    let mut arena = OutPtArena::new();
    let a = square(&mut arena, 0, 0, 0, 10);
    let b = square(&mut arena, 1, 2, 2, 2);
    let c = square(&mut arena, 2, -10, -10, 40);
    let mut recs = vec![rec(0, false, Some(a), None), rec(1, true, Some(b), Some(2)), rec(2, false, Some(c), None)];
    merge_records(&mut recs, 0, 1, 1, false);
    assert!(recs[0].is_hole);
    assert_eq!(recs[0].first_left, Some(2));
    assert_eq!(recs[1].first_left, Some(0));
    assert_eq!(recs[1].pts, None);
}

#[test]
fn a_cut_part_inside_the_other_becomes_a_hole_in_it() {
    let mut arena = OutPtArena::new();
    let outer = square(&mut arena, 0, 0, 0, 10);
    let inner = square(&mut arena, 0, 2, 2, 2);
    let mut recs = vec![rec(0, false, Some(outer), None)];
    let turn = split_record(&mut recs, &mut arena, 0, outer, inner, true, false);
    assert_eq!(turn, Some((inner, false)));
    assert_eq!(recs.len(), 2);
    assert_eq!(recs[1].pts, Some(inner));
    assert!(recs[1].is_hole);
    assert_eq!(recs[1].first_left, Some(0));
    assert_eq!(recs[1].idx, 1);
    assert_eq!(arena.get(inner).idx, 1);
    assert_eq!(arena.get(outer).idx, 0);
}

#[test]
fn a_cut_part_around_the_other_takes_over_its_place() {
    let mut arena = OutPtArena::new();
    let outer = square(&mut arena, 0, 0, 0, 10);
    let inner = square(&mut arena, 0, 2, 2, 2);
    let mut recs = vec![rec(0, false, Some(inner), None)];
    let turn = split_record(&mut recs, &mut arena, 0, inner, outer, false, true);
    assert_eq!(turn, Some((inner, true)));
    assert!(recs[0].is_hole);
    assert_eq!(recs[0].first_left, Some(1));
    assert!(!recs[1].is_hole);
    assert_eq!(recs[1].first_left, None);
}

#[test]
fn cut_parts_side_by_side_share_their_polygon() {
    let mut arena = OutPtArena::new();
    let left = square(&mut arena, 0, 0, 0, 10);
    let right = square(&mut arena, 0, 20, 0, 10);
    let around = square(&mut arena, 0, -5, -5, 50);
    let mut recs = vec![rec(0, false, Some(around), None), rec(1, true, Some(left), Some(0))];
    let turn = split_record(&mut recs, &mut arena, 1, left, right, true, false);
    assert_eq!(turn, None);
    assert!(recs[2].is_hole);
    assert_eq!(recs[2].first_left, Some(0));
    assert_eq!(arena.get(right).idx, 2);
}

#[test]
fn splitting_off_a_part_keeps_the_head_and_lowest_point_of_the_first() {
    let mut arena = OutPtArena::new();
    let outer = square(&mut arena, 0, 0, 0, 10);
    let inner = square(&mut arena, 0, 2, 2, 2);
    let mut recs = vec![OutRec { bottom_pt: Some(outer), ..rec(0, true, Some(outer), None) }];
    let turn = split_off_record(&mut recs, &mut arena, 0, inner, false, false);
    assert_eq!(turn, Some((inner, true)));
    assert_eq!(recs[0].pts, Some(outer));
    assert_eq!(recs[0].bottom_pt, Some(outer));
    assert!(!recs[1].is_hole);
    assert_eq!(recs[1].first_left, Some(0));
}

#[test]
fn a_ring_through_one_position_twice_is_cut_in_two() {
    // a figure eight: (0,0) (10,0) (5,5) (10,10) (0,10) (5,5)
    let mut arena = OutPtArena::new();
    let head = ring(
        &mut arena,
        0,
        &[
            IntPoint::new(0, 0),
            IntPoint::new(10, 0),
            IntPoint::new(5, 5),
            IntPoint::new(10, 10),
            IntPoint::new(0, 10),
            IntPoint::new(5, 5),
        ],
    );
    let mut recs = vec![rec(0, false, Some(head), None)];
    do_simple_polygons(&mut recs, &mut arena, false, false);
    assert_eq!(recs.len(), 2);
    let a = recs[0].pts.unwrap();
    let b = recs[1].pts.unwrap();
    assert_eq!(arena.ring_len(a), 3);
    assert_eq!(arena.ring_len(b), 3);
    assert_eq!(arena.get(b).idx, 1);
    assert!(!recs[1].is_hole);
    assert_eq!(recs[1].first_left, None);
}

#[test]
fn simple_rings_and_open_paths_are_left_alone() {
    let mut arena = OutPtArena::new();
    let sq = square(&mut arena, 0, 0, 0, 10);
    let open = ring(&mut arena, 1, &[IntPoint::new(0, 0), IntPoint::new(5, 5), IntPoint::new(0, 0), IntPoint::new(5, 5)]);
    let mut recs = vec![rec(0, false, Some(sq), None), open_rec(1, Some(open))];
    do_simple_polygons(&mut recs, &mut arena, true, false);
    assert_eq!(recs.len(), 2);
    assert_eq!(arena.ring_len(sq), 4);
    assert_eq!(arena.ring_len(open), 4);
}

#[test]
fn fixup_out_polyline_removes_duplicate_points() {
    let mut arena = OutPtArena::new();
    let head = ring(&mut arena, 0, &[IntPoint::new(0, 0), IntPoint::new(1, 1), IntPoint::new(1, 1)]);
    let kept = arena.fixup_polyline(head).unwrap();
    assert_eq!(arena.ring_len(kept), 2);
}

#[test]
fn fixup_out_polygon_removes_collinear_middle_vertex() {
    let mut arena = OutPtArena::new();
    let head = ring(
        &mut arena,
        0,
        &[
            IntPoint::new(0, 0),
            IntPoint::new(5, 0),
            IntPoint::new(10, 0),
            IntPoint::new(10, 10),
            IntPoint::new(0, 10),
        ],
    );
    let kept = arena.fixup_polygon(head, false, false).unwrap();
    assert_eq!(arena.ring_len(kept), 4);
}

#[test]
fn update_out_pt_idxs_relabels_whole_output_ring() {
    let mut arena = OutPtArena::new();
    let head = ring(&mut arena, 0, &[IntPoint::new(0, 0), IntPoint::new(10, 0), IntPoint::new(10, 10)]);
    arena.set_ring_idx(head, 7);
    let mut op = head;
    for _ in 0..3 {
        assert_eq!(arena.get(op).idx, 7);
        op = arena.get(op).next;
    }
    assert_eq!(op, head);
}

#[test]
fn dup_out_pt_inserts_before_or_after_existing_point() {
    let mut arena = OutPtArena::new();
    let first = ring(&mut arena, 0, &[IntPoint::new(0, 0), IntPoint::new(10, 0), IntPoint::new(10, 10)]);
    let pt = arena.get(first).pt;

    let after = arena.insert_after(first, 0, pt);
    assert_eq!(arena.get(first).next, after);
    assert_eq!(arena.get(after).prev, first);
    assert_eq!(arena.get(after).pt, arena.get(first).pt);

    let before = arena.insert_before(first, 0, pt);
    assert_eq!(arena.get(first).prev, before);
    assert_eq!(arena.get(before).next, first);
    assert_eq!(arena.ring_len(first), 5);
}

#[test]
fn fixup_first_lefts_reassign_output_owners() {
    let mut arena = OutPtArena::new();
    let old = square(&mut arena, 0, -10, -10, 30);
    let new_owner = square(&mut arena, 1, 0, 0, 10);
    let child = square(&mut arena, 2, 2, 2, 2);
    let mut recs =
        vec![rec(0, false, Some(old), None), rec(1, false, Some(new_owner), None), rec(2, false, Some(child), Some(0))];

    fixup_first_lefts1(&mut recs, &arena, 0, 1);
    assert_eq!(recs[2].first_left, Some(1));

    fixup_first_lefts3(&mut recs, 1, 0);
    assert_eq!(recs[2].first_left, Some(0));
}

#[test]
fn do_simple_polygons_splits_repeated_vertex_ring() {
    let mut arena = OutPtArena::new();
    let head = ring(
        &mut arena,
        0,
        &[
            IntPoint::new(0, 0),
            IntPoint::new(10, 0),
            IntPoint::new(10, 10),
            IntPoint::new(0, 0),
            IntPoint::new(-10, 10),
            IntPoint::new(-10, 0),
        ],
    );
    let mut recs = vec![rec(0, false, Some(head), None)];
    do_simple_polygons(&mut recs, &mut arena, false, false);
    assert_eq!(recs.len(), 2);
    assert!(recs[1].pts.is_some());
    assert_eq!(arena.ring_len(recs[0].pts.unwrap()), 3);
    assert_eq!(arena.ring_len(recs[1].pts.unwrap()), 3);
}

#[test]
fn out_pt_point_queries_match_path_polygon_queries() {
    let mut arena = OutPtArena::new();
    let sq = square(&mut arena, 0, 0, 0, 10);
    assert!(point_is_vertex(&arena, IntPoint::new(10, 10), sq));
    assert!(!point_is_vertex(&arena, IntPoint::new(5, 5), sq));
    assert_eq!(point_in_polygon_out_pt(&arena, IntPoint::new(5, 5), sq), 1);
    assert_eq!(point_in_polygon_out_pt(&arena, IntPoint::new(15, 5), sq), 0);
    assert_eq!(point_in_polygon_out_pt(&arena, IntPoint::new(10, 5), sq), -1);
}

#[test]
fn poly2_contains_poly1_uses_first_non_boundary_point() {
    let mut arena = OutPtArena::new();
    let inner = square(&mut arena, 0, 2, 2, 2);
    let outer = square(&mut arena, 1, 0, 0, 10);
    let outside = square(&mut arena, 2, 20, 20, 10);
    assert!(poly2_contains_poly1(&arena, inner, outer));
    assert!(!poly2_contains_poly1(&arena, outside, outer));
}

#[test]
fn appending_a_ring_moves_its_record_into_the_first() {
    let mut recs = vec![rec(0, false, Some(0), None), rec(1, true, Some(4), Some(2)), rec(2, false, Some(8), None)];
    recs[0].bottom_pt = Some(0);
    append_records(&mut recs, 0, 1, 1, 3);
    assert_eq!(recs[0].pts, Some(3));
    assert_eq!(recs[0].bottom_pt, None);
    assert!(recs[0].is_hole);
    assert_eq!(recs[0].first_left, Some(2));
    assert_eq!(recs[1].pts, None);
    assert_eq!(recs[1].first_left, Some(0));
    assert_eq!(recs[1].idx, 0);

    let mut recs = vec![rec(0, false, Some(0), Some(2)), rec(1, true, Some(4), Some(0)), rec(2, false, Some(8), None)];
    append_records(&mut recs, 0, 1, 1, 0);
    assert_eq!(recs[0].first_left, Some(2));
    assert!(recs[0].is_hole);

    let mut recs = vec![rec(0, false, Some(0), None), rec(1, true, Some(4), Some(2)), rec(2, false, Some(8), None)];
    append_records(&mut recs, 0, 1, 0, 0);
    assert!(!recs[0].is_hole);
    assert_eq!(recs[0].first_left, None);
    assert_eq!(recs[1].first_left, Some(0));
}

#[test]
fn add_out_pt_creates_and_extends_output_ring() {
    let mut recs: Vec<OutRec> = Vec::new();
    let mut arena = OutPtArena::new();
    let no_left: Vec<(i32, i32)> = Vec::new();
    let (first, out_idx) = add_out_pt(&mut recs, &mut arena, -1, true, true, IntPoint::new(0, 0), &no_left);
    assert_eq!(out_idx, 0);
    assert_eq!(arena.get(first).next, first);
    assert_eq!(arena.get(first).prev, first);
    assert_eq!(recs[0].pts, Some(first));

    let (second, out_idx) = add_out_pt(&mut recs, &mut arena, out_idx, true, true, IntPoint::new(1, 0), &no_left);
    assert_eq!(out_idx, 0);
    assert_eq!(recs[0].pts, Some(second));
    assert_eq!(arena.get(second).next, first);
    assert_eq!(arena.get(first).prev, second);
    // the last point of a left-side edge heads the ring
    assert_eq!(recs[0].pts.unwrap(), second);
}

#[test]
fn add_out_pt_right_side_appends_at_ring_back() {
    let mut recs: Vec<OutRec> = Vec::new();
    let mut arena = OutPtArena::new();
    let no_left: Vec<(i32, i32)> = Vec::new();
    let (first, out_idx) = add_out_pt(&mut recs, &mut arena, -1, true, false, IntPoint::new(0, 0), &no_left);
    let (second, _) = add_out_pt(&mut recs, &mut arena, out_idx, true, false, IntPoint::new(1, 0), &no_left);
    assert_eq!(recs[0].pts, Some(first));
    assert_eq!(arena.get(first).prev, second);
    // the last point of a right-side edge is the one before the head
    assert_eq!(arena.get(recs[0].pts.unwrap()).prev, second);
}

#[test]
fn add_out_pt_skips_a_repeated_end_point() {
    let mut recs: Vec<OutRec> = Vec::new();
    let mut arena = OutPtArena::new();
    let no_left: Vec<(i32, i32)> = Vec::new();
    let (first, out_idx) = add_out_pt(&mut recs, &mut arena, -1, false, true, IntPoint::new(3, 4), &no_left);
    assert!(recs[0].is_open);
    let (again, _) = add_out_pt(&mut recs, &mut arena, out_idx, false, true, IntPoint::new(3, 4), &no_left);
    assert_eq!(again, first);
    assert_eq!(arena.len(), 1);
    let (back, _) = add_out_pt(&mut recs, &mut arena, out_idx, false, false, IntPoint::new(3, 4), &no_left);
    assert_eq!(back, first);
    assert_eq!(arena.len(), 1);
}

#[test]
fn set_hole_state_uses_previous_output_edge() {
    let mut arena = OutPtArena::new();
    let owner_pt = arena.new_ring(0, IntPoint::new(0, 0));
    let mut recs = vec![rec(0, false, Some(owner_pt), None), rec(1, false, None, None)];
    let left = vec![(0, 1)];
    set_hole_state(&mut recs, 1, &left);
    assert_eq!(recs[1].first_left, Some(0));
    assert!(recs[1].is_hole);
}

#[test]
fn set_hole_state_pairs_cancel_and_open_edges_do_not_count() {
    let mut recs = vec![
        rec(0, false, Some(0), None),
        rec(1, true, Some(1), Some(0)),
        rec(2, false, None, None),
    ];
    // nearest first: record 1 twice (its two sides), an open edge, record 0
    set_hole_state(&mut recs, 2, &vec![(1, 1), (1, -1), (-1, 1), (0, 0), (0, 1)]);
    assert_eq!(recs[2].first_left, Some(0));
    assert!(recs[2].is_hole);
    set_hole_state(&mut recs, 2, &vec![(1, 1), (0, 1)]);
    assert_eq!(recs[2].first_left, Some(1));
    assert!(!recs[2].is_hole);
    set_hole_state(&mut recs, 2, &vec![(-1, 1), (0, 0)]);
    assert_eq!(recs[2].first_left, None);
    assert!(!recs[2].is_hole);
}

#[test]
fn create_and_dispose_out_rec_tracks_indices() {
    let mut recs: Vec<OutRec> = Vec::new();
    let out0 = create_out_rec(&mut recs);
    let out1 = create_out_rec(&mut recs);
    assert_eq!(recs[out0].idx, 0);
    assert_eq!(recs[out1].idx, 1);
    recs[out0].pts = Some(0);
    recs[out1].pts = Some(1);
    dispose_out_rec(&mut recs, 0);
    // the disposed record is left without points, the other untouched
    assert!(recs[0].pts.is_none());
    assert!(recs[1].pts.is_some());
    assert_eq!(recs.len(), 2);
}
