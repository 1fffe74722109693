use clipper_rust::{
    build_result, join_points, point_in_polygon_out_pt, point_is_vertex, poly2_contains_poly1,
    IntPoint, Join, OutPtArena,
};

#[test]
fn ring_arena_links_points_in_order() {
    let mut ring = OutPtArena::new();
    let a = ring.new_ring(7, IntPoint::new(0, 0));
    assert_eq!(ring.get(a).next, a);
    assert_eq!(ring.get(a).prev, a);
    let b = ring.insert_after(a, 7, IntPoint::new(1, 0));
    let c = ring.insert_after(b, 7, IntPoint::new(1, 1));
    assert_eq!(ring.len(), 3);
    assert_eq!((ring.get(a).next, ring.get(b).next, ring.get(c).next), (b, c, a));
    assert_eq!((ring.get(a).prev, ring.get(b).prev, ring.get(c).prev), (c, a, b));
    assert_eq!(ring.get(c).pt, IntPoint::new(1, 1));
    assert_eq!(ring.get(b).idx, 7);

    // taking b out closes the ring over it and leaves b alone
    let before = ring.unlink(b);
    assert_eq!(before, a);
    assert_eq!((ring.get(a).next, ring.get(c).prev), (c, a));
    assert_eq!((ring.get(b).next, ring.get(b).prev), (b, b));

    ring.set_idx(c, 3);
    assert_eq!(ring.get(c).idx, 3);
    assert_eq!(ring.get(c).pt, IntPoint::new(1, 1));

    ring.clear();
    assert_eq!(ring.len(), 0);
}

#[test]
fn unlinking_from_a_pair_leaves_two_single_rings() {
    let mut ring = OutPtArena::new();
    let a = ring.new_ring(0, IntPoint::new(5, 5));
    let b = ring.insert_after(a, 0, IntPoint::new(6, 6));
    assert_eq!(ring.unlink(a), b);
    assert_eq!((ring.get(b).next, ring.get(b).prev), (b, b));
    assert_eq!((ring.get(a).next, ring.get(a).prev), (a, a));
    // a point alone stays alone
    assert_eq!(ring.unlink(a), a);
    assert_eq!(ring.get(a).next, a);
}

fn ring_from(arena: &mut OutPtArena, idx: i32, pts: &[(i64, i64)]) -> usize {
    let first = arena.new_ring(idx, IntPoint::new(pts[0].0, pts[0].1));
    let mut last = first;
    for &(x, y) in &pts[1..] {
        last = arena.insert_after(last, idx, IntPoint::new(x, y));
    }
    first
}

fn walk_next(arena: &OutPtArena, start: usize) -> Vec<usize> {
    let mut r = vec![start];
    let mut cur = arena.get(start).next;
    while cur != start {
        r.push(cur);
        cur = arena.get(cur).next;
    }
    r
}

#[test]
fn joining_along_a_shared_vertical_edge_merges_two_rings() {
    let mut arena = OutPtArena::new();
    let a = ring_from(&mut arena, 0, &[(10, 10), (10, 0), (0, 0), (0, 10)]);
    let b = ring_from(&mut arena, 1, &[(10, 10), (20, 10), (20, 0), (10, 0)]);
    assert_eq!((a, b), (0, 4));
    let mut j = Join { out_pt1: a, out_pt2: b, off_pt: IntPoint::new(10, 0) };
    assert!(join_points(&mut arena, &mut j, false, false));
    assert_eq!(j, Join { out_pt1: 0, out_pt2: 8, off_pt: IntPoint::new(10, 0) });
    assert_eq!(arena.len(), 10);
    assert_eq!(walk_next(&arena, 0), vec![0, 4, 5, 6, 7, 9, 8, 1, 2, 3]);
    assert_eq!(arena.get(8).pt, IntPoint::new(10, 10));
    assert_eq!(arena.get(9).pt, IntPoint::new(10, 10));
    assert_eq!(arena.get(9).idx, 1);
}

#[test]
fn joining_at_a_touching_point_splits_one_ring() {
    let mut arena = OutPtArena::new();
    let n0 = ring_from(&mut arena, 0, &[(5, 5), (10, 10), (0, 10), (5, 5), (10, 0), (0, 0)]);
    let mut j = Join { out_pt1: n0, out_pt2: 3, off_pt: IntPoint::new(5, 5) };
    // two rings never join at a point
    let mut other = j;
    assert!(!join_points(&mut arena, &mut other, false, false));
    assert_eq!(arena.len(), 6);
    assert!(join_points(&mut arena, &mut j, true, false));
    assert_eq!(j.out_pt2, 6);
    assert_eq!(walk_next(&arena, 0), vec![0, 1, 2, 3]);
    assert_eq!(walk_next(&arena, 6), vec![6, 7, 4, 5]);
}

#[test]
fn joining_along_a_shared_horizontal_edge_merges_two_rings() {
    let mut arena = OutPtArena::new();
    let a = ring_from(&mut arena, 0, &[(0, 0), (10, 0), (10, 10), (0, 10)]);
    let b = ring_from(&mut arena, 1, &[(10, 0), (0, 0), (0, -10), (10, -10)]);
    let mut j = Join { out_pt1: a, out_pt2: b, off_pt: IntPoint::new(10, 0) };
    assert!(join_points(&mut arena, &mut j, false, false));
    assert_eq!((j.out_pt1, j.out_pt2), (0, 4));
    assert_eq!(walk_next(&arena, 0), vec![0, 5, 6, 7, 4, 9, 8, 1, 2, 3]);
    assert_eq!(arena.get(8).pt, IntPoint::new(0, 0));
    assert_eq!(arena.get(9).pt, IntPoint::new(0, 0));
}

#[test]
fn horizontal_runs_going_the_same_way_do_not_join() {
    let mut arena = OutPtArena::new();
    let a = ring_from(&mut arena, 0, &[(0, 0), (10, 0), (10, 10), (0, 10)]);
    let b = ring_from(&mut arena, 1, &[(0, 0), (10, 0), (10, -10), (0, -10)]);
    let mut j = Join { out_pt1: a, out_pt2: b + 1, off_pt: IntPoint::new(10, 0) };
    assert!(!join_points(&mut arena, &mut j, false, false));
    assert_eq!(arena.len(), 8);
    assert_eq!(walk_next(&arena, 0), vec![0, 1, 2, 3]);
    assert_eq!(walk_next(&arena, 4), vec![4, 5, 6, 7]);
    // the join was widened to the starts of the runs before they were compared
    assert_eq!(j, Join { out_pt1: 0, out_pt2: 4, off_pt: IntPoint::new(10, 0) });
}

fn ring_points(arena: &OutPtArena, start: usize) -> Vec<(i64, i64)> {
    walk_next(arena, start).into_iter().map(|i| (arena.get(i).pt.x, arena.get(i).pt.y)).collect()
}

#[test]
fn fixing_a_polyline_drops_repeated_points() {
    let mut arena = OutPtArena::new();
    let start =
        ring_from(&mut arena, 0, &[(0, 0), (0, 0), (1, 1), (1, 1), (1, 1), (2, 2), (0, 0)]);
    assert_eq!(arena.fixup_polyline(start), Some(start));
    assert_eq!(ring_points(&arena, start), vec![(0, 0), (1, 1), (2, 2), (0, 0)]);
    assert_eq!(arena.len(), 7);
}

#[test]
fn a_polyline_of_one_repeated_point_is_dropped() {
    let mut arena = OutPtArena::new();
    let start = ring_from(&mut arena, 0, &[(3, 3), (3, 3), (3, 3)]);
    let other = ring_from(&mut arena, 1, &[(7, 7), (7, 7)]);
    assert_eq!(arena.fixup_polyline(start), None);
    // another ring is left alone
    assert_eq!(walk_next(&arena, other), vec![3, 4]);
}

#[test]
fn fixing_a_polygon_drops_repeats_and_collinear_points() {
    let mut arena = OutPtArena::new();
    let pts = [(0, 0), (5, 0), (10, 0), (10, 10), (10, 10), (0, 10)];
    let start = ring_from(&mut arena, 0, &pts);
    assert_eq!(arena.fixup_polygon(start, false, false), Some(2));
    assert_eq!(walk_next(&arena, 2), vec![2, 4, 5, 0]);
    assert_eq!(ring_points(&arena, 2), vec![(10, 0), (10, 10), (0, 10), (0, 0)]);
}

#[test]
fn fixing_a_polygon_can_keep_points_between_their_neighbours() {
    let mut arena = OutPtArena::new();
    let pts = [(0, 0), (5, 0), (10, 0), (10, 10), (10, 10), (0, 10)];
    let start = ring_from(&mut arena, 0, &pts);
    assert_eq!(arena.fixup_polygon(start, true, false), Some(2));
    assert_eq!(walk_next(&arena, 2), vec![2, 4, 5, 0, 1]);
}

#[test]
fn a_polygon_of_collinear_points_collapses() {
    let mut arena = OutPtArena::new();
    let start = ring_from(&mut arena, 0, &[(0, 0), (5, 0), (10, 0)]);
    assert_eq!(arena.fixup_polygon(start, false, false), None);
    assert!(arena.coords_fit(false));
}

#[test]
fn appending_rings_splices_them_at_the_meeting_side() {
    let mut arena = OutPtArena::new();
    let a = ring_from(&mut arena, 0, &[(0, 0), (1, 0), (1, 1)]);
    let b = ring_from(&mut arena, 1, &[(5, 5), (6, 5), (6, 6)]);
    // left bound meets a right bound: no turning round
    let head = arena.append_ring(a, b, true, false);
    assert_eq!(head, b);
    assert_eq!(walk_next(&arena, head), vec![3, 4, 5, 0, 1, 2]);

    let mut arena = OutPtArena::new();
    let a = ring_from(&mut arena, 0, &[(0, 0), (1, 0), (1, 1)]);
    let b = ring_from(&mut arena, 1, &[(5, 5), (6, 5), (6, 6)]);
    // two left bounds: the second ring is turned round first
    let head = arena.append_ring(a, b, true, true);
    assert_eq!(head, 5);
    assert_eq!(walk_next(&arena, head), vec![5, 4, 3, 0, 1, 2]);

    let mut arena = OutPtArena::new();
    let a = ring_from(&mut arena, 0, &[(0, 0), (1, 0), (1, 1)]);
    let b = ring_from(&mut arena, 1, &[(5, 5), (6, 5), (6, 6)]);
    // two right bounds: the head stays
    let head = arena.append_ring(a, b, false, false);
    assert_eq!(head, a);
    assert_eq!(walk_next(&arena, head), vec![0, 1, 2, 5, 4, 3]);
}

#[test]
fn points_are_located_against_an_output_ring() {
    let mut arena = OutPtArena::new();
    let sq = ring_from(&mut arena, 0, &[(0, 0), (10, 0), (10, 10), (0, 10)]);
    assert_eq!(point_in_polygon_out_pt(&arena, IntPoint::new(5, 5), sq), 1);
    assert_eq!(point_in_polygon_out_pt(&arena, IntPoint::new(15, 5), sq), 0);
    assert_eq!(point_in_polygon_out_pt(&arena, IntPoint::new(10, 5), sq), -1);
    assert_eq!(point_in_polygon_out_pt(&arena, IntPoint::new(0, 0), sq), -1);
    assert!(point_is_vertex(&arena, IntPoint::new(10, 10), sq));
    assert!(!point_is_vertex(&arena, IntPoint::new(5, 5), sq));
    assert_eq!(
        arena.ring_points(2),
        vec![IntPoint::new(10, 10), IntPoint::new(0, 10), IntPoint::new(0, 0), IntPoint::new(10, 0)]
    );
}

#[test]
fn one_ring_contains_another() {
    let mut arena = OutPtArena::new();
    let big = ring_from(&mut arena, 0, &[(0, 0), (10, 0), (10, 10), (0, 10)]);
    let small = ring_from(&mut arena, 1, &[(2, 2), (4, 2), (4, 4), (2, 4)]);
    let touching = ring_from(&mut arena, 2, &[(0, 0), (10, 0), (5, 5)]);
    assert!(poly2_contains_poly1(&arena, small, big));
    assert!(!poly2_contains_poly1(&arena, big, small));
    // the first point off the boundary decides
    assert!(poly2_contains_poly1(&arena, touching, big));
    // a ring on the boundary throughout counts as inside
    assert!(poly2_contains_poly1(&arena, big, big));
}

#[test]
fn finished_rings_are_read_backwards_into_paths() {
    let mut arena = OutPtArena::new();
    let a = ring_from(&mut arena, 0, &[(0, 0), (1, 0), (1, 1)]);
    let lone = ring_from(&mut arena, 1, &[(5, 5)]);
    let mut polys = vec![vec![IntPoint::new(9, 9)]];
    build_result(&arena, &vec![Some(a), None, Some(lone)], &mut polys);
    assert_eq!(
        polys,
        vec![
            vec![IntPoint::new(9, 9)],
            vec![IntPoint::new(1, 1), IntPoint::new(1, 0), IntPoint::new(0, 0)],
        ]
    );
}

#[test]
fn exchanging_successors_merges_two_rings_and_splits_one() {
    let mut arena = OutPtArena::new();
    let a = ring_from(&mut arena, 0, &[(0, 0), (1, 0), (1, 1)]);
    let b = ring_from(&mut arena, 1, &[(5, 5), (6, 5)]);
    arena.swap_next(a, b);
    assert_eq!(walk_next(&arena, a), vec![0, 4, 3, 1, 2]);
    // the same exchange on the joined ring cuts it apart again
    arena.swap_next(a, b);
    assert_eq!(walk_next(&arena, a), vec![0, 1, 2]);
    assert_eq!(walk_next(&arena, b), vec![3, 4]);
}
