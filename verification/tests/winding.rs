use clipper_rust::{
    crossing_order, fixup_intersection_order, intersect_windings, CrossingAction, is_contributing, is_even_odd_alt_fill_type, is_even_odd_fill_type, set_winding_count,
    winding_count_for_fill, ClipType, EdgeWinding, PolyFillType, PolyType,
};

fn edge(poly_type: PolyType, wind_delta: i32, wind_cnt: i32, wind_cnt2: i32) -> EdgeWinding {
    EdgeWinding {
        poly_type,
        wind_delta,
        wind_cnt,
        wind_cnt2,
    }
}

#[test]
fn fill_type_helpers_use_edge_poly_type() {
    let subj = PolyFillType::EvenOdd;
    let clip = PolyFillType::NonZero;

    assert!(is_even_odd_fill_type(PolyType::Subject, subj, clip));
    assert!(!is_even_odd_fill_type(PolyType::Clip, subj, clip));
    assert!(!is_even_odd_alt_fill_type(PolyType::Subject, subj, clip));
    assert!(is_even_odd_alt_fill_type(PolyType::Clip, subj, clip));
}

#[test]
fn is_contributing_matches_union_and_intersection_cases() {
    let nz = PolyFillType::NonZero;
    assert!(is_contributing(ClipType::Union, nz, nz, PolyType::Subject, 1, 1, 0));
    assert!(!is_contributing(ClipType::Union, nz, nz, PolyType::Subject, 1, 1, 1));
    assert!(is_contributing(ClipType::Intersection, nz, nz, PolyType::Subject, 1, 1, 1));
}

#[test]
fn set_winding_count_initializes_first_edge() {
    let ael: Vec<EdgeWinding> = Vec::new();
    let r = set_winding_count(
        &ael,
        PolyType::Subject,
        0,
        ClipType::Intersection,
        PolyFillType::Negative,
        PolyFillType::EvenOdd,
    );
    assert_eq!(r, (-1, 0));
}

#[test]
fn set_winding_count_uses_previous_same_poly_edge() {
    let ael = vec![
        edge(PolyType::Subject, 1, 1, 0),
        edge(PolyType::Clip, 1, 0, 0),
    ];
    let r = set_winding_count(
        &ael,
        PolyType::Subject,
        1,
        ClipType::Union,
        PolyFillType::NonZero,
        PolyFillType::NonZero,
    );
    assert_eq!(r, (2, 1));
}

#[test]
fn first_closed_edge_takes_its_own_delta() {
    let ael: Vec<EdgeWinding> = Vec::new();
    let nz = PolyFillType::NonZero;
    assert_eq!(
        set_winding_count(&ael, PolyType::Clip, -1, ClipType::Union, nz, nz),
        (-1, 0)
    );
    assert_eq!(
        set_winding_count(&ael, PolyType::Subject, 0, ClipType::Union, nz, nz),
        (1, 0)
    );
}

#[test]
fn opposite_delta_keeps_the_winding_count() {
    let nz = PolyFillType::NonZero;
    let ael = vec![edge(PolyType::Subject, 1, 2, 0)];
    assert_eq!(
        set_winding_count(&ael, PolyType::Subject, -1, ClipType::Union, nz, nz),
        (2, 0)
    );
    assert_eq!(
        set_winding_count(&ael, PolyType::Subject, 1, ClipType::Union, nz, nz),
        (3, 0)
    );
}

#[test]
fn even_odd_second_count_toggles_per_closed_edge() {
    let eo = PolyFillType::EvenOdd;
    let ael = vec![
        edge(PolyType::Clip, 1, 1, 0),
        edge(PolyType::Clip, -1, 0, 0),
        edge(PolyType::Clip, 1, 1, 0),
    ];
    let r = set_winding_count(&ael, PolyType::Subject, 1, ClipType::Intersection, eo, eo);
    assert_eq!(r, (1, 1));
}

#[test]
fn open_edge_after_closed_even_odd_subject_edges() {
    let eo = PolyFillType::EvenOdd;
    let ael = vec![
        edge(PolyType::Subject, 1, 1, 0),
        edge(PolyType::Subject, -1, 0, 0),
        edge(PolyType::Subject, 1, 1, 0),
    ];
    // the parity is taken over the closed subject edges before the nearest one
    let r = set_winding_count(&ael, PolyType::Subject, 0, ClipType::Union, eo, eo);
    assert_eq!(r, (0, 0));
    let r = set_winding_count(&ael[..2].to_vec(), PolyType::Subject, 0, ClipType::Union, eo, eo);
    assert_eq!(r, (1, 0));
}

#[test]
fn winding_count_for_fill_reads_counts_through_the_rule() {
    assert_eq!(winding_count_for_fill(PolyFillType::Positive, -3), -3);
    assert_eq!(winding_count_for_fill(PolyFillType::Negative, -3), 3);
    assert_eq!(winding_count_for_fill(PolyFillType::NonZero, -3), 3);
    assert_eq!(winding_count_for_fill(PolyFillType::EvenOdd, 4), 4);
}

#[test]
fn contribution_follows_boolean_operation() {
    let nz = PolyFillType::NonZero;
    let eo = PolyFillType::EvenOdd;
    // difference keeps subject boundaries outside the clip ...
    assert!(is_contributing(ClipType::Difference, nz, nz, PolyType::Subject, 1, 1, 0));
    assert!(!is_contributing(ClipType::Difference, nz, nz, PolyType::Subject, 1, 1, 2));
    // ... and clip boundaries inside the subject
    assert!(is_contributing(ClipType::Difference, nz, nz, PolyType::Clip, 1, 1, 1));
    assert!(!is_contributing(ClipType::Difference, nz, nz, PolyType::Clip, 1, 1, 0));
    // xor keeps every boundary of a closed edge
    assert!(is_contributing(ClipType::Xor, nz, nz, PolyType::Subject, 1, -1, 5));
    // an even-odd open edge counts only where the winding count is one
    assert!(!is_contributing(ClipType::Union, eo, eo, PolyType::Subject, 0, 2, 0));
    // positive and negative fills
    let pos = PolyFillType::Positive;
    let neg = PolyFillType::Negative;
    assert!(is_contributing(ClipType::Intersection, pos, pos, PolyType::Subject, 1, 1, 1));
    assert!(!is_contributing(ClipType::Intersection, pos, pos, PolyType::Subject, 1, 1, -1));
    assert!(is_contributing(ClipType::Union, neg, neg, PolyType::Subject, -1, -1, 1));
    assert!(!is_contributing(ClipType::Union, neg, neg, PolyType::Subject, 1, 1, 0));
}

#[test]
fn intersect_edges_swaps_contributing_same_poly_edges_for_xor_style_case() {
    let eo = PolyFillType::EvenOdd;
    let e1 = edge(PolyType::Subject, 1, 1, 0);
    let e2 = edge(PolyType::Subject, -1, 1, 0);
    let (n1, n2, action) = intersect_windings(e1, e2, true, true, ClipType::Xor, eo, eo);
    assert_eq!(action, CrossingAction::BothPointsAndSwap);
    assert_eq!((n1.wind_cnt, n2.wind_cnt), (1, 1));
}

#[test]
fn intersect_edges_toggles_open_subject_output_against_clip_edge() {
    let eo = PolyFillType::EvenOdd;
    let open = edge(PolyType::Subject, 0, 0, 0);
    let clip = edge(PolyType::Clip, 1, 1, 0);
    let (n1, n2, action) = intersect_windings(open, clip, false, false, ClipType::Difference, eo, eo);
    assert_eq!(action, CrossingAction::OpenPoint { first: true, unassign: false });
    assert_eq!((n1, n2), (open, clip));
}

#[test]
fn crossing_updates_windings_by_delta() {
    let nz = PolyFillType::NonZero;
    // same set: each passes over the other's delta
    let (n1, n2, action) = intersect_windings(
        edge(PolyType::Subject, 1, 1, 0),
        edge(PolyType::Subject, 1, 2, 0),
        true,
        false,
        ClipType::Union,
        nz,
        nz,
    );
    assert_eq!((n1.wind_cnt, n2.wind_cnt), (2, 1));
    assert_eq!(action, CrossingAction::FirstPointAndSwap);
    // a count that would reach zero changes sign
    let (n1, _, _) = intersect_windings(
        edge(PolyType::Subject, 1, 1, 0),
        edge(PolyType::Subject, -1, -1, 0),
        false,
        false,
        ClipType::Union,
        nz,
        nz,
    );
    assert_eq!(n1.wind_cnt, -1);
    // different sets: the other set's count moves, by parity under even-odd
    let (n1, n2, action) = intersect_windings(
        edge(PolyType::Subject, 1, 1, 0),
        edge(PolyType::Clip, -1, 1, 0),
        false,
        false,
        ClipType::Intersection,
        nz,
        PolyFillType::EvenOdd,
    );
    assert_eq!((n1.wind_cnt2, n2.wind_cnt2), (1, -1));
    assert_eq!(action, CrossingAction::LocalMin);
}

#[test]
fn crossing_of_contributing_edges_of_two_sets_closes_a_polygon() {
    let nz = PolyFillType::NonZero;
    let (_, _, action) = intersect_windings(
        edge(PolyType::Subject, 1, 1, 0),
        edge(PolyType::Clip, 1, 1, 0),
        true,
        true,
        ClipType::Intersection,
        nz,
        nz,
    );
    assert_eq!(action, CrossingAction::LocalMax);
    // two non-contributing even-odd edges of one set, one of them now at
    // count 0, swap sides
    let eo = PolyFillType::EvenOdd;
    let (n1, n2, action) = intersect_windings(
        edge(PolyType::Subject, 1, 0, 0),
        edge(PolyType::Subject, -1, 1, 0),
        false,
        false,
        ClipType::Union,
        eo,
        eo,
    );
    assert_eq!((n1.wind_cnt, n2.wind_cnt), (1, 0));
    assert_eq!(action, CrossingAction::SwapSides);
}

#[test]
fn crossings_sort_the_edges_by_x() {
    assert_eq!(crossing_order(&vec![3, 1, 2]), vec![(0, 1), (0, 2)]);
    assert!(crossing_order(&vec![1, 2, 2, 5]).is_empty());
    assert!(crossing_order(&Vec::new()).is_empty());

    let xs = vec![5, -2, 9, 0, 0, 7, -4];
    let swaps = crossing_order(&xs);
    let mut order: Vec<usize> = (0..xs.len()).collect();
    for &(a, b) in &swaps {
        assert!(xs[a] > xs[b]);
        let i = order.iter().position(|&v| v == a).unwrap();
        assert_eq!(order[i + 1], b);
        order.swap(i, i + 1);
    }
    assert!(order.windows(2).all(|w| xs[w[0]] <= xs[w[1]]));
}

#[test]
fn every_pair_out_of_order_crosses_once() {
    let xs = vec![4, 1, 3, 1, 0];
    let r = crossing_order(&xs);
    let mut expected = Vec::new();
    for a in 0..xs.len() {
        for b in a + 1..xs.len() {
            if xs[a] > xs[b] {
                expected.push((a, b));
            }
        }
    }
    let mut got = r.clone();
    got.sort();
    assert_eq!(got, expected);
}

#[test]
fn fixup_intersection_order_brings_neighbours_forward() {
    // three edges in place 0, 1, 2; the crossing of 0 and 2 cannot come first
    let mut nodes = vec![(0, 2, 7), (0, 1, 8), (1, 2, 9)];
    assert!(fixup_intersection_order(&mut nodes, 3));
    assert_eq!(nodes, vec![(0, 1, 8), (0, 2, 7), (1, 2, 9)]);

    // no crossing of neighbours at all
    let mut stuck = vec![(0, 2, 0)];
    assert!(!fixup_intersection_order(&mut stuck, 3));
}
