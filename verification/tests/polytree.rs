use clipper_rust::{
    closed_paths_from_poly_tree, open_paths_from_poly_tree, poly_tree_to_paths, IntPoint, PolyNode,
    PolyTree,
};

fn pts(v: &[(i64, i64)]) -> Vec<IntPoint> {
    v.iter().map(|&(x, y)| IntPoint::new(x, y)).collect()
}

#[test]
fn poly_tree_tracks_children_and_hole_depth() {
    let mut tree = PolyTree::new();
    let child = tree.new_node(Vec::new(), false);
    let grandchild = tree.new_node(Vec::new(), false);
    tree.add_child(0, child);
    tree.add_child(child, grandchild);

    assert_eq!(tree.get_first(), Some(child));
    assert_eq!(tree.total(), 2);
    assert_eq!(tree.node(child).child_count(), 1);
    assert!(!tree.is_hole(child));
    assert!(tree.is_hole(grandchild));
    assert_eq!(tree.get_next(child), Some(grandchild));
    assert_eq!(tree.get_next(grandchild), None);
}

#[test]
fn polytree_path_extractors_filter_open_and_closed_nodes() {
    let mut polytree = PolyTree::new();
    let closed = polytree.new_node(pts(&[(0, 0), (10, 0), (10, 10)]), false);
    let open = polytree.new_node(pts(&[(20, 20), (30, 30)]), true);
    polytree.add_child(0, closed);
    polytree.add_child(0, open);

    let mut all = Vec::new();
    let mut closed_paths = Vec::new();
    let mut open_paths = Vec::new();

    poly_tree_to_paths(&polytree, &mut all);
    closed_paths_from_poly_tree(&polytree, &mut closed_paths);
    open_paths_from_poly_tree(&polytree, &mut open_paths);

    assert_eq!(all.len(), 2);
    assert_eq!(closed_paths.len(), 1);
    assert_eq!(open_paths.len(), 1);
    assert_eq!(open_paths[0], pts(&[(20, 20), (30, 30)]));
}

#[test]
fn tree_paths_come_in_depth_first_order() {
    let mut tree = PolyTree::new();
    let outer = tree.new_node(pts(&[(0, 0), (100, 0), (100, 100), (0, 100)]), false);
    let hole = tree.new_node(pts(&[(10, 10), (10, 90), (90, 90), (90, 10)]), false);
    let island = tree.new_node(pts(&[(20, 20), (80, 20), (80, 80)]), false);
    let second = tree.new_node(pts(&[(200, 0), (300, 0), (300, 100)]), false);
    tree.add_child(0, outer);
    tree.add_child(outer, hole);
    tree.add_child(hole, island);
    tree.add_child(0, second);

    let mut all = Vec::new();
    poly_tree_to_paths(&tree, &mut all);
    assert_eq!(all.len(), 4);
    assert_eq!(all[0], tree.node(outer).contour().clone());
    assert_eq!(all[1], tree.node(hole).contour().clone());
    assert_eq!(all[2], tree.node(island).contour().clone());
    assert_eq!(all[3], tree.node(second).contour().clone());

    assert!(!tree.is_hole(outer));
    assert!(tree.is_hole(hole));
    assert!(!tree.is_hole(island));
    assert_eq!(tree.get_next(island), Some(second));
    assert_eq!(tree.get_next_sibling_up(hole), Some(second));
    assert_eq!(tree.child(outer, 0), Some(hole));
    assert_eq!(tree.child(outer, 1), None);
    assert_eq!(tree.children(), &vec![outer, second]);
    assert_eq!(tree.total(), 4);

    let mut open = Vec::new();
    open_paths_from_poly_tree(&tree, &mut open);
    assert!(open.is_empty());
}

#[test]
fn hoisting_the_single_outer_node_lifts_its_children() {
    let mut tree = PolyTree::new();
    let frame = tree.new_node(pts(&[(-10, -10), (110, -10), (110, 110), (-10, 110)]), false);
    let a = tree.new_node(pts(&[(0, 0), (0, 40), (40, 40), (40, 0)]), false);
    let b = tree.new_node(pts(&[(60, 60), (60, 90), (90, 90)]), false);
    tree.add_child(0, frame);
    tree.add_child(frame, a);
    tree.add_child(frame, b);

    assert!(tree.hoist_single_outer());
    assert_eq!(tree.children(), &vec![a, b]);
    assert_eq!(tree.node(a).parent, Some(0));
    assert_eq!(tree.node(b).index, 1);
    assert_eq!(tree.node(frame).child_count(), 0);
    assert_eq!(tree.node(frame).parent, None);
    // the detached frame is no longer counted
    assert_eq!(tree.total(), 2);
    let mut all = Vec::new();
    closed_paths_from_poly_tree(&tree, &mut all);
    assert_eq!(all.len(), 2);
    assert!(!tree.is_hole(a));
}

#[test]
fn hoisting_clears_a_tree_without_a_single_outer_node() {
    let mut tree = PolyTree::new();
    let a = tree.new_node(pts(&[(0, 0), (0, 40), (40, 40)]), false);
    tree.add_child(0, a);
    assert!(!tree.hoist_single_outer());
    assert_eq!(tree.node_count(), 1);
    assert!(tree.first().is_none());

    let mut empty = PolyTree::new();
    assert!(!empty.hoist_single_outer());
    assert_eq!(empty.total(), 0);
}

#[test]
fn poly_node_accessors_report_fields() {
    let node = PolyNode::new();
    assert_eq!(node.child_count(), 0);
    assert!(!node.is_open());
    assert!(node.contour().is_empty());
    assert!(node.children().is_empty());

    let mut tree = PolyTree::new();
    let open = tree.new_node(pts(&[(1, 2), (3, 4)]), true);
    tree.add_child(0, open);
    assert!(tree.node(open).is_open());
    assert_eq!(tree.first().map(|n| n.contour().len()), Some(2));
    tree.clear();
    assert_eq!(tree.node_count(), 1);
    assert_eq!(tree.get_first(), None);
}
