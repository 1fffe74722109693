//! Integer polygon clipping support library.
//!
//! The verified core holds the integer geometry predicates, the fill and
//! winding rules that decide which edges bound the result of a boolean
//! operation, the order in which crossing edges are processed, the
//! scanbeam queue, the preparation of input paths and the layout of the
//! bounds of their local minima, the arena of output
//! rings with the operations that build, join, cut and tidy them, the
//! records of the output polygons and how joins and cuts update them, the
//! output points that edges of the sweep add and the rectangle that holds
//! the bounds of the local minima, the pass that cuts polygons where they
//! touch themselves, the nested result
//! tree (`PolyTree`) and how it is built from the records, and the integer
//! side of polygon offsetting.
use vstd::prelude::*;

pub mod bound_walk;
pub mod bounds;
pub mod crossing;
pub mod cuts;
pub mod error;
pub mod fixup;
pub mod geometry;
pub mod join_records;
pub mod joins;
pub mod location_laws;
pub mod left_walks;
pub mod offset;
pub mod out_points;
pub mod outpt;
pub mod outrec;
pub mod path_prep;
pub mod polytree;
pub mod result_tree;
pub mod ring_query;
pub mod scanbeam;
pub mod simple;
pub mod types;
pub mod winding;

pub use bound_walk::{find_next_loc_min, process_bound, BoundEdge};
pub use bounds::{get_bounds, BoundChains};
pub use crossing::{crossing_order, fixup_intersection_order, intersect_windings, CrossingAction};
pub use error::{ClipperError, Result};
pub use join_records::{append_records, merge_records, split_off_record, split_record};
pub use joins::{join_horz, join_points, Join};
pub use geometry::{
    abs, cross_sign, get_overlap, locate_point, get_overlap_segment, horz_segments_overlap, int128_mul,
    minkowski, orientation, point_in_polygon, pt2_is_between_pt1_and_pt3, range_test,
    reverse_path, reverse_paths, slopes_equal_3_points, slopes_equal_4_points, swap_points,
    translate_path,
};
pub use offset::{offset_frame, OffsetPath, OffsetPaths};
pub use out_points::{add_out_pt, set_hole_state};
pub use outpt::{OutPt, OutPtArena};
pub use outrec::{
    create_out_rec, dispose_out_rec, fix_hole_linkage, fixup_first_lefts1, fixup_first_lefts2, fixup_first_lefts3,
    get_out_rec, out_rec1_right_of_out_rec2, parse_first_left, OutRec,
};
pub use path_prep::add_path_vertices;
pub use result_tree::build_result2;
pub use ring_query::{build_result, point_in_polygon_out_pt, point_is_vertex, poly2_contains_poly1};
pub use polytree::{
    closed_paths_from_poly_tree, open_paths_from_poly_tree, poly_tree_to_paths, PolyNode, PolyTree,
};
pub use scanbeam::Scanbeam;
pub use simple::do_simple_polygons;
pub use types::{
    AddPathResult, CInt, ClipType, Direction, EdgeSide, EndType, HI_RANGE, IntPoint, IntRect,
    JoinType, LO_RANGE, Orientation, Path, Paths, PointLocation, PolyFillType, PolyType, SKIP,
    UNASSIGNED,
};
pub use winding::{
    is_contributing, is_even_odd_alt_fill_type, is_even_odd_fill_type, set_winding_count,
    winding_count_for_fill, EdgeWinding,
};

verus! {

} // verus!
