# clipper_rust

Polygon clipping (union, intersection, difference, XOR) and offsetting on
64-bit integer coordinates.

The crate is split in two:

- `src/` is the verified library, written in Verus. Every function there has
  a contract that Verus proves. It holds the integer geometry predicates
  (collinearity, overlap, point location, exact orientation), the fill and
  winding rules, the order in which crossing edges are processed
  (`crossing_order`, `fixup_intersection_order`), the scanbeam queue, the
  preparation of input paths, the search for their local minima
  (`find_next_loc_min`) and the layout of their bounds (`process_bound`),
  the arena of output rings (`OutPtArena`) with the operations that build,
  join (`join_points`) and tidy (`fixup_polyline`, `fixup_polygon`) them,
  the records of the output polygons (`OutRec`) and how joins and cuts
  update them (`merge_records`, `split_record`), the output points that
  edges of the sweep add (`add_out_pt`, `set_hole_state`), the pass that
  cuts polygons where they touch themselves (`do_simple_polygons`), the
  result tree (`PolyTree`) and how it is built from the records
  (`build_result2`), and the integer side of offsetting.
- `app/` is ordinary Rust around it: the passes of the sweep-line engine,
  which ask for floating-point slopes and positions part way through, and
  the floating-point offsetting. The engine keeps its own edge lists
  (choosing the left and right bounds of each local minimum by slope, and
  the active and sorted edge lists); it calls the library for everything
  listed above, for the winding counts and for what to do where edges
  cross.

`tests/` exercises the library's public functions.
