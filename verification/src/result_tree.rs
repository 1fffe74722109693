//! Building the nested result (`PolyTree`) from the output records: every
//! ring long enough becomes a node, polygons hang under the polygon they
//! lie in, open paths and outermost polygons under the root.
use vstd::prelude::*;

use crate::left_walks::{
    lefts_acyclic, lemma_hole_left_other_kind, lemma_hole_search_ends, lemma_relink_keeps_acyclic,
    lemma_same_lefts,
};
use crate::outpt::{ring_len, OutPt, OutPtArena};
use crate::outrec::{
    first_where, fix_hole_linkage, hole_left, hole_stop, lefts_in_range, OutRec,
};
use crate::polytree::PolyTree;
use crate::ring_query::ring_pts_back;

verus! {

/// Record `r` has a ring long enough for the result: two points for an
/// open path, three for a polygon.
pub open spec fn tree_worthy(s: Seq<OutPt>, r: OutRec) -> bool {
    match r.pts {
        Some(h) => ring_len(s, h as int) >= if r.is_open {
            2nat
        } else {
            3nat
        },
        None => false,
    }
}

/// How many of the first `n` records go into the result tree.
pub open spec fn worthy_count(s: Seq<OutPt>, recs: Seq<OutRec>, n: int) -> nat
    decreases n,
{
    if n <= 0 {
        0
    } else {
        worthy_count(s, recs, n - 1) + if tree_worthy(s, recs[n - 1]) {
            1nat
        } else {
            0nat
        }
    }
}

/// The records after the first `n` steps of building the tree: each record
/// that goes into it, in order, is linked to the polygon it lies in
/// (`hole_left`) and given the next node.
pub open spec fn tree_pass(s: Seq<OutPt>, recs: Seq<OutRec>, n: int) -> Seq<OutRec>
    decreases n,
{
    if n <= 0 {
        recs
    } else {
        let r = tree_pass(s, recs, n - 1);
        if tree_worthy(s, recs[n - 1]) {
            r.update(
                n - 1,
                OutRec {
                    first_left: hole_left(r, n - 1),
                    poly_nd: Some((1 + worthy_count(s, recs, n - 1)) as usize),
                    ..r[n - 1]
                },
            )
        } else {
            r
        }
    }
}

/// The node that record `i`'s node hangs under: the root for an open path
/// or for a polygon whose `first_left` has no node, else that node.
pub open spec fn tree_parent(recs: Seq<OutRec>, i: int) -> usize {
    if recs[i].is_open {
        0
    } else {
        match recs[i].first_left {
            Some(f) => match recs[f as int].poly_nd {
                Some(p) => p,
                None => 0,
            },
            None => 0,
        }
    }
}

/// The children of node `p` among the nodes of the first `m` records, in
/// the order of the records.
pub open spec fn tree_children(recs: Seq<OutRec>, p: usize, m: int) -> Seq<usize>
    decreases m,
{
    if m <= 0 {
        Seq::empty()
    } else {
        let c = tree_children(recs, p, m - 1);
        match recs[m - 1].poly_nd {
            Some(nd) => if tree_parent(recs, m - 1) == p {
                c.push(nd)
            } else {
                c
            },
            None => c,
        }
    }
}

/// The node given to record `i` (see `tree_pass`).
pub open spec fn tree_node(s: Seq<OutPt>, recs: Seq<OutRec>, i: int) -> int {
    1 + worthy_count(s, recs, i) as int
}

/// The count only grows, by at most one a record, and by one at each
/// record that goes into the tree.
proof fn lemma_worthy_count_mono(s: Seq<OutPt>, recs: Seq<OutRec>, a: int, b: int)
    requires
        0 <= a <= b,
    ensures
        worthy_count(s, recs, a) <= worthy_count(s, recs, b),
        worthy_count(s, recs, b) <= worthy_count(s, recs, a) + (b - a),
        a < b && tree_worthy(s, recs[a]) ==> worthy_count(s, recs, a) < worthy_count(s, recs, b),
    decreases b - a,
{
    if a < b {
        lemma_worthy_count_mono(s, recs, a + 1, b);
    }
}

/// Two records that go into the tree get different nodes, both in the tree.
proof fn lemma_nodes_distinct(s: Seq<OutPt>, recs: Seq<OutRec>, i: int, j: int)
    requires
        0 <= i < recs.len(),
        0 <= j < recs.len(),
        tree_worthy(s, recs[i]),
        tree_worthy(s, recs[j]),
    ensures
        i != j ==> worthy_count(s, recs, i) != worthy_count(s, recs, j),
        worthy_count(s, recs, i) < worthy_count(s, recs, recs.len() as int),
        worthy_count(s, recs, j) < worthy_count(s, recs, recs.len() as int),
{
    if i < j {
        lemma_worthy_count_mono(s, recs, i, j);
    } else {
        lemma_worthy_count_mono(s, recs, j, i);
    }
    lemma_worthy_count_mono(s, recs, i, recs.len() as int);
    lemma_worthy_count_mono(s, recs, j, recs.len() as int);
}

/// Whether record `r` goes into the result tree (see `tree_worthy`).
fn is_tree_worthy(arena: &OutPtArena, r: &OutRec) -> (b: bool)
    requires
        r.pts matches Some(h) ==> h < arena.nodes().len(),
    ensures
        b == tree_worthy(arena.nodes(), *r),
{
    let cnt = match r.pts {
        Some(h) => arena.ring_len(h),
        None => 0,
    };
    !((r.is_open && cnt < 2) || (!r.is_open && cnt < 3))
}

/// Fills `polytree` with the rings of `recs`: each record whose ring is
/// long enough (see `tree_worthy`) is first linked to the polygon it lies
/// in (`fix_hole_linkage`) and gets a node holding its ring read
/// backwards from the point before its head; then each node goes under
/// the node of its record's `first_left`, or under the root for an open
/// path or a polygon without one (see `tree_pass`, `tree_parent`,
/// `tree_children`).
#[verifier::spinoff_prover]
#[verifier::rlimit(100)]
pub fn build_result2(recs: &mut Vec<OutRec>, arena: &OutPtArena, polytree: &mut PolyTree)
    requires
        lefts_in_range(old(recs)@),
        lefts_acyclic(old(recs)@),
        old(recs)@.len() < usize::MAX,
        forall|i: int|
            0 <= i < old(recs)@.len() ==> (#[trigger] old(recs)@[i]).poly_nd is None && (
            old(recs)@[i].pts matches Some(h) ==> h < arena.nodes().len()),
    ensures
        final(recs)@ == tree_pass(arena.nodes(), old(recs)@, old(recs)@.len() as int),
        final(polytree).wf(),
        final(polytree).len() == 1 + worthy_count(
            arena.nodes(),
            old(recs)@,
            old(recs)@.len() as int,
        ),
        forall|i: int|
            0 <= i < old(recs)@.len() ==> (#[trigger] final(recs)@[i]).poly_nd == (if tree_worthy(
                arena.nodes(),
                old(recs)@[i],
            ) {
                Some((1 + worthy_count(arena.nodes(), old(recs)@, i)) as usize)
            } else {
                None
            }),
        forall|i: int|
            0 <= i < old(recs)@.len() && tree_worthy(arena.nodes(), old(recs)@[i]) ==> {
                                let h = old(recs)@[i].pts->0;
                &&& (#[trigger] final(polytree).node_spec(tree_node(arena.nodes(), old(recs)@, i))).contour@ == ring_pts_back(
                    arena.nodes(),
                    arena.nodes()[h as int].prev as int,
                )
                &&& final(polytree).node_spec(tree_node(arena.nodes(), old(recs)@, i)).is_open == old(recs)@[i].is_open
                &&& final(polytree).node_spec(tree_node(arena.nodes(), old(recs)@, i)).parent == Some(tree_parent(final(recs)@, i))
            },
        forall|p: int|
            0 <= p < final(polytree).len() ==> (#[trigger] final(polytree).node_spec(p)).childs@
                == tree_children(final(recs)@, p as usize, old(recs)@.len() as int),
{
    let ghost s = arena.nodes();
    let ghost orig = recs@;
    let len = recs.len();
    let _ = arena.len();
    polytree.clear();
    let mut i: usize = 0;
    while i < len
        invariant
            s == arena.nodes(),
            orig.len() == len,
            recs@.len() == len,
            len < usize::MAX,
            i <= len,
            recs@ == tree_pass(s, orig, i as int),
            lefts_in_range(recs@),
            lefts_acyclic(recs@),
            forall|j: int|
                0 <= j < len ==> {
                    &&& (#[trigger] recs@[j]).pts == orig[j].pts
                    &&& recs@[j].is_open == orig[j].is_open
                    &&& recs@[j].is_hole == orig[j].is_hole
                    &&& (orig[j].pts matches Some(h) ==> h < s.len())
                    &&& recs@[j].poly_nd == (if j < i && tree_worthy(s, orig[j]) {
                        Some((1 + worthy_count(s, orig, j)) as usize)
                    } else {
                        None
                    })
                    &&& (j < i && tree_worthy(s, orig[j]) ==> recs@[j].first_left != Some(
                        j as usize,
                    ))
                },
            polytree.wf(),
            polytree.len() == 1 + worthy_count(s, orig, i as int),
            worthy_count(s, orig, i as int) <= i,
            forall|p: int|
                0 <= p < polytree.len() ==> (#[trigger] polytree.node_spec(p)).childs@.len() == 0
                    && polytree.node_spec(p).parent is None,
            forall|j: int|
                0 <= j < i && tree_worthy(s, orig[j]) ==> {
                                        let h = orig[j].pts->0;
                    &&& (#[trigger] polytree.node_spec(tree_node(s, orig, j))).contour@ == ring_pts_back(
                        s,
                        s[h as int].prev as int,
                    )
                    &&& polytree.node_spec(tree_node(s, orig, j)).is_open == orig[j].is_open
                },
        decreases len - i,
    {
        let worthy = is_tree_worthy(arena, &recs[i]);
        proof {
            lemma_worthy_count_mono(s, orig, i as int, i + 1);
        }
        if worthy {
            let ghost a = recs@;
            proof {
                lemma_hole_search_ends(a, i);
                lemma_hole_left_other_kind(a, i);
                let c = first_where(hole_stop(a, a[i as int].is_hole, a[i as int].first_left));
                lemma_relink_keeps_acyclic(a, i, 1 + c);
            }
            fix_hole_linkage(recs, i);
            let ghost b = recs@;
            let rec = recs[i];
            let h = rec.pts.unwrap();
            let prev = arena.get(h).prev;
            let contour = arena.ring_points_backwards(prev);
            proof {
                assert(contour@ =~= ring_pts_back(s, prev as int));
            }
            let nd = polytree.new_node(contour, rec.is_open);
            recs.set(i, OutRec { poly_nd: Some(nd), ..rec });
            proof {
                lemma_same_lefts(b, recs@);
                assert(recs@ =~= tree_pass(s, orig, i + 1));
                assert forall|j: int| 0 <= j < len implies {
                    &&& (#[trigger] recs@[j]).pts == orig[j].pts
                    &&& recs@[j].is_open == orig[j].is_open
                    &&& recs@[j].is_hole == orig[j].is_hole
                    &&& (orig[j].pts matches Some(h) ==> h < s.len())
                    &&& recs@[j].poly_nd == (if j < i + 1 && tree_worthy(s, orig[j]) {
                        Some((1 + worthy_count(s, orig, j)) as usize)
                    } else {
                        None
                    })
                    &&& (j < i + 1 && tree_worthy(s, orig[j]) ==> recs@[j].first_left != Some(
                        j as usize,
                    ))
                } by {
                    if j != i as int {
                        assert(recs@[j] == a[j]);
                    }
                }
                assert forall|j: int| 0 <= j < i + 1 && tree_worthy(s, orig[j]) implies {
                                        let h = orig[j].pts->0;
                    &&& (#[trigger] polytree.node_spec(tree_node(s, orig, j))).contour@ == ring_pts_back(
                        s,
                        s[h as int].prev as int,
                    )
                    &&& polytree.node_spec(tree_node(s, orig, j)).is_open == orig[j].is_open
                } by {
                    if j < i {
                        lemma_worthy_count_mono(s, orig, j + 1, i as int);
                    }
                }
            }
        } else {
            proof {
                assert(tree_pass(s, orig, i + 1) == tree_pass(s, orig, i as int));
            }
        }
        i += 1;
    }
    let ghost fin = recs@;
    proof {
        assert(orig.len() as int == len as int);
        assert forall|j: int| 0 <= j < len && tree_worthy(s, orig[j]) implies tree_node(s, orig, j)
            < polytree.len() by {
            lemma_nodes_distinct(s, orig, j, j);
        }
        lemma_worthy_count_mono(s, orig, 0, len as int);
    }
    let mut i: usize = 0;
    while i < len
        invariant
            s == arena.nodes(),
            fin == recs@,
            fin == tree_pass(s, orig, len as int),
            orig.len() == len,
            fin.len() == len,
            i <= len,
            lefts_in_range(fin),
            forall|j: int|
                0 <= j < len ==> {
                    &&& (#[trigger] fin[j]).pts == orig[j].pts
                    &&& fin[j].is_open == orig[j].is_open
                    &&& fin[j].poly_nd == (if tree_worthy(s, orig[j]) {
                        Some((1 + worthy_count(s, orig, j)) as usize)
                    } else {
                        None
                    })
                    &&& (tree_worthy(s, orig[j]) ==> fin[j].first_left != Some(j as usize))
                },
            polytree.wf(),
            polytree.len() == 1 + worthy_count(s, orig, len as int),
            worthy_count(s, orig, len as int) <= len,
            forall|p: int|
                0 <= p < polytree.len() ==> (#[trigger] polytree.node_spec(p)).childs@
                    == tree_children(fin, p as usize, i as int),
            forall|j: int|
                0 <= j < len && tree_worthy(s, orig[j]) ==> {
                                        let h = orig[j].pts->0;
                    &&& (#[trigger] polytree.node_spec(tree_node(s, orig, j))).contour@ == ring_pts_back(
                        s,
                        s[h as int].prev as int,
                    )
                    &&& polytree.node_spec(tree_node(s, orig, j)).is_open == orig[j].is_open
                    &&& polytree.node_spec(tree_node(s, orig, j)).parent == if j < i {
                        Some(tree_parent(fin, j))
                    } else {
                        None
                    }
                },
        decreases len - i,
    {
        let rec = recs[i];
        if let Some(nd) = rec.poly_nd {
            let parent = if rec.is_open {
                0
            } else {
                match rec.first_left {
                    Some(f) => match recs[f].poly_nd {
                        Some(p) => p,
                        None => 0,
                    },
                    None => 0,
                }
            };
            proof {
                lemma_nodes_distinct(s, orig, i as int, i as int);
                if let Some(f) = rec.first_left {
                    if fin[f as int].poly_nd is Some {
                        lemma_nodes_distinct(s, orig, i as int, f as int);
                    }
                }
                assert(parent == tree_parent(fin, i as int));
                assert(tree_worthy(s, orig[i as int]));
                assert(polytree.node_spec(tree_node(s, orig, i as int)).parent is None);
            }
            let ghost before = polytree.nodes_view();
            polytree.add_child(parent, nd);
            proof {
                assert forall|p: int| 0 <= p < polytree.len() implies (#[trigger] polytree.node_spec(
                    p,
                )).childs@ == tree_children(fin, p as usize, i + 1) by {
                    assert(tree_children(fin, p as usize, i + 1) == if p == parent as int {
                        tree_children(fin, p as usize, i as int).push(nd)
                    } else {
                        tree_children(fin, p as usize, i as int)
                    });
                }
                assert forall|j: int| 0 <= j < len && tree_worthy(s, orig[j]) implies {
                                        let h = orig[j].pts->0;
                    &&& (#[trigger] polytree.node_spec(tree_node(s, orig, j))).contour@ == ring_pts_back(
                        s,
                        s[h as int].prev as int,
                    )
                    &&& polytree.node_spec(tree_node(s, orig, j)).is_open == orig[j].is_open
                    &&& polytree.node_spec(tree_node(s, orig, j)).parent == if j < i + 1 {
                        Some(tree_parent(fin, j))
                    } else {
                        None
                    }
                } by {
                    lemma_nodes_distinct(s, orig, i as int, j);
                    let n = tree_node(s, orig, j);
                    assert(0 <= n < polytree.len());
                    if j == i as int {
                        assert(n == nd as int);
                    } else if n == parent as int {
                        assert(before[n].parent == polytree.node_spec(n).parent);
                    } else {
                        assert(n != nd as int);
                        assert(before[n] == polytree.node_spec(n));
                    }
                }
            }
        } else {
            proof {
                assert forall|p: int| 0 <= p < polytree.len() implies (#[trigger] polytree.node_spec(
                    p,
                )).childs@ == tree_children(fin, p as usize, i + 1) by {
                    assert(tree_children(fin, p as usize, i + 1) == tree_children(
                        fin,
                        p as usize,
                        i as int,
                    ));
                }
            }
        }
        i += 1;
    }
}

} // verus!
