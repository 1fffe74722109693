//! Questions asked of output rings: their points, whether a point is one
//! of them, where a point lies relative to a ring, and whether one ring
//! lies inside another.
use vstd::prelude::*;

use crate::fixup::ring_pts;
use crate::geometry::{locate_point, point_location};
use crate::outpt::{
    lemma_nexts_in_range, lemma_ring_len, links_ok, nexts, prevs, ring_len, OutPtArena, OutPt,
};
use crate::types::IntPoint;

verus! {

impl OutPtArena {
    /// The coordinates of the ring through `start`, walking `next` from
    /// `start`.
    pub fn ring_points(&self, start: usize) -> (r: Vec<IntPoint>)
        requires
            start < self.nodes().len(),
        ensures
            r@ == ring_pts(self.nodes(), start as int),
    {
        let ghost s = self.nodes();
        let _ = self.len();
        let l = self.ring_len(start);
        proof {
            lemma_ring_len(s, start as int);
        }
        let mut r: Vec<IntPoint> = Vec::new();
        let mut cur = start;
        let mut k: usize = 0;
        while k < l
            invariant
                s == self.nodes(),
                links_ok(s),
                start < s.len(),
                l == ring_len(s, start as int),
                k <= l,
                cur == nexts(s, start as int, k as nat),
                r@.len() == k,
                forall|j: int| 0 <= j < k ==> #[trigger] r@[j] == s[nexts(s, start as int, j as nat)].pt,
            decreases l - k,
        {
            proof {
                lemma_nexts_in_range(s, start as int, k as nat);
            }
            let p = self.get(cur);
            r.push(p.pt);
            cur = p.next;
            k += 1;
        }
        proof {
            assert(r@ =~= ring_pts(s, start as int));
        }
        r
    }
}

/// Whether `pt` is one of the points of the ring through `pp`.
pub fn point_is_vertex(arena: &OutPtArena, pt: IntPoint, pp: usize) -> (r: bool)
    requires
        pp < arena.nodes().len(),
    ensures
        r == ring_pts(arena.nodes(), pp as int).contains(pt),
{
    let pts = arena.ring_points(pp);
    let mut i: usize = 0;
    while i < pts.len()
        invariant
            pts@ == ring_pts(arena.nodes(), pp as int),
            i <= pts@.len(),
            forall|j: int| 0 <= j < i ==> pts@[j] != pt,
        decreases pts@.len() - i,
    {
        if pts[i] == pt {
            return true;
        }
        i += 1;
    }
    false
}

/// Location of `pt` relative to the ring through `op`, taken as a closed
/// path: -1 on one of its edges, 1 inside, 0 outside.
pub fn point_in_polygon_out_pt(arena: &OutPtArena, pt: IntPoint, op: usize) -> (r: i32)
    requires
        op < arena.nodes().len(),
    ensures
        r == point_location(pt, ring_pts(arena.nodes(), op as int)),
{
    let path = arena.ring_points(op);
    let _ = arena.len();
    proof {
        lemma_ring_len(arena.nodes(), op as int);
    }
    locate_point(pt, &path)
}

/// Whether the ring `a` lies inside the ring `b`, judged from its `k`-th
/// point on: by the first point that is not on `b`'s boundary, and true
/// when every point is.
pub open spec fn inside_from(a: Seq<IntPoint>, b: Seq<IntPoint>, k: int) -> bool
    decreases a.len() - k,
{
    if k >= a.len() || k < 0 {
        true
    } else if point_location(a[k], b) >= 0 {
        point_location(a[k], b) > 0
    } else {
        inside_from(a, b, k + 1)
    }
}

/// Whether the ring through `out_pt1` lies inside the ring through
/// `out_pt2`: its first point, walking from `out_pt1`, that is not on the
/// boundary of the other ring decides; true when all of them are on it.
pub fn poly2_contains_poly1(arena: &OutPtArena, out_pt1: usize, out_pt2: usize) -> (r: bool)
    requires
        out_pt1 < arena.nodes().len(),
        out_pt2 < arena.nodes().len(),
    ensures
        r == inside_from(ring_pts(arena.nodes(), out_pt1 as int), ring_pts(arena.nodes(), out_pt2 as int), 0),
{
    let a = arena.ring_points(out_pt1);
    let b = arena.ring_points(out_pt2);
    let _ = arena.len();
    proof {
        lemma_ring_len(arena.nodes(), out_pt2 as int);
    }
    let mut i: usize = 0;
    while i < a.len()
        invariant
            a@ == ring_pts(arena.nodes(), out_pt1 as int),
            b@ == ring_pts(arena.nodes(), out_pt2 as int),
            b@.len() >= 1,
            i <= a@.len(),
            inside_from(a@, b@, 0) == inside_from(a@, b@, i as int),
        decreases a@.len() - i,
    {
        let res = locate_point(a[i], &b);
        if res >= 0 {
            return res > 0;
        }
        i += 1;
    }
    true
}

/// The coordinates of the ring through `x`, walking `prev` from `x`.
pub open spec fn ring_pts_back(s: Seq<OutPt>, x: int) -> Seq<IntPoint> {
    Seq::new(ring_len(s, x), |k: int| s[prevs(s, x, k as nat)].pt)
}

/// The paths of the finished rings headed by `heads`, in order: each ring
/// is read backwards from the point before its head; a missing head, or a
/// ring of fewer than two points, gives no path.
pub open spec fn result_paths(s: Seq<OutPt>, heads: Seq<Option<usize>>) -> Seq<Seq<IntPoint>>
    decreases heads.len(),
{
    if heads.len() == 0 {
        Seq::empty()
    } else {
        let rest = result_paths(s, heads.drop_last());
        match heads.last() {
            None => rest,
            Some(h) => {
                let p = s[h as int].prev as int;
                if ring_len(s, p) < 2 {
                    rest
                } else {
                    rest.push(ring_pts_back(s, p))
                }
            },
        }
    }
}

/// Appends to `polys` the paths of the finished rings headed by `heads`
/// (see `result_paths`).
pub fn build_result(arena: &OutPtArena, heads: &Vec<Option<usize>>, polys: &mut Vec<Vec<IntPoint>>)
    requires
        forall|i: int|
            0 <= i < heads@.len() ==> (#[trigger] heads@[i] matches Some(h) ==> h < arena.nodes().len()),
    ensures
        final(polys)@.map_values(|p: Vec<IntPoint>| p@) == old(polys)@.map_values(
            |p: Vec<IntPoint>| p@,
        ) + result_paths(arena.nodes(), heads@),
{
    let ghost s = arena.nodes();
    let ghost start = polys@.map_values(|p: Vec<IntPoint>| p@);
    let _ = arena.len();
    let mut i: usize = 0;
    while i < heads.len()
        invariant
            s == arena.nodes(),
            links_ok(s),
            i <= heads@.len(),
            forall|k: int|
                0 <= k < heads@.len() ==> (#[trigger] heads@[k] matches Some(h) ==> h < s.len()),
            polys@.map_values(|p: Vec<IntPoint>| p@) == start + result_paths(s, heads@.subrange(0, i as int)),
        decreases heads@.len() - i,
    {
        proof {
            assert(heads@.subrange(0, i + 1 as int).drop_last() =~= heads@.subrange(0, i as int));
            assert(heads@.subrange(0, i + 1 as int).last() == heads@[i as int]);
        }
        match heads[i] {
            None => {},
            Some(h) => {
                let p = arena.get(h).prev;
                if arena.ring_len(p) >= 2 {
                    let path = arena.ring_points_backwards(p);
                    let ghost before = polys@.map_values(|q: Vec<IntPoint>| q@);
                    proof {
                        assert(path@ =~= ring_pts_back(s, p as int));
                        assert(result_paths(s, heads@.subrange(0, i + 1 as int)) == result_paths(
                            s,
                            heads@.subrange(0, i as int),
                        ).push(ring_pts_back(s, p as int)));
                    }
                    polys.push(path);
                    proof {
                        assert(polys@.map_values(|q: Vec<IntPoint>| q@) =~= before.push(
                            ring_pts_back(s, p as int),
                        ));
                        assert(polys@.map_values(|q: Vec<IntPoint>| q@) =~= start + result_paths(
                            s,
                            heads@.subrange(0, i + 1 as int),
                        ));
                    }
                }
            },
        }
        i += 1;
    }
    proof {
        assert(heads@.subrange(0, heads@.len() as int) =~= heads@);
    }
}

} // verus!
