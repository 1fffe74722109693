//! Joining output rings along an edge they share: the walks that find the
//! ends of the shared stretch, and the relinking that merges two rings into
//! one or cuts one ring into two.
use vstd::prelude::*;

use crate::outpt::{
    inserted_after, inserted_before, lemma_inserted_after_ok, lemma_inserted_before_ok,
    in_ring, is_ring_len, lemma_nexts_add, lemma_nexts_in_range, lemma_prevs_in_range, lemma_ring_distinct,
    lemma_ring_len, lemma_swapped_fields, lemma_swapped_next_ok, lemma_walk_returns, links_ok,
    nexts, prevs, reversed_ring, ring_len, swapped_next, OutPt, OutPtArena,
};
use crate::fixup::{lemma_nexts_in_ring, lemma_ring_len_unique, lemma_same_ring};
use crate::outpt::lemma_ring_closed;
use crate::geometry::{
    cross_terms_fit, get_overlap, overlap_spec, slopes_equal_3_points, slopes_equal_3_spec,
    within_range,
};
use crate::types::{IntPoint, HI_RANGE, LO_RANGE};

verus! {

/// A pending join of two output points that lie on a common edge;
/// `off_pt` is a further point of that edge.
#[derive(Debug, Clone, Copy, PartialEq, Eq, Structural)]
pub struct Join {
    pub out_pt1: usize,
    pub out_pt2: usize,
    pub off_pt: IntPoint,
}

/// The point reached from `x` after `k` steps, along `next` when
/// `forward` and along `prev` otherwise.
pub open spec fn walk(s: Seq<OutPt>, x: int, forward: bool, k: nat) -> int {
    if forward {
        nexts(s, x, k)
    } else {
        prevs(s, x, k)
    }
}

/// Walking `i + j` steps along `prev` is walking `i` steps, then `j` more.
pub proof fn lemma_prevs_add(s: Seq<OutPt>, x: int, i: nat, j: nat)
    ensures
        prevs(s, x, i + j) == prevs(s, prevs(s, x, i), j),
    decreases j,
{
    if j > 0 {
        lemma_prevs_add(s, x, i, (j - 1) as nat);
        assert(prevs(s, x, i + j) == s[prevs(s, x, (i + j - 1) as nat)].prev as int);
    }
}

/// `k` steps back along `prev` undo `k` steps along `next`.
pub proof fn lemma_prevs_undo_nexts(s: Seq<OutPt>, x: int, k: nat)
    requires
        links_ok(s),
        0 <= x < s.len(),
    ensures
        prevs(s, nexts(s, x, k), k) == x,
    decreases k,
{
    if k > 0 {
        let y = nexts(s, x, (k - 1) as nat);
        lemma_nexts_in_range(s, x, (k - 1) as nat);
        let z = nexts(s, x, k);
        assert(z == s[y].next as int);
        lemma_prevs_add(s, z, 1, (k - 1) as nat);
        assert(prevs(s, z, 0) == z);
        assert(prevs(s, z, 1) == s[z].prev as int);
        assert(s[z].prev as int == y);
        lemma_prevs_undo_nexts(s, x, (k - 1) as nat);
    }
}

/// `k` steps along `next` undo `k` steps back along `prev`.
pub proof fn lemma_nexts_undo_prevs(s: Seq<OutPt>, x: int, k: nat)
    requires
        links_ok(s),
        0 <= x < s.len(),
    ensures
        nexts(s, prevs(s, x, k), k) == x,
    decreases k,
{
    if k > 0 {
        let y = prevs(s, x, (k - 1) as nat);
        lemma_prevs_in_range(s, x, (k - 1) as nat);
        let z = prevs(s, x, k);
        assert(z == s[y].prev as int);
        lemma_nexts_add(s, z, 1, (k - 1) as nat);
        assert(nexts(s, z, 0) == z);
        assert(nexts(s, z, 1) == s[z].next as int);
        assert(s[z].next as int == y);
        lemma_nexts_undo_prevs(s, x, (k - 1) as nat);
    }
}

/// Within `s.len()` steps the walk from `x`, in either direction, comes
/// back to `x`.
pub proof fn lemma_walk_back(s: Seq<OutPt>, x: int, forward: bool) -> (k: nat)
    requires
        links_ok(s),
        0 <= x < s.len(),
    ensures
        1 <= k <= s.len(),
        walk(s, x, forward, k) == x,
        nexts(s, x, k) == x,
        prevs(s, x, k) == x,
{
    let k = lemma_walk_returns(s, x);
    lemma_prevs_undo_nexts(s, x, k);
    k
}

/// Every point of a walk from a point of the arena is in the arena.
pub proof fn lemma_walk_in_range(s: Seq<OutPt>, x: int, forward: bool, k: nat)
    requires
        links_ok(s),
        0 <= x < s.len(),
    ensures
        0 <= walk(s, x, forward, k) < s.len(),
{
    if forward {
        lemma_nexts_in_range(s, x, k);
    } else {
        lemma_prevs_in_range(s, x, k);
    }
}

/// One more step of a walk is one link away from the last point.
pub proof fn lemma_walk_step(s: Seq<OutPt>, x: int, forward: bool, k: nat)
    ensures
        walk(s, x, forward, k + 1) == if forward {
            s[walk(s, x, forward, k)].next as int
        } else {
            s[walk(s, x, forward, k)].prev as int
        },
{
}

/// Walking `i + j` steps is walking `i` steps, then `j` more.
pub proof fn lemma_walk_add(s: Seq<OutPt>, x: int, forward: bool, i: nat, j: nat)
    ensures
        walk(s, x, forward, i + j) == walk(s, walk(s, x, forward, i), forward, j),
{
    if forward {
        lemma_nexts_add(s, x, i, j);
    } else {
        lemma_prevs_add(s, x, i, j);
    }
}

/// A point reached in at least one step is reached again in at most
/// `s.len()` steps.
pub proof fn lemma_reach_within(s: Seq<OutPt>, x: int, forward: bool, j: nat) -> (m: nat)
    requires
        links_ok(s),
        0 <= x < s.len(),
        1 <= j,
    ensures
        1 <= m <= j,
        m <= s.len(),
        walk(s, x, forward, m) == walk(s, x, forward, j),
    decreases j,
{
    let back = lemma_walk_back(s, x, forward);
    if j <= back {
        j
    } else {
        lemma_walk_add(s, x, forward, back, (j - back) as nat);
        lemma_reach_within(s, x, forward, (j - back) as nat)
    }
}

/// Step `k` (at least 1) of the walk from `x` ends a skip over points at
/// `p`: it is back at `x`, or at a point elsewhere than `p`.
pub open spec fn skip_stops(s: Seq<OutPt>, x: int, p: IntPoint, forward: bool, k: nat) -> bool {
    let w = walk(s, x, forward, k);
    w == x || s[w].pt != p
}

/// The number of steps from `x` to the first point that is not at `p`.
pub open spec fn skip_steps(s: Seq<OutPt>, x: int, p: IntPoint, forward: bool) -> nat {
    choose|k: nat|
        1 <= k && skip_stops(s, x, p, forward, k) && forall|j: nat|
            1 <= j < k ==> !skip_stops(s, x, p, forward, j)
}

/// The first point after `x`, walking in the given direction, that is not
/// at `p`; `x` itself when every other point of its ring is at `p`.
pub open spec fn first_off(s: Seq<OutPt>, x: int, p: IntPoint, forward: bool) -> int {
    walk(s, x, forward, skip_steps(s, x, p, forward))
}

/// Step `k` of the walk from `x` is the last of a run along one row: the
/// following point is on another row than the current one, or it is `a`
/// or `b`.
pub open spec fn run_stops(s: Seq<OutPt>, x: int, forward: bool, a: int, b: int, k: nat) -> bool {
    let w = walk(s, x, forward, k);
    let w1 = walk(s, x, forward, k + 1);
    s[w1].pt.y != s[w].pt.y || w1 == a || w1 == b
}

/// The number of steps from `x` to the end of its run.
pub open spec fn run_steps(s: Seq<OutPt>, x: int, forward: bool, a: int, b: int) -> nat {
    choose|k: nat|
        run_stops(s, x, forward, a, b, k) && forall|j: nat|
            j < k ==> !run_stops(s, x, forward, a, b, j)
}

/// The last point of the run of points on the row of `x` that starts at
/// `x`, walking in the given direction and stopping before `a` or `b`.
pub open spec fn run_end(s: Seq<OutPt>, x: int, forward: bool, a: int, b: int) -> int {
    walk(s, x, forward, run_steps(s, x, forward, a, b))
}

impl OutPtArena {
    /// The first point after `x`, along `next` when `forward` and along
    /// `prev` otherwise, whose coordinates differ from `p`.
    #[verifier::spinoff_prover]
    #[verifier::rlimit(30)]
    pub fn skip_at(&self, x: usize, p: IntPoint, forward: bool) -> (r: usize)
        requires
            x < self.nodes().len(),
        ensures
            r == first_off(self.nodes(), x as int, p, forward),
            r < self.nodes().len(),
    {
        let ghost s = self.nodes();
        let n = self.len();
        let ghost back = lemma_walk_back(s, x as int, forward);
        let mut cur = if forward {
            self.get(x).next
        } else {
            self.get(x).prev
        };
        let mut k: usize = 1;
        proof {
            lemma_walk_step(s, x as int, forward, 0);
            lemma_walk_in_range(s, x as int, forward, 1);
        }
        while cur != x && self.get(cur).pt == p
            invariant
                s == self.nodes(),
                links_ok(s),
                x < s.len(),
                n == s.len(),
                1 <= back <= s.len(),
                walk(s, x as int, forward, back) == x,
                1 <= k <= back,
                cur == walk(s, x as int, forward, k as nat),
                cur < s.len(),
                forall|j: nat| 1 <= j < k ==> !skip_stops(s, x as int, p, forward, j),
            decreases back - k,
        {
            proof {
                lemma_walk_step(s, x as int, forward, k as nat);
                lemma_walk_in_range(s, x as int, forward, (k + 1) as nat);
                assert(!skip_stops(s, x as int, p, forward, k as nat));
            }
            cur = if forward {
                self.get(cur).next
            } else {
                self.get(cur).prev
            };
            k += 1;
        }
        proof {
            lemma_walk_in_range(s, x as int, forward, k as nat);
            assert(skip_stops(s, x as int, p, forward, k as nat));
            let c = skip_steps(s, x as int, p, forward);
            assert(1 <= c && skip_stops(s, x as int, p, forward, c) && forall|j: nat|
                1 <= j < c ==> !skip_stops(s, x as int, p, forward, j));
            if c < k {
                assert(!skip_stops(s, x as int, p, forward, c));
            }
            if k < c {
                assert(!skip_stops(s, x as int, p, forward, k as nat));
            }
        }
        cur
    }

    /// The last point of the run on the row of `x` that starts at `x`,
    /// walking along `next` when `forward` and along `prev` otherwise, and
    /// stopping before `a` or `b`; `a` is reached by the walk.
    #[verifier::spinoff_prover]
    #[verifier::rlimit(30)]
    pub fn run_to(&self, x: usize, forward: bool, a: usize, b: usize) -> (r: usize)
        requires
            x < self.nodes().len(),
            exists|j: nat| 1 <= j && walk(self.nodes(), x as int, forward, j) == a,
        ensures
            r == run_end(self.nodes(), x as int, forward, a as int, b as int),
            r < self.nodes().len(),
            run_stops(
                self.nodes(),
                x as int,
                forward,
                a as int,
                b as int,
                run_steps(self.nodes(), x as int, forward, a as int, b as int),
            ),
            forall|j: nat|
                j < run_steps(self.nodes(), x as int, forward, a as int, b as int) ==> !run_stops(
                    self.nodes(),
                    x as int,
                    forward,
                    a as int,
                    b as int,
                    j,
                ),
            forall|j: nat|
                1 <= j && walk(self.nodes(), x as int, forward, j) == a ==> run_steps(
                    self.nodes(),
                    x as int,
                    forward,
                    a as int,
                    b as int,
                ) < j,
    {
        let ghost s = self.nodes();
        let n = self.len();
        let ghost bound = lemma_reach_within(
            s,
            x as int,
            forward,
            choose|j: nat| 1 <= j && walk(s, x as int, forward, j) == a,
        );
        let mut cur = x;
        let mut k: usize = 0;
        let mut nxt = if forward {
            self.get(x).next
        } else {
            self.get(x).prev
        };
        proof {
            lemma_walk_step(s, x as int, forward, 0);
            lemma_walk_in_range(s, x as int, forward, 1);
        }
        while self.get(nxt).pt.y == self.get(cur).pt.y && nxt != a && nxt != b
            invariant
                s == self.nodes(),
                links_ok(s),
                x < s.len(),
                n == s.len(),
                1 <= bound <= s.len(),
                walk(s, x as int, forward, bound) == a,
                k < bound,
                cur == walk(s, x as int, forward, k as nat),
                nxt == walk(s, x as int, forward, (k + 1) as nat),
                cur < s.len(),
                nxt < s.len(),
                forall|j: nat| j < k ==> !run_stops(s, x as int, forward, a as int, b as int, j),
            decreases bound - k,
        {
            proof {
                lemma_walk_step(s, x as int, forward, (k + 1) as nat);
                lemma_walk_in_range(s, x as int, forward, (k + 2) as nat);
                assert(!run_stops(s, x as int, forward, a as int, b as int, k as nat));
            }
            cur = nxt;
            nxt = if forward {
                self.get(nxt).next
            } else {
                self.get(nxt).prev
            };
            k += 1;
        }
        proof {
            lemma_walk_in_range(s, x as int, forward, k as nat);
            assert(run_stops(s, x as int, forward, a as int, b as int, k as nat));
            let c = run_steps(s, x as int, forward, a as int, b as int);
            assert(run_stops(s, x as int, forward, a as int, b as int, c) && forall|j: nat|
                j < c ==> !run_stops(s, x as int, forward, a as int, b as int, j));
            if c < k {
                assert(!run_stops(s, x as int, forward, a as int, b as int, c));
            }
            if k < c {
                assert(!run_stops(s, x as int, forward, a as int, b as int, k as nat));
            }
            assert forall|j: nat| 1 <= j && walk(s, x as int, forward, j) == a implies c < j by {
                if j <= c {
                    assert(!run_stops(s, x as int, forward, a as int, b as int, (j - 1) as nat));
                }
            }
        }
        cur
    }
}

/// The arena `s` once a copy of point `at` (same record index and
/// coordinates) is linked in after it, or before it.
pub open spec fn duped(s: Seq<OutPt>, at: int, after: bool) -> Seq<OutPt> {
    if after {
        inserted_after(s, at, s[at].idx, s[at].pt)
    } else {
        inserted_before(s, at, s[at].idx, s[at].pt)
    }
}

/// A copy keeps every old point's record index and coordinates and adds
/// one point with those of `at`.
pub proof fn lemma_duped(s: Seq<OutPt>, at: int, after: bool)
    requires
        links_ok(s),
        0 <= at < s.len(),
    ensures
        duped(s, at, after).len() == s.len() + 1,
        duped(s, at, after)[s.len() as int].idx == s[at].idx,
        duped(s, at, after)[s.len() as int].pt == s[at].pt,
        forall|i: int|
            0 <= i < s.len() ==> (#[trigger] duped(s, at, after)[i]).idx == s[i].idx
                && duped(s, at, after)[i].pt == s[i].pt,
{
    if after {
        assert(duped(s, at, after) == inserted_after(s, at, s[at].idx, s[at].pt));
    } else {
        assert(duped(s, at, after) == inserted_before(s, at, s[at].idx, s[at].pt));
    }
}

/// The arena `s` once copies of `op1` and `op2` are linked in beside them
/// and the rings are reconnected through the four points: with `reverse1`
/// the copy of `op1` goes before it and the copy of `op2` after it, then
/// `op2` leads on to `op1` and the copy of `op1` to the copy of `op2`;
/// otherwise the copies go the other way round and `op1` leads on to
/// `op2`. Two rings become one, or one ring becomes two. The copy of `op1`
/// takes the index `s.len()`, the copy of `op2` the one after.
pub open spec fn relinked(s: Seq<OutPt>, op1: int, op2: int, reverse1: bool) -> Seq<OutPt> {
    let c1 = s.len() as int;
    if reverse1 {
        swapped_next(duped(duped(s, op1, false), op2, true), op2, c1)
    } else {
        swapped_next(duped(duped(s, op1, true), op2, false), op1, c1 + 1)
    }
}

/// The coordinate bound the clipping engine keeps: `HI_RANGE` once the
/// full 64-bit range is in use, `LO_RANGE` before.
pub open spec fn range_limit(use_full_range: bool) -> int {
    if use_full_range {
        HI_RANGE as int
    } else {
        LO_RANGE as int
    }
}

/// Every point of the arena lies within the coordinate bound.
pub open spec fn coords_within(s: Seq<OutPt>, use_full_range: bool) -> bool {
    forall|i: int| 0 <= i < s.len() ==> within_range(#[trigger] s[i].pt, range_limit(use_full_range))
}

/// Within the coordinate bound the collinearity test of three points can
/// be evaluated.
pub proof fn lemma_cross_terms_fit(a: IntPoint, b: IntPoint, c: IntPoint, full: bool)
    requires
        within_range(a, range_limit(full)),
        within_range(b, range_limit(full)),
        within_range(c, range_limit(full)),
    ensures
        cross_terms_fit(a, b, b, c, full),
{
    if !full {
        let l = LO_RANGE as int;
        assert(l == 0x3FFF_FFFF);
        let d1 = a.y - b.y;
        let d2 = b.x - c.x;
        let d3 = a.x - b.x;
        let d4 = b.y - c.y;
        assert(-2 * l <= d1 <= 2 * l && -2 * l <= d2 <= 2 * l);
        assert(-2 * l <= d3 <= 2 * l && -2 * l <= d4 <= 2 * l);
        assert(-0x1_0000_0000_0000_0000 < d1 * d2 < 0x1_0000_0000_0000_0000) by (nonlinear_arith)
            requires
                -0x7FFF_FFFE <= d1 <= 0x7FFF_FFFE,
                -0x7FFF_FFFE <= d2 <= 0x7FFF_FFFE,
        ;
        assert(-0x1_0000_0000_0000_0000 < d3 * d4 < 0x1_0000_0000_0000_0000) by (nonlinear_arith)
            requires
                -0x7FFF_FFFE <= d3 <= 0x7FFF_FFFE,
                -0x7FFF_FFFE <= d4 <= 0x7FFF_FFFE,
        ;
        assert(-0x4000_0000_0000_0000 < d1 * d2 < 0x4000_0000_0000_0000) by (nonlinear_arith)
            requires
                -0x7FFF_FFFE <= d1 <= 0x7FFF_FFFE,
                -0x7FFF_FFFE <= d2 <= 0x7FFF_FFFE,
        ;
        assert(-0x4000_0000_0000_0000 < d3 * d4 < 0x4000_0000_0000_0000) by (nonlinear_arith)
            requires
                -0x7FFF_FFFE <= d3 <= 0x7FFF_FFFE,
                -0x7FFF_FFFE <= d4 <= 0x7FFF_FFFE,
        ;
    }
}

/// Going from `x` to `b` does not increase `y`, and `b` lies on the line
/// from `x` through `off`.
pub open spec fn heads_to(s: Seq<OutPt>, x: int, b: int, off: IntPoint) -> bool {
    s[b].pt.y <= s[x].pt.y && slopes_equal_3_spec(s[x].pt, s[b].pt, off)
}

/// A join in which both points and `off_pt` are the same point: the two
/// stretches leave it one upwards and one downwards, within one record.
pub open spec fn common_point_join(s: Seq<OutPt>, j: Join, same_rec: bool) -> (bool, Seq<OutPt>, Join) {
    let op1 = j.out_pt1 as int;
    let op2 = j.out_pt2 as int;
    let reverse1 = s[first_off(s, op1, j.off_pt, true)].pt.y > j.off_pt.y;
    let reverse2 = s[first_off(s, op2, j.off_pt, true)].pt.y > j.off_pt.y;
    if !same_rec || reverse1 == reverse2 {
        (false, s, j)
    } else {
        (
            true,
            relinked(s, op1, op2, reverse1),
            Join { out_pt1: j.out_pt1, out_pt2: s.len() as usize, off_pt: j.off_pt },
        )
    }
}

/// The other end, next to `x`, of the stretch of its ring that runs from
/// `x` towards `off`: along `next` when that way heads to `off`, along
/// `prev` otherwise.
pub open spec fn edge_end(s: Seq<OutPt>, x: int, off: IntPoint) -> int {
    let f = first_off(s, x, s[x].pt, true);
    if heads_to(s, x, f, off) {
        f
    } else {
        first_off(s, x, s[x].pt, false)
    }
}

/// A join along a common edge that is not horizontal.
pub open spec fn edge_join(s: Seq<OutPt>, j: Join, same_rec: bool) -> (bool, Seq<OutPt>, Join) {
    let op1 = j.out_pt1 as int;
    let op2 = j.out_pt2 as int;
    let off = j.off_pt;
    let reverse1 = !heads_to(s, op1, first_off(s, op1, s[op1].pt, true), off);
    let reverse2 = !heads_to(s, op2, first_off(s, op2, s[op2].pt, true), off);
    let b1 = edge_end(s, op1, off);
    let b2 = edge_end(s, op2, off);
    if !heads_to(s, op1, b1, off) || !heads_to(s, op2, b2, off) || b1 == op1 || b2 == op2 || b1
        == b2 || (same_rec && reverse1 == reverse2) {
        (false, s, j)
    } else {
        (
            true,
            relinked(s, op1, op2, reverse1),
            Join { out_pt1: j.out_pt1, out_pt2: s.len() as usize, off_pt: off },
        )
    }
}

/// Whether the walk along `next` towards `pt` goes on from a point at `c`
/// to the next point at `n`: `n` is on the row of `pt` and lies, in x,
/// between `c` and `pt`.
pub open spec fn approach_goes_on(c: IntPoint, n: IntPoint, pt: IntPoint, left_to_right: bool) -> bool {
    n.y == pt.y && if left_to_right {
        c.x <= n.x && n.x <= pt.x
    } else {
        pt.x <= n.x && n.x <= c.x
    }
}

/// Step `k` of the walk along `next` from `x` towards `pt` is its last.
pub open spec fn approach_stops(s: Seq<OutPt>, x: int, pt: IntPoint, left_to_right: bool, k: nat) -> bool {
    !approach_goes_on(s[nexts(s, x, k)].pt, s[nexts(s, x, k + 1)].pt, pt, left_to_right)
}

/// The number of steps of the walk from `x` towards `pt`.
pub open spec fn approach_steps(s: Seq<OutPt>, x: int, pt: IntPoint, left_to_right: bool) -> nat {
    choose|k: nat|
        approach_stops(s, x, pt, left_to_right, k) && forall|j: nat|
            j < k ==> !approach_stops(s, x, pt, left_to_right, j)
}

/// The last point of the walk along `next` from `x` towards `pt` on the
/// row of `pt`, in the direction `left_to_right` gives.
pub open spec fn approach_end(s: Seq<OutPt>, x: int, pt: IntPoint, left_to_right: bool) -> int {
    nexts(s, x, approach_steps(s, x, pt, left_to_right))
}

/// Some point after `x` on its ring is off the row of `pt`.
pub open spec fn leaves_row(s: Seq<OutPt>, x: int, pt: IntPoint) -> bool {
    exists|j: nat| 1 <= j && s[nexts(s, x, j)].pt.y != pt.y
}

/// `s` with the coordinates of point `i` replaced by `pt`.
pub open spec fn with_pt(s: Seq<OutPt>, i: int, pt: IntPoint) -> Seq<OutPt> {
    s.update(i, OutPt { idx: s[i].idx, pt, next: s[i].next, prev: s[i].prev })
}

/// One side of a horizontal join: the walk from `x` towards `pt` ends
/// at a point (or the point after it, when the left side is discarded on a
/// left-to-right run, or kept on a right-to-left one, and it is not yet
/// at `pt`'s x); a copy is linked in after it when the run goes one way and
/// the side kept the other, before it otherwise. When that point is not
/// at `pt`, the copy is moved to `pt` and copied once more. Returns the
/// arena, the point at `pt` and its copy.
pub open spec fn horz_split(
    s: Seq<OutPt>,
    x: int,
    pt: IntPoint,
    left_to_right: bool,
    discard_left: bool,
) -> (Seq<OutPt>, int, int) {
    let e = approach_end(s, x, pt, left_to_right);
    let at = if left_to_right == discard_left && s[e].pt.x != pt.x {
        s[e].next as int
    } else {
        e
    };
    let after = left_to_right != discard_left;
    let c = s.len() as int;
    let s1 = duped(s, at, after);
    if s[at].pt != pt {
        (duped(with_pt(s1, c, pt), c, after), c, c + 1)
    } else {
        (s1, at, c)
    }
}

/// Joins two horizontal runs `op1..op1b` and `op2..op2b` that overlap at
/// `pt`: when they run opposite ways, each is split at `pt` and the rings
/// are reconnected through the splits, keeping the side `discard_left`
/// does not discard.
pub open spec fn horz_joined(
    s: Seq<OutPt>,
    op1: int,
    op1b: int,
    op2: int,
    op2b: int,
    pt: IntPoint,
    discard_left: bool,
) -> (bool, Seq<OutPt>) {
    let ltr1 = s[op1].pt.x <= s[op1b].pt.x;
    let ltr2 = s[op2].pt.x <= s[op2b].pt.x;
    if ltr1 == ltr2 {
        (false, s)
    } else {
        let h1 = horz_split(s, op1, pt, ltr1, discard_left);
        let h2 = horz_split(h1.0, op2, pt, ltr2, discard_left);
        if ltr1 == discard_left {
            (true, swapped_next(h2.0, h2.1, h1.2))
        } else {
            (true, swapped_next(h2.0, h1.1, h2.2))
        }
    }
}

/// Of the ends of two overlapping runs, the first (in the order `p1`,
/// `p2`, `p1b`, `p2b`) whose x lies in the overlap `left..right`, and
/// whether the part left of it is discarded.
pub open spec fn horz_join_point(
    p1: IntPoint,
    p1b: IntPoint,
    p2: IntPoint,
    p2b: IntPoint,
    left: int,
    right: int,
) -> (IntPoint, bool) {
    if left <= p1.x <= right {
        (p1, p1.x > p1b.x)
    } else if left <= p2.x <= right {
        (p2, p2.x > p2b.x)
    } else if left <= p1b.x <= right {
        (p1b, p1b.x > p1.x)
    } else {
        (p2b, p2b.x > p2.x)
    }
}

/// `o..ob` is a run through `op` on the row of `op`, `o` reached backwards
/// and `ob` forwards from it, and the point after `ob` is off the row.
pub open spec fn run_around(s: Seq<OutPt>, op: int, o: int, ob: int) -> bool {
    exists|k1: nat, k2: nat|
        o == prevs(s, op, k1) && ob == nexts(s, op, k2) && s[o].pt.y == s[op].pt.y
            && s[ob].pt.y == s[op].pt.y && s[s[ob].next as int].pt.y != s[op].pt.y
}

/// The runs of a horizontal join through its two points, unless one of
/// them closes on its own start or on the other join point.
pub open spec fn horz_runs(s: Seq<OutPt>, op1: int, op2: int) -> Option<(int, int, int, int)> {
    let o1 = run_end(s, op1, false, op1, op2);
    let o1b = run_end(s, op1, true, o1, op2);
    let o2 = run_end(s, op2, false, op2, o1b);
    let o2b = run_end(s, op2, true, o2, o1);
    if s[o1b].next == o1 || s[o1b].next == op2 || s[o2b].next == o2 || s[o2b].next == o1 {
        None
    } else {
        Some((o1, o1b, o2, o2b))
    }
}

/// A join along a horizontal common edge: each join point is widened to
/// the run of its ring along its row (not passing the other join point),
/// and the runs are joined where they overlap.
pub open spec fn horizontal_join(s: Seq<OutPt>, j: Join) -> (bool, Seq<OutPt>, Join) {
    match horz_runs(s, j.out_pt1 as int, j.out_pt2 as int) {
        None => (false, s, j),
        Some(q) => runs_join(s, j, q.0, q.1, q.2, q.3),
    }
}

/// Joins the runs `o1..o1b` and `o2..o2b` of a horizontal join where they
/// overlap, at the first of their ends that lies in the overlap.
pub open spec fn runs_join(s: Seq<OutPt>, j: Join, o1: int, o1b: int, o2: int, o2b: int) -> (
    bool,
    Seq<OutPt>,
    Join,
) {
    match overlap_spec(s[o1].pt.x as int, s[o1b].pt.x as int, s[o2].pt.x as int, s[o2b].pt.x as int) {
        None => (false, s, j),
        Some(lr) => {
            let jp = horz_join_point(s[o1].pt, s[o1b].pt, s[o2].pt, s[o2b].pt, lr.0, lr.1);
            let h = horz_joined(s, o1, o1b, o2, o2b, jp.0, jp.1);
            (h.0, h.1, Join { out_pt1: o1 as usize, out_pt2: o2 as usize, off_pt: j.off_pt })
        },
    }
}

/// The outcome of joining the output points of `j`, which belong to one
/// output record when `same_rec`: whether they were joined, the arena
/// after it, and the join with the points that now head the two rings (or
/// the joined ring).
pub open spec fn joined(s: Seq<OutPt>, j: Join, same_rec: bool) -> (bool, Seq<OutPt>, Join) {
    let p1 = s[j.out_pt1 as int].pt;
    let p2 = s[j.out_pt2 as int].pt;
    if p1.y == j.off_pt.y && j.off_pt == p1 && j.off_pt == p2 {
        common_point_join(s, j, same_rec)
    } else if p1.y == j.off_pt.y {
        horizontal_join(s, j)
    } else {
        edge_join(s, j, same_rec)
    }
}

/// The steps before the end of a run stay on the row of its start.
pub proof fn lemma_run_row(s: Seq<OutPt>, x: int, forward: bool, a: int, b: int, k: nat)
    requires
        forall|j: nat| j < run_steps(s, x, forward, a, b) ==> !run_stops(s, x, forward, a, b, j),
        k <= run_steps(s, x, forward, a, b),
    ensures
        s[walk(s, x, forward, k)].pt.y == s[x].pt.y,
    decreases k,
{
    if k > 0 {
        lemma_run_row(s, x, forward, a, b, (k - 1) as nat);
        assert(!run_stops(s, x, forward, a, b, (k - 1) as nat));
    }
}

/// The point `k` steps back from `x` is `K - k` steps forward, where the
/// ring of `x` closes after `K` steps.
pub proof fn lemma_reach_back_point(s: Seq<OutPt>, x: int, big_k: nat, k: nat)
    requires
        links_ok(s),
        0 <= x < s.len(),
        nexts(s, x, big_k) == x,
        k < big_k,
    ensures
        nexts(s, x, (big_k - k) as nat) == prevs(s, x, k),
{
    let y = prevs(s, x, k);
    lemma_prevs_in_range(s, x, k);
    lemma_nexts_undo_prevs(s, x, k);
    lemma_nexts_add(s, y, big_k, k);
    lemma_nexts_add(s, y, k, big_k);
    let z = nexts(s, y, big_k);
    lemma_nexts_in_range(s, y, big_k);
    assert(nexts(s, z, k) == nexts(s, y, k));
    lemma_prevs_undo_nexts(s, z, k);
    lemma_prevs_undo_nexts(s, y, k);
    assert(z == y);
    lemma_nexts_add(s, y, k, (big_k - k) as nat);
}

/// A walk in `t`, where the point `s.len()` is spliced in after `u`,
/// passes every point that the same walk in `s` passes, no sooner.
pub proof fn lemma_splice_reach(s: Seq<OutPt>, t: Seq<OutPt>, u: int, x: int, k: nat) -> (k2: nat)
    requires
        links_ok(s),
        0 <= x < s.len(),
        0 <= u < s.len(),
        t.len() == s.len() + 1,
        t[u].next as int == s.len(),
        t[s.len() as int].next == s[u].next,
        forall|i: int| 0 <= i < s.len() && i != u ==> #[trigger] t[i].next == s[i].next,
    ensures
        k <= k2,
        nexts(t, x, k2) == nexts(s, x, k),
    decreases k,
{
    if k == 0 {
        0
    } else {
        let k1 = lemma_splice_reach(s, t, u, x, (k - 1) as nat);
        let y = nexts(s, x, (k - 1) as nat);
        lemma_nexts_in_range(s, x, (k - 1) as nat);
        assert(nexts(s, x, k) == s[y].next as int);
        assert(nexts(t, x, k1 + 1) == t[y].next as int);
        if y == u {
            assert(nexts(t, x, k1 + 2) == t[nexts(t, x, k1 + 1)].next as int);
            k1 + 2
        } else {
            k1 + 1
        }
    }
}

/// The arena `t` is `s` with the point `s.len()` spliced in after `u`:
/// only `u`'s successor changes, and no old point moves.
pub open spec fn spliced(s: Seq<OutPt>, t: Seq<OutPt>, u: int) -> bool {
    &&& 0 <= u < s.len()
    &&& t.len() == s.len() + 1
    &&& t[u].next as int == s.len()
    &&& t[s.len() as int].next == s[u].next
    &&& forall|i: int| 0 <= i < s.len() && i != u ==> #[trigger] t[i].next == s[i].next
    &&& forall|i: int| 0 <= i < s.len() ==> #[trigger] t[i].pt == s[i].pt
}

/// A copy linked in after `at` is spliced in after `at`.
#[verifier::spinoff_prover]
#[verifier::rlimit(30)]
pub proof fn lemma_after_spliced(s: Seq<OutPt>, at: int)
    requires
        links_ok(s),
        0 <= at < s.len(),
        s.len() < usize::MAX,
    ensures
        spliced(s, duped(s, at, true), at),
        links_ok(duped(s, at, true)),
{
    let t = duped(s, at, true);
    assert(t == inserted_after(s, at, s[at].idx, s[at].pt));
    lemma_inserted_after_ok(s, at, s[at].idx, s[at].pt);
    let r = s.len() as usize;
    let n = s[at].next as int;
    let s1 = s.update(at, OutPt { idx: s[at].idx, pt: s[at].pt, next: r, prev: s[at].prev });
    assert forall|i: int| 0 <= i < s.len() && i != at implies #[trigger] t[i].next == s[i].next by {
        assert(t[i] == s1.update(n, OutPt { idx: s1[n].idx, pt: s1[n].pt, next: s1[n].next, prev: r })[i]);
    }
    assert forall|i: int| 0 <= i < s.len() implies #[trigger] t[i].pt == s[i].pt by {
        assert(t[i] == s1.update(n, OutPt { idx: s1[n].idx, pt: s1[n].pt, next: s1[n].next, prev: r })[i]);
    }
}

/// A copy linked in before `at` is spliced in after the point before it.
pub proof fn lemma_before_spliced(s: Seq<OutPt>, at: int)
    requires
        links_ok(s),
        0 <= at < s.len(),
        s.len() < usize::MAX,
    ensures
        spliced(s, duped(s, at, false), s[at].prev as int),
        links_ok(duped(s, at, false)),
{
    let t = duped(s, at, false);
    assert(t == inserted_before(s, at, s[at].idx, s[at].pt));
    lemma_inserted_before_ok(s, at, s[at].idx, s[at].pt);
    let r = s.len() as usize;
    let p = s[at].prev as int;
    assert(s[p].next as int == at);
    let s1 = s.update(at, OutPt { idx: s[at].idx, pt: s[at].pt, next: s[at].next, prev: r });
    assert forall|i: int| 0 <= i < s.len() && i != p implies #[trigger] t[i].next == s[i].next by {
        assert(t[i] == s1.update(p, OutPt { idx: s1[p].idx, pt: s1[p].pt, next: r, prev: s1[p].prev })[i]);
    }
    assert forall|i: int| 0 <= i < s.len() implies #[trigger] t[i].pt == s[i].pt by {
        assert(t[i] == s1.update(p, OutPt { idx: s1[p].idx, pt: s1[p].pt, next: r, prev: s1[p].prev })[i]);
    }
}

/// A walk that reaches point `nexts(s, y, j)` after `j >= 1` steps still
/// reaches it, after at least one step, once a copy is linked in.
pub proof fn lemma_dup_reach(s: Seq<OutPt>, at: int, after: bool, y: int, j: nat) -> (j2: nat)
    requires
        links_ok(s),
        0 <= at < s.len(),
        0 <= y < s.len(),
        s.len() < usize::MAX,
        1 <= j,
    ensures
        1 <= j2,
        nexts(duped(s, at, after), y, j2) == nexts(s, y, j),
        links_ok(duped(s, at, after)),
        forall|i: int| 0 <= i < s.len() ==> #[trigger] duped(s, at, after)[i].pt == s[i].pt,
        duped(s, at, after).len() == s.len() + 1,
{
    if after {
        lemma_after_spliced(s, at);
        lemma_splice_reach(s, duped(s, at, after), at, y, j)
    } else {
        lemma_before_spliced(s, at);
        lemma_prevs_in_range(s, at, 1);
        lemma_splice_reach(s, duped(s, at, after), s[at].prev as int, y, j)
    }
}

/// Moving a point keeps every link.
pub proof fn lemma_with_pt(s: Seq<OutPt>, i: int, pt: IntPoint)
    requires
        links_ok(s),
        0 <= i < s.len(),
    ensures
        links_ok(with_pt(s, i, pt)),
        with_pt(s, i, pt).len() == s.len(),
        forall|k: int| 0 <= k < s.len() ==> (#[trigger] with_pt(s, i, pt)[k]).next == s[k].next,
{
    let t = with_pt(s, i, pt);
    assert forall|k: int| 0 <= k < t.len() implies {
        &&& (#[trigger] t[k]).next < t.len()
        &&& t[k].prev < t.len()
        &&& t[t[k].next as int].prev == k
        &&& t[t[k].prev as int].next == k
    } by {
        assert(s[s[k].next as int].prev == k);
        assert(s[s[k].prev as int].next == k);
    }
}

/// Walks along arenas with the same links agree.
pub proof fn lemma_same_links(s: Seq<OutPt>, t: Seq<OutPt>, x: int, k: nat)
    requires
        links_ok(s),
        0 <= x < s.len(),
        t.len() == s.len(),
        forall|i: int| 0 <= i < s.len() ==> #[trigger] t[i].next == s[i].next,
    ensures
        nexts(t, x, k) == nexts(s, x, k),
    decreases k,
{
    if k > 0 {
        lemma_same_links(s, t, x, (k - 1) as nat);
        lemma_nexts_in_range(s, x, (k - 1) as nat);
    }
}

/// One side of a horizontal join keeps the links consistent and leaves
/// every ring that left the row of `pt` still leaving it.
#[verifier::rlimit(30)]
#[verifier::spinoff_prover]
pub proof fn lemma_split_keeps_row(
    s: Seq<OutPt>,
    x: int,
    pt: IntPoint,
    left_to_right: bool,
    discard_left: bool,
    y: int,
)
    requires
        links_ok(s),
        0 <= x < s.len(),
        0 <= y < s.len(),
        s.len() + 2 <= usize::MAX,
        leaves_row(s, y, pt),
    ensures
        links_ok(horz_split(s, x, pt, left_to_right, discard_left).0),
        leaves_row(horz_split(s, x, pt, left_to_right, discard_left).0, y, pt),
{
    let e = approach_end(s, x, pt, left_to_right);
    lemma_nexts_in_range(s, x, approach_steps(s, x, pt, left_to_right));
    let at = if left_to_right == discard_left && s[e].pt.x != pt.x {
        s[e].next as int
    } else {
        e
    };
    let after = left_to_right != discard_left;
    let c = s.len() as int;
    let s1 = duped(s, at, after);
    let j0 = choose|j: nat| 1 <= j && s[nexts(s, y, j)].pt.y != pt.y;
    let z = nexts(s, y, j0);
    lemma_nexts_in_range(s, y, j0);
    let k1 = lemma_dup_reach(s, at, after, y, j0);
    assert(s1[z].pt == s[z].pt);
    if s[at].pt != pt {
        let s2 = with_pt(s1, c, pt);
        lemma_with_pt(s1, c, pt);
        lemma_same_links(s1, s2, y, k1);
        assert(s2[z].pt == s1[z].pt);
        let k2 = lemma_dup_reach(s2, c, after, y, k1);
        let s3 = duped(s2, c, after);
        assert(s3[z].pt == s2[z].pt);
        assert(horz_split(s, x, pt, left_to_right, discard_left).0 == s3);
        assert(s3[nexts(s3, y, k2)].pt.y != pt.y);
    } else {
        assert(horz_split(s, x, pt, left_to_right, discard_left).0 == s1);
        assert(s1[nexts(s1, y, k1)].pt.y != pt.y);
    }
}

impl OutPtArena {
    /// Links copies of `op1` and `op2` in beside them and reconnects the
    /// rings through them (see `relinked`); returns the copy of `op1`.
    #[verifier::spinoff_prover]
    #[verifier::rlimit(30)]
    pub fn relink(&mut self, op1: usize, op2: usize, reverse1: bool) -> (r: usize)
        requires
            op1 < old(self).nodes().len(),
            op2 < old(self).nodes().len(),
            old(self).nodes().len() + 2 <= usize::MAX,
        ensures
            r == old(self).nodes().len(),
            final(self).nodes() == relinked(old(self).nodes(), op1 as int, op2 as int, reverse1),
    {
        let ghost s = self.nodes();
        let _ = self.len();
        let op1b = self.dup(op1, !reverse1);
        let ghost s1 = self.nodes();
        let _ = self.len();
        proof {
            assert(s1 == duped(s, op1 as int, !reverse1));
            lemma_duped(s, op1 as int, !reverse1);
        }
        let op2b = self.dup(op2, reverse1);
        proof {
            assert(self.nodes() == duped(s1, op2 as int, reverse1));
            lemma_duped(s1, op2 as int, reverse1);
        }
        if reverse1 {
            self.swap_next(op2, op1b);
        } else {
            self.swap_next(op1, op2b);
        }
        op1b
    }

    /// Whether every point lies within the coordinate bound.
    pub fn coords_fit(&self, use_full_range: bool) -> (r: bool)
        ensures
            r == coords_within(self.nodes(), use_full_range),
    {
        let limit: i64 = if use_full_range {
            HI_RANGE
        } else {
            LO_RANGE
        };
        let n = self.len();
        let mut i: usize = 0;
        while i < n
            invariant
                n == self.nodes().len(),
                i <= n,
                limit == range_limit(use_full_range),
                forall|k: int| 0 <= k < i ==> within_range(#[trigger] self.nodes()[k].pt, limit as int),
            decreases n - i,
        {
            let p = self.get(i).pt;
            if p.x > limit || p.y > limit || p.x < -limit || p.y < -limit {
                assert(!within_range(self.nodes()[i as int].pt, range_limit(use_full_range)));
                return false;
            }
            i += 1;
        }
        true
    }
}

/// Whether `b`, reached from `x`, heads to `off`; see `heads_to`.
fn heads_to_exec(arena: &OutPtArena, x: usize, b: usize, off: IntPoint, use_full_range: bool) -> (r: bool)
    requires
        x < arena.nodes().len(),
        b < arena.nodes().len(),
        coords_within(arena.nodes(), use_full_range),
        within_range(off, range_limit(use_full_range)),
    ensures
        r == heads_to(arena.nodes(), x as int, b as int, off),
{
    let px = arena.get(x).pt;
    let pb = arena.get(b).pt;
    proof {
        lemma_cross_terms_fit(px, pb, off, use_full_range);
    }
    pb.y <= px.y && slopes_equal_3_points(px, pb, off, use_full_range)
}

/// Joins along a common edge that is not horizontal; see `edge_join`.
#[verifier::spinoff_prover]
#[verifier::rlimit(30)]
fn join_edge(arena: &mut OutPtArena, j: &mut Join, same_rec: bool, use_full_range: bool) -> (r: bool)
    requires
        old(j).out_pt1 < old(arena).nodes().len(),
        old(j).out_pt2 < old(arena).nodes().len(),
        old(arena).nodes().len() + 2 <= usize::MAX,
        coords_within(old(arena).nodes(), use_full_range),
        within_range(old(j).off_pt, range_limit(use_full_range)),
    ensures
        (r, final(arena).nodes(), *final(j)) == edge_join(old(arena).nodes(), *old(j), same_rec),
{
    let op1 = j.out_pt1;
    let op2 = j.out_pt2;
    let off = j.off_pt;
    let f1 = arena.skip_at(op1, arena.get(op1).pt, true);
    let reverse1 = !heads_to_exec(arena, op1, f1, off, use_full_range);
    let b1 = if reverse1 {
        arena.skip_at(op1, arena.get(op1).pt, false)
    } else {
        f1
    };
    if reverse1 && !heads_to_exec(arena, op1, b1, off, use_full_range) {
        return false;
    }
    let f2 = arena.skip_at(op2, arena.get(op2).pt, true);
    let reverse2 = !heads_to_exec(arena, op2, f2, off, use_full_range);
    let b2 = if reverse2 {
        arena.skip_at(op2, arena.get(op2).pt, false)
    } else {
        f2
    };
    if reverse2 && !heads_to_exec(arena, op2, b2, off, use_full_range) {
        return false;
    }
    if b1 == op1 || b2 == op2 || b1 == b2 || (same_rec && reverse1 == reverse2) {
        return false;
    }
    j.out_pt2 = arena.relink(op1, op2, reverse1);
    true
}

/// Joins at a point shared by both join points and `off_pt`; see
/// `common_point_join`.
#[verifier::spinoff_prover]
#[verifier::rlimit(30)]
fn join_common_point(arena: &mut OutPtArena, j: &mut Join, same_rec: bool) -> (r: bool)
    requires
        old(j).out_pt1 < old(arena).nodes().len(),
        old(j).out_pt2 < old(arena).nodes().len(),
        old(arena).nodes().len() + 2 <= usize::MAX,
    ensures
        (r, final(arena).nodes(), *final(j)) == common_point_join(
            old(arena).nodes(),
            *old(j),
            same_rec,
        ),
{
    if !same_rec {
        return false;
    }
    let op1 = j.out_pt1;
    let op2 = j.out_pt2;
    let b1 = arena.skip_at(op1, j.off_pt, true);
    let reverse1 = arena.get(b1).pt.y > j.off_pt.y;
    let b2 = arena.skip_at(op2, j.off_pt, true);
    let reverse2 = arena.get(b2).pt.y > j.off_pt.y;
    if reverse1 == reverse2 {
        return false;
    }
    j.out_pt2 = arena.relink(op1, op2, reverse1);
    true
}

/// See `approach_goes_on`.
fn goes_on(c: IntPoint, n: IntPoint, pt: IntPoint, left_to_right: bool) -> (r: bool)
    ensures
        r == approach_goes_on(c, n, pt, left_to_right),
{
    n.y == pt.y && if left_to_right {
        c.x <= n.x && n.x <= pt.x
    } else {
        pt.x <= n.x && n.x <= c.x
    }
}

impl OutPtArena {
    /// The last point of the walk along `next` from `x` towards `pt` on
    /// the row of `pt`; see `approach_end`.
    #[verifier::spinoff_prover]
    #[verifier::rlimit(30)]
    pub fn approach(&self, x: usize, pt: IntPoint, left_to_right: bool) -> (r: usize)
        requires
            x < self.nodes().len(),
            leaves_row(self.nodes(), x as int, pt),
        ensures
            r == approach_end(self.nodes(), x as int, pt, left_to_right),
            r < self.nodes().len(),
    {
        let ghost s = self.nodes();
        let n = self.len();
        let ghost j0 = choose|j: nat| 1 <= j && s[nexts(s, x as int, j)].pt.y != pt.y;
        let ghost bound = lemma_reach_within(s, x as int, true, j0);
        let mut cur = x;
        let mut k: usize = 0;
        while goes_on(self.get(cur).pt, self.get(self.get(cur).next).pt, pt, left_to_right)
            invariant
                s == self.nodes(),
                links_ok(s),
                x < s.len(),
                n == s.len(),
                1 <= bound <= s.len(),
                s[nexts(s, x as int, bound)].pt.y != pt.y,
                k < bound,
                cur == nexts(s, x as int, k as nat),
                cur < s.len(),
                forall|j: nat| j < k ==> !approach_stops(s, x as int, pt, left_to_right, j),
            decreases bound - k,
        {
            proof {
                assert(nexts(s, x as int, (k + 1) as nat) == s[cur as int].next as int);
                assert(!approach_stops(s, x as int, pt, left_to_right, k as nat));
                lemma_nexts_in_range(s, x as int, (k + 1) as nat);
            }
            cur = self.get(cur).next;
            k += 1;
        }
        proof {
            assert(nexts(s, x as int, (k + 1) as nat) == s[cur as int].next as int);
            assert(approach_stops(s, x as int, pt, left_to_right, k as nat));
            let c = approach_steps(s, x as int, pt, left_to_right);
            assert(approach_stops(s, x as int, pt, left_to_right, c) && forall|j: nat|
                j < c ==> !approach_stops(s, x as int, pt, left_to_right, j));
            if c < k {
                assert(!approach_stops(s, x as int, pt, left_to_right, c));
            }
            if k < c {
                assert(!approach_stops(s, x as int, pt, left_to_right, k as nat));
            }
        }
        cur
    }
}

/// One side of a horizontal join; see `horz_split`. Returns the point at
/// `pt` and its copy.
#[verifier::spinoff_prover]
#[verifier::rlimit(30)]
fn split_horz(
    arena: &mut OutPtArena,
    x: usize,
    pt: IntPoint,
    left_to_right: bool,
    discard_left: bool,
) -> (r: (usize, usize))
    requires
        x < old(arena).nodes().len(),
        leaves_row(old(arena).nodes(), x as int, pt),
        old(arena).nodes().len() + 2 <= usize::MAX,
    ensures
        ({
            let h = horz_split(old(arena).nodes(), x as int, pt, left_to_right, discard_left);
            &&& final(arena).nodes() == h.0
            &&& r.0 as int == h.1
            &&& r.1 as int == h.2
        }),
        r.0 < final(arena).nodes().len(),
        r.1 < final(arena).nodes().len(),
        final(arena).nodes().len() <= old(arena).nodes().len() + 2,
{
    let ghost s = arena.nodes();
    let after = left_to_right != discard_left;
    let e = arena.approach(x, pt, left_to_right);
    let ep = arena.get(e);
    let at = if left_to_right == discard_left && ep.pt.x != pt.x {
        ep.next
    } else {
        e
    };
    let atp = arena.get(at).pt;
    let c = arena.dup(at, after);
    let ghost s1 = arena.nodes();
    proof {
        assert(s1 == duped(s, at as int, after));
        lemma_duped(s, at as int, after);
    }
    if atp != pt {
        let _ = arena.len();
        arena.set_pt(c, pt);
        let ghost s2 = arena.nodes();
        proof {
            assert(s2 == with_pt(s1, c as int, pt));
        }
        let _ = arena.len();
        let d = arena.dup(c, after);
        proof {
            assert(arena.nodes() == duped(s2, c as int, after));
            lemma_duped(s2, c as int, after);
        }
        (c, d)
    } else {
        (at, c)
    }
}

/// Joins two horizontal runs `op1..op1b` and `op2..op2b` that overlap at
/// `pt`, keeping the side that `discard_left` does not discard; see
/// `horz_joined`.
#[verifier::spinoff_prover]
#[verifier::rlimit(30)]
pub fn join_horz(
    arena: &mut OutPtArena,
    op1: usize,
    op1b: usize,
    op2: usize,
    op2b: usize,
    pt: IntPoint,
    discard_left: bool,
) -> (r: bool)
    requires
        op1 < old(arena).nodes().len(),
        op1b < old(arena).nodes().len(),
        op2 < old(arena).nodes().len(),
        op2b < old(arena).nodes().len(),
        old(arena).nodes().len() + 4 <= usize::MAX,
        leaves_row(old(arena).nodes(), op1 as int, pt),
        leaves_row(old(arena).nodes(), op2 as int, pt),
    ensures
        (r, final(arena).nodes()) == horz_joined(
            old(arena).nodes(),
            op1 as int,
            op1b as int,
            op2 as int,
            op2b as int,
            pt,
            discard_left,
        ),
{
    let ghost s = arena.nodes();
    let _ = arena.len();
    let ltr1 = arena.get(op1).pt.x <= arena.get(op1b).pt.x;
    let ltr2 = arena.get(op2).pt.x <= arena.get(op2b).pt.x;
    if ltr1 == ltr2 {
        return false;
    }
    proof {
        lemma_split_keeps_row(s, op1 as int, pt, ltr1, discard_left, op2 as int);
    }
    let (a1, a1b) = split_horz(arena, op1, pt, ltr1, discard_left);
    let (a2, a2b) = split_horz(arena, op2, pt, ltr2, discard_left);
    if ltr1 == discard_left {
        arena.swap_next(a2, a1b);
    } else {
        arena.swap_next(a1, a2b);
    }
    true
}

/// The run of a join point leaves its row: its start and its end are on
/// the row, and the point after its end is not, so the ring of the start
/// leaves the row of any point that shares it, and of any other row.
proof fn lemma_run_leaves_row(s: Seq<OutPt>, op: int, k1: nat, k2: nat, pt: IntPoint)
    requires
        links_ok(s),
        0 <= op < s.len(),
        s[prevs(s, op, k1)].pt.y == s[op].pt.y,
        s[nexts(s, op, k2)].pt.y == s[op].pt.y,
        s[s[nexts(s, op, k2)].next as int].pt.y != s[op].pt.y,
    ensures
        leaves_row(s, prevs(s, op, k1), pt),
{
    let o = prevs(s, op, k1);
    lemma_prevs_in_range(s, op, k1);
    lemma_nexts_in_range(s, op, k2);
    if pt.y == s[op].pt.y {
        lemma_nexts_undo_prevs(s, op, k1);
        lemma_nexts_add(s, o, k1, k2 + 1);
        lemma_nexts_add(s, op, k2, 1);
        let ob = nexts(s, op, k2);
        assert(nexts(s, ob, 0) == ob);
        assert(nexts(s, ob, 1) == s[ob].next as int);
        assert(s[nexts(s, o, k1 + k2 + 1)].pt.y != pt.y);
    } else {
        let back = lemma_walk_back(s, o, true);
        assert(s[nexts(s, o, back)].pt.y != pt.y);
    }
}

/// The ring of the start of a run leaves the row of any point.
proof fn lemma_run_around_leaves(s: Seq<OutPt>, op: int, o: int, ob: int, pt: IntPoint)
    requires
        links_ok(s),
        0 <= op < s.len(),
        run_around(s, op, o, ob),
    ensures
        leaves_row(s, o, pt),
{
    let (k1, k2) = choose|k1: nat, k2: nat|
        o == prevs(s, op, k1) && ob == nexts(s, op, k2) && s[o].pt.y == s[op].pt.y
            && s[ob].pt.y == s[op].pt.y && s[s[ob].next as int].pt.y != s[op].pt.y;
    lemma_run_leaves_row(s, op, k1, k2, pt);
}

/// The runs of a horizontal join; see `horz_runs`.
#[verifier::spinoff_prover]
#[verifier::rlimit(30)]
fn find_horz_runs(arena: &OutPtArena, op1: usize, op2: usize) -> (r: Option<(usize, usize, usize, usize)>)
    requires
        op1 < arena.nodes().len(),
        op2 < arena.nodes().len(),
    ensures
        match r {
            None => horz_runs(arena.nodes(), op1 as int, op2 as int) is None,
            Some(q) => {
                &&& horz_runs(arena.nodes(), op1 as int, op2 as int) == Some(
                    (q.0 as int, q.1 as int, q.2 as int, q.3 as int),
                )
                &&& q.0 < arena.nodes().len() && q.1 < arena.nodes().len()
                &&& q.2 < arena.nodes().len() && q.3 < arena.nodes().len()
                &&& run_around(arena.nodes(), op1 as int, q.0 as int, q.1 as int)
                &&& run_around(arena.nodes(), op2 as int, q.2 as int, q.3 as int)
            },
        },
{
    let ghost s = arena.nodes();
    let _ = arena.len();
    let ghost back1 = lemma_walk_back(s, op1 as int, false);
    let o1 = arena.run_to(op1, false, op1, op2);
    let ghost k1 = run_steps(s, op1 as int, false, op1 as int, op2 as int);
    proof {
        lemma_reach_back_point(s, op1 as int, back1, k1);
        assert(walk(s, op1 as int, true, (back1 - k1) as nat) == o1);
    }
    let o1b = arena.run_to(op1, true, o1, op2);
    let ghost k2 = run_steps(s, op1 as int, true, o1 as int, op2 as int);
    let n1 = arena.get(o1b).next;
    if n1 == o1 || n1 == op2 {
        return None;
    }
    let ghost back2 = lemma_walk_back(s, op2 as int, false);
    let o2 = arena.run_to(op2, false, op2, o1b);
    let ghost k3 = run_steps(s, op2 as int, false, op2 as int, o1b as int);
    proof {
        lemma_reach_back_point(s, op2 as int, back2, k3);
        assert(walk(s, op2 as int, true, (back2 - k3) as nat) == o2);
    }
    let o2b = arena.run_to(op2, true, o2, o1);
    let ghost k4 = run_steps(s, op2 as int, true, o2 as int, o1 as int);
    let n2 = arena.get(o2b).next;
    if n2 == o2 || n2 == o1 {
        return None;
    }
    proof {
        lemma_run_row(s, op1 as int, false, op1 as int, op2 as int, k1);
        lemma_run_row(s, op1 as int, true, o1 as int, op2 as int, k2);
        lemma_walk_step(s, op1 as int, true, k2);
        lemma_run_row(s, op2 as int, false, op2 as int, o1b as int, k3);
        lemma_run_row(s, op2 as int, true, o2 as int, o1 as int, k4);
        lemma_walk_step(s, op2 as int, true, k4);
        assert(o1 as int == prevs(s, op1 as int, k1) && o1b as int == nexts(s, op1 as int, k2));
        assert(o2 as int == prevs(s, op2 as int, k3) && o2b as int == nexts(s, op2 as int, k4));
    }
    Some((o1, o1b, o2, o2b))
}

/// Joins the runs of a horizontal join; see `runs_join`.
#[verifier::spinoff_prover]
#[verifier::rlimit(30)]
fn join_runs(
    arena: &mut OutPtArena,
    j: &mut Join,
    o1: usize,
    o1b: usize,
    o2: usize,
    o2b: usize,
) -> (r: bool)
    requires
        o1 < old(arena).nodes().len(),
        o1b < old(arena).nodes().len(),
        o2 < old(arena).nodes().len(),
        o2b < old(arena).nodes().len(),
        old(arena).nodes().len() + 4 <= usize::MAX,
        run_around(old(arena).nodes(), old(j).out_pt1 as int, o1 as int, o1b as int),
        run_around(old(arena).nodes(), old(j).out_pt2 as int, o2 as int, o2b as int),
        old(j).out_pt1 < old(arena).nodes().len(),
        old(j).out_pt2 < old(arena).nodes().len(),
    ensures
        (r, final(arena).nodes(), *final(j)) == runs_join(
            old(arena).nodes(),
            *old(j),
            o1 as int,
            o1b as int,
            o2 as int,
            o2b as int,
        ),
{
    let ghost s = arena.nodes();
    let _ = arena.len();
    let p1 = arena.get(o1).pt;
    let p1b = arena.get(o1b).pt;
    let p2 = arena.get(o2).pt;
    let p2b = arena.get(o2b).pt;
    let ov = get_overlap(p1.x, p1b.x, p2.x, p2b.x);
    match ov {
        None => false,
        Some((left, right)) => {
            let (pt, discard_left) = if left <= p1.x && p1.x <= right {
                (p1, p1.x > p1b.x)
            } else if left <= p2.x && p2.x <= right {
                (p2, p2.x > p2b.x)
            } else if left <= p1b.x && p1b.x <= right {
                (p1b, p1b.x > p1.x)
            } else {
                (p2b, p2b.x > p2.x)
            };
            proof {
                lemma_run_around_leaves(s, old(j).out_pt1 as int, o1 as int, o1b as int, pt);
                lemma_run_around_leaves(s, old(j).out_pt2 as int, o2 as int, o2b as int, pt);
            }
            j.out_pt1 = o1;
            j.out_pt2 = o2;
            join_horz(arena, o1, o1b, o2, o2b, pt, discard_left)
        },
    }
}

/// Joins along a horizontal common edge; see `horizontal_join`.
#[verifier::spinoff_prover]
#[verifier::rlimit(30)]
fn join_horizontal(arena: &mut OutPtArena, j: &mut Join) -> (r: bool)
    requires
        old(j).out_pt1 < old(arena).nodes().len(),
        old(j).out_pt2 < old(arena).nodes().len(),
        old(arena).nodes().len() + 4 <= usize::MAX,
    ensures
        (r, final(arena).nodes(), *final(j)) == horizontal_join(old(arena).nodes(), *old(j)),
{
    match find_horz_runs(arena, j.out_pt1, j.out_pt2) {
        None => false,
        Some((o1, o1b, o2, o2b)) => join_runs(arena, j, o1, o1b, o2, o2b),
    }
}

/// Joins the output points of `j`, which belong to one output record when
/// `same_rec`, along their common edge: the stretches of the two rings
/// along that edge are found, and the rings are reconnected there, which
/// merges two rings or splits one. Returns whether they were joined;
/// `j` then holds the points that head the resulting ring or rings. See
/// `joined` for the exact outcome.
#[verifier::spinoff_prover]
#[verifier::rlimit(30)]
pub fn join_points(arena: &mut OutPtArena, j: &mut Join, same_rec: bool, use_full_range: bool) -> (r: bool)
    requires
        old(j).out_pt1 < old(arena).nodes().len(),
        old(j).out_pt2 < old(arena).nodes().len(),
        old(arena).nodes().len() + 4 <= usize::MAX,
        old(arena).nodes()[old(j).out_pt1 as int].pt.y != old(j).off_pt.y ==> coords_within(
            old(arena).nodes(),
            use_full_range,
        ) && within_range(old(j).off_pt, range_limit(use_full_range)),
    ensures
        (r, final(arena).nodes(), *final(j)) == joined(old(arena).nodes(), *old(j), same_rec),
{
    let p1 = arena.get(j.out_pt1).pt;
    let p2 = arena.get(j.out_pt2).pt;
    if p1.y == j.off_pt.y && j.off_pt == p1 && j.off_pt == p2 {
        join_common_point(arena, j, same_rec)
    } else if p1.y == j.off_pt.y {
        join_horizontal(arena, j)
    } else {
        join_edge(arena, j, same_rec, use_full_range)
    }
}

/// The arena `s` once the ring through `b` is appended to the ring through
/// `a`, where `a` heads its ring and each ring's last point is the one
/// before its head. The two bounds that met are on the left (`a_left`,
/// `b_left`) or on the right: when they are on the same side the ring of
/// `b` is turned around first; then the rings are spliced so that `a`'s
/// ring runs on into `b`'s at the side where they met.
pub open spec fn appended(s: Seq<OutPt>, a: int, b: int, a_left: bool, b_left: bool) -> Seq<OutPt> {
    let a_rt = s[a].prev as int;
    let b_rt = s[b].prev as int;
    if a_left == b_left {
        if a_left {
            swapped_next(reversed_ring(s, b), b, a_rt)
        } else {
            swapped_next(reversed_ring(s, b), a_rt, b)
        }
    } else if a_left {
        swapped_next(s, b_rt, a_rt)
    } else {
        swapped_next(s, a_rt, b_rt)
    }
}

/// The head of the ring after `appended`: `b`'s last point when both
/// bounds are on the left, `b` when only `a`'s is, `a` otherwise.
pub open spec fn appended_head(s: Seq<OutPt>, a: int, b: int, a_left: bool, b_left: bool) -> int {
    if a_left {
        if b_left {
            s[b].prev as int
        } else {
            b
        }
    } else {
        a
    }
}

impl OutPtArena {
    /// Appends the ring through `b` to the ring through `a` (see
    /// `appended`) and returns the head of the ring (see `appended_head`).
    pub fn append_ring(&mut self, a: usize, b: usize, a_left: bool, b_left: bool) -> (r: usize)
        requires
            a < old(self).nodes().len(),
            b < old(self).nodes().len(),
        ensures
            final(self).nodes() == appended(old(self).nodes(), a as int, b as int, a_left, b_left),
            r as int == appended_head(old(self).nodes(), a as int, b as int, a_left, b_left),
    {
        let a_rt = self.get(a).prev;
        let b_rt = self.get(b).prev;
        if a_left == b_left {
            self.reverse_ring(b);
            if a_left {
                self.swap_next(b, a_rt);
                b_rt
            } else {
                self.swap_next(a_rt, b);
                a
            }
        } else if a_left {
            self.swap_next(b_rt, a_rt);
            b
        } else {
            self.swap_next(a_rt, b_rt);
            a
        }
    }
}

/// Walking from `x` after the successors of `x` and `y` (on another ring)
/// are exchanged runs round the ring of `y` first.
proof fn lemma_merged_walk(s: Seq<OutPt>, x: int, y: int, k: nat)
    requires
        links_ok(s),
        0 <= x < s.len(),
        0 <= y < s.len(),
        !in_ring(s, y, x),
        1 <= k <= ring_len(s, y),
    ensures
        nexts(swapped_next(s, x, y), x, k) == nexts(s, y, k),
    decreases k,
{
    let t = swapped_next(s, x, y);
    lemma_ring_len(s, y);
    lemma_ring_len(s, x);
    assert(x != y) by {
        assert(nexts(s, y, 0) == y);
    }
    lemma_nexts_in_range(s, x, 1);
    lemma_nexts_in_range(s, y, 1);
    assert(s[x].next != s[y].next) by {
        assert(s[s[x].next as int].prev == x);
        assert(s[s[y].next as int].prev == y);
    }
    if k == 1 {
        lemma_swapped_fields(s, x, y, x);
        assert(nexts(t, x, 0) == x);
        assert(nexts(s, y, 0) == y);
    } else {
        lemma_merged_walk(s, x, y, (k - 1) as nat);
        let z = nexts(s, y, (k - 1) as nat);
        lemma_nexts_in_range(s, y, (k - 1) as nat);
        lemma_ring_distinct(s, y, 0, (k - 1) as nat);
        assert(nexts(s, y, 0) == y);
        lemma_nexts_in_ring(s, y, (k - 1) as nat);
        lemma_swapped_fields(s, x, y, z);
    }
}

/// Walking from `x` after the successors of `x` and `y == nexts(s, x, j)`
/// are exchanged skips the stretch from `x` to `y`.
pub(crate) proof fn lemma_split_walk(s: Seq<OutPt>, x: int, j: nat, k: nat)
    requires
        links_ok(s),
        0 <= x < s.len(),
        1 <= j < ring_len(s, x),
        1 <= k <= ring_len(s, x) - j,
    ensures
        nexts(swapped_next(s, x, nexts(s, x, j)), x, k) == nexts(s, x, j + k),
    decreases k,
{
    let y = nexts(s, x, j);
    let t = swapped_next(s, x, y);
    lemma_ring_len(s, x);
    lemma_nexts_in_range(s, x, j);
    lemma_nexts_in_range(s, x, 1);
    lemma_nexts_in_range(s, y, 1);
    lemma_ring_distinct(s, x, 0, j);
    assert(nexts(s, x, 0) == x);
    assert(s[x].next != s[y].next) by {
        assert(s[s[x].next as int].prev == x);
        assert(s[s[y].next as int].prev == y);
    }
    if k == 1 {
        lemma_swapped_fields(s, x, y, x);
        assert(nexts(t, x, 0) == x);
    } else {
        lemma_split_walk(s, x, j, (k - 1) as nat);
        let z = nexts(s, x, (j + k - 1) as nat);
        lemma_nexts_in_range(s, x, (j + k - 1) as nat);
        lemma_ring_distinct(s, x, 0, (j + k - 1) as nat);
        lemma_ring_distinct(s, x, j, (j + k - 1) as nat);
        lemma_swapped_fields(s, x, y, z);
    }
}

/// Exchanging the successors of two points joins their rings into one
/// when they lie on different rings, and cuts their ring in two, one point
/// on each part, when they share one.
pub proof fn lemma_swap_merges_or_splits(s: Seq<OutPt>, x: int, y: int)
    requires
        links_ok(s),
        0 <= x < s.len(),
        0 <= y < s.len(),
        x != y,
    ensures
        in_ring(swapped_next(s, x, y), x, y) == !in_ring(s, x, y),
{
    let t = swapped_next(s, x, y);
    lemma_swapped_next_ok(s, x, y);
    lemma_ring_len(s, x);
    lemma_ring_len(s, y);
    lemma_ring_len(t, x);
    if in_ring(s, x, y) {
        let l = ring_len(s, x);
        let j = choose|j: nat| j < l && nexts(s, x, j) == y;
        assert(j != 0) by {
            assert(nexts(s, x, 0) == x);
        }
        assert forall|k: nat| 1 <= k <= l - j implies nexts(t, x, k) == nexts(s, x, j + k) by {
            lemma_split_walk(s, x, j, k);
        }
        assert(nexts(s, x, l) == x);
        assert forall|k: nat| 1 <= k < l - j implies nexts(t, x, k) != x by {
            lemma_ring_distinct(s, x, 0, j + k);
            assert(nexts(s, x, 0) == x);
        }
        assert(is_ring_len(t, x, (l - j) as nat));
        lemma_ring_len_unique(t, x, (l - j) as nat);
        assert forall|k: nat| k < ring_len(t, x) implies nexts(t, x, k) != y by {
            if k == 0 {
                assert(nexts(t, x, 0) == x);
            } else {
                lemma_ring_distinct(s, x, j, j + k);
            }
        }
    } else {
        if in_ring(s, y, x) {
            lemma_same_ring(s, y, x);
        }
        let ly = ring_len(s, y);
        assert forall|k: nat| 1 <= k <= ly implies nexts(t, x, k) == nexts(s, y, k) by {
            lemma_merged_walk(s, x, y, k);
        }
        assert(nexts(s, y, ly) == y);
        assert forall|k: nat| 1 <= k <= ly implies nexts(t, x, k) != x by {
            lemma_nexts_in_ring(s, y, k);
        }
        let lt = ring_len(t, x);
        if lt <= ly {
            assert(nexts(t, x, lt) != x);
        }
        assert(nexts(t, x, ly) == y);
    }
}

/// A walk in `t`, where the point `s.len()` is spliced in after `u`, meets
/// only points that the same walk in `s` meets, and meets the new point
/// only right after `u`.
proof fn lemma_unsplice_reach(s: Seq<OutPt>, t: Seq<OutPt>, u: int, x: int, k: nat)
    requires
        links_ok(s),
        0 <= x < s.len(),
        spliced(s, t, u),
    ensures
        nexts(t, x, k) == s.len() ==> exists|k2: nat| nexts(s, x, k2) == u,
        nexts(t, x, k) != s.len() ==> exists|k2: nat| nexts(s, x, k2) == nexts(t, x, k),
    decreases k,
{
    if k == 0 {
        assert(nexts(s, x, 0) == x);
        assert(nexts(t, x, 0) == x);
    } else {
        lemma_unsplice_reach(s, t, u, x, (k - 1) as nat);
        let y = nexts(t, x, (k - 1) as nat);
        assert(nexts(t, x, k) == t[y].next as int);
        if y == s.len() {
            let k2 = choose|k2: nat| nexts(s, x, k2) == u;
            assert(nexts(s, x, k2 + 1) == s[u].next as int);
        } else {
            let k2 = choose|k2: nat| nexts(s, x, k2) == y;
            lemma_nexts_in_range(s, x, k2);
            if y == u {
                assert(nexts(s, x, k2) == u);
            } else {
                assert(nexts(s, x, k2 + 1) == s[y].next as int);
                assert(s[y].next < s.len());
            }
        }
    }
}

/// Linking in a copy leaves every two old points on one ring, or apart, as
/// they were.
pub proof fn lemma_dup_keeps_rings(s: Seq<OutPt>, at: int, after: bool, a: int, b: int)
    requires
        links_ok(s),
        0 <= at < s.len(),
        0 <= a < s.len(),
        0 <= b < s.len(),
        s.len() < usize::MAX,
    ensures
        in_ring(duped(s, at, after), a, b) == in_ring(s, a, b),
{
    let t = duped(s, at, after);
    let u = if after {
        at
    } else {
        s[at].prev as int
    };
    if after {
        lemma_after_spliced(s, at);
    } else {
        lemma_before_spliced(s, at);
    }
    lemma_ring_len(s, a);
    lemma_ring_len(t, a);
    if in_ring(s, a, b) {
        let k = choose|k: nat| k < ring_len(s, a) && nexts(s, a, k) == b;
        if k == 0 {
            assert(nexts(s, a, 0) == a);
            assert(nexts(t, a, 0) == a);
            lemma_nexts_in_ring(t, a, 0);
        } else {
            let k2 = lemma_splice_reach(s, t, u, a, k);
            lemma_nexts_in_ring(t, a, k2);
        }
    }
    if in_ring(t, a, b) {
        let k = choose|k: nat| k < ring_len(t, a) && nexts(t, a, k) == b;
        lemma_unsplice_reach(s, t, u, a, k);
        let k2 = choose|k2: nat| nexts(s, a, k2) == b;
        lemma_nexts_in_ring(s, a, k2);
    }
}

/// A point and the point after it share a ring.
proof fn lemma_next_same_ring(s: Seq<OutPt>, x: int, y: int, z: int)
    requires
        links_ok(s),
        0 <= x < s.len(),
        0 <= y < s.len(),
        0 <= z < s.len(),
        s[x].next as int == y,
    ensures
        in_ring(s, z, x) == in_ring(s, z, y),
        in_ring(s, x, z) == in_ring(s, y, z),
{
    lemma_ring_len(s, x);
    assert(nexts(s, x, 0) == x);
    assert(nexts(s, x, 1) == y);
    lemma_nexts_in_ring(s, x, 1);
    lemma_same_ring(s, x, y);
    lemma_ring_len(s, z);
    lemma_ring_closed(s, z, x);
}

/// The copies made by `relinked` keep old points on one ring, or apart,
/// as they were, and keep the links consistent.
proof fn lemma_relinked_copies(s: Seq<OutPt>, op1: int, op2: int, reverse1: bool)
    requires
        links_ok(s),
        0 <= op1 < s.len(),
        0 <= op2 < s.len(),
        op1 != op2,
        s.len() + 2 <= usize::MAX,
    ensures
        ({
            let s1 = duped(s, op1, !reverse1);
            let s2 = duped(s1, op2, reverse1);
            &&& links_ok(s2)
            &&& s2.len() == s.len() + 2
            &&& in_ring(s2, op1, op2) == in_ring(s, op1, op2)
            &&& in_ring(s2, op2, op1) == in_ring(s, op1, op2)
            &&& reverse1 ==> s2[s.len() as int].next as int == op1
            &&& !reverse1 ==> s2[op1].next as int == s.len()
            &&& !reverse1 ==> s2[s.len() + 1 as int].next as int == op2
        }),
{
    let c1 = s.len() as int;
    let s1 = duped(s, op1, !reverse1);
    if reverse1 {
        lemma_before_spliced(s, op1);
    } else {
        lemma_after_spliced(s, op1);
    }
    lemma_duped(s, op1, !reverse1);
    let s2 = duped(s1, op2, reverse1);
    if reverse1 {
        lemma_after_spliced(s1, op2);
    } else {
        lemma_before_spliced(s1, op2);
    }
    lemma_duped(s1, op2, reverse1);
    lemma_dup_keeps_rings(s, op1, !reverse1, op1, op2);
    lemma_dup_keeps_rings(s1, op2, reverse1, op1, op2);
    lemma_dup_keeps_rings(s, op1, !reverse1, op2, op1);
    lemma_dup_keeps_rings(s1, op2, reverse1, op2, op1);
    lemma_ring_len(s, op1);
    assert(nexts(s, op1, 0) == op1);
    if in_ring(s, op2, op1) {
        lemma_same_ring(s, op2, op1);
    }
    if in_ring(s, op1, op2) {
        lemma_same_ring(s, op1, op2);
    }
    if reverse1 {
        assert(s1[c1].next as int == op1);
    } else {
        assert(s1[op1].next as int == c1);
        assert(s1[c1].prev as int == op1);
        assert(s1[op2].prev as int != op1) by {
            assert(s1[s1[op2].prev as int].next as int == op2);
        }
    }
}

/// Relinking at `op1` and `op2` (see `relinked`) leaves `op1` and its
/// copy on one ring exactly when `op1` and `op2` were on different rings:
/// two rings are merged into one, or one is cut in two.
#[verifier::spinoff_prover]
#[verifier::rlimit(40)]
pub proof fn lemma_relinked_merges_or_splits(s: Seq<OutPt>, op1: int, op2: int, reverse1: bool)
    requires
        links_ok(s),
        0 <= op1 < s.len(),
        0 <= op2 < s.len(),
        op1 != op2,
        s.len() + 2 <= usize::MAX,
    ensures
        in_ring(relinked(s, op1, op2, reverse1), op1, s.len() as int) == !in_ring(s, op1, op2),
{
    let c1 = s.len() as int;
    let c2 = c1 + 1;
    let s2 = duped(duped(s, op1, !reverse1), op2, reverse1);
    lemma_relinked_copies(s, op1, op2, reverse1);
    if reverse1 {
        // the copy of op1 runs on into op1; op2 now runs on into op1 too
        let t = swapped_next(s2, op2, c1);
        lemma_next_same_ring(s2, c1, op1, op2);
        lemma_swap_merges_or_splits(s2, op2, c1);
        lemma_swapped_next_ok(s2, op2, c1);
        assert(s2[op2].next != s2[c1].next) by {
            assert(s2[s2[op2].next as int].prev == op2);
            assert(s2[s2[c1].next as int].prev == c1);
        }
        lemma_swapped_fields(s2, op2, c1, op2);
        lemma_next_same_ring(t, op2, op1, c1);
    } else {
        // the copy of op2 runs on into op2; it now runs on into the copy of op1
        let t = swapped_next(s2, op1, c2);
        lemma_next_same_ring(s2, c2, op2, op1);
        lemma_swap_merges_or_splits(s2, op1, c2);
        assert(s2[op1].next != s2[c2].next) by {
            assert(s2[s2[op1].next as int].prev == op1);
            assert(s2[s2[c2].next as int].prev == c2);
        }
        lemma_swapped_fields(s2, op1, c2, c2);
        lemma_swapped_next_ok(s2, op1, c2);
        lemma_next_same_ring(t, c2, c1, op1);
    }
}

/// A join along a common edge, or at a common point, that succeeds hands
/// back two points that share a ring exactly when the two points it joined
/// did not: two rings become one, or one ring becomes two.
pub proof fn lemma_join_merges_or_splits(s: Seq<OutPt>, j: Join, same_rec: bool)
    requires
        links_ok(s),
        j.out_pt1 < s.len(),
        j.out_pt2 < s.len(),
        j.out_pt1 != j.out_pt2,
        s.len() + 4 <= usize::MAX,
        s[j.out_pt1 as int].pt.y != j.off_pt.y || (j.off_pt == s[j.out_pt1 as int].pt && j.off_pt
            == s[j.out_pt2 as int].pt),
        joined(s, j, same_rec).0,
    ensures
        in_ring(
            joined(s, j, same_rec).1,
            joined(s, j, same_rec).2.out_pt1 as int,
            joined(s, j, same_rec).2.out_pt2 as int,
        ) == !in_ring(s, j.out_pt1 as int, j.out_pt2 as int),
{
    let op1 = j.out_pt1 as int;
    let op2 = j.out_pt2 as int;
    if s[op1].pt.y == j.off_pt.y && j.off_pt == s[op1].pt && j.off_pt == s[op2].pt {
        let reverse1 = s[first_off(s, op1, j.off_pt, true)].pt.y > j.off_pt.y;
        lemma_relinked_merges_or_splits(s, op1, op2, reverse1);
    } else {
        let reverse1 = !heads_to(s, op1, first_off(s, op1, s[op1].pt, true), j.off_pt);
        lemma_relinked_merges_or_splits(s, op1, op2, reverse1);
    }
}

} // verus!
