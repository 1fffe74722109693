//! Output points added where an edge of the sweep contributes to the
//! result: an edge with no record yet starts a record and a ring of one
//! point, closed rings learn whether they are holes from the output edges
//! on their left, and an edge with a record adds its point at the front or
//! the back of that record's ring.
use vstd::prelude::*;

use crate::outpt::{inserted_before, OutPt, OutPtArena};
use crate::outrec::{create_out_rec, OutRec};
use crate::types::IntPoint;

verus! {

/// Walking the output edges on the left of an edge, nearest first, each
/// given by its record index and winding delta: after the first `k`, the
/// position of the edge that holds the new ring, if any. A closed edge
/// with a record is taken when none is held, and drops the one held when
/// it belongs to the same record (the two edges of that record enclose
/// nothing on this side).
pub open spec fn hole_owner(left: Seq<(i32, i32)>, k: int) -> Option<int>
    decreases k,
{
    if k <= 0 {
        None
    } else {
        let prev = hole_owner(left, k - 1);
        if left[k - 1].0 >= 0 && left[k - 1].1 != 0 {
            match prev {
                None => Some(k - 1),
                Some(j) => if left[j].0 == left[k - 1].0 {
                    None
                } else {
                    Some(j)
                },
            }
        } else {
            prev
        }
    }
}

/// What `hole_owner` holds is a closed edge with a record, among the
/// first `k`.
proof fn lemma_hole_owner_range(left: Seq<(i32, i32)>, k: int)
    requires
        k <= left.len(),
    ensures
        hole_owner(left, k) matches Some(j) ==> 0 <= j < k && left[j].0 >= 0,
    decreases k,
{
    if k > 0 {
        lemma_hole_owner_range(left, k - 1);
    }
}

/// The record indices named by the edges `left` are below `n`.
pub open spec fn left_in_range(left: Seq<(i32, i32)>, n: int) -> bool {
    forall|i: int| 0 <= i < left.len() ==> (#[trigger] left[i]).0 < n
}

/// The records once record `outrec` is placed by the edges on the left of
/// its edge: with no holder it is an outer ring with no container;
/// otherwise the holder's record contains it and it is a hole exactly
/// when that record is not.
pub open spec fn with_hole_state(recs: Seq<OutRec>, outrec: int, left: Seq<(i32, i32)>) -> Seq<
    OutRec,
> {
    match hole_owner(left, left.len() as int) {
        None => recs.update(outrec, OutRec { first_left: None, is_hole: false, ..recs[outrec] }),
        Some(j) => {
            let o = left[j].0 as int;
            recs.update(
                outrec,
                OutRec { first_left: Some(o as usize), is_hole: !recs[o].is_hole, ..recs[outrec] },
            )
        },
    }
}

/// Sets whether record `outrec` is a hole, and which record contains it,
/// from the output edges on the left of its edge, nearest first (see
/// `with_hole_state`).
pub fn set_hole_state(recs: &mut Vec<OutRec>, outrec: usize, left: &Vec<(i32, i32)>)
    requires
        outrec < old(recs)@.len(),
        left_in_range(left@, old(recs)@.len() as int),
    ensures
        final(recs)@ == with_hole_state(old(recs)@, outrec as int, left@),
{
    let mut owner: Option<usize> = None;
    let mut k: usize = 0;
    while k < left.len()
        invariant
            k <= left@.len(),
            match owner {
                Some(j) => hole_owner(left@, k as int) == Some(j as int) && j < k,
                None => hole_owner(left@, k as int) is None,
            },
        decreases left@.len() - k,
    {
        let (oi, wd) = left[k];
        if oi >= 0 && wd != 0 {
            match owner {
                None => {
                    owner = Some(k);
                },
                Some(j) => {
                    if left[j].0 == oi {
                        owner = None;
                    }
                },
            }
        }
        k += 1;
    }
    proof {
        lemma_hole_owner_range(left@, left@.len() as int);
    }
    let r = recs[outrec];
    match owner {
        None => {
            recs.set(outrec, OutRec { first_left: None, is_hole: false, ..r });
        },
        Some(j) => {
            let o = left[j].0 as usize;
            let h = recs[o].is_hole;
            recs.set(outrec, OutRec { first_left: Some(o), is_hole: !h, ..r });
        },
    }
}

/// The record an edge with none starts: the next index, its ring the new
/// point `op`, open when the edge is.
pub open spec fn started_rec(ri: int, closed: bool, op: int) -> OutRec {
    OutRec {
        idx: ri as i32,
        is_hole: false,
        is_open: !closed,
        first_left: None,
        poly_nd: None,
        pts: Some(op as usize),
        bottom_pt: None,
    }
}

/// Adds the output point `pt` for an edge whose record index is `out_idx`
/// (negative for none), closed or open, on the left side of its polygon
/// (`to_front`) or the right. An edge with no record starts one whose
/// ring is the new point alone, a closed one placed by the output edges on
/// its left, nearest first (`left`, read only then; see
/// `with_hole_state`). Otherwise the point goes before the head of the
/// record's ring, which it then heads on the left side, unless it repeats
/// the point at that end, which is returned instead. Returns the point and
/// the edge's record index.
pub fn add_out_pt(
    recs: &mut Vec<OutRec>,
    arena: &mut OutPtArena,
    out_idx: i32,
    closed: bool,
    to_front: bool,
    pt: IntPoint,
    left: &Vec<(i32, i32)>,
) -> (r: (usize, i32))
    requires
        old(arena).nodes().len() < usize::MAX,
        out_idx < 0 ==> left_in_range(left@, old(recs)@.len() as int),
        out_idx >= 0 ==> out_idx < old(recs)@.len() && (old(recs)@[out_idx as int].pts matches Some(
            p,
        ) && p < old(arena).nodes().len()),
    ensures
        out_idx < 0 ==> {
            let n = old(arena).nodes().len() as int;
            let ri = old(recs)@.len() as int;
            let pushed = old(recs)@.push(started_rec(ri, closed, n));
            &&& r == (n as usize, ri as i32)
            &&& final(arena).nodes() == old(arena).nodes().push(
                OutPt { idx: ri as i32, pt, next: n as usize, prev: n as usize },
            )
            &&& final(recs)@ == if closed {
                with_hole_state(pushed, ri, left@)
            } else {
                pushed
            }
        },
        out_idx >= 0 ==> {
            let o = out_idx as int;
            let s = old(arena).nodes();
            let op = old(recs)@[o].pts->0 as int;
            let back = s[op].prev as int;
            if to_front && pt == s[op].pt {
                &&& r == (op as usize, out_idx)
                &&& final(arena).nodes() == s
                &&& final(recs)@ == old(recs)@
            } else if !to_front && pt == s[back].pt {
                &&& r == (back as usize, out_idx)
                &&& final(arena).nodes() == s
                &&& final(recs)@ == old(recs)@
            } else {
                &&& r == (s.len() as usize, out_idx)
                &&& final(arena).nodes() == inserted_before(s, op, old(recs)@[o].idx, pt)
                &&& final(recs)@ == if to_front {
                    old(recs)@.update(o, OutRec { pts: Some(s.len() as usize), ..old(recs)@[o] })
                } else {
                    old(recs)@
                }
            }
        },
{
    if out_idx < 0 {
        let ghost n = arena.nodes().len();
        let ri = create_out_rec(recs);
        let idx = recs[ri].idx;
        let new_op = arena.new_ring(idx, pt);
        let r = recs[ri];
        recs.set(ri, OutRec { is_open: !closed, pts: Some(new_op), ..r });
        proof {
            assert(recs@ == old(recs)@.push(started_rec(ri as int, closed, n as int)));
        }
        if closed {
            set_hole_state(recs, ri, left);
        }
        (new_op, idx)
    } else {
        let o = out_idx as usize;
        let op = recs[o].pts.unwrap();
        let at = arena.get(op);
        let back = at.prev;
        if to_front && pt == at.pt {
            return (op, out_idx);
        } else if !to_front && pt == arena.get(back).pt {
            return (back, out_idx);
        }
        let idx = recs[o].idx;
        let new_op = arena.insert_before(op, idx, pt);
        if to_front {
            let r = recs[o];
            recs.set(o, OutRec { pts: Some(new_op), ..r });
        }
        (new_op, out_idx)
    }
}

} // verus!
