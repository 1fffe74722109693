//! What happens where two active edges cross: their winding numbers are
//! exchanged or updated, and the crossing point may open, extend or close
//! output polygons.
use vstd::prelude::*;

use crate::types::{ClipType, PolyFillType, PolyType};
use crate::winding::{
    own_fill, other_fill, winding_bound, winding_count_for_fill, winding_for_fill_spec,
    EdgeWinding,
};

verus! {

/// The output step taken at a crossing of two edges.
#[derive(Debug, Clone, Copy, PartialEq, Eq, Structural)]
pub enum CrossingAction {
    /// No output.
    Nothing,
    /// The point is added to the output of the first edge (`first`) or of
    /// the second; when `unassign` is set that edge then stops contributing.
    OpenPoint { first: bool, unassign: bool },
    /// The two edges close an output polygon at a local maximum.
    LocalMax,
    /// Both edges take the point, then exchange sides and outputs.
    BothPointsAndSwap,
    /// The first edge takes the point, then the edges exchange sides and
    /// outputs.
    FirstPointAndSwap,
    /// The second edge takes the point, then the edges exchange sides and
    /// outputs.
    SecondPointAndSwap,
    /// The two edges open a new output polygon at a local minimum.
    LocalMin,
    /// The edges exchange sides only.
    SwapSides,
}

/// Winding values small enough that a crossing's arithmetic stays in `i32`.
pub open spec fn crossing_bounded(e: EdgeWinding) -> bool {
    &&& -1 <= e.wind_delta <= 1
    &&& -winding_bound() <= e.wind_cnt <= winding_bound()
    &&& -winding_bound() <= e.wind_cnt2 <= winding_bound()
}

/// `w` is 0 or 1: the edge leaves its region unfilled or bounds it.
pub open spec fn zero_or_one(w: int) -> bool {
    w == 0 || w == 1
}

/// 1 for 0 and 0 otherwise: the even-odd parity flips.
pub open spec fn flip_parity(w: int) -> int {
    if w == 0 {
        1
    } else {
        0
    }
}

/// The edge `e` with its two winding numbers replaced.
pub open spec fn with_windings(e: EdgeWinding, wind_cnt: int, wind_cnt2: int) -> EdgeWinding {
    EdgeWinding {
        poly_type: e.poly_type,
        wind_delta: e.wind_delta,
        wind_cnt: wind_cnt as i32,
        wind_cnt2: wind_cnt2 as i32,
    }
}

/// Winding numbers of two closed edges once `e2` has crossed `e1` from
/// its right: edges of one set exchange (even-odd) or pass over each other's
/// delta, a count that would fall to zero changes sign instead; edges of
/// different sets update the other set's count, by delta or by parity.
pub open spec fn crossed_windings(
    e1: EdgeWinding,
    e2: EdgeWinding,
    subj_fill_type: PolyFillType,
    clip_fill_type: PolyFillType,
) -> (EdgeWinding, EdgeWinding) {
    if e1.poly_type == e2.poly_type {
        if own_fill(e1.poly_type, subj_fill_type, clip_fill_type) == PolyFillType::EvenOdd {
            (
                with_windings(e1, e2.wind_cnt as int, e1.wind_cnt2 as int),
                with_windings(e2, e1.wind_cnt as int, e2.wind_cnt2 as int),
            )
        } else {
            let c1 = if e1.wind_cnt + e2.wind_delta == 0 {
                -e1.wind_cnt
            } else {
                e1.wind_cnt + e2.wind_delta
            };
            let c2 = if e2.wind_cnt - e1.wind_delta == 0 {
                -e2.wind_cnt
            } else {
                e2.wind_cnt - e1.wind_delta
            };
            (with_windings(e1, c1, e1.wind_cnt2 as int), with_windings(e2, c2, e2.wind_cnt2 as int))
        }
    } else {
        let d1 = if own_fill(e2.poly_type, subj_fill_type, clip_fill_type)
            != PolyFillType::EvenOdd {
            e1.wind_cnt2 + e2.wind_delta
        } else {
            flip_parity(e1.wind_cnt2 as int)
        };
        let d2 = if own_fill(e1.poly_type, subj_fill_type, clip_fill_type)
            != PolyFillType::EvenOdd {
            e2.wind_cnt2 - e1.wind_delta
        } else {
            flip_parity(e2.wind_cnt2 as int)
        };
        (with_windings(e1, e1.wind_cnt as int, d1), with_windings(e2, e2.wind_cnt as int, d2))
    }
}

/// Output step where an open edge (delta 0) crosses another edge: under a
/// union it takes the point from a contributing closed edge of its own set;
/// against the other set it takes the point where the closed edge bounds its
/// set (and, for a union, lies outside the open edge's set).
pub open spec fn open_crossing(
    e1: EdgeWinding,
    e2: EdgeWinding,
    e1_contributing: bool,
    e2_contributing: bool,
    clip_type: ClipType,
) -> CrossingAction {
    if e1.wind_delta == 0 && e2.wind_delta == 0 {
        CrossingAction::Nothing
    } else if e1.poly_type == e2.poly_type && e1.wind_delta != e2.wind_delta && clip_type
        == ClipType::Union {
        if e1.wind_delta == 0 {
            if e2_contributing {
                CrossingAction::OpenPoint { first: true, unassign: e1_contributing }
            } else {
                CrossingAction::Nothing
            }
        } else if e1_contributing {
            CrossingAction::OpenPoint { first: false, unassign: e2_contributing }
        } else {
            CrossingAction::Nothing
        }
    } else if e1.poly_type != e2.poly_type {
        if e1.wind_delta == 0 && (e2.wind_cnt == 1 || e2.wind_cnt == -1) && (clip_type
            != ClipType::Union || e2.wind_cnt2 == 0) {
            CrossingAction::OpenPoint { first: true, unassign: e1_contributing }
        } else if e2.wind_delta == 0 && (e1.wind_cnt == 1 || e1.wind_cnt == -1) && (clip_type
            != ClipType::Union || e1.wind_cnt2 == 0) {
            CrossingAction::OpenPoint { first: false, unassign: e2_contributing }
        } else {
            CrossingAction::Nothing
        }
    } else {
        CrossingAction::Nothing
    }
}

/// Output step where two closed edges have crossed, given their updated
/// windings `n1`, `n2`: contributing edges close a polygon or pass their
/// outputs over; two non-contributing edges that now bound their sets open
/// a polygon where the boolean operation keeps the region between them.
pub open spec fn closed_crossing(
    n1: EdgeWinding,
    n2: EdgeWinding,
    e1_contributing: bool,
    e2_contributing: bool,
    clip_type: ClipType,
    subj_fill_type: PolyFillType,
    clip_fill_type: PolyFillType,
) -> CrossingAction {
    let w1 = winding_for_fill_spec(
        own_fill(n1.poly_type, subj_fill_type, clip_fill_type),
        n1.wind_cnt as int,
    );
    let w2 = winding_for_fill_spec(
        own_fill(n2.poly_type, subj_fill_type, clip_fill_type),
        n2.wind_cnt as int,
    );
    if e1_contributing && e2_contributing {
        if !zero_or_one(w1) || !zero_or_one(w2) || (n1.poly_type != n2.poly_type && clip_type
            != ClipType::Xor) {
            CrossingAction::LocalMax
        } else {
            CrossingAction::BothPointsAndSwap
        }
    } else if e1_contributing {
        if zero_or_one(w2) {
            CrossingAction::FirstPointAndSwap
        } else {
            CrossingAction::Nothing
        }
    } else if e2_contributing {
        if zero_or_one(w1) {
            CrossingAction::SecondPointAndSwap
        } else {
            CrossingAction::Nothing
        }
    } else if zero_or_one(w1) && zero_or_one(w2) {
        let v1 = winding_for_fill_spec(
            other_fill(n1.poly_type, subj_fill_type, clip_fill_type),
            n1.wind_cnt2 as int,
        );
        let v2 = winding_for_fill_spec(
            other_fill(n2.poly_type, subj_fill_type, clip_fill_type),
            n2.wind_cnt2 as int,
        );
        if n1.poly_type != n2.poly_type {
            CrossingAction::LocalMin
        } else if w1 == 1 && w2 == 1 {
            let opens = match clip_type {
                ClipType::Intersection => v1 > 0 && v2 > 0,
                ClipType::Union => v1 <= 0 && v2 <= 0,
                ClipType::Difference => (n1.poly_type == PolyType::Clip && v1 > 0 && v2 > 0) || (
                n1.poly_type == PolyType::Subject && v1 <= 0 && v2 <= 0),
                ClipType::Xor => true,
            };
            if opens {
                CrossingAction::LocalMin
            } else {
                CrossingAction::Nothing
            }
        } else {
            CrossingAction::SwapSides
        }
    } else {
        CrossingAction::Nothing
    }
}

/// New windings of the two edges and the output step of their crossing:
/// an open edge leaves all windings as they are.
pub open spec fn crossing(
    e1: EdgeWinding,
    e2: EdgeWinding,
    e1_contributing: bool,
    e2_contributing: bool,
    clip_type: ClipType,
    subj_fill_type: PolyFillType,
    clip_fill_type: PolyFillType,
) -> (EdgeWinding, EdgeWinding, CrossingAction) {
    if e1.wind_delta == 0 || e2.wind_delta == 0 {
        (e1, e2, open_crossing(e1, e2, e1_contributing, e2_contributing, clip_type))
    } else {
        let (n1, n2) = crossed_windings(e1, e2, subj_fill_type, clip_fill_type);
        (
            n1,
            n2,
            closed_crossing(
                n1,
                n2,
                e1_contributing,
                e2_contributing,
                clip_type,
                subj_fill_type,
                clip_fill_type,
            ),
        )
    }
}

/// The fill rule of `poly_type`'s own set.
fn fill_of(poly_type: PolyType, subj_fill_type: PolyFillType, clip_fill_type: PolyFillType) -> (r:
    PolyFillType)
    ensures
        r == own_fill(poly_type, subj_fill_type, clip_fill_type),
{
    if poly_type == PolyType::Subject {
        subj_fill_type
    } else {
        clip_fill_type
    }
}

/// Computes `crossing`: the windings of `e1` and `e2` after the edges cross
/// and what the crossing point does to the output. `e1_contributing` and
/// `e2_contributing` say whether each edge currently has an output polygon.
pub fn intersect_windings(
    e1: EdgeWinding,
    e2: EdgeWinding,
    e1_contributing: bool,
    e2_contributing: bool,
    clip_type: ClipType,
    subj_fill_type: PolyFillType,
    clip_fill_type: PolyFillType,
) -> (r: (EdgeWinding, EdgeWinding, CrossingAction))
    requires
        crossing_bounded(e1),
        crossing_bounded(e2),
    ensures
        r == crossing(
            e1,
            e2,
            e1_contributing,
            e2_contributing,
            clip_type,
            subj_fill_type,
            clip_fill_type,
        ),
{
    if e1.wind_delta == 0 || e2.wind_delta == 0 {
        let action = if e1.wind_delta == 0 && e2.wind_delta == 0 {
            CrossingAction::Nothing
        } else if e1.poly_type == e2.poly_type && e1.wind_delta != e2.wind_delta && clip_type
            == ClipType::Union {
            if e1.wind_delta == 0 {
                if e2_contributing {
                    CrossingAction::OpenPoint { first: true, unassign: e1_contributing }
                } else {
                    CrossingAction::Nothing
                }
            } else if e1_contributing {
                CrossingAction::OpenPoint { first: false, unassign: e2_contributing }
            } else {
                CrossingAction::Nothing
            }
        } else if e1.poly_type != e2.poly_type {
            if e1.wind_delta == 0 && (e2.wind_cnt == 1 || e2.wind_cnt == -1) && (clip_type
                != ClipType::Union || e2.wind_cnt2 == 0) {
                CrossingAction::OpenPoint { first: true, unassign: e1_contributing }
            } else if e2.wind_delta == 0 && (e1.wind_cnt == 1 || e1.wind_cnt == -1) && (clip_type
                != ClipType::Union || e1.wind_cnt2 == 0) {
                CrossingAction::OpenPoint { first: false, unassign: e2_contributing }
            } else {
                CrossingAction::Nothing
            }
        } else {
            CrossingAction::Nothing
        };
        return (e1, e2, action);
    }
    let mut n1 = e1;
    let mut n2 = e2;
    if e1.poly_type == e2.poly_type {
        if fill_of(e1.poly_type, subj_fill_type, clip_fill_type) == PolyFillType::EvenOdd {
            n1.wind_cnt = e2.wind_cnt;
            n2.wind_cnt = e1.wind_cnt;
        } else {
            n1.wind_cnt = if e1.wind_cnt + e2.wind_delta == 0 {
                -e1.wind_cnt
            } else {
                e1.wind_cnt + e2.wind_delta
            };
            n2.wind_cnt = if e2.wind_cnt - e1.wind_delta == 0 {
                -e2.wind_cnt
            } else {
                e2.wind_cnt - e1.wind_delta
            };
        }
    } else {
        n1.wind_cnt2 = if fill_of(e2.poly_type, subj_fill_type, clip_fill_type)
            != PolyFillType::EvenOdd {
            e1.wind_cnt2 + e2.wind_delta
        } else if e1.wind_cnt2 == 0 {
            1
        } else {
            0
        };
        n2.wind_cnt2 = if fill_of(e1.poly_type, subj_fill_type, clip_fill_type)
            != PolyFillType::EvenOdd {
            e2.wind_cnt2 - e1.wind_delta
        } else if e2.wind_cnt2 == 0 {
            1
        } else {
            0
        };
    }
    assert((n1, n2) == crossed_windings(e1, e2, subj_fill_type, clip_fill_type));
    let fill1 = fill_of(n1.poly_type, subj_fill_type, clip_fill_type);
    let fill2 = fill_of(n2.poly_type, subj_fill_type, clip_fill_type);
    let w1 = winding_count_for_fill(fill1, n1.wind_cnt);
    let w2 = winding_count_for_fill(fill2, n2.wind_cnt);
    let w1_low = w1 == 0 || w1 == 1;
    let w2_low = w2 == 0 || w2 == 1;
    let action = if e1_contributing && e2_contributing {
        if !w1_low || !w2_low || (n1.poly_type != n2.poly_type && clip_type != ClipType::Xor) {
            CrossingAction::LocalMax
        } else {
            CrossingAction::BothPointsAndSwap
        }
    } else if e1_contributing {
        if w2_low {
            CrossingAction::FirstPointAndSwap
        } else {
            CrossingAction::Nothing
        }
    } else if e2_contributing {
        if w1_low {
            CrossingAction::SecondPointAndSwap
        } else {
            CrossingAction::Nothing
        }
    } else if w1_low && w2_low {
        if n1.poly_type != n2.poly_type {
            CrossingAction::LocalMin
        } else {
            // the two edges belong to one set, so the other set is the same
            let other = if n1.poly_type == PolyType::Subject {
                clip_fill_type
            } else {
                subj_fill_type
            };
            let v1 = winding_count_for_fill(other, n1.wind_cnt2);
            let v2 = winding_count_for_fill(other, n2.wind_cnt2);
            if w1 == 1 && w2 == 1 {
                let opens = match clip_type {
                    ClipType::Intersection => v1 > 0 && v2 > 0,
                    ClipType::Union => v1 <= 0 && v2 <= 0,
                    ClipType::Difference => (n1.poly_type == PolyType::Clip && v1 > 0 && v2 > 0)
                        || (n1.poly_type == PolyType::Subject && v1 <= 0 && v2 <= 0),
                    ClipType::Xor => true,
                };
                if opens {
                    CrossingAction::LocalMin
                } else {
                    CrossingAction::Nothing
                }
            } else {
                CrossingAction::SwapSides
            }
        }
    } else {
        CrossingAction::Nothing
    };
    (n1, n2, action)
}


/// `order` with the entries `a` and `b` exchanged.
pub open spec fn swap_entries(order: Seq<int>, a: int, b: int) -> Seq<int> {
    order.map_values(
        |v: int|
            if v == a {
                b
            } else if v == b {
                a
            } else {
                v
            },
    )
}

/// The order of `n` edges, listed by their starting positions, after the
/// first `k` crossings of `swaps` (each exchanges two edges).
pub open spec fn order_after(n: nat, swaps: Seq<(usize, usize)>, k: nat) -> Seq<int>
    decreases k,
{
    if k == 0 || k > swaps.len() {
        Seq::new(n, |i: int| i)
    } else {
        swap_entries(
            order_after(n, swaps, (k - 1) as nat),
            swaps[k - 1].0 as int,
            swaps[k - 1].1 as int,
        )
    }
}

/// One pass of the bubble sort over `order[..end]` from position `i`:
/// each neighbour pair out of x order is exchanged and recorded (by the
/// edges' starting positions, the left one first). Returns the order, the
/// crossings recorded and whether any pair was exchanged.
#[verifier::opaque]
pub open spec fn bubble_pass(
    xs: Seq<i64>,
    order: Seq<int>,
    i: int,
    end: int,
    swaps: Seq<(usize, usize)>,
    modified: bool,
) -> (Seq<int>, Seq<(usize, usize)>, bool)
    decreases end - i,
{
    if i + 1 >= end {
        (order, swaps, modified)
    } else if xs[order[i]] > xs[order[i + 1]] {
        bubble_pass(
            xs,
            order.update(i, order[i + 1]).update(i + 1, order[i]),
            i + 1,
            end,
            swaps.push((order[i] as usize, order[i + 1] as usize)),
            true,
        )
    } else {
        bubble_pass(xs, order, i + 1, end, swaps, modified)
    }
}

/// Passes of the bubble sort over ever shorter fronts `order[..end]`,
/// until a pass exchanges nothing or the front is one entry long.
#[verifier::opaque]
pub open spec fn bubble(xs: Seq<i64>, order: Seq<int>, end: int, swaps: Seq<(usize, usize)>) -> Seq<
    (usize, usize),
>
    decreases end,
{
    if end <= 1 {
        swaps
    } else {
        let (o2, s2, m) = bubble_pass(xs, order, 0, end, swaps, false);
        if !m {
            s2
        } else {
            bubble(xs, o2, end - 1, s2)
        }
    }
}

/// One step of a pass.
proof fn lemma_pass_step(
    xs: Seq<i64>,
    order: Seq<int>,
    i: int,
    end: int,
    swaps: Seq<(usize, usize)>,
    modified: bool,
)
    ensures
        i + 1 >= end ==> bubble_pass(xs, order, i, end, swaps, modified) == (order, swaps, modified),
        i + 1 < end && xs[order[i]] > xs[order[i + 1]] ==> bubble_pass(
            xs,
            order,
            i,
            end,
            swaps,
            modified,
        ) == bubble_pass(
            xs,
            order.update(i, order[i + 1]).update(i + 1, order[i]),
            i + 1,
            end,
            swaps.push((order[i] as usize, order[i + 1] as usize)),
            true,
        ),
        i + 1 < end && !(xs[order[i]] > xs[order[i + 1]]) ==> bubble_pass(
            xs,
            order,
            i,
            end,
            swaps,
            modified,
        ) == bubble_pass(xs, order, i + 1, end, swaps, modified),
{
    reveal(bubble_pass);
}

/// One pass of the sort.
proof fn lemma_bubble_step(xs: Seq<i64>, order: Seq<int>, end: int, swaps: Seq<(usize, usize)>)
    ensures
        end <= 1 ==> bubble(xs, order, end, swaps) == swaps,
        end > 1 ==> bubble(xs, order, end, swaps) == ({
            let (o2, s2, m) = bubble_pass(xs, order, 0, end, swaps, false);
            if !m {
                s2
            } else {
                bubble(xs, o2, end - 1, s2)
            }
        }),
{
    reveal(bubble);
}

/// The crossings the bubble sort of the edges by `xs` records, in order.
pub open spec fn bubble_crossings(xs: Seq<i64>) -> Seq<(usize, usize)> {
    bubble(xs, Seq::new(xs.len(), |i: int| i), xs.len() as int, Seq::empty())
}

/// Edge `a` immediately precedes edge `b` in `order`.
pub open spec fn adjacent_in(order: Seq<int>, a: int, b: int) -> bool {
    exists|i: int| 0 <= i < order.len() - 1 && order[i] == a && #[trigger] order[i + 1] == b
}

/// The positions `xs` do not decrease along `order`.
pub open spec fn sorted_by(xs: Seq<i64>, order: Seq<int>) -> bool {
    forall|i: int, j: int| 0 <= i < j < order.len() ==> xs[order[i]] <= xs[order[j]]
}

/// `order` lists each of `0..n` once.
pub open spec fn is_permutation(order: Seq<int>, n: int) -> bool {
    &&& order.len() == n
    &&& forall|i: int| 0 <= i < n ==> 0 <= #[trigger] order[i] < n
    &&& forall|i: int, j: int| 0 <= i < j < n ==> order[i] != order[j]
}

/// The pair of edges `a`, `b` (left one first) is among the crossings `r`.
pub open spec fn recorded(r: Seq<(usize, usize)>, a: int, b: int) -> bool {
    exists|k: int| 0 <= k < r.len() && #[trigger] r[k] == (a as usize, b as usize)
}

/// Each pair of edges crosses at most once in `r`.
pub open spec fn no_repeats(r: Seq<(usize, usize)>) -> bool {
    forall|k1: int, k2: int| 0 <= k1 < k2 < r.len() ==> r[k1] != r[k2]
}

/// `pos` gives the place of each edge in `ord`.
spec fn places(ord: Seq<int>, pos: Seq<int>, n: int) -> bool {
    &&& pos.len() == n
    &&& forall|i: int| 0 <= i < n ==> #[trigger] pos[ord[i]] == i
    &&& forall|v: int| 0 <= v < n ==> 0 <= #[trigger] pos[v] < n && ord[pos[v]] == v
}

/// Two edges stand against their first order only when they are out of
/// x order.
spec fn only_inversions_turned(xs: Seq<i64>, ord: Seq<int>) -> bool {
    forall|i: int, j: int|
        0 <= i < j < ord.len() && ord[i] > ord[j] ==> xs[ord[i]] < xs[ord[j]]
}

/// The crossings recorded are the pairs out of x order whose order has
/// been turned round.
spec fn turned_recorded(xs: Seq<i64>, pos: Seq<int>, r: Seq<(usize, usize)>, n: int) -> bool {
    forall|a: int, b: int|
        0 <= a < n && 0 <= b < n ==> (#[trigger] recorded(r, a, b) <==> (a < b && xs[a] > xs[b]
            && pos[b] < pos[a]))
}

/// Exchanging the neighbours at places `i` and `i + 1`, out of x order, and
/// recording the pair keeps the crossings recorded exactly the pairs
/// turned round, each once.
#[verifier::spinoff_prover]
#[verifier::rlimit(60)]
proof fn lemma_exchange_recorded(
    xs: Seq<i64>,
    ord: Seq<int>,
    pos: Seq<int>,
    r: Seq<(usize, usize)>,
    n: int,
    i: int,
)
    requires
        xs.len() == n,
        n <= usize::MAX,
        is_permutation(ord, n),
        places(ord, pos, n),
        only_inversions_turned(xs, ord),
        turned_recorded(xs, pos, r, n),
        no_repeats(r),
        0 <= i < n - 1,
        xs[ord[i]] > xs[ord[i + 1]],
    ensures
        ord[i] < ord[i + 1],
        places(
            ord.update(i, ord[i + 1]).update(i + 1, ord[i]),
            pos.update(ord[i], i + 1).update(ord[i + 1], i),
            n,
        ),
        only_inversions_turned(xs, ord.update(i, ord[i + 1]).update(i + 1, ord[i])),
        turned_recorded(
            xs,
            pos.update(ord[i], i + 1).update(ord[i + 1], i),
            r.push((ord[i] as usize, ord[i + 1] as usize)),
            n,
        ),
        no_repeats(r.push((ord[i] as usize, ord[i + 1] as usize))),
{
    let e = ord[i];
    let en = ord[i + 1];
    let o2 = ord.update(i, en).update(i + 1, e);
    let p2 = pos.update(e, i + 1).update(en, i);
    let r2 = r.push((e as usize, en as usize));
    assert(e != en);
    assert(e < en) by {
        if e > en {
            assert(xs[ord[i]] < xs[ord[i + 1]]);
        }
    }
    assert(pos[e] == i && pos[en] == i + 1);
    assert forall|k: int| 0 <= k < n implies #[trigger] p2[o2[k]] == k by {
        if k == i {
        } else if k == i + 1 {
        } else {
            assert(o2[k] == ord[k]);
            assert(pos[ord[k]] == k);
        }
    }
    assert forall|v: int| 0 <= v < n implies 0 <= #[trigger] p2[v] < n && o2[p2[v]] == v by {
        if v == e {
        } else if v == en {
        } else {
            assert(ord[pos[v]] == v);
            assert(pos[v] != i && pos[v] != i + 1);
        }
    }
    assert forall|a: int, b: int| 0 <= a < b < n && o2[a] > o2[b] implies xs[o2[a]] < xs[o2[b]] by {
        let a0 = if a == i {
            i + 1
        } else if a == i + 1 {
            i
        } else {
            a
        };
        let b0 = if b == i {
            i + 1
        } else if b == i + 1 {
            i
        } else {
            b
        };
        assert(o2[a] == ord[a0] && o2[b] == ord[b0]);
        if a == i && b == i + 1 {
        } else {
            assert(a0 < b0);
        }
    }
    assert(!recorded(r, e, en));
    assert forall|a: int, b: int| 0 <= a < n && 0 <= b < n implies (#[trigger] recorded(r2, a, b) <==> (
    a < b && xs[a] > xs[b] && p2[b] < p2[a])) by {
        if a == e && b == en {
            assert(r2[r.len() as int] == (a as usize, b as usize));
        } else {
            assert(recorded(r2, a, b) == recorded(r, a, b)) by {
                if recorded(r2, a, b) {
                    let k = choose|k: int| 0 <= k < r2.len() && #[trigger] r2[k] == (a as usize, b as usize);
                    if k == r.len() {
                        assert(a as usize == e as usize && b as usize == en as usize);
                    } else {
                        assert(r[k] == r2[k]);
                    }
                }
                if recorded(r, a, b) {
                    let k = choose|k: int| 0 <= k < r.len() && #[trigger] r[k] == (a as usize, b as usize);
                    assert(r2[k] == r[k]);
                }
            }
            assert(a == b || (p2[b] < p2[a]) == (pos[b] < pos[a]) || (a == en && b == e)) by {
                if a == b {
                } else if a != e && a != en && b != e && b != en {
                } else if a == e && b != en {
                    assert(pos[b] != i && pos[b] != i + 1) by {
                        if pos[b] == i {
                            assert(ord[pos[b]] == b);
                        }
                        if pos[b] == i + 1 {
                            assert(ord[pos[b]] == b);
                        }
                    }
                } else if a == en && b != e {
                    assert(pos[b] != i && pos[b] != i + 1) by {
                        if pos[b] == i {
                            assert(ord[pos[b]] == b);
                        }
                        if pos[b] == i + 1 {
                            assert(ord[pos[b]] == b);
                        }
                    }
                } else if b == e && a != en {
                    assert(pos[a] != i && pos[a] != i + 1) by {
                        if pos[a] == i {
                            assert(ord[pos[a]] == a);
                        }
                        if pos[a] == i + 1 {
                            assert(ord[pos[a]] == a);
                        }
                    }
                } else if b == en && a != e {
                    assert(pos[a] != i && pos[a] != i + 1) by {
                        if pos[a] == i {
                            assert(ord[pos[a]] == a);
                        }
                        if pos[a] == i + 1 {
                            assert(ord[pos[a]] == a);
                        }
                    }
                }
            }
        }
    }
    assert forall|k1: int, k2: int| 0 <= k1 < k2 < r2.len() implies r2[k1] != r2[k2] by {
        if k2 == r.len() {
            if r2[k1] == r2[k2] {
                assert(r[k1] == (e as usize, en as usize));
                assert(recorded(r, e, en));
            }
        } else {
            assert(r2[k1] == r[k1] && r2[k2] == r[k2]);
        }
    }
}

proof fn lemma_swap_adjacent(order: Seq<int>, n: int, i: int)
    requires
        is_permutation(order, n),
        0 <= i < n - 1,
    ensures
        swap_entries(order, order[i], order[i + 1]) == order.update(i, order[i + 1]).update(
            i + 1,
            order[i],
        ),
        is_permutation(order.update(i, order[i + 1]).update(i + 1, order[i]), n),
{
    let t = order.update(i, order[i + 1]).update(i + 1, order[i]);
    assert(swap_entries(order, order[i], order[i + 1]) =~= t);
    assert forall|a: int, b: int| 0 <= a < b < n implies t[a] != t[b] by {
        if a != i && a != i + 1 && b != i && b != i + 1 {
            assert(order[a] != order[b]);
        } else if a == i && b == i + 1 {
            assert(order[i] != order[i + 1]);
        } else if a == i {
            assert(order[i + 1] != order[b]);
        } else if a == i + 1 {
            assert(order[i] != order[b]);
        } else if b == i {
            assert(order[a] != order[i + 1]);
        } else {
            assert(order[a] != order[i]);
        }
    }
}

/// The crossings of the edges whose current x positions, in list order,
/// are `xs`: a bubble sort of the list by x, each exchange of a pair of
/// neighbours out of order recorded as the pair's starting positions (the
/// left one first), in the order the sort makes them (`bubble_crossings`:
/// passes over ever shorter fronts, each from the left, until a pass
/// exchanges nothing). Applied in turn, the exchanges leave the list ordered
/// by x; every pair of edges out of x order crosses, once, and no other
/// pair does.
#[verifier::spinoff_prover]
#[verifier::rlimit(100)]
pub fn crossing_order(xs: &Vec<i64>) -> (r: Vec<(usize, usize)>)
    ensures
        r@ == bubble_crossings(xs@),
        forall|k: int|
            0 <= k < r@.len() ==> {
                let (a, b) = #[trigger] r@[k];
                &&& a < xs@.len()
                &&& b < xs@.len()
                &&& xs@[a as int] > xs@[b as int]
                &&& adjacent_in(order_after(xs@.len(), r@, k as nat), a as int, b as int)
            },
        sorted_by(xs@, order_after(xs@.len(), r@, r@.len())),
        no_repeats(r@),
        forall|a: int, b: int|
            0 <= a < xs@.len() && 0 <= b < xs@.len() ==> (#[trigger] recorded(r@, a, b) <==> (a < b
                && xs@[a] > xs@[b])),
{
    let n = xs.len();
    let mut order: Vec<usize> = Vec::new();
    let mut t: usize = 0;
    while t < n
        invariant
            t <= n,
            n == xs@.len(),
            order@.len() == t,
            forall|i: int| 0 <= i < t ==> order@[i] == i,
        decreases n - t,
    {
        order.push(t);
        t += 1;
    }
    let mut r: Vec<(usize, usize)> = Vec::new();
    let ghost ord = order@.map_values(|v: usize| v as int);
    assert(ord =~= order_after(n as nat, r@, 0));
    let ghost mut pos: Seq<int> = Seq::new(n as nat, |i: int| i);
    proof {
        assert(places(ord, pos, n as int));
        assert(turned_recorded(xs@, pos, r@, n as int));
    }
    let mut unsorted_end = n;
    assert(ord =~= Seq::new(xs@.len(), |i: int| i));
    proof {
        lemma_bubble_step(xs@, ord, unsorted_end as int, r@);
    }
    while unsorted_end > 1
        invariant_except_break
            bubble(xs@, ord, unsorted_end as int, r@) == bubble_crossings(xs@),
            unsorted_end <= 1 ==> r@ == bubble_crossings(xs@),
        invariant
            n == xs@.len(),
            unsorted_end <= n,
            order@.len() == n,
            ord == order@.map_values(|v: usize| v as int),
            ord == order_after(n as nat, r@, r@.len()),
            is_permutation(ord, n as int),
            places(ord, pos, n as int),
            only_inversions_turned(xs@, ord),
            turned_recorded(xs@, pos, r@, n as int),
            no_repeats(r@),
            // the tail is in order and above everything before it
            forall|i: int, j: int|
                unsorted_end <= i < j < n ==> xs@[ord[i]] <= xs@[ord[j]],
            forall|i: int, j: int|
                0 <= i < unsorted_end <= j < n ==> xs@[ord[i]] <= xs@[ord[j]],
            forall|k: int|
                0 <= k < r@.len() ==> {
                    let (a, b) = #[trigger] r@[k];
                    &&& a < n
                    &&& b < n
                    &&& xs@[a as int] > xs@[b as int]
                    &&& adjacent_in(order_after(n as nat, r@, k as nat), a as int, b as int)
                },
        ensures
            r@ == bubble_crossings(xs@),
            sorted_by(xs@, ord),
            places(ord, pos, n as int),
            turned_recorded(xs@, pos, r@, n as int),
            no_repeats(r@),
            forall|k: int|
                0 <= k < r@.len() ==> {
                    let (a, b) = #[trigger] r@[k];
                    &&& a < n
                    &&& b < n
                    &&& xs@[a as int] > xs@[b as int]
                    &&& adjacent_in(order_after(n as nat, r@, k as nat), a as int, b as int)
                },
            ord == order_after(n as nat, r@, r@.len()),
        decreases unsorted_end,
    {
        let mut modified = false;
        let mut i: usize = 0;
        let ghost ord0 = ord;
        let ghost r0 = r@;
        while i + 1 < unsorted_end
            invariant
                bubble_pass(xs@, ord, i as int, unsorted_end as int, r@, modified) == bubble_pass(
                    xs@,
                    ord0,
                    0,
                    unsorted_end as int,
                    r0,
                    false,
                ),
                n == xs@.len(),
                2 <= unsorted_end <= n,
                i + 1 <= unsorted_end,
                order@.len() == n,
                ord == order@.map_values(|v: usize| v as int),
                ord == order_after(n as nat, r@, r@.len()),
                is_permutation(ord, n as int),
                places(ord, pos, n as int),
                only_inversions_turned(xs@, ord),
                turned_recorded(xs@, pos, r@, n as int),
                no_repeats(r@),
                forall|a: int, b: int|
                    unsorted_end <= a < b < n ==> xs@[ord[a]] <= xs@[ord[b]],
                forall|a: int, b: int|
                    0 <= a < unsorted_end <= b < n ==> xs@[ord[a]] <= xs@[ord[b]],
                // the largest of the first i+1 entries sits at i
                forall|a: int| 0 <= a <= i ==> xs@[ord[a]] <= xs@[ord[i as int]],
                !modified ==> forall|a: int, b: int| 0 <= a < b <= i ==> xs@[ord[a]] <= xs@[ord[b]],
                forall|k: int|
                    0 <= k < r@.len() ==> {
                        let (a, b) = #[trigger] r@[k];
                        &&& a < n
                        &&& b < n
                        &&& xs@[a as int] > xs@[b as int]
                        &&& adjacent_in(order_after(n as nat, r@, k as nat), a as int, b as int)
                    },
            decreases unsorted_end - i,
        {
            let e = order[i];
            let en = order[i + 1];
            assert(ord[i as int] == e as int);
            assert(ord[i as int + 1] == en as int);
            proof {
                lemma_pass_step(xs@, ord, i as int, unsorted_end as int, r@, modified);
            }
            if xs[e] > xs[en] {
                proof {
                    lemma_swap_adjacent(ord, n as int, i as int);
                    assert(adjacent_in(ord, e as int, en as int)) by {
                        assert(ord[i as int + 1] == en);
                    }
                    lemma_exchange_recorded(xs@, ord, pos, r@, n as int, i as int);
                    pos = pos.update(e as int, i + 1).update(en as int, i as int);
                }
                let ghost old_r = r@;
                let ghost old_ord = ord;
                r.push((e, en));
                order.set(i, en);
                order.set(i + 1, e);
                proof {
                    ord = order@.map_values(|v: usize| v as int);
                    assert(ord =~= old_ord.update(i as int, old_ord[i as int + 1]).update(
                        i as int + 1,
                        old_ord[i as int],
                    ));
                    assert(order_after(n as nat, r@, (r@.len() - 1) as nat) == old_ord) by {
                        assert(r@.subrange(0, old_r.len() as int) =~= old_r);
                        lemma_order_after_prefix(n as nat, old_r, r@, old_r.len() as nat);
                    }
                    assert forall|k: int| 0 <= k < r@.len() implies {
                        let (a, b) = #[trigger] r@[k];
                        &&& a < n
                        &&& b < n
                        &&& xs@[a as int] > xs@[b as int]
                        &&& adjacent_in(order_after(n as nat, r@, k as nat), a as int, b as int)
                    } by {
                        if k < old_r.len() {
                            assert(r@[k] == old_r[k]);
                            lemma_order_after_prefix(n as nat, old_r, r@, k as nat);
                        }
                    }
                }
                modified = true;
            }
            i += 1;
        }
        assert(bubble(xs@, ord0, unsorted_end as int, r0) == if !modified {
            r@
        } else {
            bubble(xs@, ord, unsorted_end - 1, r@)
        }) by {
            lemma_pass_step(xs@, ord, i as int, unsorted_end as int, r@, modified);
            lemma_bubble_step(xs@, ord0, unsorted_end as int, r0);
        }
        if !modified {
            proof {
                assert forall|a: int, b: int| 0 <= a < b < n implies xs@[ord[a]] <= xs@[ord[b]] by {
                    if b < unsorted_end {
                    } else if a >= unsorted_end {
                    } else {
                    }
                }
            }
            break;
        }
        unsorted_end -= 1;
        assert(unsorted_end <= 1 ==> bubble(xs@, ord, unsorted_end as int, r@) == r@) by {
            lemma_bubble_step(xs@, ord, unsorted_end as int, r@);
        }
    }
    proof {
        if unsorted_end <= 1 {
            lemma_bubble_step(xs@, ord, unsorted_end as int, r@);
            assert forall|a: int, b: int| 0 <= a < b < n implies xs@[ord[a]] <= xs@[ord[b]] by {
                if a >= unsorted_end {
                } else {
                }
            }
        }
        assert forall|a: int, b: int| 0 <= a < n && 0 <= b < n implies (#[trigger] recorded(r@, a, b)
            <==> (a < b && xs@[a] > xs@[b])) by {
            if a < b && xs@[a] > xs@[b] {
                assert(pos[b] < pos[a]) by {
                    assert(ord[pos[a]] == a && ord[pos[b]] == b);
                    if pos[a] < pos[b] {
                        assert(xs@[ord[pos[a]]] <= xs@[ord[pos[b]]]);
                    }
                }
            }
        }
    }
    r
}

/// The order after `k` crossings depends on the first `k` crossings only.
proof fn lemma_order_after_prefix(
    n: nat,
    short: Seq<(usize, usize)>,
    long: Seq<(usize, usize)>,
    k: nat,
)
    requires
        k <= short.len() <= long.len(),
        forall|i: int| 0 <= i < short.len() ==> short[i] == long[i],
    ensures
        order_after(n, short, k) == order_after(n, long, k),
    decreases k,
{
    if k > 0 {
        lemma_order_after_prefix(n, short, long, (k - 1) as nat);
    }
}
/// Edges `a` and `b` stand next to each other when the edge at place `i`
/// of the list stands at `pos[i]`.
pub open spec fn side_by_side(pos: Seq<int>, a: int, b: int) -> bool {
    pos[a] + 1 == pos[b] || pos[b] + 1 == pos[a]
}

/// The first of the crossings `nodes[j..]` whose two edges stand side by
/// side, or `nodes.len()` when none does.
pub open spec fn first_side_by_side(nodes: Seq<(usize, usize, usize)>, pos: Seq<int>, j: int) -> int
    decreases nodes.len() - j,
{
    if j >= nodes.len() {
        nodes.len() as int
    } else if side_by_side(pos, nodes[j].0 as int, nodes[j].1 as int) {
        j
    } else {
        first_side_by_side(nodes, pos, j + 1)
    }
}

/// The crossings `nodes` reordered from `i` on so that each exchanges two
/// edges side by side when its turn comes: the first later crossing that
/// does is brought forward when the one at `i` does not, and the edges of
/// the crossing at `i` then change places; `None` when at some turn no
/// remaining crossing's edges stand side by side.
pub open spec fn side_by_side_order(nodes: Seq<(usize, usize, usize)>, pos: Seq<int>, i: int) -> Option<
    Seq<(usize, usize, usize)>,
>
    decreases nodes.len() - i,
{
    if i < 0 || i >= nodes.len() {
        Some(nodes)
    } else {
        let k = first_side_by_side(nodes, pos, i);
        if k < i || k >= nodes.len() {
            None
        } else {
            let nodes2 = if k == i {
                nodes
            } else {
                nodes.update(i, nodes[k]).update(k, nodes[i])
            };
            let a = nodes2[i].0 as int;
            let b = nodes2[i].1 as int;
            side_by_side_order(nodes2, pos.update(a, pos[b]).update(b, pos[a]), i + 1)
        }
    }
}

/// Each of `n` edges at its own place.
pub open spec fn in_place(n: nat) -> Seq<int> {
    Seq::new(n, |i: int| i)
}

/// Reorders the crossings `nodes`, each two edges by their places among
/// the `n` active edges and a tag carried along, so that each exchanges
/// two neighbours when its turn comes (see `side_by_side_order`, from the
/// active edges in place). `false` when that cannot be done.
pub fn fixup_intersection_order(nodes: &mut Vec<(usize, usize, usize)>, n: usize) -> (ok: bool)
    requires
        forall|k: int| 0 <= k < old(nodes)@.len() ==> (#[trigger] old(nodes)@[k]).0 < n && old(nodes)@[k].1 < n,
    ensures
        ok <==> side_by_side_order(old(nodes)@, in_place(n as nat), 0) is Some,
        ok ==> side_by_side_order(old(nodes)@, in_place(n as nat), 0) == Some(final(nodes)@),
{
    let mut pos: Vec<usize> = Vec::new();
    let mut t: usize = 0;
    while t < n
        invariant
            t <= n,
            pos@.len() == t,
            forall|k: int| 0 <= k < t ==> pos@[k] == k,
        decreases n - t,
    {
        pos.push(t);
        t += 1;
    }
    let ghost pos0 = in_place(n as nat);
    assert(pos@.map_values(|v: usize| v as int) =~= pos0);
    let cnt = nodes.len();
    let mut i: usize = 0;
    while i < cnt
        invariant
            cnt == nodes@.len(),
            i <= cnt,
            pos@.len() == n,
            pos0 == in_place(n as nat),
            forall|k: int| 0 <= k < n ==> #[trigger] pos@[k] < n,
            forall|k: int| 0 <= k < nodes@.len() ==> (#[trigger] nodes@[k]).0 < n && nodes@[k].1 < n,
            side_by_side_order(old(nodes)@, pos0, 0) == side_by_side_order(
                nodes@,
                pos@.map_values(|v: usize| v as int),
                i as int,
            ),
        decreases cnt - i,
    {
        let ghost pv = pos@.map_values(|v: usize| v as int);
        let ghost nd = nodes@;
        let mut j = i;
        while j < cnt && !(pos[nodes[j].0] + 1 == pos[nodes[j].1] || pos[nodes[j].1] + 1 == pos[
            nodes[j].0
        ])
            invariant
                cnt == nodes@.len(),
                nodes@ == nd,
                pv == pos@.map_values(|v: usize| v as int),
                pos@.len() == n,
                forall|k: int| 0 <= k < n ==> #[trigger] pos@[k] < n,
                i <= j <= cnt,
                forall|k: int| 0 <= k < nodes@.len() ==> (#[trigger] nodes@[k]).0 < n && nodes@[k].1 < n,
                first_side_by_side(nd, pv, i as int) == first_side_by_side(nd, pv, j as int),
            decreases cnt - j,
        {
            assert(pos[nodes@[j as int].0 as int] as int == pv[nodes@[j as int].0 as int]);
            assert(pos[nodes@[j as int].1 as int] as int == pv[nodes@[j as int].1 as int]);
            j += 1;
        }
        if j == cnt {
            proof {
                assert(first_side_by_side(nd, pv, cnt as int) == cnt);
                assert(side_by_side_order(nd, pv, i as int) is None);
            }
            return false;
        }
        assert(pos[nodes@[j as int].0 as int] as int == pv[nodes@[j as int].0 as int]);
        assert(pos[nodes@[j as int].1 as int] as int == pv[nodes@[j as int].1 as int]);
        if j != i {
            let a = nodes[i];
            let b = nodes[j];
            nodes.set(i, b);
            nodes.set(j, a);
        }
        let (ea, eb, _) = nodes[i];
        let pa = pos[ea];
        let pb = pos[eb];
        pos.set(ea, pb);
        pos.set(eb, pa);
        proof {
            assert(pos@.map_values(|v: usize| v as int) =~= pv.update(ea as int, pv[eb as int]).update(
                eb as int,
                pv[ea as int],
            ));
        }
        i += 1;
    }
    true
}

} // verus!
