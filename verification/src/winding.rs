//! Fill rules and winding numbers: which edges of the sweep bound the result
//! of a boolean operation.
use vstd::prelude::*;

use crate::types::{ClipType, PolyFillType, PolyType};

verus! {

/// The fill rule of the polygon set an edge belongs to.
pub open spec fn own_fill(
    poly_type: PolyType,
    subj_fill_type: PolyFillType,
    clip_fill_type: PolyFillType,
) -> PolyFillType {
    if poly_type == PolyType::Subject {
        subj_fill_type
    } else {
        clip_fill_type
    }
}

/// The fill rule of the other polygon set.
pub open spec fn other_fill(
    poly_type: PolyType,
    subj_fill_type: PolyFillType,
    clip_fill_type: PolyFillType,
) -> PolyFillType {
    if poly_type == PolyType::Subject {
        clip_fill_type
    } else {
        subj_fill_type
    }
}

/// The edge lies on the boundary of its own polygon set's filled region:
/// `wind_cnt` is the winding number just inside it. Open paths
/// (`wind_delta == 0`) under even-odd only count where `wind_cnt` is 1.
pub open spec fn on_own_boundary(pft: PolyFillType, wind_delta: int, wind_cnt: int) -> bool {
    match pft {
        PolyFillType::EvenOdd => !(wind_delta == 0 && wind_cnt != 1),
        PolyFillType::NonZero => wind_cnt == 1 || wind_cnt == -1,
        PolyFillType::Positive => wind_cnt == 1,
        PolyFillType::Negative => wind_cnt == -1,
    }
}

/// A winding number `w` of the other polygon set counts as inside it.
pub open spec fn inside_other(pft: PolyFillType, w: int) -> bool {
    match pft {
        PolyFillType::EvenOdd | PolyFillType::NonZero => w != 0,
        PolyFillType::Positive => w > 0,
        PolyFillType::Negative => w < 0,
    }
}

/// An edge of polygon set `poly_type` bounds the result of `clip_type`:
/// it bounds its own set, and lies inside the other set for an
/// intersection, outside it for a union, outside the clip set for a subject
/// edge and inside the subject set for a clip edge of a difference; for a
/// xor every closed boundary edge counts and open edges count outside the
/// other set.
pub open spec fn contributes(
    clip_type: ClipType,
    subj_fill_type: PolyFillType,
    clip_fill_type: PolyFillType,
    poly_type: PolyType,
    wind_delta: int,
    wind_cnt: int,
    wind_cnt2: int,
) -> bool {
    let pft = own_fill(poly_type, subj_fill_type, clip_fill_type);
    let pft2 = other_fill(poly_type, subj_fill_type, clip_fill_type);
    let inside2 = inside_other(pft2, wind_cnt2);
    on_own_boundary(pft, wind_delta, wind_cnt) && match clip_type {
        ClipType::Intersection => inside2,
        ClipType::Union => !inside2,
        ClipType::Difference => if poly_type == PolyType::Subject {
            !inside2
        } else {
            inside2
        },
        ClipType::Xor => wind_delta != 0 || !inside2,
    }
}

/// Under the even-odd and non-zero rules a set's inside does not depend on
/// the sign of its winding number: negating the other set's winding number
/// never changes whether an edge bounds the result.
pub proof fn lemma_other_winding_sign_free(
    clip_type: ClipType,
    subj_fill_type: PolyFillType,
    clip_fill_type: PolyFillType,
    poly_type: PolyType,
    wind_delta: int,
    wind_cnt: int,
    wind_cnt2: int,
)
    requires
        other_fill(poly_type, subj_fill_type, clip_fill_type) == PolyFillType::EvenOdd
            || other_fill(poly_type, subj_fill_type, clip_fill_type) == PolyFillType::NonZero,
    ensures
        contributes(clip_type, subj_fill_type, clip_fill_type, poly_type, wind_delta, wind_cnt, wind_cnt2)
            == contributes(
            clip_type,
            subj_fill_type,
            clip_fill_type,
            poly_type,
            wind_delta,
            wind_cnt,
            -wind_cnt2,
        ),
{
}

/// Where the other set's winding number is zero the edge lies outside the
/// other set, whatever its fill rule: it never bounds an intersection.
pub proof fn lemma_outside_other_not_intersection(
    subj_fill_type: PolyFillType,
    clip_fill_type: PolyFillType,
    poly_type: PolyType,
    wind_delta: int,
    wind_cnt: int,
)
    ensures
        !contributes(ClipType::Intersection, subj_fill_type, clip_fill_type, poly_type, wind_delta, wind_cnt, 0),
{
}

/// A closed edge of its own set's boundary bounds exactly one of the
/// intersection and the union (it lies either inside or outside the other
/// set), and bounds the xor whenever it bounds either.
pub proof fn lemma_intersection_union_split(
    subj_fill_type: PolyFillType,
    clip_fill_type: PolyFillType,
    poly_type: PolyType,
    wind_delta: int,
    wind_cnt: int,
    wind_cnt2: int,
)
    requires
        wind_delta != 0,
    ensures
        !(contributes(ClipType::Intersection, subj_fill_type, clip_fill_type, poly_type, wind_delta, wind_cnt, wind_cnt2)
            && contributes(ClipType::Union, subj_fill_type, clip_fill_type, poly_type, wind_delta, wind_cnt, wind_cnt2)),
        (contributes(ClipType::Intersection, subj_fill_type, clip_fill_type, poly_type, wind_delta, wind_cnt, wind_cnt2)
            || contributes(ClipType::Union, subj_fill_type, clip_fill_type, poly_type, wind_delta, wind_cnt, wind_cnt2))
            == contributes(ClipType::Xor, subj_fill_type, clip_fill_type, poly_type, wind_delta, wind_cnt, wind_cnt2),
{
}

/// The difference keeps the subject edges the union keeps (those outside
/// the clip set) and the clip edges the intersection keeps (those inside
/// the subject set).
pub proof fn lemma_difference_from_union_and_intersection(
    subj_fill_type: PolyFillType,
    clip_fill_type: PolyFillType,
    poly_type: PolyType,
    wind_delta: int,
    wind_cnt: int,
    wind_cnt2: int,
)
    ensures
        contributes(ClipType::Difference, subj_fill_type, clip_fill_type, poly_type, wind_delta, wind_cnt, wind_cnt2)
            == if poly_type == PolyType::Subject {
            contributes(ClipType::Union, subj_fill_type, clip_fill_type, poly_type, wind_delta, wind_cnt, wind_cnt2)
        } else {
            contributes(ClipType::Intersection, subj_fill_type, clip_fill_type, poly_type, wind_delta, wind_cnt, wind_cnt2)
        },
{
}

/// Under the non-zero rule an edge's own set is bounded at winding number
/// 1 or -1 alike: negating its own winding number never changes whether it
/// bounds the result.
pub proof fn lemma_own_winding_sign_free(
    clip_type: ClipType,
    subj_fill_type: PolyFillType,
    clip_fill_type: PolyFillType,
    poly_type: PolyType,
    wind_delta: int,
    wind_cnt: int,
    wind_cnt2: int,
)
    requires
        own_fill(poly_type, subj_fill_type, clip_fill_type) == PolyFillType::NonZero,
    ensures
        contributes(clip_type, subj_fill_type, clip_fill_type, poly_type, wind_delta, wind_cnt, wind_cnt2)
            == contributes(
            clip_type,
            subj_fill_type,
            clip_fill_type,
            poly_type,
            wind_delta,
            -wind_cnt,
            wind_cnt2,
        ),
{
}

/// The positive and negative fill rules mirror each other: swapping them
/// for the other set and negating its winding number never changes
/// whether an edge bounds the result.
pub proof fn lemma_positive_negative_mirror(
    clip_type: ClipType,
    own: PolyFillType,
    poly_type: PolyType,
    wind_delta: int,
    wind_cnt: int,
    wind_cnt2: int,
)
    ensures
        (if poly_type == PolyType::Subject {
            contributes(clip_type, own, PolyFillType::Positive, poly_type, wind_delta, wind_cnt, wind_cnt2)
                == contributes(clip_type, own, PolyFillType::Negative, poly_type, wind_delta, wind_cnt, -wind_cnt2)
        } else {
            contributes(clip_type, PolyFillType::Positive, own, poly_type, wind_delta, wind_cnt, wind_cnt2)
                == contributes(clip_type, PolyFillType::Negative, own, poly_type, wind_delta, wind_cnt, -wind_cnt2)
        }),
{
}

/// A closed edge with its own set on one side at winding number 1 (any own
/// rule but the negative one) bounds the intersection and not the union
/// where the other set winds once the same way (any other rule but the
/// negative one), and bounds the union and not the intersection where the
/// other set does not wind at all.
pub proof fn lemma_contributes_inside_and_outside(
    subj_fill_type: PolyFillType,
    clip_fill_type: PolyFillType,
    poly_type: PolyType,
    wind_delta: int,
)
    requires
        wind_delta != 0,
        own_fill(poly_type, subj_fill_type, clip_fill_type) != PolyFillType::Negative,
    ensures
        other_fill(poly_type, subj_fill_type, clip_fill_type) != PolyFillType::Negative ==> (
        contributes(ClipType::Intersection, subj_fill_type, clip_fill_type, poly_type, wind_delta, 1, 1)
            && !contributes(ClipType::Union, subj_fill_type, clip_fill_type, poly_type, wind_delta, 1, 1)),
        contributes(ClipType::Union, subj_fill_type, clip_fill_type, poly_type, wind_delta, 1, 0)
            && !contributes(ClipType::Intersection, subj_fill_type, clip_fill_type, poly_type, wind_delta, 1, 0),
{
}

/// Decides whether an edge contributes to the output (see `contributes`).
pub fn is_contributing(
    clip_type: ClipType,
    subj_fill_type: PolyFillType,
    clip_fill_type: PolyFillType,
    poly_type: PolyType,
    wind_delta: i32,
    wind_cnt: i32,
    wind_cnt2: i32,
) -> (r: bool)
    ensures
        r == contributes(
            clip_type,
            subj_fill_type,
            clip_fill_type,
            poly_type,
            wind_delta as int,
            wind_cnt as int,
            wind_cnt2 as int,
        ),
{
    let (pft, pft2) = if poly_type == PolyType::Subject {
        (subj_fill_type, clip_fill_type)
    } else {
        (clip_fill_type, subj_fill_type)
    };
    match pft {
        PolyFillType::EvenOdd => {
            if wind_delta == 0 && wind_cnt != 1 {
                return false;
            }
        },
        PolyFillType::NonZero => {
            if wind_cnt != 1 && wind_cnt != -1 {
                return false;
            }
        },
        PolyFillType::Positive => {
            if wind_cnt != 1 {
                return false;
            }
        },
        PolyFillType::Negative => {
            if wind_cnt != -1 {
                return false;
            }
        },
    }
    match clip_type {
        ClipType::Intersection => match pft2 {
            PolyFillType::EvenOdd | PolyFillType::NonZero => wind_cnt2 != 0,
            PolyFillType::Positive => wind_cnt2 > 0,
            PolyFillType::Negative => wind_cnt2 < 0,
        },
        ClipType::Union => match pft2 {
            PolyFillType::EvenOdd | PolyFillType::NonZero => wind_cnt2 == 0,
            PolyFillType::Positive => wind_cnt2 <= 0,
            PolyFillType::Negative => wind_cnt2 >= 0,
        },
        ClipType::Difference => {
            if poly_type == PolyType::Subject {
                match pft2 {
                    PolyFillType::EvenOdd | PolyFillType::NonZero => wind_cnt2 == 0,
                    PolyFillType::Positive => wind_cnt2 <= 0,
                    PolyFillType::Negative => wind_cnt2 >= 0,
                }
            } else {
                match pft2 {
                    PolyFillType::EvenOdd | PolyFillType::NonZero => wind_cnt2 != 0,
                    PolyFillType::Positive => wind_cnt2 > 0,
                    PolyFillType::Negative => wind_cnt2 < 0,
                }
            }
        },
        ClipType::Xor => {
            if wind_delta == 0 {
                match pft2 {
                    PolyFillType::EvenOdd | PolyFillType::NonZero => wind_cnt2 == 0,
                    PolyFillType::Positive => wind_cnt2 <= 0,
                    PolyFillType::Negative => wind_cnt2 >= 0,
                }
            } else {
                true
            }
        },
    }
}

/// The edge's polygon set is filled even-odd.
pub fn is_even_odd_fill_type(
    poly_type: PolyType,
    subj_fill_type: PolyFillType,
    clip_fill_type: PolyFillType,
) -> (r: bool)
    ensures
        r == (own_fill(poly_type, subj_fill_type, clip_fill_type) == PolyFillType::EvenOdd),
{
    if poly_type == PolyType::Subject {
        subj_fill_type == PolyFillType::EvenOdd
    } else {
        clip_fill_type == PolyFillType::EvenOdd
    }
}

/// The other polygon set is filled even-odd.
pub fn is_even_odd_alt_fill_type(
    poly_type: PolyType,
    subj_fill_type: PolyFillType,
    clip_fill_type: PolyFillType,
) -> (r: bool)
    ensures
        r == (other_fill(poly_type, subj_fill_type, clip_fill_type) == PolyFillType::EvenOdd),
{
    if poly_type == PolyType::Subject {
        clip_fill_type == PolyFillType::EvenOdd
    } else {
        subj_fill_type == PolyFillType::EvenOdd
    }
}

/// The winding count seen through a fill rule: itself for positive, negated
/// for negative, its magnitude otherwise.
pub open spec fn winding_for_fill_spec(fill_type: PolyFillType, wind_cnt: int) -> int {
    match fill_type {
        PolyFillType::Positive => wind_cnt,
        PolyFillType::Negative => -wind_cnt,
        PolyFillType::EvenOdd | PolyFillType::NonZero => if wind_cnt < 0 {
            -wind_cnt
        } else {
            wind_cnt
        },
    }
}

/// See `winding_for_fill_spec`; `i32::MIN` has no negation and is excluded.
pub fn winding_count_for_fill(fill_type: PolyFillType, wind_cnt: i32) -> (r: i32)
    requires
        wind_cnt != i32::MIN,
    ensures
        r == winding_for_fill_spec(fill_type, wind_cnt as int),
{
    match fill_type {
        PolyFillType::Positive => wind_cnt,
        PolyFillType::Negative => -wind_cnt,
        PolyFillType::EvenOdd | PolyFillType::NonZero => if wind_cnt < 0 {
            -wind_cnt
        } else {
            wind_cnt
        },
    }
}


/// The winding state of an edge in the active edge list.
#[derive(Debug, Clone, Copy, PartialEq, Eq, Structural)]
pub struct EdgeWinding {
    pub poly_type: PolyType,
    /// +1 or -1 by the direction of a closed path's edge, 0 for open paths.
    pub wind_delta: i32,
    /// Winding number of the edge's own polygon set just inside the edge.
    pub wind_cnt: i32,
    /// Winding number of the other polygon set at the edge.
    pub wind_cnt2: i32,
}

/// Bound on winding values and on the number of active edges that keeps the
/// winding arithmetic within `i32`. A winding number counts edges crossed
/// from the left, so in a clipping run it stays within the number of
/// active edges; the sweep's edges take over 64 bytes each, so reaching the
/// bound would take 2^29 edges, over 32 GiB of edges alone.
pub open spec fn winding_bound() -> int {
    0x2000_0000
}

/// The active edges carry unit deltas and bounded winding numbers.
pub open spec fn windings_bounded(s: Seq<EdgeWinding>) -> bool {
    &&& s.len() <= winding_bound()
    &&& forall|i: int|
        0 <= i < s.len() ==> -1 <= #[trigger] s[i].wind_delta <= 1 && -winding_bound()
            <= s[i].wind_cnt <= winding_bound() && -winding_bound() <= s[i].wind_cnt2
            <= winding_bound()
}

/// Index of the last of the first `k` edges that belongs to `poly_type` and
/// is closed (non-zero delta), or -1.
pub open spec fn last_closed_of_type(s: Seq<EdgeWinding>, poly_type: PolyType, k: int) -> int
    decreases k,
{
    if k <= 0 {
        -1
    } else if s[k - 1].poly_type == poly_type && s[k - 1].wind_delta != 0 {
        k - 1
    } else {
        last_closed_of_type(s, poly_type, k - 1)
    }
}

/// Number of closed edges of `poly_type` among the first `k` edges.
pub open spec fn closed_of_type_count(s: Seq<EdgeWinding>, poly_type: PolyType, k: int) -> nat
    decreases k,
{
    if k <= 0 {
        0
    } else {
        closed_of_type_count(s, poly_type, k - 1) + if s[k - 1].poly_type == poly_type && s[k
            - 1].wind_delta != 0 {
            1nat
        } else {
            0nat
        }
    }
}

/// Winding count of an edge that follows the closed edge `(ewc, ewd)` of
/// the same polygon set, under a non-zero style fill rule.
pub open spec fn follow_winding(ewc: int, ewd: int, wd: int) -> int {
    if ewc * ewd < 0 {
        if ewc > 1 || ewc < -1 {
            if ewd * wd < 0 {
                ewc
            } else {
                ewc + wd
            }
        } else if wd == 0 {
            1
        } else {
            wd
        }
    } else if wd == 0 {
        if ewc < 0 {
            ewc - 1
        } else {
            ewc + 1
        }
    } else if ewd * wd < 0 {
        ewc
    } else {
        ewc + wd
    }
}

/// Winding count of a new edge of `poly_type` with delta `wd` entering the
/// active list after the edges `s`.
pub open spec fn new_wind_cnt(
    s: Seq<EdgeWinding>,
    poly_type: PolyType,
    wd: int,
    clip_type: ClipType,
    subj_fill_type: PolyFillType,
    clip_fill_type: PolyFillType,
) -> int {
    let k = last_closed_of_type(s, poly_type, s.len() as int);
    let pft = own_fill(poly_type, subj_fill_type, clip_fill_type);
    if k < 0 {
        if wd == 0 {
            if pft == PolyFillType::Negative {
                -1
            } else {
                1
            }
        } else {
            wd
        }
    } else if wd == 0 && clip_type != ClipType::Union {
        1
    } else if pft == PolyFillType::EvenOdd {
        if wd == 0 {
            if closed_of_type_count(s, s[k].poly_type, k) % 2 == 0 {
                0
            } else {
                1
            }
        } else {
            wd
        }
    } else {
        follow_winding(s[k].wind_cnt as int, s[k].wind_delta as int, wd)
    }
}

/// `base` carried across the edges `s[start..end]`: toggled between 0 and 1
/// at each closed edge when `alt_even_odd`, otherwise summed with their
/// deltas.
pub open spec fn carry_wind_cnt2(
    s: Seq<EdgeWinding>,
    alt_even_odd: bool,
    start: int,
    end: int,
    base: int,
) -> int
    decreases end - start,
{
    if end <= start {
        base
    } else {
        let w = carry_wind_cnt2(s, alt_even_odd, start, end - 1, base);
        if alt_even_odd {
            if s[end - 1].wind_delta != 0 {
                if w == 0 {
                    1
                } else {
                    0
                }
            } else {
                w
            }
        } else {
            w + s[end - 1].wind_delta
        }
    }
}

/// Other-set winding count of a new edge of `poly_type` entering the active
/// list after the edges `s`: that of the last closed edge of its own set,
/// carried across the edges that follow it.
pub open spec fn new_wind_cnt2(
    s: Seq<EdgeWinding>,
    poly_type: PolyType,
    subj_fill_type: PolyFillType,
    clip_fill_type: PolyFillType,
) -> int {
    let k = last_closed_of_type(s, poly_type, s.len() as int);
    let alt = other_fill(poly_type, subj_fill_type, clip_fill_type) == PolyFillType::EvenOdd;
    if k < 0 {
        carry_wind_cnt2(s, alt, 0, s.len() as int, 0)
    } else {
        carry_wind_cnt2(s, alt, k + 1, s.len() as int, s[k].wind_cnt2 as int)
    }
}

proof fn lemma_last_closed_range(s: Seq<EdgeWinding>, poly_type: PolyType, k: int)
    ensures
        -1 <= last_closed_of_type(s, poly_type, k) < k || (k <= 0 && last_closed_of_type(
            s,
            poly_type,
            k,
        ) == -1),
        last_closed_of_type(s, poly_type, k) >= 0 ==> s[last_closed_of_type(s, poly_type, k)].poly_type
            == poly_type && s[last_closed_of_type(s, poly_type, k)].wind_delta != 0,
    decreases k,
{
    if k > 0 {
        lemma_last_closed_range(s, poly_type, k - 1);
    }
}

proof fn lemma_carry_bound(s: Seq<EdgeWinding>, alt: bool, start: int, end: int, base: int)
    requires
        windings_bounded(s),
        0 <= start <= end <= s.len(),
    ensures
        -(winding_bound() + 1) - (end - start) <= carry_wind_cnt2(s, alt, start, end, base) - base
            || alt,
        carry_wind_cnt2(s, alt, start, end, base) - base <= (winding_bound() + 1) + (end - start)
            || alt,
        !alt ==> base - (end - start) <= carry_wind_cnt2(s, alt, start, end, base) <= base + (end
            - start),
        alt ==> (carry_wind_cnt2(s, alt, start, end, base) == base || 0 <= carry_wind_cnt2(
            s,
            alt,
            start,
            end,
            base,
        ) <= 1),
    decreases end - start,
{
    if end > start {
        lemma_carry_bound(s, alt, start, end - 1, base);
    }
}

/// Winding counts `(wind_cnt, wind_cnt2)` of a new edge of `poly_type` with
/// delta `wind_delta`, given the edges `ael` that precede it in the active
/// list, in list order (see `new_wind_cnt` and `new_wind_cnt2`).
pub fn set_winding_count(
    ael: &Vec<EdgeWinding>,
    poly_type: PolyType,
    wind_delta: i32,
    clip_type: ClipType,
    subj_fill_type: PolyFillType,
    clip_fill_type: PolyFillType,
) -> (r: (i32, i32))
    requires
        windings_bounded(ael@),
        -1 <= wind_delta <= 1,
    ensures
        r.0 == new_wind_cnt(
            ael@,
            poly_type,
            wind_delta as int,
            clip_type,
            subj_fill_type,
            clip_fill_type,
        ),
        r.1 == new_wind_cnt2(ael@, poly_type, subj_fill_type, clip_fill_type),
{
    let ghost s = ael@;
    let n = ael.len();
    // walk back to the nearest closed edge of the same polygon set
    let mut k: usize = n;
    let mut found = false;
    while k > 0
        invariant_except_break
            !found,
        invariant
            s == ael@,
            n == s.len(),
            k <= n,
            last_closed_of_type(s, poly_type, n as int) == last_closed_of_type(
                s,
                poly_type,
                k as int,
            ),
        ensures
            k <= n,
            last_closed_of_type(s, poly_type, n as int) == last_closed_of_type(
                s,
                poly_type,
                k as int,
            ),
            found ==> k > 0 && s[k - 1].poly_type == poly_type && s[k - 1].wind_delta != 0,
            !found ==> k == 0,
        decreases k,
    {
        let e = ael[k - 1];
        if e.poly_type == poly_type && e.wind_delta != 0 {
            found = true;
            break;
        }
        k -= 1;
    }
    proof {
        lemma_last_closed_range(s, poly_type, n as int);
    }
    let ghost kk = last_closed_of_type(s, poly_type, n as int);
    assert(found ==> kk == k - 1);
    assert(!found ==> kk == -1);
    let pft = if poly_type == PolyType::Subject {
        subj_fill_type
    } else {
        clip_fill_type
    };
    let wind_cnt: i32;
    let mut wind_cnt2: i32;
    let start: usize;
    if !found {
        wind_cnt = if wind_delta == 0 {
            if pft == PolyFillType::Negative {
                -1
            } else {
                1
            }
        } else {
            wind_delta
        };
        wind_cnt2 = 0;
        start = 0;
    } else {
        let e = ael[k - 1];
        assert(-winding_bound() <= s[kk].wind_cnt <= winding_bound());
        if wind_delta == 0 && clip_type != ClipType::Union {
            wind_cnt = 1;
        } else if pft == PolyFillType::EvenOdd {
            if wind_delta == 0 {
                let mut inside = true;
                let mut j: usize = 0;
                while j < k - 1
                    invariant
                        s == ael@,
                        n == s.len(),
                        1 <= k <= n,
                        j <= k - 1,
                        inside == (closed_of_type_count(s, e.poly_type, j as int) % 2 == 0),
                    decreases k - 1 - j,
                {
                    let e2 = ael[j];
                    if e2.poly_type == e.poly_type && e2.wind_delta != 0 {
                        inside = !inside;
                    }
                    j += 1;
                }
                wind_cnt = if inside {
                    0
                } else {
                    1
                };
            } else {
                wind_cnt = wind_delta;
            }
        } else {
            let ewc = e.wind_cnt;
            let ewd = e.wind_delta;
            assert(-1 <= ewd <= 1);
            assert(-winding_bound() <= ewc * ewd <= winding_bound()) by (nonlinear_arith)
                requires
                    -1 <= ewd <= 1,
                    -winding_bound() <= ewc <= winding_bound(),
            ;
            assert(-1 <= ewd * wind_delta <= 1) by (nonlinear_arith)
                requires
                    -1 <= ewd <= 1,
                    -1 <= wind_delta <= 1,
            ;
            if ewc * ewd < 0 {
                if ewc > 1 || ewc < -1 {
                    if ewd * wind_delta < 0 {
                        wind_cnt = ewc;
                    } else {
                        wind_cnt = ewc + wind_delta;
                    }
                } else {
                    wind_cnt = if wind_delta == 0 {
                        1
                    } else {
                        wind_delta
                    };
                }
            } else if wind_delta == 0 {
                wind_cnt = if ewc < 0 {
                    ewc - 1
                } else {
                    ewc + 1
                };
            } else if ewd * wind_delta < 0 {
                wind_cnt = ewc;
            } else {
                wind_cnt = ewc + wind_delta;
            }
        }
        wind_cnt2 = e.wind_cnt2;
        start = k;
    }
    let alt = if poly_type == PolyType::Subject {
        clip_fill_type == PolyFillType::EvenOdd
    } else {
        subj_fill_type == PolyFillType::EvenOdd
    };
    let ghost base = wind_cnt2 as int;
    let mut j: usize = start;
    while j < n
        invariant
            s == ael@,
            n == s.len(),
            windings_bounded(s),
            start <= j <= n,
            -winding_bound() <= base <= winding_bound(),
            wind_cnt2 == carry_wind_cnt2(s, alt, start as int, j as int, base),
        decreases n - j,
    {
        let e = ael[j];
        proof {
            lemma_carry_bound(s, alt, start as int, j as int, base);
        }
        if alt {
            if e.wind_delta != 0 {
                wind_cnt2 = if wind_cnt2 == 0 {
                    1
                } else {
                    0
                };
            }
        } else {
            wind_cnt2 = wind_cnt2 + e.wind_delta;
        }
        j += 1;
    }
    (wind_cnt, wind_cnt2)
}

} // verus!
