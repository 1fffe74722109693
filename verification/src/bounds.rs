//! The rectangle that holds every edge of the local minima: each minimum
//! has a left bound and maybe a right one, each a chain of edges from the
//! minimum up to its top.
use vstd::prelude::*;

use crate::types::{IntPoint, IntRect};

verus! {

/// The edges of the two bounds of a local minimum, each as its bottom and
/// top point, from the minimum upwards; an empty left chain stands for a
/// minimum with no left bound, an empty right chain for one with no right
/// bound.
pub struct BoundChains {
    pub left: Vec<(IntPoint, IntPoint)>,
    pub right: Vec<(IntPoint, IntPoint)>,
}

/// `r` widened to reach `x` across.
pub open spec fn widen_x(r: IntRect, x: i64) -> IntRect {
    IntRect {
        left: if x < r.left {
            x
        } else {
            r.left
        },
        right: if x > r.right {
            x
        } else {
            r.right
        },
        ..r
    }
}

/// `r` widened to reach the bottom points of the first `k` edges of `c`
/// across.
pub open spec fn chain_bots(r: IntRect, c: Seq<(IntPoint, IntPoint)>, k: int) -> IntRect
    decreases k,
{
    if k <= 0 {
        r
    } else {
        widen_x(chain_bots(r, c, k - 1), c[k - 1].0.x)
    }
}

/// `r` widened to reach a chain: the bottom points of all its edges and
/// the top point of the last one across, and that top point upwards.
pub open spec fn chain_rect(r: IntRect, c: Seq<(IntPoint, IntPoint)>) -> IntRect {
    if c.len() == 0 {
        r
    } else {
        let r1 = widen_x(chain_bots(r, c, c.len() as int), c.last().1.x);
        IntRect {
            top: if c.last().1.y < r1.top {
                c.last().1.y
            } else {
                r1.top
            },
            ..r1
        }
    }
}

/// `r` widened by the first `k` minima: for each with a left bound, its
/// bottom downwards, then its left chain and its right chain.
pub open spec fn minima_rect(r: IntRect, ms: Seq<BoundChains>, k: int) -> IntRect
    decreases k,
{
    if k <= 0 {
        r
    } else {
        let r0 = minima_rect(r, ms, k - 1);
        let lft = ms[k - 1].left@;
        if lft.len() == 0 {
            r0
        } else {
            let r1 = IntRect {
                bottom: if lft[0].0.y > r0.bottom {
                    lft[0].0.y
                } else {
                    r0.bottom
                },
                ..r0
            };
            chain_rect(chain_rect(r1, lft), ms[k - 1].right@)
        }
    }
}

/// The bounds of the minima `ms`: the empty rectangle at the origin when
/// there are none or the first has no left bound; else, starting from the
/// bottom point of the first left bound, the rectangle widened by every
/// minimum (`minima_rect`).
pub open spec fn bounds_rect(ms: Seq<BoundChains>) -> IntRect {
    if ms.len() == 0 || ms[0].left@.len() == 0 {
        IntRect { left: 0, top: 0, right: 0, bottom: 0 }
    } else {
        let f = ms[0].left@[0].0;
        minima_rect(IntRect { left: f.x, top: f.y, right: f.x, bottom: f.y }, ms, ms.len() as int)
    }
}

/// Widens `r` to reach the chain `c` (see `chain_rect`).
fn widen_by_chain(r: IntRect, c: &Vec<(IntPoint, IntPoint)>) -> (out: IntRect)
    ensures
        out == chain_rect(r, c@),
{
    let n = c.len();
    if n == 0 {
        return r;
    }
    let mut out = r;
    let mut i: usize = 0;
    while i < n
        invariant
            n == c@.len(),
            i <= n,
            out == chain_bots(r, c@, i as int),
        decreases n - i,
    {
        let x = c[i].0.x;
        if x < out.left {
            out.left = x;
        }
        if x > out.right {
            out.right = x;
        }
        i += 1;
    }
    let last = c[n - 1].1;
    if last.x < out.left {
        out.left = last.x;
    }
    if last.x > out.right {
        out.right = last.x;
    }
    if last.y < out.top {
        out.top = last.y;
    }
    out
}

/// The rectangle that holds every edge of the local minima `minima`, in
/// their order (see `bounds_rect`).
pub fn get_bounds(minima: &Vec<BoundChains>) -> (r: IntRect)
    ensures
        r == bounds_rect(minima@),
{
    if minima.len() == 0 || minima[0].left.len() == 0 {
        return IntRect { left: 0, top: 0, right: 0, bottom: 0 };
    }
    let f = minima[0].left[0].0;
    let ghost start = IntRect { left: f.x, top: f.y, right: f.x, bottom: f.y };
    let mut r = IntRect { left: f.x, top: f.y, right: f.x, bottom: f.y };
    let mut k: usize = 0;
    while k < minima.len()
        invariant
            k <= minima@.len(),
            r == minima_rect(start, minima@, k as int),
        decreases minima@.len() - k,
    {
        let m = &minima[k];
        if m.left.len() > 0 {
            let y = m.left[0].0.y;
            if y > r.bottom {
                r.bottom = y;
            }
            r = widen_by_chain(r, &m.left);
            r = widen_by_chain(r, &m.right);
        }
        k += 1;
    }
    r
}

} // verus!
