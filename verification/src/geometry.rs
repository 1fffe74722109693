//! Integer geometry predicates on points, segments and paths.
use vstd::prelude::*;

use crate::error::{ClipperError, Result};
use crate::types::{HI_RANGE, IntPoint, LO_RANGE, Path, Paths};

verus! {

/// True when `v` is representable as an `i64`.
pub open spec fn fits_i64(v: int) -> bool {
    i64::MIN <= v <= i64::MAX
}

/// Absolute value of a mathematical integer.
pub open spec fn abs_spec(v: int) -> int {
    if v < 0 {
        -v
    } else {
        v
    }
}

/// Absolute value; `i64::MIN` has none and is excluded.
pub fn abs(val: i64) -> (r: i64)
    requires
        val != i64::MIN,
    ensures
        r == abs_spec(val as int),
{
    if val < 0 {
        -val
    } else {
        val
    }
}

/// Exact product of two coordinates.
pub fn int128_mul(lhs: i64, rhs: i64) -> (r: i128)
    ensures
        r == lhs * rhs,
{
    proof {
        assert(-0x8000_0000_0000_0000int * 0x8000_0000_0000_0000int <= lhs * rhs
            <= 0x8000_0000_0000_0000int * 0x8000_0000_0000_0000int) by (nonlinear_arith)
            requires
                -0x8000_0000_0000_0000int <= lhs <= 0x7fff_ffff_ffff_ffffint,
                -0x8000_0000_0000_0000int <= rhs <= 0x7fff_ffff_ffff_ffffint,
        ;
    }
    (lhs as i128) * (rhs as i128)
}

/// `pt1`, `pt2`, `pt3` are collinear: the line `pt1 pt2` has the slope of
/// `pt2 pt3`, cross-multiplied.
pub open spec fn slopes_equal_3_spec(pt1: IntPoint, pt2: IntPoint, pt3: IntPoint) -> bool {
    (pt1.y - pt2.y) * (pt2.x - pt3.x) == (pt1.x - pt2.x) * (pt2.y - pt3.y)
}

/// Segment `pt1 pt2` is parallel to segment `pt3 pt4`, cross-multiplied.
pub open spec fn slopes_equal_4_spec(
    pt1: IntPoint,
    pt2: IntPoint,
    pt3: IntPoint,
    pt4: IntPoint,
) -> bool {
    (pt1.y - pt2.y) * (pt3.x - pt4.x) == (pt1.x - pt2.x) * (pt3.y - pt4.y)
}

/// The cross products of the parallelism test `(a.y-b.y)*(c.x-d.x)` and
/// `(a.x-b.x)*(c.y-d.y)` can be evaluated: the differences fit in `i64` and,
/// when the 64-bit form is used, so do both products.
pub open spec fn cross_terms_fit(
    a: IntPoint,
    b: IntPoint,
    c: IntPoint,
    d: IntPoint,
    use_full_int64_range: bool,
) -> bool {
    &&& fits_i64(a.y - b.y)
    &&& fits_i64(c.x - d.x)
    &&& fits_i64(a.x - b.x)
    &&& fits_i64(c.y - d.y)
    &&& !use_full_int64_range ==> fits_i64((a.y - b.y) * (c.x - d.x))
    &&& !use_full_int64_range ==> fits_i64((a.x - b.x) * (c.y - d.y))
}

/// Collinearity of three points; the products are taken in 128 bits when
/// `use_full_int64_range` is set and in 64 bits otherwise.
pub fn slopes_equal_3_points(
    pt1: IntPoint,
    pt2: IntPoint,
    pt3: IntPoint,
    use_full_int64_range: bool,
) -> (r: bool)
    requires
        cross_terms_fit(pt1, pt2, pt2, pt3, use_full_int64_range),
    ensures
        r == slopes_equal_3_spec(pt1, pt2, pt3),
{
    if use_full_int64_range {
        int128_mul(pt1.y - pt2.y, pt2.x - pt3.x) == int128_mul(pt1.x - pt2.x, pt2.y - pt3.y)
    } else {
        (pt1.y - pt2.y) * (pt2.x - pt3.x) == (pt1.x - pt2.x) * (pt2.y - pt3.y)
    }
}

/// Parallelism of two segments; the products are taken in 128 bits when
/// `use_full_int64_range` is set and in 64 bits otherwise.
pub fn slopes_equal_4_points(
    pt1: IntPoint,
    pt2: IntPoint,
    pt3: IntPoint,
    pt4: IntPoint,
    use_full_int64_range: bool,
) -> (r: bool)
    requires
        cross_terms_fit(pt1, pt2, pt3, pt4, use_full_int64_range),
    ensures
        r == slopes_equal_4_spec(pt1, pt2, pt3, pt4),
{
    if use_full_int64_range {
        int128_mul(pt1.y - pt2.y, pt3.x - pt4.x) == int128_mul(pt1.x - pt2.x, pt3.y - pt4.y)
    } else {
        (pt1.y - pt2.y) * (pt3.x - pt4.x) == (pt1.x - pt2.x) * (pt3.y - pt4.y)
    }
}

/// Exchanges two points.
pub fn swap_points(pt1: &mut IntPoint, pt2: &mut IntPoint)
    ensures
        *final(pt1) == *old(pt2),
        *final(pt2) == *old(pt1),
{
    let tmp = *pt1;
    *pt1 = *pt2;
    *pt2 = tmp;
}

/// `pt2` lies strictly between `pt1` and `pt3` along the x axis, or along the
/// y axis when `pt1` and `pt3` share an x; false when two of them coincide.
pub open spec fn pt2_between_spec(pt1: IntPoint, pt2: IntPoint, pt3: IntPoint) -> bool {
    if pt1 == pt3 || pt1 == pt2 || pt3 == pt2 {
        false
    } else if pt1.x != pt3.x {
        (pt2.x > pt1.x) == (pt2.x < pt3.x)
    } else {
        (pt2.y > pt1.y) == (pt2.y < pt3.y)
    }
}

/// See `pt2_between_spec`.
pub fn pt2_is_between_pt1_and_pt3(pt1: IntPoint, pt2: IntPoint, pt3: IntPoint) -> (r: bool)
    ensures
        r == pt2_between_spec(pt1, pt2, pt3),
{
    if pt1 == pt3 || pt1 == pt2 || pt3 == pt2 {
        false
    } else if pt1.x != pt3.x {
        (pt2.x > pt1.x) == (pt2.x < pt3.x)
    } else {
        (pt2.y > pt1.y) == (pt2.y < pt3.y)
    }
}

/// Smaller of two integers.
pub open spec fn min_spec(a: int, b: int) -> int {
    if a < b {
        a
    } else {
        b
    }
}

/// Larger of two integers.
pub open spec fn max_spec(a: int, b: int) -> int {
    if a < b {
        b
    } else {
        a
    }
}

/// The intervals spanned by `seg1a..seg1b` and `seg2a..seg2b` (in either
/// order) share an interior point.
pub open spec fn horz_overlap_spec(seg1a: int, seg1b: int, seg2a: int, seg2b: int) -> bool {
    min_spec(seg1a, seg1b) < max_spec(seg2a, seg2b) && min_spec(seg2a, seg2b) < max_spec(
        seg1a,
        seg1b,
    )
}

/// See `horz_overlap_spec`.
pub fn horz_segments_overlap(seg1a: i64, seg1b: i64, seg2a: i64, seg2b: i64) -> (r: bool)
    ensures
        r == horz_overlap_spec(seg1a as int, seg1b as int, seg2a as int, seg2b as int),
{
    let (a_lo, a_hi) = if seg1a > seg1b {
        (seg1b, seg1a)
    } else {
        (seg1a, seg1b)
    };
    let (b_lo, b_hi) = if seg2a > seg2b {
        (seg2b, seg2a)
    } else {
        (seg2a, seg2b)
    };
    (a_lo < b_hi) && (b_lo < a_hi)
}

/// The common part `(left, right)` of the intervals `a1..a2` and `b1..b2`
/// (each in either order), when it is not empty.
pub open spec fn overlap_spec(a1: int, a2: int, b1: int, b2: int) -> Option<(int, int)> {
    let left = max_spec(min_spec(a1, a2), min_spec(b1, b2));
    let right = min_spec(max_spec(a1, a2), max_spec(b1, b2));
    if left < right {
        Some((left, right))
    } else {
        None
    }
}

/// Lifts a pair of coordinates to mathematical integers.
pub open spec fn pair_int(p: Option<(i64, i64)>) -> Option<(int, int)> {
    match p {
        Some((l, r)) => Some((l as int, r as int)),
        None => None,
    }
}

/// See `overlap_spec`.
pub fn get_overlap(a1: i64, a2: i64, b1: i64, b2: i64) -> (r: Option<(i64, i64)>)
    ensures
        pair_int(r) == overlap_spec(a1 as int, a2 as int, b1 as int, b2 as int),
{
    let (a_lo, a_hi) = if a1 < a2 {
        (a1, a2)
    } else {
        (a2, a1)
    };
    let (b_lo, b_hi) = if b1 < b2 {
        (b1, b2)
    } else {
        (b2, b1)
    };
    let left = if a_lo < b_lo {
        b_lo
    } else {
        a_lo
    };
    let right = if a_hi < b_hi {
        a_hi
    } else {
        b_hi
    };
    if left < right {
        Some((left, right))
    } else {
        None
    }
}

/// Of two points, the one whose `x` is the larger (the second on a tie).
pub open spec fn larger_x(p: IntPoint, q: IntPoint) -> IntPoint {
    if p.x > q.x {
        p
    } else {
        q
    }
}

/// Of two points, the one whose `x` is the smaller (the second on a tie).
pub open spec fn smaller_x(p: IntPoint, q: IntPoint) -> IntPoint {
    if p.x < q.x {
        p
    } else {
        q
    }
}

/// Of two points, the one whose `y` is the smaller (the second on a tie).
pub open spec fn smaller_y(p: IntPoint, q: IntPoint) -> IntPoint {
    if p.y < q.y {
        p
    } else {
        q
    }
}

/// Of two points, the one whose `y` is the larger (the second on a tie).
pub open spec fn larger_y(p: IntPoint, q: IntPoint) -> IntPoint {
    if p.y > q.y {
        p
    } else {
        q
    }
}

/// Segment `a b` runs mostly along x.
pub open spec fn mostly_horizontal(a: IntPoint, b: IntPoint) -> bool {
    abs_spec(a.x - b.x) > abs_spec(a.y - b.y)
}

/// The endpoints `(start, end)` of the common part of two collinear segments,
/// measured along x when the first segment runs mostly along x (`start` the
/// larger of the left ends, `end` the smaller of the right ends) and along y
/// otherwise (`start` the smaller of the upper ends, `end` the larger of the
/// lower ends, y growing downwards); and whether that part is not empty.
pub open spec fn overlap_segment_spec(
    pt1a: IntPoint,
    pt1b: IntPoint,
    pt2a: IntPoint,
    pt2b: IntPoint,
) -> (IntPoint, IntPoint, bool) {
    if mostly_horizontal(pt1a, pt1b) {
        let l1 = smaller_x(pt1b, pt1a);
        let r1 = larger_x(pt1a, pt1b);
        let l2 = smaller_x(pt2b, pt2a);
        let r2 = larger_x(pt2a, pt2b);
        let start = larger_x(l1, l2);
        let end = smaller_x(r1, r2);
        (start, end, start.x < end.x)
    } else {
        let t1 = larger_y(pt1b, pt1a);
        let b1 = smaller_y(pt1a, pt1b);
        let t2 = larger_y(pt2b, pt2a);
        let b2 = smaller_y(pt2a, pt2b);
        let start = smaller_y(t1, t2);
        let end = larger_y(b1, b2);
        (start, end, start.y > end.y)
    }
}

/// The coordinate differences of segment `a b` have absolute values.
pub open spec fn segment_extent_fits(a: IntPoint, b: IntPoint) -> bool {
    &&& fits_i64(a.x - b.x)
    &&& fits_i64(a.y - b.y)
    &&& a.x - b.x != i64::MIN
    &&& a.y - b.y != i64::MIN
}

/// Writes into `pt1` and `pt2` the ends of the common part of two collinear
/// segments and returns whether it is not empty (see `overlap_segment_spec`).
pub fn get_overlap_segment(
    pt1a: IntPoint,
    pt1b: IntPoint,
    pt2a: IntPoint,
    pt2b: IntPoint,
    pt1: &mut IntPoint,
    pt2: &mut IntPoint,
) -> (r: bool)
    requires
        segment_extent_fits(pt1a, pt1b),
    ensures
        (*final(pt1), *final(pt2), r) == overlap_segment_spec(pt1a, pt1b, pt2a, pt2b),
{
    let mut pt1a = pt1a;
    let mut pt1b = pt1b;
    let mut pt2a = pt2a;
    let mut pt2b = pt2b;
    if abs(pt1a.x - pt1b.x) > abs(pt1a.y - pt1b.y) {
        if pt1a.x > pt1b.x {
            swap_points(&mut pt1a, &mut pt1b);
        }
        if pt2a.x > pt2b.x {
            swap_points(&mut pt2a, &mut pt2b);
        }
        if pt1a.x > pt2a.x {
            *pt1 = pt1a;
        } else {
            *pt1 = pt2a;
        }
        if pt1b.x < pt2b.x {
            *pt2 = pt1b;
        } else {
            *pt2 = pt2b;
        }
        pt1.x < pt2.x
    } else {
        if pt1a.y < pt1b.y {
            swap_points(&mut pt1a, &mut pt1b);
        }
        if pt2a.y < pt2b.y {
            swap_points(&mut pt2a, &mut pt2b);
        }
        if pt1a.y < pt2a.y {
            *pt1 = pt1a;
        } else {
            *pt1 = pt2a;
        }
        if pt1b.y > pt2b.y {
            *pt2 = pt1b;
        } else {
            *pt2 = pt2b;
        }
        pt1.y > pt2.y
    }
}


/// `pt` lies within `[-limit, limit]` on both axes.
pub open spec fn within_range(pt: IntPoint, limit: int) -> bool {
    -limit <= pt.x <= limit && -limit <= pt.y <= limit
}

/// Checks a coordinate against the allowed range. Points beyond `LO_RANGE`
/// switch `use_full_range` on (128-bit products from then on); points beyond
/// `HI_RANGE` are refused.
pub fn range_test(pt: IntPoint, use_full_range: &mut bool) -> (r: Result<()>)
    ensures
        *final(use_full_range) == (*old(use_full_range) || !within_range(pt, LO_RANGE as int)),
        r is Ok <==> within_range(pt, HI_RANGE as int),
        r matches Err(e) ==> e.message@ == "Coordinate outside allowed range"@,
{
    if !*use_full_range && (pt.x > LO_RANGE || pt.y > LO_RANGE || pt.x < -LO_RANGE || pt.y
        < -LO_RANGE) {
        *use_full_range = true;
    }
    if pt.x > HI_RANGE || pt.y > HI_RANGE || pt.x < -HI_RANGE || pt.y < -HI_RANGE {
        return Err(ClipperError::new("Coordinate outside allowed range"));
    }
    Ok(())
}

/// Reverses the order of a path's points.
pub fn reverse_path(p: &mut Path)
    ensures
        final(p)@ == old(p)@.reverse(),
{
    let n = p.len();
    let ghost orig = p@;
    let mut i: usize = 0;
    while i < n / 2
        invariant
            n == orig.len(),
            p@.len() == n,
            i <= n / 2,
            forall|k: int| 0 <= k < i ==> #[trigger] p@[k] == orig[n - 1 - k],
            forall|k: int| n - i <= k < n ==> #[trigger] p@[k] == orig[n - 1 - k],
            forall|k: int| i <= k < n - i ==> #[trigger] p@[k] == orig[k],
        decreases n / 2 - i,
    {
        let a = p[i];
        let b = p[n - 1 - i];
        p.set(i, b);
        p.set(n - 1 - i, a);
        i += 1;
    }
    assert(p@ =~= orig.reverse());
}

/// Reverses every path of a list.
pub fn reverse_paths(p: &mut Paths)
    ensures
        final(p)@.len() == old(p)@.len(),
        forall|i: int| 0 <= i < old(p)@.len() ==> #[trigger] final(p)@[i]@ == old(p)@[i]@.reverse(),
{
    let n = p.len();
    let ghost orig = p@;
    let mut i: usize = 0;
    while i < n
        invariant
            n == orig.len(),
            p@.len() == n,
            i <= n,
            forall|k: int| 0 <= k < i ==> #[trigger] p@[k]@ == orig[k]@.reverse(),
            forall|k: int| i <= k < n ==> #[trigger] p@[k] == orig[k],
        decreases n - i,
    {
        reverse_path(&mut p[i]);
        i += 1;
    }
}

/// `pt` moved by `delta`.
pub open spec fn translated(pt: IntPoint, delta: IntPoint) -> IntPoint {
    IntPoint { x: (pt.x + delta.x) as i64, y: (pt.y + delta.y) as i64 }
}

/// Every point of `s` can be moved by `delta` without leaving `i64`.
pub open spec fn translation_fits(s: Seq<IntPoint>, delta: IntPoint) -> bool {
    forall|i: int|
        0 <= i < s.len() ==> fits_i64(#[trigger] s[i].x + delta.x) && fits_i64(s[i].y + delta.y)
}

/// Writes into `output` the points of `input`, each moved by `delta`.
pub fn translate_path(input: &Path, output: &mut Path, delta: IntPoint)
    requires
        translation_fits(input@, delta),
    ensures
        final(output)@.len() == input@.len(),
        forall|i: int|
            0 <= i < input@.len() ==> #[trigger] final(output)@[i] == translated(input@[i], delta),
{
    output.clear();
    let n = input.len();
    let mut i: usize = 0;
    while i < n
        invariant
            n == input@.len(),
            translation_fits(input@, delta),
            i <= n,
            output@.len() == i,
            forall|k: int| 0 <= k < i ==> #[trigger] output@[k] == translated(input@[k], delta),
        decreases n - i,
    {
        let pt = input[i];
        assert(fits_i64(input@[i as int].x + delta.x));
        output.push(IntPoint { x: pt.x + delta.x, y: pt.y + delta.y });
        i += 1;
    }
}


/// Sign of an integer: -1, 0 or 1.
pub open spec fn sign(v: int) -> int {
    if v > 0 {
        1
    } else if v < 0 {
        -1
    } else {
        0
    }
}

/// `v` lies strictly within `(-2^64, 2^64)`.
pub open spec fn within_65_bits(v: int) -> bool {
    -0x1_0000_0000_0000_0000 < v < 0x1_0000_0000_0000_0000
}

proof fn lemma_sign_of_product(a: int, b: int)
    ensures
        sign(a * b) == sign(a) * sign(b),
        abs_spec(a * b) == abs_spec(a) * abs_spec(b),
        (a * b == 0) <==> (a == 0 || b == 0),
{
    if a > 0 && b > 0 {
        assert(a * b > 0) by (nonlinear_arith)
            requires
                a > 0 && b > 0,
        ;
    } else if a < 0 && b < 0 {
        assert(a * b > 0 && a * b == (-a) * (-b)) by (nonlinear_arith)
            requires
                a < 0 && b < 0,
        ;
    } else if a > 0 && b < 0 {
        assert(a * b < 0 && -(a * b) == a * (-b)) by (nonlinear_arith)
            requires
                a > 0 && b < 0,
        ;
    } else if a < 0 && b > 0 {
        assert(a * b < 0 && -(a * b) == (-a) * b) by (nonlinear_arith)
            requires
                a < 0 && b > 0,
        ;
    } else {
        let aa = abs_spec(a);
        let bb = abs_spec(b);
        assert(a * b == 0 && aa * bb == 0) by (nonlinear_arith)
            requires
                a == 0 || b == 0,
                aa == 0 || bb == 0,
        ;
    }
}

/// Sign and magnitude of `a * b`, the magnitude exact in 128 unsigned bits.
fn signed_product(a: i128, b: i128) -> (r: (i8, u128))
    requires
        within_65_bits(a as int),
        within_65_bits(b as int),
    ensures
        r.0 as int == sign(a * b),
        r.1 as int == abs_spec(a * b),
{
    let ma: u128 = if a < 0 {
        (-a) as u128
    } else {
        a as u128
    };
    let mb: u128 = if b < 0 {
        (-b) as u128
    } else {
        b as u128
    };
    proof {
        lemma_sign_of_product(a as int, b as int);
        assert(ma * mb <= 0xffff_ffff_ffff_ffff * 0xffff_ffff_ffff_ffff) by (nonlinear_arith)
            requires
                ma <= 0xffff_ffff_ffff_ffff,
                mb <= 0xffff_ffff_ffff_ffff,
        ;
    }
    let m = ma * mb;
    let s: i8 = if m == 0 {
        0
    } else if (a < 0) == (b < 0) {
        1
    } else {
        -1
    };
    (s, m)
}

/// Sign of `a * b - c * d`, evaluated exactly although the products may not
/// fit in 128 signed bits.
pub fn cross_sign(a: i128, b: i128, c: i128, d: i128) -> (r: i8)
    requires
        within_65_bits(a as int),
        within_65_bits(b as int),
        within_65_bits(c as int),
        within_65_bits(d as int),
    ensures
        r as int == sign(a * b - c * d),
{
    let (s1, m1) = signed_product(a, b);
    let (s2, m2) = signed_product(c, d);
    let ghost p1 = a * b;
    let ghost p2 = c * d;
    if s1 > s2 {
        1
    } else if s1 < s2 {
        -1
    } else if s1 == 0 {
        0
    } else if s1 == 1 {
        if m1 > m2 {
            1
        } else if m1 < m2 {
            -1
        } else {
            0
        }
    } else {
        if m1 > m2 {
            -1
        } else if m1 < m2 {
            1
        } else {
            0
        }
    }
}

/// The cross product of `ip - pt` and `ipn - pt`.
pub open spec fn cross_about(pt: IntPoint, ip: IntPoint, ipn: IntPoint) -> int {
    (ip.x - pt.x) * (ipn.y - pt.y) - (ipn.x - pt.x) * (ip.y - pt.y)
}

/// The edge `ip ipn` ends on `pt`, or runs horizontally through it.
pub open spec fn touches_at_end(pt: IntPoint, ip: IntPoint, ipn: IntPoint) -> bool {
    ipn.y == pt.y && (ipn.x == pt.x || (ip.y == pt.y && ((ipn.x > pt.x) == (ip.x < pt.x))))
}

/// The edge `ip ipn` crosses the horizontal line through `pt`.
pub open spec fn straddles(pt: IntPoint, ip: IntPoint, ipn: IntPoint) -> bool {
    (ip.y < pt.y) != (ipn.y < pt.y)
}

/// The edge crosses the line through `pt` and only the cross product can
/// tell on which side of `pt` it does so.
pub open spec fn needs_cross(pt: IntPoint, ip: IntPoint, ipn: IntPoint) -> bool {
    straddles(pt, ip, ipn) && ((ip.x >= pt.x && !(ipn.x > pt.x)) || (ip.x < pt.x && ipn.x
        > pt.x))
}

/// The edge `ip ipn` passes through `pt`.
pub open spec fn edge_on_point(pt: IntPoint, ip: IntPoint, ipn: IntPoint) -> bool {
    touches_at_end(pt, ip, ipn) || (needs_cross(pt, ip, ipn) && cross_about(pt, ip, ipn) == 0)
}

/// The edge `ip ipn` crosses the ray running from `pt` towards growing x.
pub open spec fn edge_crosses_ray(pt: IntPoint, ip: IntPoint, ipn: IntPoint) -> bool {
    straddles(pt, ip, ipn) && ((ip.x >= pt.x && ipn.x > pt.x) || (needs_cross(pt, ip, ipn) && (
    cross_about(pt, ip, ipn) > 0) == (ipn.y > ip.y)))
}

/// The `i`-th edge of the closed path `s`, from `s[i]` to its successor.
pub open spec fn edge_end(s: Seq<IntPoint>, i: int) -> IntPoint {
    if i + 1 < s.len() {
        s[i + 1]
    } else {
        s[0]
    }
}

/// Some edge among the first `k` of `s` passes through `pt`.
pub open spec fn on_some_edge(pt: IntPoint, s: Seq<IntPoint>, k: int) -> bool {
    exists|i: int| 0 <= i < k && #[trigger] edge_on_point(pt, s[i], edge_end(s, i))
}

/// Number of edges among the first `k` of `s` that cross the ray from `pt`.
pub open spec fn ray_crossings(pt: IntPoint, s: Seq<IntPoint>, k: int) -> nat
    decreases k,
{
    if k <= 0 {
        0
    } else {
        ray_crossings(pt, s, k - 1) + if edge_crosses_ray(pt, s[k - 1], edge_end(s, k - 1)) {
            1nat
        } else {
            0nat
        }
    }
}

/// Location of `pt` relative to the closed path `s` (each point joined to
/// the next, the last to the first): -1 on one of its edges, 1 inside (an
/// odd number of edges cross the ray from `pt`), 0 outside.
pub open spec fn point_location(pt: IntPoint, s: Seq<IntPoint>) -> int {
    if on_some_edge(pt, s, s.len() as int) {
        -1
    } else if ray_crossings(pt, s, s.len() as int) % 2 == 1 {
        1
    } else {
        0
    }
}

/// Location of `pt` relative to the closed path `s` (see `point_location`);
/// paths of fewer than three points enclose nothing.
pub open spec fn point_in_polygon_spec(pt: IntPoint, s: Seq<IntPoint>) -> int {
    if s.len() < 3 {
        0
    } else {
        point_location(pt, s)
    }
}

/// Returns -1 when `pt` lies on the boundary of the closed path `path`, 1
/// when it lies inside, 0 when outside (see `point_in_polygon_spec`). The
/// answer does not depend on where the path starts or on the direction in
/// which it runs (`location_laws::lemma_point_in_polygon_laws`).
pub fn point_in_polygon(pt: IntPoint, path: &Path) -> (r: i32)
    ensures
        r == point_in_polygon_spec(pt, path@),
{
    if path.len() < 3 {
        return 0;
    }
    locate_point(pt, path)
}

/// See `point_location`. The cross products are taken exactly; in `f64`
/// they round once coordinates pass about 2^26, and a point very close to
/// an edge may then be placed on the other side of it.
pub fn locate_point(pt: IntPoint, path: &Path) -> (r: i32)
    requires
        path@.len() >= 1,
    ensures
        r == point_location(pt, path@),
{
    let cnt = path.len();
    let ghost s = path@;
    let mut result: i32 = 0;
    let mut i: usize = 0;
    while i < cnt
        invariant
            cnt == s.len(),
            s == path@,
            cnt >= 1,
            i <= cnt,
            !on_some_edge(pt, s, i as int),
            result == (if ray_crossings(pt, s, i as int) % 2 == 1 {
                1int
            } else {
                0int
            }),
        decreases cnt - i,
    {
        let ip = path[i];
        let ip_next = if i + 1 < cnt {
            path[i + 1]
        } else {
            path[0]
        };
        assert(ip_next == edge_end(s, i as int));
        if ip_next.y == pt.y && (ip_next.x == pt.x || (ip.y == pt.y && ((ip_next.x > pt.x) == (ip.x
            < pt.x)))) {
            assert(edge_on_point(pt, s[i as int], edge_end(s, i as int)));
            return -1;
        }
        let mut toggles = false;
        if (ip.y < pt.y) != (ip_next.y < pt.y) {
            if ip.x >= pt.x && ip_next.x > pt.x {
                toggles = true;
            } else if ip.x >= pt.x || ip_next.x > pt.x {
                let d = cross_sign(
                    ip.x as i128 - pt.x as i128,
                    ip_next.y as i128 - pt.y as i128,
                    ip_next.x as i128 - pt.x as i128,
                    ip.y as i128 - pt.y as i128,
                );
                if d == 0 {
                    assert(edge_on_point(pt, s[i as int], edge_end(s, i as int)));
                    return -1;
                }
                if (d > 0) == (ip_next.y > ip.y) {
                    toggles = true;
                }
            }
        }
        assert(toggles == edge_crosses_ray(pt, s[i as int], edge_end(s, i as int)));
        assert(!edge_on_point(pt, s[i as int], edge_end(s, i as int)));
        if toggles {
            result = 1 - result;
        }
        assert(!on_some_edge(pt, s, i + 1)) by {
            if on_some_edge(pt, s, i + 1) {
                let j = choose|j: int|
                    0 <= j < i + 1 && #[trigger] edge_on_point(pt, s[j], edge_end(s, j));
                assert(j != i);
            }
        }
        i += 1;
    }
    result
}

/// Every vertex of a closed path of three or more points lies on its
/// boundary.
pub proof fn lemma_vertex_is_on_boundary(s: Seq<IntPoint>, k: int)
    requires
        s.len() >= 3,
        0 <= k < s.len(),
    ensures
        point_in_polygon_spec(s[k], s) == -1,
{
    let i = if k == 0 {
        s.len() - 1
    } else {
        k - 1
    };
    assert(edge_end(s, i) == s[k]);
    assert(edge_on_point(s[k], s[i], edge_end(s, i)));
}


/// Index of the point before `i` on the closed path `s`.
pub open spec fn prev_index(s: Seq<IntPoint>, i: int) -> int {
    if i == 0 {
        s.len() - 1
    } else {
        i - 1
    }
}

/// Contribution of the edge ending at `s[i]` to the shoelace sum.
pub open spec fn shoelace_term(s: Seq<IntPoint>, i: int) -> int {
    let p = s[prev_index(s, i)];
    (p.x + s[i].x) * (p.y - s[i].y)
}

/// Sum of the first `k` shoelace terms of `s`.
pub open spec fn shoelace(s: Seq<IntPoint>, k: int) -> int
    decreases k,
{
    if k <= 0 {
        0
    } else {
        shoelace(s, k - 1) + shoelace_term(s, k - 1)
    }
}

/// Twice the signed area enclosed by the closed path `s`; positive for a
/// counter-clockwise path in a y-up frame (clockwise as drawn with y growing
/// downwards), zero for fewer than three points.
pub open spec fn area2_spec(s: Seq<IntPoint>) -> int {
    if s.len() < 3 {
        0
    } else {
        -shoelace(s, s.len() as int)
    }
}

/// 2^64.
pub open spec fn limb() -> int {
    0x1_0000_0000_0000_0000
}

/// Adds `a * b` to the two-limb number `hi * 2^64 + lo` without overflow.
fn add_product(hi: i128, lo: i128, a: i128, b: i128) -> (r: (i128, i128))
    requires
        -0x4000_0000_0000_0000_0000_0000_0000_0000 < hi < 0x4000_0000_0000_0000_0000_0000_0000_0000,
        0 <= lo < limb(),
        -limb() <= a <= limb(),
        -limb() < b < limb(),
    ensures
        r.0 * limb() + r.1 == hi * limb() + lo + a * b,
        0 <= r.1 < limb(),
        hi - 0x2_0000_0000_0000_0000 < r.0 < hi + 0x2_0000_0000_0000_0000,
{
    let bh = b / 0x1_0000_0000i128;
    let bl = b % 0x1_0000_0000i128;
    assert(bh * 0x1_0000_0000 + bl == b);
    assert(-0x1_0000_0000 < bl < 0x1_0000_0000);
    assert(-0x1_0000_0000 <= bh <= 0x1_0000_0000) by (nonlinear_arith)
        requires
            bh * 0x1_0000_0000 + bl == b,
            -0x1_0000_0000 < bl < 0x1_0000_0000,
            -0x1_0000_0000_0000_0000 < b < 0x1_0000_0000_0000_0000,
    ;
    assert(-0x1_0000_0000_0000_0000_0000_0000 <= a * bh <= 0x1_0000_0000_0000_0000_0000_0000)
        by (nonlinear_arith)
        requires
            -0x1_0000_0000 <= bh <= 0x1_0000_0000,
            -0x1_0000_0000_0000_0000 <= a <= 0x1_0000_0000_0000_0000,
    ;
    assert(-0x1_0000_0000_0000_0000_0000_0000 <= a * bl <= 0x1_0000_0000_0000_0000_0000_0000)
        by (nonlinear_arith)
        requires
            -0x1_0000_0000 <= bl <= 0x1_0000_0000,
            -0x1_0000_0000_0000_0000 <= a <= 0x1_0000_0000_0000_0000,
    ;
    let p1 = a * bh;
    let p0 = a * bl;
    let q1 = p1 / 0x1_0000_0000i128;
    let r1 = p1 % 0x1_0000_0000i128;
    assert(q1 * 0x1_0000_0000 + r1 == p1);
    assert(-0x1_0000_0000 < r1 < 0x1_0000_0000);
    assert(-0x1_0000_0000_0000_0001 <= q1 <= 0x1_0000_0000_0000_0001) by (nonlinear_arith)
        requires
            q1 * 0x1_0000_0000 + r1 == p1,
            -0x1_0000_0000 < r1 < 0x1_0000_0000,
            -0x1_0000_0000_0000_0000_0000_0000 <= p1 <= 0x1_0000_0000_0000_0000_0000_0000,
    ;
    assert(a * b == q1 * limb() + r1 * 0x1_0000_0000 + p0) by (nonlinear_arith)
        requires
            bh * 0x1_0000_0000 + bl == b,
            q1 * 0x1_0000_0000 + r1 == p1,
            p1 == a * bh,
            p0 == a * bl,
            limb() == 0x1_0000_0000_0000_0000,
    ;
    let w = r1 * 0x1_0000_0000i128 + p0;
    let lo2 = lo + w;
    let mut c = lo2 / 0x1_0000_0000_0000_0000i128;
    let mut m = lo2 % 0x1_0000_0000_0000_0000i128;
    assert(c * limb() + m == lo2);
    assert(-limb() < m < limb());
    assert(-0x4_0000_0000 <= c <= 0x4_0000_0000) by (nonlinear_arith)
        requires
            c * 0x1_0000_0000_0000_0000 + m == lo2,
            -0x1_0000_0000_0000_0000 < m < 0x1_0000_0000_0000_0000,
            -0x2_0000_0000_0000_0000_0000_0000 < lo2 < 0x2_0000_0000_0000_0000_0000_0000,
    ;
    if m < 0 {
        m = m + 0x1_0000_0000_0000_0000i128;
        c = c - 1;
    }
    (hi + q1 + c, m)
}

/// Sign of the doubled area of `s`, accumulated exactly in two 64-bit limbs.
fn area2_sign(poly: &Path) -> (r: i8)
    requires
        poly@.len() <= 0x1000_0000_0000_0000,
    ensures
        r as int == sign(area2_spec(poly@)),
{
    let n = poly.len();
    if n < 3 {
        return 0;
    }
    let ghost s = poly@;
    let mut hi: i128 = 0;
    let mut lo: i128 = 0;
    let mut i: usize = 0;
    while i < n
        invariant
            n == s.len(),
            s == poly@,
            3 <= n <= 0x1000_0000_0000_0000,
            i <= n,
            hi * limb() + lo == shoelace(s, i as int),
            0 <= lo < limb(),
            -(i as int) * 0x2_0000_0000_0000_0000 <= hi <= (i as int) * 0x2_0000_0000_0000_0000,
        decreases n - i,
    {
        let j = if i == 0 {
            n - 1
        } else {
            i - 1
        };
        let a = poly[j].x as i128 + poly[i].x as i128;
        let b = poly[j].y as i128 - poly[i].y as i128;
        assert((i as int) * 0x2_0000_0000_0000_0000 < 0x2000_0000_0000_0000_0000_0000_0000_0000)
            by (nonlinear_arith)
            requires
                i < 0x1000_0000_0000_0000,
        ;
        let (h2, l2) = add_product(hi, lo, a, b);
        assert(shoelace_term(s, i as int) == a * b);
        hi = h2;
        lo = l2;
        i += 1;
        assert(-(i as int) * 0x2_0000_0000_0000_0000 <= hi <= (i as int) * 0x2_0000_0000_0000_0000)
            by (nonlinear_arith)
            requires
                -((i - 1) as int) * 0x2_0000_0000_0000_0000 - 0x2_0000_0000_0000_0000 < hi,
                hi < ((i - 1) as int) * 0x2_0000_0000_0000_0000 + 0x2_0000_0000_0000_0000,
        ;
    }
    // the doubled area is the negated sum
    if hi > 0 || (hi == 0 && lo > 0) {
        proof {
            if hi > 0 {
                assert(hi * limb() + lo > 0) by (nonlinear_arith)
                    requires
                        hi > 0,
                        lo >= 0,
                        limb() > 0,
                ;
            }
        }
        -1
    } else if hi == 0 {
        0
    } else {
        assert(hi * limb() + lo < 0) by (nonlinear_arith)
            requires
                hi < 0,
                lo < limb(),
                limb() > 0,
        ;
        1
    }
}

/// True when the closed path `poly` has a non-negative doubled area
/// (`area2_spec`), the orientation called counter-clockwise. The area is
/// summed exactly; a sum in `f64` rounds once coordinates pass about 2^26,
/// and may then give the other sign for a path whose area is close to zero.
pub fn orientation(poly: &Path) -> (r: bool)
    requires
        poly@.len() <= 0x1000_0000_0000_0000,
    ensures
        r == (area2_spec(poly@) >= 0),
{
    area2_sign(poly) >= 0
}


proof fn lemma_term_reversed(a: IntPoint, b: IntPoint)
    ensures
        (a.x + b.x) * (a.y - b.y) == -((b.x + a.x) * (b.y - a.y)),
{
    let p = a.x + b.x;
    let q = a.y - b.y;
    assert(p * q == -(p * (-q))) by (nonlinear_arith);
}

proof fn lemma_shoelace_reverse_prefix(s: Seq<IntPoint>, m: int)
    requires
        s.len() >= 1,
        1 <= m <= s.len(),
    ensures
        shoelace(s.reverse(), m) == -shoelace_term(s, 0) - (shoelace(s, s.len() as int) - shoelace(
            s,
            s.len() - m + 1,
        )),
    decreases m,
{
    let r = s.reverse();
    let n = s.len() as int;
    if m == 1 {
        assert(shoelace(r, 0) == 0);
        lemma_term_reversed(r[n - 1], r[0]);
        assert(r[n - 1] == s[0]);
        assert(r[0] == s[n - 1]);
    } else {
        lemma_shoelace_reverse_prefix(s, m - 1);
        let i = m - 1;
        assert(r[i - 1] == s[n - i]);
        assert(r[i] == s[n - 1 - i]);
        lemma_term_reversed(r[i - 1], r[i]);
        assert(prev_index(s, n - i) == n - i - 1);
        assert(shoelace(s, n - m + 2) == shoelace(s, n - m + 1) + shoelace_term(s, n - m + 1));
    }
}

/// Reversing a closed path negates its doubled area.
pub proof fn lemma_area2_reverse(s: Seq<IntPoint>)
    ensures
        area2_spec(s.reverse()) == -area2_spec(s),
{
    if s.len() >= 3 {
        lemma_shoelace_reverse_prefix(s, s.len() as int);
        assert(shoelace(s, 0) == 0);
        assert(shoelace(s, 1) == shoelace_term(s, 0));
    }
}

/// `q` itself when its doubled area is not negative, otherwise `q` reversed.
pub open spec fn counter_clockwise(q: Seq<IntPoint>) -> Seq<IntPoint> {
    if area2_spec(q) >= 0 {
        q
    } else {
        q.reverse()
    }
}

/// Point `j` of the pattern placed at point `i` of the path: their sum, or
/// their difference for a Minkowski difference.
pub open spec fn minkowski_point(
    pattern: Seq<IntPoint>,
    path: Seq<IntPoint>,
    i: int,
    j: int,
    is_sum: bool,
) -> IntPoint {
    if is_sum {
        IntPoint { x: (path[i].x + pattern[j].x) as i64, y: (path[i].y + pattern[j].y) as i64 }
    } else {
        IntPoint { x: (path[i].x - pattern[j].x) as i64, y: (path[i].y - pattern[j].y) as i64 }
    }
}

/// The quadrilateral swept by pattern edge `j` along path edge `i`.
pub open spec fn minkowski_quad(
    pattern: Seq<IntPoint>,
    path: Seq<IntPoint>,
    i: int,
    j: int,
    is_sum: bool,
) -> Seq<IntPoint> {
    let i1 = (i + 1) % (path.len() as int);
    let j1 = (j + 1) % (pattern.len() as int);
    seq![
        minkowski_point(pattern, path, i, j, is_sum),
        minkowski_point(pattern, path, i1, j, is_sum),
        minkowski_point(pattern, path, i1, j1, is_sum),
        minkowski_point(pattern, path, i, j1, is_sum),
    ]
}

/// Every pattern point placed at every path point stays within `i64`.
pub open spec fn minkowski_fits(pattern: Seq<IntPoint>, path: Seq<IntPoint>, is_sum: bool) -> bool {
    forall|i: int, j: int|
        #![trigger path[i], pattern[j]]
        0 <= i < path.len() && 0 <= j < pattern.len() ==> if is_sum {
            fits_i64(path[i].x + pattern[j].x) && fits_i64(path[i].y + pattern[j].y)
        } else {
            fits_i64(path[i].x - pattern[j].x) && fits_i64(path[i].y - pattern[j].y)
        }
}

/// Number of quadrilaterals that `minkowski` produces.
pub open spec fn minkowski_count(pattern_len: int, path_len: int, is_closed: bool) -> int {
    if pattern_len == 0 || path_len == 0 {
        0
    } else {
        (path_len - 1 + if is_closed {
            1int
        } else {
            0int
        }) * pattern_len
    }
}

/// Writes into `solution` the quadrilaterals swept by each edge of `poly`
/// along each edge of `path` (closing `path` when `is_closed`), each turned
/// counter-clockwise, in path-edge-major order. `is_sum` selects the
/// Minkowski sum, otherwise the difference.
pub fn minkowski(poly: &Path, path: &Path, solution: &mut Paths, is_sum: bool, is_closed: bool)
    requires
        minkowski_fits(poly@, path@, is_sum),
    ensures
        final(solution)@.len() == minkowski_count(poly@.len() as int, path@.len() as int, is_closed),
        forall|k: int|
            0 <= k < final(solution)@.len() ==> #[trigger] final(solution)@[k]@ == counter_clockwise(
                minkowski_quad(
                    poly@,
                    path@,
                    k / (poly@.len() as int),
                    k % (poly@.len() as int),
                    is_sum,
                ),
            ),
{
    let delta: usize = if is_closed {
        1
    } else {
        0
    };
    let poly_cnt = poly.len();
    let path_cnt = path.len();
    let ghost pat = poly@;
    let ghost pth = path@;

    let mut pp: Vec<Vec<IntPoint>> = Vec::new();
    let mut i: usize = 0;
    while i < path_cnt
        invariant
            path_cnt == pth.len(),
            poly_cnt == pat.len(),
            pat == poly@,
            pth == path@,
            minkowski_fits(pat, pth, is_sum),
            i <= path_cnt,
            pp@.len() == i,
            forall|a: int| 0 <= a < i ==> (#[trigger] pp@[a])@.len() == poly_cnt,
            forall|a: int, b: int|
                0 <= a < i && 0 <= b < poly_cnt ==> #[trigger] pp@[a]@[b] == minkowski_point(
                    pat,
                    pth,
                    a,
                    b,
                    is_sum,
                ),
        decreases path_cnt - i,
    {
        let mut p: Vec<IntPoint> = Vec::new();
        let mut j: usize = 0;
        while j < poly_cnt
            invariant
                path_cnt == pth.len(),
                poly_cnt == pat.len(),
                pat == poly@,
                pth == path@,
                minkowski_fits(pat, pth, is_sum),
                i < path_cnt,
                j <= poly_cnt,
                p@.len() == j,
                forall|b: int|
                    0 <= b < j ==> #[trigger] p@[b] == minkowski_point(pat, pth, i as int, b, is_sum),
            decreases poly_cnt - j,
        {
            let a = path[i];
            let b = poly[j];
            assert(a == pth[i as int] && b == pat[j as int]);
            assert(if is_sum {
                fits_i64(pth[i as int].x + pat[j as int].x) && fits_i64(pth[i as int].y
                    + pat[j as int].y)
            } else {
                fits_i64(pth[i as int].x - pat[j as int].x) && fits_i64(pth[i as int].y
                    - pat[j as int].y)
            });
            if is_sum {
                p.push(IntPoint { x: a.x + b.x, y: a.y + b.y });
            } else {
                p.push(IntPoint { x: a.x - b.x, y: a.y - b.y });
            }
            j += 1;
        }
        pp.push(p);
        i += 1;
    }

    solution.clear();
    if poly_cnt == 0 || path_cnt == 0 {
        return;
    }
    let rows = path_cnt - 1 + delta;
    let mut i: usize = 0;
    while i < rows
        invariant
            path_cnt == pth.len(),
            poly_cnt == pat.len(),
            poly_cnt > 0,
            path_cnt > 0,
            rows == path_cnt - 1 + delta,
            delta == (if is_closed {
                1usize
            } else {
                0usize
            }),
            pp@.len() == path_cnt,
            forall|a: int| 0 <= a < path_cnt ==> (#[trigger] pp@[a])@.len() == poly_cnt,
            forall|a: int, b: int|
                0 <= a < path_cnt && 0 <= b < poly_cnt ==> #[trigger] pp@[a]@[b]
                    == minkowski_point(pat, pth, a, b, is_sum),
            i <= rows,
            solution@.len() == i * poly_cnt,
            forall|k: int|
                0 <= k < solution@.len() ==> #[trigger] solution@[k]@ == counter_clockwise(
                    minkowski_quad(pat, pth, k / (poly_cnt as int), k % (poly_cnt as int), is_sum),
                ),
        decreases rows - i,
    {
        let mut j: usize = 0;
        while j < poly_cnt
            invariant
                path_cnt == pth.len(),
                poly_cnt == pat.len(),
                poly_cnt > 0,
                path_cnt > 0,
                rows == path_cnt - 1 + delta,
                delta <= 1,
                i < rows,
                pp@.len() == path_cnt,
                forall|a: int| 0 <= a < path_cnt ==> (#[trigger] pp@[a])@.len() == poly_cnt,
                forall|a: int, b: int|
                    0 <= a < path_cnt && 0 <= b < poly_cnt ==> #[trigger] pp@[a]@[b]
                        == minkowski_point(pat, pth, a, b, is_sum),
                j <= poly_cnt,
                solution@.len() == i * poly_cnt + j,
                forall|k: int|
                    0 <= k < solution@.len() ==> #[trigger] solution@[k]@ == counter_clockwise(
                        minkowski_quad(
                            pat,
                            pth,
                            k / (poly_cnt as int),
                            k % (poly_cnt as int),
                            is_sum,
                        ),
                    ),
            decreases poly_cnt - j,
        {
            let i0 = i % path_cnt;
            let i1 = (i + 1) % path_cnt;
            let j0 = j % poly_cnt;
            let j1 = (j + 1) % poly_cnt;
            let mut quad: Vec<IntPoint> = Vec::new();
            quad.push(pp[i0][j0]);
            quad.push(pp[i1][j0]);
            quad.push(pp[i1][j1]);
            quad.push(pp[i0][j1]);
            let ghost k = solution@.len() as int;
            proof {
                assert(i < path_cnt);
                vstd::arithmetic::div_mod::lemma_small_mod(i as nat, path_cnt as nat);
                vstd::arithmetic::div_mod::lemma_small_mod(j as nat, poly_cnt as nat);
                assert(i0 == i);
                assert(j0 == j);
                vstd::arithmetic::div_mod::lemma_fundamental_div_mod_converse(
                    k,
                    poly_cnt as int,
                    i as int,
                    j as int,
                );
                assert(quad@ =~= minkowski_quad(pat, pth, i as int, j as int, is_sum));
            }
            if !orientation(&quad) {
                reverse_path(&mut quad);
            }
            solution.push(quad);
            j += 1;
        }
        assert(i * poly_cnt + poly_cnt == (i + 1) * poly_cnt) by (nonlinear_arith);
        i += 1;
    }
}

/// Every quadrilateral that `minkowski` writes has a non-negative doubled
/// area.
pub proof fn lemma_minkowski_quads_counter_clockwise(q: Seq<IntPoint>)
    ensures
        area2_spec(counter_clockwise(q)) >= 0,
{
    lemma_area2_reverse(q);
}

/// The doubled area of a parallelogram walked from `(ax, ay)` along
/// `(ux, uy)`, then `(vx, vy)`, then back along each, is twice the cross
/// product of the two sides.
proof fn lemma_parallelogram_area(q: Seq<IntPoint>, ux: int, uy: int, vx: int, vy: int)
    requires
        q.len() == 4,
        q[1].x - q[0].x == ux,
        q[1].y - q[0].y == uy,
        q[2].x - q[1].x == vx,
        q[2].y - q[1].y == vy,
        q[3].x - q[2].x == -ux,
        q[3].y - q[2].y == -uy,
    ensures
        area2_spec(q) == 2 * (ux * vy - uy * vx),
{
    let (x0, y0) = (q[0].x as int, q[0].y as int);
    let (x1, y1) = (q[1].x as int, q[1].y as int);
    let (x2, y2) = (q[2].x as int, q[2].y as int);
    let (x3, y3) = (q[3].x as int, q[3].y as int);
    assert(shoelace(q, 4) == (x3 + x0) * (y3 - y0) + (x0 + x1) * (y0 - y1) + (x1 + x2) * (y1 - y2)
        + (x2 + x3) * (y2 - y3)) by {
        assert(shoelace(q, 0) == 0);
        assert(shoelace(q, 1) == shoelace_term(q, 0));
        assert(shoelace(q, 2) == shoelace(q, 1) + shoelace_term(q, 1));
        assert(shoelace(q, 3) == shoelace(q, 2) + shoelace_term(q, 2));
        assert(shoelace(q, 4) == shoelace(q, 3) + shoelace_term(q, 3));
    }
    assert((x3 + x0) * (y3 - y0) + (x0 + x1) * (y0 - y1) + (x1 + x2) * (y1 - y2) + (x2 + x3) * (y2
        - y3) == -2 * (ux * vy - uy * vx)) by (nonlinear_arith)
        requires
            x1 == x0 + ux,
            y1 == y0 + uy,
            x2 == x1 + vx,
            y2 == y1 + vy,
            x3 == x2 - ux,
            y3 == y2 - uy,
    ;
}

/// The quadrilateral that `minkowski` makes for path edge `i` and pattern
/// edge `j` is a parallelogram: from the pattern's point `j` placed at
/// path point `i` (their sum, or difference) it runs along the path edge, then along the pattern edge
/// (turned round for a difference), then back along each. Its doubled
/// area is twice the cross product of those two edges, and the quadrilateral
/// handed out (turned counter-clockwise) has that area's absolute value.
pub proof fn lemma_minkowski_quad_parallelogram(
    pattern: Seq<IntPoint>,
    path: Seq<IntPoint>,
    i: int,
    j: int,
    is_sum: bool,
)
    requires
        minkowski_fits(pattern, path, is_sum),
        0 <= i < path.len(),
        0 <= j < pattern.len(),
    ensures
        ({
            let q = minkowski_quad(pattern, path, i, j, is_sum);
            let i1 = if i + 1 < path.len() {
                i + 1
            } else {
                0
            };
            let j1 = if j + 1 < pattern.len() {
                j + 1
            } else {
                0
            };
            let ux = path[i1].x - path[i].x;
            let uy = path[i1].y - path[i].y;
            let vx = if is_sum {
                pattern[j1].x - pattern[j].x
            } else {
                pattern[j].x - pattern[j1].x
            };
            let vy = if is_sum {
                pattern[j1].y - pattern[j].y
            } else {
                pattern[j].y - pattern[j1].y
            };
            let cross = ux * vy - uy * vx;
            &&& q.len() == 4
            &&& q[0].x == if is_sum {
                path[i].x + pattern[j].x
            } else {
                path[i].x - pattern[j].x
            }
            &&& q[0].y == if is_sum {
                path[i].y + pattern[j].y
            } else {
                path[i].y - pattern[j].y
            }
            &&& q[1].x - q[0].x == ux && q[1].y - q[0].y == uy
            &&& q[2].x - q[1].x == vx && q[2].y - q[1].y == vy
            &&& q[3].x - q[2].x == -ux && q[3].y - q[2].y == -uy
            &&& q[0].x - q[3].x == -vx && q[0].y - q[3].y == -vy
            &&& area2_spec(q) == 2 * cross
            &&& area2_spec(counter_clockwise(q)) == 2 * (if cross < 0 {
                -cross
            } else {
                cross
            })
        }),
{
    let n = path.len() as int;
    let m = pattern.len() as int;
    let i1 = if i + 1 < n {
        i + 1
    } else {
        0
    };
    let j1 = if j + 1 < m {
        j + 1
    } else {
        0
    };
    if i + 1 < n {
        vstd::arithmetic::div_mod::lemma_small_mod((i + 1) as nat, n as nat);
    } else {
        vstd::arithmetic::div_mod::lemma_mod_self_0(n);
    }
    if j + 1 < m {
        vstd::arithmetic::div_mod::lemma_small_mod((j + 1) as nat, m as nat);
    } else {
        vstd::arithmetic::div_mod::lemma_mod_self_0(m);
    }
    assert((i + 1) % n == i1);
    assert((j + 1) % m == j1);
    let _ = (path[i], pattern[j], path[i1], pattern[j1]);
    assert(fits_i64(path[i].x + pattern[j].x) || !is_sum);
    let q = minkowski_quad(pattern, path, i, j, is_sum);
    let ux = path[i1].x - path[i].x;
    let uy = path[i1].y - path[i].y;
    let vx = if is_sum {
        pattern[j1].x - pattern[j].x
    } else {
        pattern[j].x - pattern[j1].x
    };
    let vy = if is_sum {
        pattern[j1].y - pattern[j].y
    } else {
        pattern[j].y - pattern[j1].y
    };
    lemma_parallelogram_area(q, ux, uy, vx, vy);
    lemma_area2_reverse(q);
}

} // verus!
