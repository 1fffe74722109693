//! The location of a point relative to a closed path does not depend on
//! where the path starts or on the direction in which it runs.
use vstd::prelude::*;

use crate::geometry::{
    cross_about, edge_crosses_ray, edge_end, edge_on_point, on_some_edge, point_in_polygon_spec,
    ray_crossings, straddles, touches_at_end,
};
use crate::types::IntPoint;

verus! {

/// Whether `pt` is a point of the path `s`.
pub open spec fn is_vertex(pt: IntPoint, s: Seq<IntPoint>) -> bool {
    exists|j: int| 0 <= j < s.len() && s[j] == pt
}

/// An edge that does not end on `pt` passes through `pt`, and crosses the
/// ray from `pt`, whichever way it is walked.
proof fn lemma_edge_reversed(pt: IntPoint, a: IntPoint, b: IntPoint)
    requires
        a != pt,
        b != pt,
    ensures
        edge_on_point(pt, a, b) == edge_on_point(pt, b, a),
        !edge_on_point(pt, a, b) ==> edge_crosses_ray(pt, a, b) == edge_crosses_ray(pt, b, a),
{
    let ax = a.x - pt.x;
    let ay = a.y - pt.y;
    let bx = b.x - pt.x;
    let by = b.y - pt.y;
    let d = cross_about(pt, a, b);
    assert(d == ax * by - bx * ay);
    assert(cross_about(pt, b, a) == bx * ay - ax * by);
    assert(!(ax == 0 && ay == 0)) by {
        if ax == 0 && ay == 0 {
            assert(a == pt);
        }
    }
    assert(!(bx == 0 && by == 0)) by {
        if bx == 0 && by == 0 {
            assert(b == pt);
        }
    }
    assert(touches_at_end(pt, a, b) == touches_at_end(pt, b, a));
    if straddles(pt, a, b) {
        // the two ends lie strictly on either side of the line unless the
        // cross product is nonzero
        assert(ay == 0 ==> d != 0) by (nonlinear_arith)
            requires
                d == ax * by - bx * ay,
                ay == 0 ==> ax != 0,
                (ay < 0) != (by < 0),
        ;
        assert(by == 0 ==> d != 0) by (nonlinear_arith)
            requires
                d == ax * by - bx * ay,
                by == 0 ==> bx != 0,
                (ay < 0) != (by < 0),
        ;
        assert(d == 0 ==> (ax >= 0 && !(bx > 0)) || (ax < 0 && bx > 0)) by (nonlinear_arith)
            requires
                d == ax * by - bx * ay,
                ay != 0 || d != 0,
                by != 0 || d != 0,
                (ay < 0) != (by < 0),
        ;
        assert(d == 0 ==> (bx >= 0 && !(ax > 0)) || (bx < 0 && ax > 0)) by (nonlinear_arith)
            requires
                d == ax * by - bx * ay,
                ay != 0 || d != 0,
                by != 0 || d != 0,
                (ay < 0) != (by < 0),
        ;
        if ax == 0 {
            assert(ay != 0);
            assert(d == -(bx * ay)) by (nonlinear_arith)
                requires
                    d == ax * by - bx * ay,
                    ax == 0,
            ;
            assert(bx > 0 ==> (d < 0 <==> ay > 0)) by (nonlinear_arith)
                requires
                    d == -(bx * ay),
                    ay != 0,
            ;
            assert(bx < 0 ==> (d > 0 <==> ay > 0)) by (nonlinear_arith)
                requires
                    d == -(bx * ay),
                    ay != 0,
            ;
        }
        if bx == 0 {
            assert(by != 0);
            assert(d == ax * by) by (nonlinear_arith)
                requires
                    d == ax * by - bx * ay,
                    bx == 0,
            ;
            assert(ax > 0 ==> (d > 0 <==> by > 0)) by (nonlinear_arith)
                requires
                    d == ax * by,
                    by != 0,
            ;
            assert(ax < 0 ==> (d < 0 <==> by > 0)) by (nonlinear_arith)
                requires
                    d == ax * by,
                    by != 0,
            ;
        }
    }
}

/// A point of the path lies on the edge that ends there.
proof fn lemma_vertex_on_edge(pt: IntPoint, s: Seq<IntPoint>)
    requires
        is_vertex(pt, s),
    ensures
        on_some_edge(pt, s, s.len() as int),
{
    let j = choose|j: int| 0 <= j < s.len() && s[j] == pt;
    let i = if j > 0 {
        j - 1
    } else {
        s.len() - 1
    };
    assert(edge_end(s, i) == pt);
    assert(touches_at_end(pt, s[i], edge_end(s, i)));
    assert(edge_on_point(pt, s[i], edge_end(s, i)));
}

/// The path `s` started at its point `r`.
pub open spec fn rotated(s: Seq<IntPoint>, r: int) -> Seq<IntPoint> {
    s.subrange(r, s.len() as int) + s.subrange(0, r)
}

/// Edge `i` of the path started at `r` is edge `i + r` of `s`, counted
/// round.
proof fn lemma_rotated_edge(s: Seq<IntPoint>, r: int, i: int)
    requires
        0 <= r < s.len(),
        0 <= i < s.len(),
    ensures
        ({
            let j = if i < s.len() - r {
                i + r
            } else {
                i - (s.len() - r)
            };
            &&& 0 <= j < s.len()
            &&& rotated(s, r)[i] == s[j]
            &&& edge_end(rotated(s, r), i) == edge_end(s, j)
        }),
{
    let q = rotated(s, r);
    assert(q.len() == s.len());
}

/// The edges of the path started at `r` that cross the ray from `pt`,
/// among its first `k`, counted from those of `s`.
#[verifier::spinoff_prover]
proof fn lemma_rotated_crossings(pt: IntPoint, s: Seq<IntPoint>, r: int, k: int)
    requires
        0 <= r < s.len(),
        0 <= k <= s.len(),
    ensures
        ray_crossings(pt, rotated(s, r), k) == if k <= s.len() - r {
            ray_crossings(pt, s, r + k) - ray_crossings(pt, s, r)
        } else {
            ray_crossings(pt, s, s.len() as int) - ray_crossings(pt, s, r) + ray_crossings(
                pt,
                s,
                k - (s.len() - r),
            )
        },
    decreases k,
{
    if k > 0 {
        lemma_rotated_crossings(pt, s, r, k - 1);
        lemma_rotated_edge(s, r, k - 1);
        let n = s.len() as int;
        let q = rotated(s, r);
        let j = if k - 1 < n - r {
            k - 1 + r
        } else {
            k - 1 - (n - r)
        };
        let c = if edge_crosses_ray(pt, s[j], edge_end(s, j)) {
            1int
        } else {
            0int
        };
        assert(ray_crossings(pt, q, k) == ray_crossings(pt, q, k - 1) + c);
        if k <= n - r {
            assert(ray_crossings(pt, s, r + k) == ray_crossings(pt, s, r + k - 1) + c);
        } else {
            assert(ray_crossings(pt, s, k - (n - r)) == ray_crossings(pt, s, k - 1 - (n - r)) + c);
            if k - 1 <= n - r {
                assert(ray_crossings(pt, s, 0) == 0);
            }
        }
    }
}

/// Where the path starts does not change where `pt` lies relative to it;
/// the answer is one of -1 (on its boundary), 0 (outside) and 1 (inside).
pub proof fn lemma_location_rotated(pt: IntPoint, s: Seq<IntPoint>, r: int)
    requires
        0 <= r < s.len(),
    ensures
        point_in_polygon_spec(pt, rotated(s, r)) == point_in_polygon_spec(pt, s),
        -1 <= point_in_polygon_spec(pt, s) <= 1,
{
    let q = rotated(s, r);
    let n = s.len() as int;
    assert(q.len() == n);
    assert(on_some_edge(pt, q, n) == on_some_edge(pt, s, n)) by {
        if on_some_edge(pt, q, n) {
            let i = choose|i: int| 0 <= i < n && #[trigger] edge_on_point(pt, q[i], edge_end(q, i));
            lemma_rotated_edge(s, r, i);
            let j = if i < n - r {
                i + r
            } else {
                i - (n - r)
            };
            assert(edge_on_point(pt, s[j], edge_end(s, j)));
        }
        if on_some_edge(pt, s, n) {
            let j = choose|j: int| 0 <= j < n && #[trigger] edge_on_point(pt, s[j], edge_end(s, j));
            let i = if j >= r {
                j - r
            } else {
                j + n - r
            };
            lemma_rotated_edge(s, r, i);
            assert(edge_on_point(pt, q[i], edge_end(q, i)));
        }
    }
    lemma_rotated_crossings(pt, s, r, n);
}

/// Edge `i` of the reversed path is an edge of `s` walked backwards.
proof fn lemma_reversed_edge(s: Seq<IntPoint>, i: int)
    requires
        0 <= i < s.len(),
    ensures
        ({
            let j = if i < s.len() - 1 {
                s.len() - 2 - i
            } else {
                s.len() - 1
            };
            &&& 0 <= j < s.len()
            &&& s.reverse()[i] == edge_end(s, j)
            &&& edge_end(s.reverse(), i) == s[j]
        }),
{
}

/// The ends of every edge of `s` are points of `s`.
proof fn lemma_edge_ends_vertices(pt: IntPoint, s: Seq<IntPoint>, j: int)
    requires
        0 <= j < s.len(),
        !is_vertex(pt, s),
    ensures
        s[j] != pt,
        edge_end(s, j) != pt,
{
    if edge_end(s, j) == pt {
        if j + 1 < s.len() {
            assert(s[j + 1] == pt);
        } else {
            assert(s[0] == pt);
        }
    }
}

/// The edges of the reversed path that cross the ray from `pt`, among its
/// first `k`, counted from those of `s`, when no edge passes through
/// `pt`.
proof fn lemma_reversed_crossings(pt: IntPoint, s: Seq<IntPoint>, k: int)
    requires
        0 <= k < s.len(),
        !is_vertex(pt, s),
        !on_some_edge(pt, s, s.len() as int),
    ensures
        ray_crossings(pt, s.reverse(), k) == ray_crossings(pt, s, s.len() - 1) - ray_crossings(
            pt,
            s,
            s.len() - 1 - k,
        ),
    decreases k,
{
    if k > 0 {
        lemma_reversed_crossings(pt, s, k - 1);
        lemma_reversed_edge(s, k - 1);
        let j = s.len() - 1 - k;
        lemma_edge_ends_vertices(pt, s, j);
        assert(!edge_on_point(pt, s[j], edge_end(s, j)));
        lemma_edge_reversed(pt, s[j], edge_end(s, j));
    }
}

/// The direction in which the path runs does not change where `pt` lies
/// relative to it.
pub proof fn lemma_location_reversed(pt: IntPoint, s: Seq<IntPoint>)
    ensures
        point_in_polygon_spec(pt, s.reverse()) == point_in_polygon_spec(pt, s),
{
    let q = s.reverse();
    let n = s.len() as int;
    assert(q.len() == n);
    if n >= 3 {
        if is_vertex(pt, s) {
            let j = choose|j: int| 0 <= j < n && s[j] == pt;
            assert(q[n - 1 - j] == pt);
            lemma_vertex_on_edge(pt, s);
            lemma_vertex_on_edge(pt, q);
        } else {
            assert(on_some_edge(pt, q, n) == on_some_edge(pt, s, n)) by {
                if on_some_edge(pt, q, n) {
                    let i = choose|i: int|
                        0 <= i < n && #[trigger] edge_on_point(pt, q[i], edge_end(q, i));
                    lemma_reversed_edge(s, i);
                    let j = if i < n - 1 {
                        n - 2 - i
                    } else {
                        n - 1
                    };
                    lemma_edge_ends_vertices(pt, s, j);
                    lemma_edge_reversed(pt, s[j], edge_end(s, j));
                    assert(edge_on_point(pt, s[j], edge_end(s, j)));
                }
                if on_some_edge(pt, s, n) {
                    let j = choose|j: int|
                        0 <= j < n && #[trigger] edge_on_point(pt, s[j], edge_end(s, j));
                    let i = if j < n - 1 {
                        n - 2 - j
                    } else {
                        n - 1
                    };
                    lemma_reversed_edge(s, i);
                    lemma_edge_ends_vertices(pt, s, j);
                    lemma_edge_reversed(pt, s[j], edge_end(s, j));
                    assert(edge_on_point(pt, q[i], edge_end(q, i)));
                }
            }
            if !on_some_edge(pt, s, n) {
                lemma_reversed_crossings(pt, s, n - 1);
                lemma_reversed_edge(s, n - 1);
                lemma_edge_ends_vertices(pt, s, n - 1);
                assert(!edge_on_point(pt, s[n - 1], edge_end(s, n - 1)));
                lemma_edge_reversed(pt, s[n - 1], edge_end(s, n - 1));
                assert(ray_crossings(pt, s, 0) == 0);
            }
        }
    }
}

/// Where `pt` lies relative to a closed path of three or more points is
/// one of -1 (on its boundary), 0 (outside) and 1 (inside); it is the same
/// for the path started at any of its points and for the path run
/// backwards; and a point of the path lies on its boundary.
pub proof fn lemma_point_in_polygon_laws(pt: IntPoint, s: Seq<IntPoint>, r: int)
    requires
        s.len() >= 3,
        0 <= r < s.len(),
    ensures
        -1 <= point_in_polygon_spec(pt, s) <= 1,
        point_in_polygon_spec(pt, rotated(s, r)) == point_in_polygon_spec(pt, s),
        point_in_polygon_spec(pt, s.reverse()) == point_in_polygon_spec(pt, s),
        s.contains(pt) ==> point_in_polygon_spec(pt, s) == -1,
{
    lemma_location_rotated(pt, s, r);
    lemma_location_reversed(pt, s);
    if s.contains(pt) {
        let j = choose|j: int| 0 <= j < s.len() && s[j] == pt;
        assert(is_vertex(pt, s));
        lemma_vertex_on_edge(pt, s);
    }
}

/// Edge `k` of the path run round twice is edge `k` of `s`, counted round.
proof fn lemma_twice_edge(s: Seq<IntPoint>, k: int)
    requires
        s.len() >= 1,
        0 <= k < 2 * s.len(),
    ensures
        ({
            let j = if k < s.len() {
                k
            } else {
                k - s.len()
            };
            &&& (s + s)[k] == s[j]
            &&& edge_end(s + s, k) == edge_end(s, j)
        }),
{
}

/// The edges of the path run round twice that cross the ray from `pt`,
/// among its first `k`: those of `s`, counted over each round.
proof fn lemma_twice_crossings(pt: IntPoint, s: Seq<IntPoint>, k: int)
    requires
        s.len() >= 1,
        0 <= k <= 2 * s.len(),
    ensures
        ray_crossings(pt, s + s, k) == if k <= s.len() {
            ray_crossings(pt, s, k)
        } else {
            ray_crossings(pt, s, s.len() as int) + ray_crossings(pt, s, k - s.len())
        },
    decreases k,
{
    if k > 0 {
        lemma_twice_crossings(pt, s, k - 1);
        lemma_twice_edge(s, k - 1);
    }
}

/// By the even-odd rule a closed path run round twice encloses nothing:
/// every point not on the path is outside it, and the points on it are
/// those on the path run once. A point inside `s` (its ray crosses `s` an
/// odd number of times) crosses the doubled path an even number of times.
pub proof fn lemma_location_twice_round(pt: IntPoint, s: Seq<IntPoint>)
    requires
        s.len() >= 3,
    ensures
        point_in_polygon_spec(pt, s + s) == if point_in_polygon_spec(pt, s) == -1 {
            -1
        } else {
            0
        },
{
    let n = s.len() as int;
    let d = s + s;
    assert(d.len() == 2 * n);
    assert(on_some_edge(pt, d, 2 * n) == on_some_edge(pt, s, n)) by {
        if on_some_edge(pt, d, 2 * n) {
            let k = choose|k: int| 0 <= k < 2 * n && #[trigger] edge_on_point(pt, d[k], edge_end(d, k));
            lemma_twice_edge(s, k);
            let j = if k < n {
                k
            } else {
                k - n
            };
            assert(edge_on_point(pt, s[j], edge_end(s, j)));
        }
        if on_some_edge(pt, s, n) {
            let j = choose|j: int| 0 <= j < n && #[trigger] edge_on_point(pt, s[j], edge_end(s, j));
            lemma_twice_edge(s, j);
            assert(edge_on_point(pt, d[j], edge_end(d, j)));
        }
    }
    lemma_twice_crossings(pt, s, 2 * n);
    let c = ray_crossings(pt, s, n);
    assert((c + c) % 2 == 0) by (nonlinear_arith);
}

/// A point beyond every point of the path, to the right, above or below
/// it, lies outside: the ray from it meets no edge.
pub proof fn lemma_location_beyond(pt: IntPoint, s: Seq<IntPoint>)
    requires
        (forall|k: int| 0 <= k < s.len() ==> (#[trigger] s[k]).x < pt.x) || (forall|k: int|
            0 <= k < s.len() ==> (#[trigger] s[k]).y < pt.y) || (forall|k: int|
            0 <= k < s.len() ==> (#[trigger] s[k]).y > pt.y),
    ensures
        point_in_polygon_spec(pt, s) == 0,
{
    if s.len() >= 3 {
        let n = s.len() as int;
        assert forall|k: int| 0 <= k < n implies !#[trigger] edge_on_point(pt, s[k], edge_end(s, k))
            && !edge_crosses_ray(pt, s[k], edge_end(s, k)) by {
            let b = edge_end(s, k);
            if k + 1 < n {
                assert(b == s[k + 1]);
            } else {
                assert(b == s[0]);
            }
        }
        lemma_no_crossings(pt, s, n);
    }
}

/// No edge among the first `k` crosses the ray: no crossings are counted.
proof fn lemma_no_crossings(pt: IntPoint, s: Seq<IntPoint>, k: int)
    requires
        0 <= k <= s.len(),
        forall|j: int| 0 <= j < s.len() ==> !#[trigger] edge_on_point(pt, s[j], edge_end(s, j))
            && !edge_crosses_ray(pt, s[j], edge_end(s, j)),
    ensures
        ray_crossings(pt, s, k) == 0,
    decreases k,
{
    if k > 0 {
        lemma_no_crossings(pt, s, k - 1);
        assert(!edge_on_point(pt, s[k - 1], edge_end(s, k - 1)));
    }
}

/// A point strictly inside an axis-aligned rectangle, walked from any of
/// its corners round its sides, lies inside it.
pub proof fn lemma_location_in_rectangle(pt: IntPoint, l: i64, t: i64, r: i64, b: i64)
    requires
        l < pt.x < r,
        t < pt.y < b,
    ensures
        point_in_polygon_spec(
            pt,
            seq![
                IntPoint { x: l, y: t },
                IntPoint { x: r, y: t },
                IntPoint { x: r, y: b },
                IntPoint { x: l, y: b },
            ],
        ) == 1,
{
    let s = seq![
        IntPoint { x: l, y: t },
        IntPoint { x: r, y: t },
        IntPoint { x: r, y: b },
        IntPoint { x: l, y: b },
    ];
    assert(edge_end(s, 0) == s[1]);
    assert(edge_end(s, 1) == s[2]);
    assert(edge_end(s, 2) == s[3]);
    assert(edge_end(s, 3) == s[0]);
    assert(!edge_on_point(pt, s[0], s[1]));
    assert(!edge_on_point(pt, s[1], s[2]));
    assert(!edge_on_point(pt, s[2], s[3]));
    assert(!edge_on_point(pt, s[3], s[0]));
    assert(!on_some_edge(pt, s, 4));
    assert(!edge_crosses_ray(pt, s[0], s[1]));
    assert(edge_crosses_ray(pt, s[1], s[2]));
    assert(!edge_crosses_ray(pt, s[2], s[3]));
    assert(!edge_crosses_ray(pt, s[3], s[0]));
    assert(ray_crossings(pt, s, 0) == 0);
    assert(ray_crossings(pt, s, 1) == 0);
    assert(ray_crossings(pt, s, 2) == 1);
    assert(ray_crossings(pt, s, 3) == 1);
    assert(ray_crossings(pt, s, 4) == 1);
}

} // verus!
