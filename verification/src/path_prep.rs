//! The vertex clean-up that a clipper applies to each input path before it
//! builds edges from it: trailing repeats dropped, coordinates range
//! checked, and repeated and (for closed paths) collinear vertices removed.
use vstd::prelude::*;

use crate::error::{ClipperError, Result};
use crate::geometry::{
    fits_i64, pt2_between_spec, pt2_is_between_pt1_and_pt3, range_test, slopes_equal_3_points,
    slopes_equal_3_spec, within_range,
};
use crate::fixup::{lemma_without_repeats_fixed, without_repeats};
use crate::offset::trim_closing;
use crate::types::{HI_RANGE, IntPoint, LO_RANGE, Path, PolyType};

verus! {

/// Last index kept of `s[..=h]` once trailing repeats of the previous point
/// are dropped.
pub open spec fn trim_repeats(s: Seq<IntPoint>, h: int) -> int
    decreases h,
{
    if h > 0 && s[h] == s[h - 1] {
        trim_repeats(s, h - 1)
    } else {
        h
    }
}

/// Last index of `pg` that edge building looks at: for a closed path the
/// trailing copies of the first point are dropped first, then (for any
/// path) trailing repeats.
pub open spec fn kept_high(pg: Seq<IntPoint>, closed: bool) -> int {
    let h = if closed {
        trim_closing(pg, pg.len() - 1)
    } else {
        pg.len() - 1
    };
    trim_repeats(pg, h)
}

/// Too few points are left to make edges.
pub open spec fn too_short(pg: Seq<IntPoint>, closed: bool) -> bool {
    pg.len() == 0 || (closed && kept_high(pg, closed) < 2) || (!closed && kept_high(pg, closed) < 1)
}

/// Some point of `pg[..=h]` lies outside `[-limit, limit]`.
pub open spec fn some_outside(pg: Seq<IntPoint>, h: int, limit: int) -> bool {
    exists|j: int| 0 <= j <= h && !within_range(#[trigger] pg[j], limit)
}

/// `sub` is `s` with some elements left out, the others kept in order.
pub open spec fn is_subsequence(sub: Seq<IntPoint>, s: Seq<IntPoint>) -> bool {
    exists|idx: Seq<int>|
        #![trigger idx.len()]
        idx.len() == sub.len() && (forall|i: int, j: int|
            0 <= i < j < idx.len() ==> idx[i] < idx[j]) && (forall|i: int|
            0 <= i < idx.len() ==> 0 <= #[trigger] idx[i] < s.len() && sub[i] == s[idx[i]])
}

/// `out` is `r` rotated to start at `r[k]`.
pub open spec fn rotation_of(out: Seq<IntPoint>, r: Seq<IntPoint>, k: int) -> bool {
    0 <= k < r.len() && out == r.subrange(k, r.len() as int) + r.subrange(0, k)
}

/// `out` is the subsequence `ring` of `s`, rotated to start at `ring[k]`.
pub open spec fn rotated_subsequence(
    out: Seq<IntPoint>,
    ring: Seq<IntPoint>,
    k: int,
    s: Seq<IntPoint>,
) -> bool {
    is_subsequence(ring, s) && rotation_of(out, ring, k)
}

/// Successor index on a ring of `m` vertices.
pub open spec fn ring_next(i: int, m: int) -> int {
    if i + 1 == m {
        0
    } else {
        i + 1
    }
}

/// Predecessor index on a ring of `m` vertices.
pub open spec fn ring_prev(i: int, m: int) -> int {
    if i == 0 {
        m - 1
    } else {
        i - 1
    }
}

/// Vertex `i` of the closed ring `r` would be removed: it repeats its
/// successor, or it lies on the line through its neighbours (and, when
/// collinear vertices are preserved, not between them).
pub open spec fn removable(r: Seq<IntPoint>, i: int, preserve_collinear: bool) -> bool {
    let m = r.len() as int;
    let p = r[ring_prev(i, m)];
    let n = r[ring_next(i, m)];
    r[i] == n || (slopes_equal_3_spec(p, r[i], n) && (!preserve_collinear || !pt2_between_spec(
        p,
        r[i],
        n,
    )))
}

/// The clean-up walk over the ring `r` at vertex `cur`, the ring being
/// read from vertex `start`, `steps` vertices after the last removal (at
/// `stop`): a vertex that repeats its successor is removed (on an open
/// path, not the one before the start), then, on a closed ring, one that
/// lies on the line through its neighbours (and, when collinear vertices
/// are preserved, not between them); the walk goes back to the successor
/// of a repeat and to the predecessor of a collinear vertex, the start
/// moving on when its vertex goes. It ends on a ring of fewer than three
/// vertices, after a lap without removal, or, on an open path, on
/// reaching the vertex before the start. The result is the ring and its
/// start.
pub open spec fn clean_walk(
    r: Seq<IntPoint>,
    cur: int,
    start: int,
    stop: int,
    steps: int,
    closed: bool,
    preserve_collinear: bool,
) -> (Seq<IntPoint>, int)
    decreases r.len(), r.len() - steps,
{
    let m = r.len() as int;
    if !(0 <= cur < m && 0 <= start < m && 0 <= stop < m && 0 <= steps < m) {
        (r, start)
    } else {
        let nx = ring_next(cur, m);
        let pv = ring_prev(cur, m);
        let moved = if cur == start {
            nx
        } else {
            start
        };
        let start2 = if moved > cur {
            moved - 1
        } else {
            moved
        };
        if r[cur] == r[nx] && (closed || nx != start) {
            if m == 1 {
                (r, start)
            } else {
                let cur2 = if cur == m - 1 {
                    0
                } else {
                    cur
                };
                clean_walk(r.remove(cur), cur2, start2, cur2, 0, closed, preserve_collinear)
            }
        } else if m <= 2 {
            (r, start)
        } else if closed && slopes_equal_3_spec(r[pv], r[cur], r[nx]) && (!preserve_collinear
            || !pt2_between_spec(r[pv], r[cur], r[nx])) {
            let cur2 = if cur == 0 {
                m - 2
            } else {
                cur - 1
            };
            clean_walk(r.remove(cur), cur2, start2, cur2, 0, closed, preserve_collinear)
        } else if nx == stop || steps + 1 >= m || (!closed && ring_next(nx, m) == start) {
            (r, start)
        } else {
            clean_walk(r, nx, start, stop, steps + 1, closed, preserve_collinear)
        }
    }
}

/// The ring that `clean_walk` leaves of `src` walked from its first
/// vertex, read from its start.
pub open spec fn cleaned_path(src: Seq<IntPoint>, closed: bool, preserve_collinear: bool) -> Seq<
    IntPoint,
> {
    let (r, start) = clean_walk(src, 0, 0, 0, 0, closed, preserve_collinear);
    r.subrange(start, r.len() as int) + r.subrange(0, start)
}

/// Vertex `i` of `r` may be cleaned away: for a closed path when it is
/// `removable`, for an open one when it repeats the next vertex.
pub open spec fn cleanable(r: Seq<IntPoint>, i: int, closed: bool, preserve_collinear: bool) -> bool {
    if closed {
        removable(r, i, preserve_collinear)
    } else {
        i + 1 < r.len() && r[i] == r[i + 1]
    }
}

/// `b` is `a` after `n` clean-up steps, each taking away one vertex that
/// may be cleaned away at that point.
pub open spec fn cleans_in(
    a: Seq<IntPoint>,
    b: Seq<IntPoint>,
    n: nat,
    closed: bool,
    preserve_collinear: bool,
) -> bool
    decreases n,
{
    if n == 0 {
        a == b
    } else {
        exists|i: int|
            0 <= i < a.len() && #[trigger] cleanable(a, i, closed, preserve_collinear) && cleans_in(
                a.remove(i),
                b,
                (n - 1) as nat,
                closed,
                preserve_collinear,
            )
    }
}

/// Dropping repeats keeps the last point.
proof fn lemma_without_repeats_last(p: Seq<IntPoint>)
    requires
        p.len() > 0,
    ensures
        without_repeats(p).len() > 0,
        without_repeats(p).last() == p.last(),
{
}

/// Taking away a point equal to the next one changes nothing once
/// repeats are dropped.
proof fn lemma_drop_repeat(p: Seq<IntPoint>, i: int)
    requires
        0 <= i,
        i + 1 < p.len(),
        p[i] == p[i + 1],
    ensures
        without_repeats(p.remove(i)) == without_repeats(p),
    decreases p.len(),
{
    let q = p.remove(i);
    if i + 2 == p.len() {
        assert(q =~= p.drop_last());
        lemma_without_repeats_last(p.drop_last());
    } else {
        assert(q.drop_last() =~= p.drop_last().remove(i));
        assert(q.last() == p.last());
        lemma_drop_repeat(p.drop_last(), i);
    }
}

/// Clean-up steps on an open path change nothing once repeats are
/// dropped.
proof fn lemma_open_cleans_same(
    a: Seq<IntPoint>,
    b: Seq<IntPoint>,
    n: nat,
    preserve_collinear: bool,
)
    requires
        cleans_in(a, b, n, false, preserve_collinear),
    ensures
        without_repeats(a) == without_repeats(b),
    decreases n,
{
    if n > 0 {
        let i = choose|i: int|
            0 <= i < a.len() && #[trigger] cleanable(a, i, false, preserve_collinear) && cleans_in(
                a.remove(i),
                b,
                (n - 1) as nat,
                false,
                preserve_collinear,
            );
        lemma_open_cleans_same(a.remove(i), b, (n - 1) as nat, preserve_collinear);
        lemma_drop_repeat(a, i);
    }
}

/// One more clean-up step at the end of a run of them.
proof fn lemma_cleans_step(
    a: Seq<IntPoint>,
    b: Seq<IntPoint>,
    n: nat,
    i: int,
    closed: bool,
    preserve_collinear: bool,
)
    requires
        cleans_in(a, b, n, closed, preserve_collinear),
        0 <= i < b.len(),
        cleanable(b, i, closed, preserve_collinear),
    ensures
        cleans_in(a, b.remove(i), n + 1, closed, preserve_collinear),
    decreases n,
{
    if n == 0 {
        assert(cleans_in(a.remove(i), b.remove(i), 0, closed, preserve_collinear));
        assert(cleanable(a, i, closed, preserve_collinear));
    } else {
        let j = choose|j: int|
            0 <= j < a.len() && #[trigger] cleanable(a, j, closed, preserve_collinear) && cleans_in(
                a.remove(j),
                b,
                (n - 1) as nat,
                closed,
                preserve_collinear,
            );
        lemma_cleans_step(a.remove(j), b, (n - 1) as nat, i, closed, preserve_collinear);
        assert(((n + 1) - 1) as nat == ((n - 1) as nat) + 1);
    }
}

proof fn lemma_trim_repeats_range(s: Seq<IntPoint>, h: int)
    requires
        0 <= h,
    ensures
        0 <= trim_repeats(s, h) <= h,
    decreases h,
{
    if h > 0 && s[h] == s[h - 1] {
        lemma_trim_repeats_range(s, h - 1);
    }
}

proof fn lemma_trim_closing_range(s: Seq<IntPoint>, h: int)
    requires
        0 <= h,
    ensures
        0 <= trim_closing(s, h) <= h,
    decreases h,
{
    if h > 0 && s[0] == s[h] {
        lemma_trim_closing_range(s, h - 1);
    }
}

proof fn lemma_lap(stop: int, steps: int, m: int)
    requires
        0 <= stop < m,
        1 <= steps <= m,
    ensures
        ((stop + steps) % m == stop) <==> steps == m,
        0 <= (stop + steps) % m < m,
{
    if stop + steps < m {
        vstd::arithmetic::div_mod::lemma_small_mod((stop + steps) as nat, m as nat);
    } else {
        vstd::arithmetic::div_mod::lemma_mod_add_multiples_vanish(stop + steps - m, m);
        vstd::arithmetic::div_mod::lemma_small_mod((stop + steps - m) as nat, m as nat);
    }
}

/// Removes ring vertex `i`, keeping the index map of the ring's vertices.
fn ring_remove(ring: &mut Vec<IntPoint>, i: usize, Ghost(idx): Ghost<Seq<int>>, Ghost(
    src,
): Ghost<Seq<IntPoint>>) -> (r: Ghost<Seq<int>>)
    requires
        i < old(ring)@.len(),
        idx.len() == old(ring)@.len(),
        forall|a: int, b: int| 0 <= a < b < idx.len() ==> idx[a] < idx[b],
        forall|a: int|
            0 <= a < idx.len() ==> 0 <= #[trigger] idx[a] < src.len() && old(ring)@[a]
                == src[idx[a]],
    ensures
        final(ring)@ == old(ring)@.remove(i as int),
        r@ == idx.remove(i as int),
        r@.len() == final(ring)@.len(),
        forall|a: int, b: int| 0 <= a < b < r@.len() ==> r@[a] < r@[b],
        forall|a: int|
            0 <= a < r@.len() ==> 0 <= #[trigger] r@[a] < src.len() && final(ring)@[a]
                == src[r@[a]],
{
    ring.remove(i);
    let ghost nidx = idx.remove(i as int);
    assert forall|a: int, b: int| 0 <= a < b < nidx.len() implies nidx[a] < nidx[b] by {
        if a < i {
            if b < i {
            } else {
                assert(nidx[b] == idx[b + 1]);
            }
        } else {
            assert(nidx[a] == idx[a + 1]);
            assert(nidx[b] == idx[b + 1]);
        }
    }
    assert forall|a: int| 0 <= a < nidx.len() implies 0 <= #[trigger] nidx[a] < src.len()
        && ring@[a] == src[nidx[a]] by {
        if a >= i {
            assert(nidx[a] == idx[a + 1]);
        }
    }
    Ghost(nidx)
}

/// The vertices that edge building keeps of `pg`, in ring order from the
/// first kept edge. Open clip paths are refused; paths with too few points
/// are skipped (`None`) before their coordinates are checked; a coordinate
/// beyond `HI_RANGE` is refused, one beyond `LO_RANGE` switches
/// `use_full_range` on; then repeated vertices, and for closed paths
/// collinear ones, are removed one at a time (see `cleans_in`) by the walk
/// `clean_walk`, whose ring, read from its start, is the result
/// (`cleaned_path`), and the path is skipped when too few remain.
#[verifier::spinoff_prover]
#[verifier::rlimit(100)]
pub fn add_path_vertices(
    pg: &Path,
    poly_type: PolyType,
    closed: bool,
    preserve_collinear: bool,
    use_full_range: &mut bool,
) -> (r: Result<Option<Path>>)
    ensures
        !closed && poly_type == PolyType::Clip ==> {
            &&& r matches Err(e) && e.message@ == "AddPath: Open paths must be subject."@
            &&& *final(use_full_range) == *old(use_full_range)
        },
        !(!closed && poly_type == PolyType::Clip) && too_short(pg@, closed) ==> {
            &&& r matches Ok(None)
            &&& *final(use_full_range) == *old(use_full_range)
        },
        !(!closed && poly_type == PolyType::Clip) && !too_short(pg@, closed) ==> *final(use_full_range)
            == (*old(use_full_range) || some_outside(pg@, kept_high(pg@, closed), LO_RANGE as int)),
        !(!closed && poly_type == PolyType::Clip) && !too_short(pg@, closed) ==> (r is Err
            <==> some_outside(pg@, kept_high(pg@, closed), HI_RANGE as int)),
        !(!closed && poly_type == PolyType::Clip) && !too_short(pg@, closed) ==> (r matches Err(e)
            ==> e.message@ == "Coordinate outside allowed range"@),
        r matches Ok(Some(out)) ==> out@.len() >= if closed {
            3int
        } else {
            2int
        },
        r matches Ok(Some(out)) ==> out@ == cleaned_path(
            pg@.subrange(0, kept_high(pg@, closed) + 1),
            closed,
            preserve_collinear,
        ),
        !(!closed && poly_type == PolyType::Clip) && !too_short(pg@, closed) && !some_outside(
            pg@,
            kept_high(pg@, closed),
            HI_RANGE as int,
        ) ==> (r matches Ok(Some(_)) <==> clean_walk(
            pg@.subrange(0, kept_high(pg@, closed) + 1),
            0,
            0,
            0,
            0,
            closed,
            preserve_collinear,
        ).0.len() > if closed {
            2int
        } else {
            1int
        }),
        r matches Ok(Some(out)) ==> exists|ring: Seq<IntPoint>, k: int|
            #[trigger] rotated_subsequence(out@, ring, k, pg@.subrange(0, kept_high(pg@, closed) + 1)),
        r matches Ok(Some(out)) ==> (closed ==> forall|i: int|
            0 <= i < out@.len() ==> !#[trigger] removable(out@, i, preserve_collinear)),
        r matches Ok(Some(out)) ==> (!closed ==> is_subsequence(
            out@,
            pg@.subrange(0, kept_high(pg@, closed) + 1),
        )),
        r matches Ok(Some(out)) ==> (!closed ==> forall|i: int|
            0 <= i < out@.len() - 1 ==> #[trigger] out@[i] != out@[i + 1]),
        r matches Ok(Some(out)) ==> (!closed ==> out@ == without_repeats(
            pg@.subrange(0, kept_high(pg@, closed) + 1),
        )),
        r matches Ok(Some(out)) ==> exists|ring: Seq<IntPoint>, k: int, n: nat|
            #[trigger] cleans_in(
                pg@.subrange(0, kept_high(pg@, closed) + 1),
                ring,
                n,
                closed,
                preserve_collinear,
            ) && #[trigger] rotation_of(out@, ring, k),
        r is Ok && !(r matches Ok(Some(_))) && !(!closed && poly_type == PolyType::Clip)
            && !too_short(pg@, closed) ==> exists|ring: Seq<IntPoint>, n: nat|
            #[trigger] cleans_in(
                pg@.subrange(0, kept_high(pg@, closed) + 1),
                ring,
                n,
                closed,
                preserve_collinear,
            ) && ring.len() <= if closed {
                2int
            } else {
                1int
            },
{
    if !closed && poly_type == PolyType::Clip {
        return Err(ClipperError::new("AddPath: Open paths must be subject."));
    }
    let len = pg.len();
    if len == 0 {
        return Ok(None);
    }
    let ghost s = pg@;
    let mut high_i = len - 1;
    if closed {
        while high_i > 0 && pg[high_i] == pg[0]
            invariant
                s == pg@,
                len == s.len(),
                high_i < len,
                trim_closing(s, len - 1) == trim_closing(s, high_i as int),
            decreases high_i,
        {
            high_i -= 1;
        }
    }
    let ghost h0 = high_i as int;
    while high_i > 0 && pg[high_i] == pg[high_i - 1]
        invariant
            s == pg@,
            len == s.len(),
            high_i as int <= h0 < len,
            trim_repeats(s, h0) == trim_repeats(s, high_i as int),
        decreases high_i,
    {
        high_i -= 1;
    }
    assert(high_i == kept_high(s, closed));
    if (closed && high_i < 2) || (!closed && high_i < 1) {
        return Ok(None);
    }
    // range checks, every kept point
    let ghost old_full = *use_full_range;
    let mut j: usize = 0;
    while j <= high_i
        invariant
            s == pg@,
            len == s.len(),
            high_i < len,
            j <= high_i + 1,
            *use_full_range == (old_full || some_outside(s, j - 1, LO_RANGE as int)),
            !some_outside(s, j - 1, HI_RANGE as int),
            old_full == *old(use_full_range),
            !(!closed && poly_type == PolyType::Clip),
            high_i == kept_high(s, closed),
            !too_short(s, closed),
        decreases high_i + 1 - j,
    {
        let rt = range_test(pg[j], use_full_range);
        if rt.is_err() {
            proof {
                assert(!within_range(s[j as int], LO_RANGE as int));
                assert(some_outside(s, high_i as int, HI_RANGE as int));
                assert(some_outside(s, high_i as int, LO_RANGE as int));
            }
            return Err(ClipperError::new("Coordinate outside allowed range"));
        }
        proof {
            assert forall|t: int|
                0 <= t <= j && !within_range(#[trigger] s[t], LO_RANGE as int) implies t < j
                || !within_range(s[j as int], LO_RANGE as int) by {}
            if some_outside(s, j as int, LO_RANGE as int) {
                let t = choose|t: int| 0 <= t <= j && !within_range(#[trigger] s[t], LO_RANGE as int);
                if t < j {
                    assert(some_outside(s, j - 1, LO_RANGE as int));
                }
            }
            if some_outside(s, j - 1, LO_RANGE as int) {
                let t = choose|t: int|
                    0 <= t <= j - 1 && !within_range(#[trigger] s[t], LO_RANGE as int);
                assert(some_outside(s, j as int, LO_RANGE as int));
            }
            if some_outside(s, j as int, HI_RANGE as int) {
                let t = choose|t: int| 0 <= t <= j && !within_range(#[trigger] s[t], HI_RANGE as int);
                if t < j {
                    assert(some_outside(s, j - 1, HI_RANGE as int));
                }
            }
        }
        j += 1;
    }
    let full = *use_full_range;
    // the ring of kept vertices
    let mut ring: Vec<IntPoint> = Vec::new();
    let mut k: usize = 0;
    while k <= high_i
        invariant
            s == pg@,
            high_i < len,
            len == s.len(),
            k <= high_i + 1,
            ring@ == s.subrange(0, k as int),
        decreases high_i + 1 - k,
    {
        ring.push(pg[k]);
        k += 1;
        assert(ring@ =~= s.subrange(0, k as int));
    }
    let ghost src = s.subrange(0, high_i + 1);
    let ghost mut idx: Seq<int> = Seq::new((high_i + 1) as nat, |i: int| i);
    assert(ring@ == src);
    proof {
        assert forall|t: int| 0 <= t < src.len() implies within_range(#[trigger] src[t], HI_RANGE as int)
            && (full || within_range(src[t], LO_RANGE as int)) by {
            assert(src[t] == s[t]);
            if !within_range(s[t], HI_RANGE as int) {
                assert(some_outside(s, high_i as int, HI_RANGE as int));
            }
            if !full && !within_range(s[t], LO_RANGE as int) {
                assert(some_outside(s, high_i as int, LO_RANGE as int));
            }
        }
    }
    let mut cur: usize = 0;
    let mut start: usize = 0;
    let mut stop: usize = 0;
    let mut steps: usize = 0;
    let ghost mut ntr: nat = 0;
    // an open path's walk has gone past its last vertex
    let ghost mut done = false;
    proof {
        vstd::arithmetic::div_mod::lemma_small_mod(0, ring@.len());
    }
    loop
        invariant_except_break
            ring@.len() >= 1,
            cur < ring@.len(),
            stop < ring@.len(),
            steps < ring@.len(),
            cur as int == (stop + steps) % (ring@.len() as int),
            !closed && !done ==> cur == stop + steps,
            !closed ==> forall|t: int|
                0 <= t < ring@.len() - 1 && (t < cur || done) ==> #[trigger] ring@[t] != ring@[t
                    + 1],
            clean_walk(ring@, cur as int, start as int, stop as int, steps as int, closed, preserve_collinear) == clean_walk(
                src,
                0,
                0,
                0,
                0,
                closed,
                preserve_collinear,
            ),
        invariant
            !closed ==> start == 0,
            start < ring@.len(),
            1 <= ring@.len() <= high_i + 1,
            cleans_in(src, ring@, ntr, closed, preserve_collinear),
            idx.len() == ring@.len(),
            forall|a: int, b: int| 0 <= a < b < idx.len() ==> idx[a] < idx[b],
            forall|a: int|
                0 <= a < idx.len() ==> 0 <= #[trigger] idx[a] < src.len() && ring@[a]
                    == src[idx[a]],
            forall|t: int|
                0 <= t < src.len() ==> within_range(#[trigger] src[t], HI_RANGE as int) && (full
                    || within_range(src[t], LO_RANGE as int)),
            closed ==> forall|t: int|
                0 <= t < steps ==> !#[trigger] removable(
                    ring@,
                    (stop + t) % (ring@.len() as int),
                    preserve_collinear,
                ),
        ensures
            clean_walk(src, 0, 0, 0, 0, closed, preserve_collinear) == (ring@, start as int),
            !closed ==> start == 0,
            !closed ==> forall|t: int|
                0 <= t < ring@.len() - 1 ==> #[trigger] ring@[t] != ring@[t + 1],
            start < ring@.len(),
            1 <= ring@.len(),
            closed && ring@.len() >= 3 ==> forall|t: int|
                0 <= t < ring@.len() ==> !#[trigger] removable(ring@, t, preserve_collinear),
        decreases ring@.len(), ring@.len() - steps,
    {
        let ghost (r0, c0, st0, sp0, n0) = (
            ring@,
            cur as int,
            start as int,
            stop as int,
            steps as int,
        );
        let m = ring.len();
        let nx = if cur + 1 == m {
            0
        } else {
            cur + 1
        };
        let pv = if cur == 0 {
            m - 1
        } else {
            cur - 1
        };
        if ring[cur] == ring[nx] && (closed || nx != start) {
            if m == 1 {
                assert(clean_walk(r0, c0, st0, sp0, n0, closed, preserve_collinear) == (ring@, start as int));
                break;
            }
            if cur == start {
                start = nx;
            }
            proof {
                if !closed && done {
                    assert(ring@[cur as int] != ring@[cur as int + 1]);
                }
            }
            let ghost before = ring@;
            let ghost gi = idx;
            proof {
                assert(cleanable(before, cur as int, closed, preserve_collinear));
                lemma_cleans_step(src, before, ntr, cur as int, closed, preserve_collinear);
            }
            let gidx = ring_remove(&mut ring, cur, Ghost(gi), Ghost(src));
            proof {
                ntr = ntr + 1;
                idx = gidx@;
                if !closed {
                    assert forall|t: int| 0 <= t < ring@.len() - 1 && t < cur implies #[trigger] ring@[t]
                        != ring@[t + 1] by {
                        if t + 1 == cur {
                            assert(before[t] != before[t + 1]);
                            assert(ring@[t + 1] == before[t + 2]);
                        } else {
                            assert(before[t] != before[t + 1]);
                        }
                    }
                }
            }
            // the successor now sits at `cur`, or at 0 when `cur` was last
            if start > cur {
                start -= 1;
            }
            if cur == m - 1 {
                cur = 0;
            }
            stop = cur;
            steps = 0;
            proof {
                vstd::arithmetic::div_mod::lemma_small_mod(cur as nat, ring@.len());
            }
            assert(clean_walk(ring@, cur as int, start as int, stop as int, steps as int, closed, preserve_collinear) == clean_walk(r0, c0, st0, sp0, n0, closed, preserve_collinear));
            continue;
        }
        if m <= 2 {
            proof {
                if !closed && m == 2 && cur == 0 && !done {
                    assert(ring@[0] != ring@[1]);
                }
            }
            assert(clean_walk(r0, c0, st0, sp0, n0, closed, preserve_collinear) == (ring@, start as int));
            break;
        }
        let is_col = if closed {
            proof {
                let p = ring@[pv as int];
                let c = ring@[cur as int];
                let q = ring@[nx as int];
                assert(within_range(src[idx[pv as int]], HI_RANGE as int));
                assert(within_range(src[idx[cur as int]], HI_RANGE as int));
                assert(within_range(src[idx[nx as int]], HI_RANGE as int));
                if !full {
                    assert(within_range(src[idx[pv as int]], LO_RANGE as int));
                    assert(within_range(src[idx[cur as int]], LO_RANGE as int));
                    assert(within_range(src[idx[nx as int]], LO_RANGE as int));
                    assert(-0x8000_0000 <= (p.y - c.y) <= 0x8000_0000);
                    assert(-0x8000_0000 <= (c.x - q.x) <= 0x8000_0000);
                    assert(-0x8000_0000 <= (p.x - c.x) <= 0x8000_0000);
                    assert(-0x8000_0000 <= (c.y - q.y) <= 0x8000_0000);
                    assert(fits_i64((p.y - c.y) * (c.x - q.x))) by (nonlinear_arith)
                        requires
                            -0x8000_0000 <= (p.y - c.y) <= 0x8000_0000,
                            -0x8000_0000 <= (c.x - q.x) <= 0x8000_0000,
                    ;
                    assert(fits_i64((p.x - c.x) * (c.y - q.y))) by (nonlinear_arith)
                        requires
                            -0x8000_0000 <= (p.x - c.x) <= 0x8000_0000,
                            -0x8000_0000 <= (c.y - q.y) <= 0x8000_0000,
                    ;
                }
            }
            slopes_equal_3_points(ring[pv], ring[cur], ring[nx], full) && (!preserve_collinear
                || !pt2_is_between_pt1_and_pt3(ring[pv], ring[cur], ring[nx]))
        } else {
            false
        };
        if is_col {
            if cur == start {
                start = nx;
            }
            let ghost gi = idx;
            proof {
                assert(cleanable(ring@, cur as int, closed, preserve_collinear));
                lemma_cleans_step(src, ring@, ntr, cur as int, closed, preserve_collinear);
            }
            let gidx = ring_remove(&mut ring, cur, Ghost(gi), Ghost(src));
            proof {
                ntr = ntr + 1;
                idx = gidx@;
            }
            if start > cur {
                start -= 1;
            }
            // step back to the predecessor of the removed vertex
            cur = if cur == 0 {
                m - 2
            } else {
                cur - 1
            };
            stop = cur;
            steps = 0;
            proof {
                vstd::arithmetic::div_mod::lemma_small_mod(cur as nat, ring@.len());
            }
            assert(clean_walk(ring@, cur as int, start as int, stop as int, steps as int, closed, preserve_collinear) == clean_walk(r0, c0, st0, sp0, n0, closed, preserve_collinear));
            continue;
        }
        proof {
            if closed {
                assert(!removable(ring@, cur as int, preserve_collinear));
                assert(cur as int == (stop + steps) % (m as int));
            }
        }
        let ghost old_steps = steps;
        proof {
            if !closed {
                if nx != 0 {
                    assert(ring@[cur as int] != ring@[nx as int]);
                }
                if nx == 0 {
                    done = true;
                }
            }
        }
        cur = nx;
        steps += 1;
        proof {
            vstd::arithmetic::div_mod::lemma_add_mod_noop(stop + old_steps, 1, m as int);
            vstd::arithmetic::div_mod::lemma_small_mod(1, m as nat);
            if (stop + old_steps) % (m as int) + 1 == m {
                vstd::arithmetic::div_mod::lemma_mod_self_0(m as int);
            } else {
                vstd::arithmetic::div_mod::lemma_small_mod(
                    ((stop + old_steps) % (m as int) + 1) as nat,
                    m as nat,
                );
            }
            lemma_lap(stop as int, steps as int, m as int);
        }
        if cur == stop {
            proof {
                if closed {
                    assert forall|t: int| 0 <= t < m implies !#[trigger] removable(
                        ring@,
                        t,
                        preserve_collinear,
                    ) by {
                        let u = if t >= stop {
                            t - stop
                        } else {
                            t + m - stop
                        };
                        assert(0 <= u < m);
                        if t >= stop {
                            vstd::arithmetic::div_mod::lemma_small_mod(t as nat, m as nat);
                        } else {
                            vstd::arithmetic::div_mod::lemma_mod_add_multiples_vanish(t, m as int);
                            vstd::arithmetic::div_mod::lemma_small_mod(t as nat, m as nat);
                        }
                        assert(!removable(ring@, (stop + u) % (m as int), preserve_collinear));
                    }
                }
            }
            assert(clean_walk(r0, c0, st0, sp0, n0, closed, preserve_collinear) == (ring@, start as int));
            break;
        }
        if !closed && (if cur + 1 == m {
            0
        } else {
            cur + 1
        }) == start {
            assert(clean_walk(r0, c0, st0, sp0, n0, closed, preserve_collinear) == (ring@, start as int));
            break;
        }
        assert(clean_walk(ring@, cur as int, start as int, stop as int, steps as int, closed, preserve_collinear) == clean_walk(r0, c0, st0, sp0, n0, closed, preserve_collinear));
    }
    let m = ring.len();
    if (!closed && m == 1) || (closed && m <= 2) {
        proof {
            assert(cleans_in(pg@.subrange(0, kept_high(pg@, closed) + 1), ring@, ntr, closed, preserve_collinear));
        }
        return Ok(None);
    }
    // the ring, read from the first kept edge
    let mut out: Path = Vec::new();
    let mut t: usize = 0;
    while t < m
        invariant
            m == ring@.len(),
            start < m,
            t <= m,
            out@ == (ring@.subrange(start as int, m as int) + ring@.subrange(0, start as int)).subrange(
                0,
                t as int,
            ),
        decreases m - t,
    {
        let p = if t < m - start {
            ring[start + t]
        } else {
            ring[t - (m - start)]
        };
        out.push(p);
        t += 1;
        assert(out@ =~= (ring@.subrange(start as int, m as int) + ring@.subrange(
            0,
            start as int,
        )).subrange(0, t as int));
    }
    let ghost rot = ring@.subrange(start as int, m as int) + ring@.subrange(0, start as int);
    assert(rot.subrange(0, m as int) =~= rot);
    proof {
        assert(is_subsequence(ring@, src)) by {
            assert(idx.len() == ring@.len());
        }
        assert(rotation_of(out@, ring@, start as int));
        if closed {
            assert forall|i: int| 0 <= i < out@.len() implies !#[trigger] removable(
                out@,
                i,
                preserve_collinear,
            ) by {
                let ri = if start + i < m {
                    start + i
                } else {
                    start + i - m
                };
                assert(out@[i] == ring@[ri]);
                assert(!removable(ring@, ri, preserve_collinear));
                let ip = ring_prev(i, m as int);
                let inx = ring_next(i, m as int);
                let rp = ring_prev(ri, m as int);
                let rn = ring_next(ri, m as int);
                assert(out@[ip] == ring@[rp]);
                assert(out@[inx] == ring@[rn]);
            }
        }
    }
    assert(high_i == kept_high(pg@, closed));
    let ghost ringv = ring@;
    proof {
        if !closed {
            assert(out@ =~= ring@);
            assert forall|i: int| 1 <= i < ring@.len() implies #[trigger] ring@[i] != ring@[i - 1] by {
                assert(ring@[i - 1] != ring@[(i - 1) + 1]);
            }
            lemma_without_repeats_fixed(ring@);
            lemma_open_cleans_same(src, ring@, ntr, preserve_collinear);
        }
    }
    let result: Result<Option<Path>> = Ok(Some(out));
    assert(exists|rr: Seq<IntPoint>, kk: int, nn: nat|
        #[trigger] cleans_in(pg@.subrange(0, kept_high(pg@, closed) + 1), rr, nn, closed, preserve_collinear)
            && #[trigger] rotation_of(result->Ok_0->Some_0@, rr, kk)) by {
        assert(cleans_in(pg@.subrange(0, kept_high(pg@, closed) + 1), ringv, ntr, closed, preserve_collinear));
        assert(rotation_of(result->Ok_0->Some_0@, ringv, start as int));
    }
    assert(exists|rr: Seq<IntPoint>, kk: int|
        #[trigger] rotated_subsequence(result->Ok_0->Some_0@, rr, kk, pg@.subrange(0, kept_high(pg@, closed) + 1))) by {
        assert(rotated_subsequence(result->Ok_0->Some_0@, ringv, start as int, pg@.subrange(0, kept_high(pg@, closed) + 1)));
    }
    result
}

} // verus!
