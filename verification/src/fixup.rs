//! Tidying the finished output rings: repeated points dropped from
//! polylines, and repeated or needless collinear points from polygons.
use vstd::prelude::*;

use crate::geometry::{
    pt2_between_spec, pt2_is_between_pt1_and_pt3, slopes_equal_3_points, slopes_equal_3_spec,
};
use crate::joins::{coords_within, lemma_cross_terms_fit};
use crate::outpt::{
    in_ring, is_ring_len, lemma_nexts_add, lemma_nexts_in_range, lemma_ring_closed,
    lemma_ring_distinct, lemma_ring_len, lemma_unlinked_fields, lemma_unlinked_ok, links_ok, nexts,
    ring_len, unlinked, OutPt, OutPtArena,
};
use crate::types::IntPoint;

verus! {

/// The points of the ring through `x`, by index, in the order of `next`
/// and starting at `x`.
pub open spec fn ring_seq(s: Seq<OutPt>, x: int) -> Seq<int> {
    Seq::new(ring_len(s, x), |k: int| nexts(s, x, k as nat))
}

/// The coordinates of the ring through `x`, starting at `x`.
pub open spec fn ring_pts(s: Seq<OutPt>, x: int) -> Seq<IntPoint> {
    ring_seq(s, x).map_values(|i: int| s[i].pt)
}

/// A ring has one length.
pub proof fn lemma_ring_len_unique(s: Seq<OutPt>, x: int, k: nat)
    requires
        links_ok(s),
        0 <= x < s.len(),
        is_ring_len(s, x, k),
    ensures
        ring_len(s, x) == k,
{
    lemma_ring_len(s, x);
    let l = ring_len(s, x);
    if l < k {
        assert(nexts(s, x, l) != x);
    }
    if k < l {
        assert(nexts(s, x, k) != x);
    }
}

/// Taking a point out of its ring moves no point.
pub proof fn lemma_unlinked_pts(s: Seq<OutPt>, i: int)
    requires
        links_ok(s),
        0 <= i < s.len(),
    ensures
        unlinked(s, i).len() == s.len(),
        forall|j: int| 0 <= j < s.len() ==> #[trigger] unlinked(s, i)[j].pt == s[j].pt,
{
    assert forall|j: int| 0 <= j < s.len() implies #[trigger] unlinked(s, i)[j].pt == s[j].pt by {
        lemma_unlinked_fields(s, i, j);
    }
}

/// After point `nexts(s, x, q)` is taken out, the walk from `x` closes
/// one step sooner.
proof fn lemma_unlinked_len(s: Seq<OutPt>, x: int, q: nat)
    requires
        links_ok(s),
        0 <= x < s.len(),
        1 <= q < ring_len(s, x),
    ensures
        is_ring_len(unlinked(s, nexts(s, x, q)), x, (ring_len(s, x) - 1) as nat),
        forall|k: nat| k < q ==> nexts(unlinked(s, nexts(s, x, q)), x, k) == nexts(s, x, k),
        forall|k: nat|
            q <= k < ring_len(s, x) ==> nexts(unlinked(s, nexts(s, x, q)), x, k) == nexts(
                s,
                x,
                k + 1,
            ),
{
    lemma_ring_len(s, x);
    let l = ring_len(s, x);
    let t = unlinked(s, nexts(s, x, q));
    assert forall|k: nat| k < q implies nexts(t, x, k) == nexts(s, x, k) by {
        lemma_before_removed(s, x, q, k);
    }
    assert forall|k: nat| q <= k < l implies nexts(t, x, k) == nexts(s, x, k + 1) by {
        lemma_after_removed(s, x, q, k);
    }
    assert(nexts(t, x, (l - 1) as nat) == nexts(s, x, l));
    assert forall|j: nat| 1 <= j < l - 1 implies nexts(t, x, j) != x by {
        if j < q {
            assert(nexts(t, x, j) == nexts(s, x, j));
        } else {
            assert(nexts(t, x, j) == nexts(s, x, j + 1));
        }
    }
}

/// Taking point `nexts(s, x, q)` (`q >= 1`) out of the ring through `x`
/// removes it from the ring's sequence.
pub proof fn lemma_unlinked_ring(s: Seq<OutPt>, x: int, q: nat)
    requires
        links_ok(s),
        0 <= x < s.len(),
        1 <= q < ring_len(s, x),
    ensures
        ring_seq(unlinked(s, nexts(s, x, q)), x) == ring_seq(s, x).remove(q as int),
        links_ok(unlinked(s, nexts(s, x, q))),
        unlinked(s, nexts(s, x, q)).len() == s.len(),
        forall|j: int| 0 <= j < s.len() ==> #[trigger] unlinked(s, nexts(s, x, q))[j].pt == s[j].pt,
{
    lemma_ring_len(s, x);
    let l = ring_len(s, x);
    let i = nexts(s, x, q);
    lemma_nexts_in_range(s, x, q);
    let t = unlinked(s, i);
    lemma_unlinked_ok(s, i);
    lemma_unlinked_pts(s, i);
    lemma_unlinked_len(s, x, q);
    lemma_ring_len_unique(t, x, (l - 1) as nat);
    assert(ring_seq(t, x) =~= ring_seq(s, x).remove(q as int));
}

proof fn lemma_before_removed(s: Seq<OutPt>, x: int, q: nat, k: nat)
    requires
        links_ok(s),
        0 <= x < s.len(),
        1 <= q < ring_len(s, x),
        k <= q - 1,
    ensures
        nexts(unlinked(s, nexts(s, x, q)), x, k) == nexts(s, x, k),
    decreases k,
{
    if k > 0 {
        lemma_before_removed(s, x, q, (k - 1) as nat);
        let i = nexts(s, x, q);
        let y = nexts(s, x, (k - 1) as nat);
        lemma_nexts_in_range(s, x, q);
        lemma_nexts_in_range(s, x, (k - 1) as nat);
        lemma_nexts_in_range(s, x, (q - 1) as nat);
        lemma_ring_distinct(s, x, (k - 1) as nat, q);
        lemma_ring_distinct(s, x, (k - 1) as nat, (q - 1) as nat);
        assert(s[nexts(s, x, (q - 1) as nat)].next as int == i);
        assert(s[i].prev as int == nexts(s, x, (q - 1) as nat));
        lemma_unlinked_fields(s, i, y);
    }
}

proof fn lemma_after_removed(s: Seq<OutPt>, x: int, q: nat, k: nat)
    requires
        links_ok(s),
        0 <= x < s.len(),
        1 <= q < ring_len(s, x),
        q <= k <= ring_len(s, x) - 1,
    ensures
        nexts(unlinked(s, nexts(s, x, q)), x, k) == nexts(s, x, k + 1),
    decreases k,
{
    let i = nexts(s, x, q);
    let p = nexts(s, x, (q - 1) as nat);
    lemma_nexts_in_range(s, x, q);
    lemma_nexts_in_range(s, x, (q - 1) as nat);
    assert(s[p].next as int == i);
    assert(s[i].prev as int == p);
    if k == q {
        lemma_before_removed(s, x, q, (q - 1) as nat);
        lemma_unlinked_fields(s, i, p);
        lemma_ring_distinct(s, x, (q - 1) as nat, q);
    } else {
        lemma_after_removed(s, x, q, (k - 1) as nat);
        let y = nexts(s, x, k);
        lemma_nexts_in_range(s, x, k);
        lemma_ring_distinct(s, x, q, k);
        lemma_ring_distinct(s, x, (q - 1) as nat, k);
        lemma_unlinked_fields(s, i, y);
    }
}

/// Taking point `i` out changes no point but `i` and its two neighbours.
pub proof fn lemma_unlinked_others(s: Seq<OutPt>, i: int, j: int)
    requires
        links_ok(s),
        0 <= i < s.len(),
        0 <= j < s.len(),
        j != i,
        j != s[i].prev,
        j != s[i].next,
    ensures
        unlinked(s, i)[j] == s[j],
{
}

/// `p` without consecutive repeats: the first point is kept, and each
/// following point when it differs from the last point kept.
pub open spec fn without_repeats(p: Seq<IntPoint>) -> Seq<IntPoint>
    decreases p.len(),
{
    if p.len() == 0 {
        p
    } else {
        let d = without_repeats(p.drop_last());
        if d.len() > 0 && d.last() == p.last() {
            d
        } else {
            d.push(p.last())
        }
    }
}

/// One more point is dropped when it repeats the last point kept, and
/// kept otherwise.
pub proof fn lemma_without_repeats_step(p: Seq<IntPoint>, m: int)
    requires
        1 <= m < p.len(),
    ensures
        without_repeats(p.subrange(0, m + 1)) == if without_repeats(p.subrange(0, m)).last()
            == p[m] {
            without_repeats(p.subrange(0, m))
        } else {
            without_repeats(p.subrange(0, m)).push(p[m])
        },
{
    let q = p.subrange(0, m + 1);
    assert(q.drop_last() =~= p.subrange(0, m));
    assert(q.last() == p[m]);
    lemma_without_repeats_len(p.subrange(0, m));
}

/// Dropping repeats leaves no point equal to the one before it, and
/// dropping them again changes nothing.
pub proof fn lemma_without_repeats_has_none(p: Seq<IntPoint>)
    ensures
        forall|i: int|
            1 <= i < without_repeats(p).len() ==> #[trigger] without_repeats(p)[i] != without_repeats(
                p,
            )[i - 1],
        without_repeats(without_repeats(p)) == without_repeats(p),
    decreases p.len(),
{
    if p.len() > 0 {
        let q = p.drop_last();
        lemma_without_repeats_has_none(q);
        lemma_without_repeats_fixed(without_repeats(p));
    } else {
        lemma_without_repeats_fixed(without_repeats(p));
    }
}

/// A sequence with no point equal to the one before it has no repeats
/// to drop.
pub(crate) proof fn lemma_without_repeats_fixed(w: Seq<IntPoint>)
    requires
        forall|i: int| 1 <= i < w.len() ==> #[trigger] w[i] != w[i - 1],
    ensures
        without_repeats(w) == w,
    decreases w.len(),
{
    if w.len() > 0 {
        let q = w.drop_last();
        assert forall|i: int| 1 <= i < q.len() implies #[trigger] q[i] != q[i - 1] by {
            assert(q[i] == w[i] && q[i - 1] == w[i - 1]);
        }
        lemma_without_repeats_fixed(q);
        if w.len() > 1 {
            assert(q.last() == w[w.len() - 2]);
        }
        assert(q.push(w.last()) =~= w);
    }
}

/// A non-empty sequence keeps at least its first point.
pub proof fn lemma_without_repeats_len(p: Seq<IntPoint>)
    ensures
        p.len() > 0 ==> without_repeats(p).len() > 0,
        without_repeats(p).len() <= p.len(),
    decreases p.len(),
{
    if p.len() > 0 {
        lemma_without_repeats_len(p.drop_last());
    }
}

/// The state of the walk that drops repeats from the ring through `start`
/// of `s0`: in the arena `t` the points `kept` (taken from the first `m`
/// points of the ring) are followed by the points not looked at yet.
#[verifier::opaque]
spec fn polyline_state(s0: Seq<OutPt>, t: Seq<OutPt>, start: int, kept: Seq<int>, m: nat) -> bool {
    let big_r = ring_seq(s0, start);
    &&& links_ok(s0)
    &&& 0 <= start < s0.len()
    &&& links_ok(t)
    &&& t.len() == s0.len()
    &&& 1 <= m <= big_r.len()
    &&& kept.len() >= 1
    &&& kept[0] == start
    &&& ring_seq(t, start) == kept + big_r.subrange(m as int, big_r.len() as int)
    &&& kept.map_values(|i: int| s0[i].pt) == without_repeats(
        ring_pts(s0, start).subrange(0, m as int),
    )
    &&& forall|k: int| 0 <= k < kept.len() ==> in_ring(s0, start, #[trigger] kept[k])
    &&& forall|j: int| 0 <= j < s0.len() ==> #[trigger] t[j].pt == s0[j].pt
    &&& forall|j: int| 0 <= j < s0.len() && !in_ring(s0, start, j) ==> #[trigger] t[j] == s0[j]
}

proof fn lemma_polyline_init(s0: Seq<OutPt>, start: int)
    requires
        links_ok(s0),
        0 <= start < s0.len(),
    ensures
        polyline_state(s0, s0, start, seq![start], 1),
        s0[start].prev == if ring_len(s0, start) > 1 {
            ring_seq(s0, start)[ring_len(s0, start) - 1]
        } else {
            start
        },
{
    reveal(polyline_state);
    lemma_ring_len(s0, start);
    let big_r = ring_seq(s0, start);
    let l = big_r.len();
    let p = ring_pts(s0, start);
    let kept = seq![start];
    assert(big_r[0] == start);
    assert(ring_seq(s0, start) =~= kept + big_r.subrange(1, l as int));
    if l > 1 {
        lemma_nexts_in_range(s0, start, (l - 1) as nat);
        assert(nexts(s0, start, l) == start);
        assert(s0[big_r[l - 1]].next == start);
    } else {
        assert(nexts(s0, start, 1) == start);
        assert(s0[s0[start].next as int].prev == start);
    }
    let p1 = p.subrange(0, 1);
    assert(p1.drop_last() =~= Seq::<IntPoint>::empty());
    assert(without_repeats(Seq::<IntPoint>::empty()) == Seq::<IntPoint>::empty());
    assert(without_repeats(p1) == Seq::<IntPoint>::empty().push(p1.last()));
    assert(kept.map_values(|i: int| s0[i].pt) =~= without_repeats(p1));
    assert(in_ring(s0, start, big_r[0]));
}

/// While points are left, the next one follows the last point kept, and
/// the last point of the ring is still ahead.
#[verifier::spinoff_prover]
#[verifier::rlimit(40)]
proof fn lemma_polyline_next(s0: Seq<OutPt>, t: Seq<OutPt>, start: int, kept: Seq<int>, m: nat)
    requires
        polyline_state(s0, t, start, kept, m),
        m < ring_len(s0, start),
    ensures
        t[kept.last()].next as int == ring_seq(s0, start)[m as int],
        0 <= ring_seq(s0, start)[m as int] < t.len(),
        t[ring_seq(s0, start)[m as int]].prev as int == kept.last(),
        kept.last() != ring_seq(s0, start)[ring_len(s0, start) - 1],
        0 <= kept.last() < t.len(),
        t[kept.last()].pt == s0[kept.last()].pt,
        t[ring_seq(s0, start)[m as int]].pt == s0[ring_seq(s0, start)[m as int]].pt,
        m + 1 < ring_len(s0, start) ==> ring_seq(s0, start)[m as int] != ring_seq(s0, start)[ring_len(
            s0,
            start,
        ) - 1],
        in_ring(s0, start, kept.last()),
        in_ring(s0, start, ring_seq(s0, start)[m as int]),
        in_ring(s0, start, t[ring_seq(s0, start)[m as int]].next as int),
        forall|j: int| 0 <= j < s0.len() && !in_ring(s0, start, j) ==> #[trigger] t[j] == s0[j],
        links_ok(t),
        t.len() == s0.len(),
{
    reveal(polyline_state);
    lemma_ring_len(s0, start);
    lemma_ring_len(t, start);
    let big_r = ring_seq(s0, start);
    let l = big_r.len();
    let c = kept.len();
    let rest = big_r.subrange(m as int, l as int);
    let ts = ring_seq(t, start);
    assert(ts == kept + rest);
    assert(ts.len() == c + l - m);
    assert(ts[c - 1] == kept[c - 1]);
    assert(ts[c as int] == rest[0]);
    assert(rest[0] == big_r[m as int]);
    assert(ts[c + l - m - 1] == rest[l - m - 1]);
    lemma_nexts_in_range(t, start, (c - 1) as nat);
    lemma_nexts_in_range(t, start, c as nat);
    assert(nexts(t, start, c as nat) == t[kept.last()].next);
    lemma_ring_distinct(t, start, (c - 1) as nat, (c + l - m - 1) as nat);
    if m + 1 < l {
        lemma_ring_distinct(s0, start, m, (l - 1) as nat);
    }
    assert(in_ring(s0, start, kept[c - 1]));
    assert(in_ring(s0, start, big_r[m as int]));
    let n = t[big_r[m as int]].next as int;
    assert(nexts(t, start, (c + 1) as nat) == n);
    if c + 1 < c + l - m {
        assert(ts[c + 1 as int] == n);
        assert(ts[c + 1 as int] == rest[1]);
        assert(in_ring(s0, start, big_r[m + 1 as int]));
    } else {
        assert(ring_len(t, start) == c + 1);
        assert(nexts(t, start, (c + 1) as nat) == start);
        assert(in_ring(s0, start, kept[0]));
    }
}

/// A point that differs from the last point kept is kept.
#[verifier::spinoff_prover]
#[verifier::rlimit(40)]
proof fn lemma_polyline_keep(s0: Seq<OutPt>, t: Seq<OutPt>, start: int, kept: Seq<int>, m: nat)
    requires
        polyline_state(s0, t, start, kept, m),
        m < ring_len(s0, start),
        s0[ring_seq(s0, start)[m as int]].pt != s0[kept.last()].pt,
    ensures
        polyline_state(s0, t, start, kept.push(ring_seq(s0, start)[m as int]), m + 1),
{
    reveal(polyline_state);
    lemma_ring_len(s0, start);
    let big_r = ring_seq(s0, start);
    let l = big_r.len();
    let p = ring_pts(s0, start);
    let k2 = kept.push(big_r[m as int]);
    assert(ring_seq(t, start) =~= k2 + big_r.subrange(m + 1 as int, l as int));
    lemma_without_repeats_step(p, m as int);
    assert(p[m as int] == s0[big_r[m as int]].pt);
    assert(kept.map_values(|i: int| s0[i].pt).last() == s0[kept.last()].pt);
    assert(k2.map_values(|i: int| s0[i].pt) =~= kept.map_values(|i: int| s0[i].pt).push(p[m as int]));
    assert(in_ring(s0, start, big_r[m as int]));
    assert forall|k: int| 0 <= k < k2.len() implies in_ring(s0, start, #[trigger] k2[k]) by {
        if k < kept.len() {
            assert(k2[k] == kept[k]);
        }
    }
}

/// Taking out a point of the ring, whose neighbours are on the ring too,
/// changes no point off the ring.
proof fn lemma_unlink_outside(s0: Seq<OutPt>, t: Seq<OutPt>, start: int, i: int)
    requires
        links_ok(t),
        t.len() == s0.len(),
        0 <= i < t.len(),
        in_ring(s0, start, i),
        in_ring(s0, start, t[i].prev as int),
        in_ring(s0, start, t[i].next as int),
        forall|j: int| 0 <= j < s0.len() && !in_ring(s0, start, j) ==> #[trigger] t[j] == s0[j],
    ensures
        forall|j: int| 0 <= j < s0.len() && !in_ring(s0, start, j) ==> #[trigger] unlinked(t, i)[j]
            == s0[j],
{
    assert forall|j: int| 0 <= j < s0.len() && !in_ring(s0, start, j) implies #[trigger] unlinked(
        t,
        i,
    )[j] == s0[j] by {
        lemma_unlinked_others(t, i, j);
    }
}

/// A point that repeats the last point kept is taken out of the ring.
#[verifier::spinoff_prover]
#[verifier::rlimit(60)]
proof fn lemma_polyline_drop(s0: Seq<OutPt>, t: Seq<OutPt>, start: int, kept: Seq<int>, m: nat)
    requires
        polyline_state(s0, t, start, kept, m),
        m < ring_len(s0, start),
        s0[ring_seq(s0, start)[m as int]].pt == s0[kept.last()].pt,
    ensures
        polyline_state(s0, unlinked(t, ring_seq(s0, start)[m as int]), start, kept, m + 1),
{
    lemma_polyline_next(s0, t, start, kept, m);
    lemma_unlink_outside(s0, t, start, ring_seq(s0, start)[m as int]);
    reveal(polyline_state);
    lemma_ring_len(s0, start);
    lemma_ring_len(t, start);
    let big_r = ring_seq(s0, start);
    let l = big_r.len();
    let p = ring_pts(s0, start);
    let c = kept.len();
    let i = big_r[m as int];
    let rest = big_r.subrange(m as int, l as int);
    let ts = ring_seq(t, start);
    assert(ts == kept + rest);
    assert(ts.len() == c + l - m);
    assert(ring_len(t, start) == ts.len());
    assert(ts[c as int] == rest[0]);
    assert(nexts(t, start, c as nat) == i);
    lemma_unlinked_ring(t, start, c as nat);
    let t2 = unlinked(t, i);
    assert(ring_seq(t2, start) =~= kept + big_r.subrange(m + 1 as int, l as int));
    lemma_without_repeats_step(p, m as int);
    assert(p[m as int] == s0[i].pt);
    assert(kept.map_values(|i: int| s0[i].pt).last() == s0[kept.last()].pt);
}

/// At the end of the walk the ring holds the kept points; it is a single
/// point exactly when one point is kept.
#[verifier::spinoff_prover]
#[verifier::rlimit(40)]
proof fn lemma_polyline_done(s0: Seq<OutPt>, t: Seq<OutPt>, start: int, kept: Seq<int>)
    requires
        polyline_state(s0, t, start, kept, ring_len(s0, start)),
    ensures
        ring_pts(t, start) == without_repeats(ring_pts(s0, start)),
        0 <= kept.last() < t.len(),
        (t[kept.last()].prev == kept.last()) == (kept.len() == 1),
        t.len() == s0.len(),
        forall|j: int| 0 <= j < s0.len() && !in_ring(s0, start, j) ==> #[trigger] t[j] == s0[j],
{
    reveal(polyline_state);
    lemma_ring_len(s0, start);
    lemma_ring_len(t, start);
    let l = ring_len(s0, start);
    let p = ring_pts(s0, start);
    assert(p.subrange(0, l as int) =~= p);
    assert(ring_seq(t, start) =~= kept);
    assert forall|k: int| 0 <= k < kept.len() implies 0 <= #[trigger] kept[k] < s0.len() by {
        assert(kept[k] == ring_seq(t, start)[k]);
        lemma_nexts_in_range(t, start, k as nat);
    }
    assert(ring_pts(t, start) =~= kept.map_values(|i: int| s0[i].pt)) by {
        assert forall|k: int| 0 <= k < kept.len() implies #[trigger] ring_pts(t, start)[k]
            == kept.map_values(|i: int| s0[i].pt)[k] by {
            assert(t[kept[k]].pt == s0[kept[k]].pt);
        }
    }
    let c = kept.len();
    lemma_nexts_in_range(t, start, (c - 1) as nat);
    if c == 1 {
        assert(nexts(t, start, 1) == start);
        assert(t[t[start].next as int].prev == start);
    } else {
        let q = nexts(t, start, (c - 2) as nat);
        lemma_nexts_in_range(t, start, (c - 2) as nat);
        assert(t[q].next as int == kept.last());
        assert(t[t[q].next as int].prev == q);
        lemma_ring_distinct(t, start, (c - 2) as nat, (c - 1) as nat);
    }
}

impl OutPtArena {
    /// Drops from the polyline ring through `start` each point that repeats
    /// the last point kept before it; `start` stays. Returns `None` when a
    /// single point is left, `Some(start)` otherwise.
    pub fn fixup_polyline(&mut self, start: usize) -> (r: Option<usize>)
        requires
            start < old(self).nodes().len(),
        ensures
            ring_pts(final(self).nodes(), start as int) == without_repeats(
                ring_pts(old(self).nodes(), start as int),
            ),
            r == if without_repeats(ring_pts(old(self).nodes(), start as int)).len() == 1 {
                None::<usize>
            } else {
                Some(start)
            },
            final(self).nodes().len() == old(self).nodes().len(),
            forall|i: int|
                0 <= i < old(self).nodes().len() && !in_ring(old(self).nodes(), start as int, i)
                    ==> #[trigger] final(self).nodes()[i] == old(self).nodes()[i],
    {
        let ghost s0 = self.nodes();
        let _ = self.len();
        proof {
            lemma_ring_len(s0, start as int);
            lemma_polyline_init(s0, start as int);
        }
        let ghost big_r = ring_seq(s0, start as int);
        let ghost l = ring_len(s0, start as int);
        let ghost mut kept: Seq<int> = seq![start as int];
        let ghost mut m: nat = 1;
        let mut pp = start;
        let mut last_pp = self.get(start).prev;
        while pp != last_pp
            invariant
                big_r == ring_seq(s0, start as int),
                l == ring_len(s0, start as int),
                polyline_state(s0, self.nodes(), start as int, kept, m),
                1 <= m <= l,
                pp == kept.last(),
                last_pp == if m < l {
                    big_r[l - 1]
                } else {
                    kept.last()
                },
            decreases l - m,
        {
            proof {
                if m >= l {
                    assert(pp == last_pp);
                }
                lemma_polyline_next(s0, self.nodes(), start as int, kept, m);
            }
            pp = self.get(pp).next;
            let cur = self.get(pp);
            let prev_pt = self.get(cur.prev).pt;
            if cur.pt == prev_pt {
                if pp == last_pp {
                    last_pp = cur.prev;
                }
                proof {
                    lemma_polyline_drop(s0, self.nodes(), start as int, kept, m);
                }
                pp = self.unlink(pp);
                proof {
                    m = m + 1;
                }
            } else {
                proof {
                    lemma_polyline_keep(s0, self.nodes(), start as int, kept, m);
                    kept = kept.push(pp as int);
                    m = m + 1;
                }
            }
        }
        proof {
            if m < l {
                lemma_polyline_next(s0, self.nodes(), start as int, kept, m);
            }
            lemma_polyline_done(s0, self.nodes(), start as int, kept);
            reveal(polyline_state);
            lemma_without_repeats_len(ring_pts(s0, start as int));
        }
        let prev = self.get(pp).prev;
        if pp == prev {
            None
        } else {
            Some(start)
        }
    }
}

/// Every point a walk reaches lies on the ring it started from.
pub proof fn lemma_nexts_in_ring(s: Seq<OutPt>, x: int, k: nat)
    requires
        links_ok(s),
        0 <= x < s.len(),
    ensures
        in_ring(s, x, nexts(s, x, k)),
    decreases k,
{
    lemma_ring_len(s, x);
    if k == 0 {
        assert(nexts(s, x, 0) == x);
    } else {
        lemma_nexts_in_ring(s, x, (k - 1) as nat);
        lemma_nexts_in_range(s, x, (k - 1) as nat);
        lemma_ring_closed(s, x, nexts(s, x, (k - 1) as nat));
    }
}

/// A point of a ring sees the same ring, of the same length.
pub proof fn lemma_same_ring(s: Seq<OutPt>, x: int, y: int)
    requires
        links_ok(s),
        0 <= x < s.len(),
        in_ring(s, x, y),
    ensures
        0 <= y < s.len(),
        ring_len(s, y) == ring_len(s, x),
        forall|z: int| in_ring(s, y, z) == in_ring(s, x, z),
        in_ring(s, y, x),
{
    lemma_ring_len(s, x);
    let l = ring_len(s, x);
    let j = choose|j: nat| j < l && nexts(s, x, j) == y;
    lemma_nexts_in_range(s, x, j);
    lemma_ring_len(s, y);
    // x lies on the ring of y
    lemma_nexts_add(s, x, j, (l - j) as nat);
    lemma_nexts_in_ring(s, y, (l - j) as nat);
    assert(in_ring(s, y, x));
    assert forall|z: int| in_ring(s, y, z) implies in_ring(s, x, z) by {
        let k = choose|k: nat| k < ring_len(s, y) && nexts(s, y, k) == z;
        lemma_nexts_add(s, x, j, k);
        lemma_nexts_in_ring(s, x, j + k);
    }
    assert forall|z: int| in_ring(s, x, z) implies in_ring(s, y, z) by {
        let m = choose|m: nat| m < ring_len(s, y) && nexts(s, y, m) == x;
        let k = choose|k: nat| k < l && nexts(s, x, k) == z;
        lemma_nexts_add(s, y, m, k);
        lemma_nexts_in_ring(s, y, m + k);
    }
    // the walk from y first comes back after l steps
    lemma_nexts_add(s, x, j, l);
    lemma_nexts_add(s, x, l, j);
    assert(nexts(s, y, l) == y);
    assert forall|k: nat| 1 <= k < l implies nexts(s, y, k) != y by {
        lemma_nexts_add(s, x, j, k);
        if j + k < l {
            lemma_ring_distinct(s, x, j, j + k);
        } else {
            lemma_nexts_add(s, x, l, (j + k - l) as nat);
            lemma_ring_distinct(s, x, (j + k - l) as nat, j);
        }
    }
    lemma_ring_len_unique(s, y, l);
}

/// A ring has at least three points exactly when a point's predecessor
/// is neither the point itself nor its successor.
pub proof fn lemma_ring_three(s: Seq<OutPt>, x: int)
    requires
        links_ok(s),
        0 <= x < s.len(),
    ensures
        (ring_len(s, x) >= 3) == (s[x].prev != x && s[x].prev != s[x].next),
{
    lemma_ring_len(s, x);
    let l = ring_len(s, x);
    lemma_nexts_in_range(s, x, (l - 1) as nat);
    let q = nexts(s, x, (l - 1) as nat);
    assert(nexts(s, x, l) == x);
    assert(s[q].next as int == x);
    assert(s[s[q].next as int].prev as int == q);
    assert(nexts(s, x, 0) == x);
    assert(nexts(s, x, 1) == s[x].next);
    if l >= 3 {
        lemma_ring_distinct(s, x, 0, (l - 1) as nat);
        lemma_ring_distinct(s, x, 1, (l - 1) as nat);
    }
}

/// Point `i` can go from a polygon: it repeats a neighbour, or it is on the
/// line through its neighbours and collinear points are not preserved or
/// it does not lie between them.
pub open spec fn needless(s: Seq<OutPt>, i: int, preserve_collinear: bool) -> bool {
    let p = s[s[i].prev as int].pt;
    let c = s[i].pt;
    let n = s[s[i].next as int].pt;
    c == n || c == p || (slopes_equal_3_spec(p, c, n) && (!preserve_collinear || !pt2_between_spec(
        p,
        c,
        n,
    )))
}

/// See `needless`.
fn is_needless(arena: &OutPtArena, i: usize, preserve_collinear: bool, use_full_range: bool) -> (r:
    bool)
    requires
        i < arena.nodes().len(),
        coords_within(arena.nodes(), use_full_range),
    ensures
        r == needless(arena.nodes(), i as int, preserve_collinear),
{
    let c = arena.get(i);
    let p = arena.get(c.prev).pt;
    let n = arena.get(c.next).pt;
    proof {
        lemma_cross_terms_fit(p, c.pt, n, use_full_range);
    }
    c.pt == n || c.pt == p || (slopes_equal_3_points(p, c.pt, n, use_full_range) && (
    !preserve_collinear || !pt2_is_between_pt1_and_pt3(p, c.pt, n)))
}

/// The ring through `x` of `t` keeps the order of `s0`: walking `s0`
/// from any of its points, every point met before its successor in `t`
/// is off the ring.
pub open spec fn keeps_order(s0: Seq<OutPt>, t: Seq<OutPt>, x: int) -> bool {
    forall|i: int|
        #[trigger] in_ring(t, x, i) ==> exists|g: nat|
            1 <= g && nexts(s0, i, g) == t[i].next as int && forall|k: nat|
                1 <= k < g ==> !in_ring(t, x, #[trigger] nexts(s0, i, k))
}

/// A ring keeps its own order.
proof fn lemma_keeps_order_refl(s: Seq<OutPt>, x: int)
    ensures
        keeps_order(s, s, x),
{
    assert forall|i: int| #[trigger] in_ring(s, x, i) implies exists|g: nat|
        1 <= g && nexts(s, i, g) == s[i].next as int && forall|k: nat|
            1 <= k < g ==> !in_ring(s, x, #[trigger] nexts(s, i, k)) by {
        assert(nexts(s, i, 0) == i);
        assert(nexts(s, i, 1) == s[i].next as int);
    }
}

/// Keeping the order is a property of the ring, not of the point named.
proof fn lemma_keeps_order_same_ring(s0: Seq<OutPt>, t: Seq<OutPt>, x: int, y: int)
    requires
        links_ok(t),
        0 <= x < t.len(),
        in_ring(t, x, y),
        keeps_order(s0, t, x),
    ensures
        keeps_order(s0, t, y),
{
    lemma_same_ring(t, x, y);
    assert forall|i: int| #[trigger] in_ring(t, y, i) implies exists|g: nat|
        1 <= g && nexts(s0, i, g) == t[i].next as int && forall|k: nat|
            1 <= k < g ==> !in_ring(t, y, #[trigger] nexts(s0, i, k)) by {
        assert(in_ring(t, x, i));
        let g = choose|g: nat|
            1 <= g && nexts(s0, i, g) == t[i].next as int && forall|k: nat|
                1 <= k < g ==> !in_ring(t, x, #[trigger] nexts(s0, i, k));
        assert forall|k: nat| 1 <= k < g implies !in_ring(t, y, #[trigger] nexts(s0, i, k)) by {
            assert(!in_ring(t, x, nexts(s0, i, k)));
        }
    }
}

/// Taking a point out of a ring of three or more leaves the ring of its
/// predecessor inside the old ring, without the point.
#[verifier::spinoff_prover]
#[verifier::rlimit(40)]
proof fn lemma_unlinked_subring(t: Seq<OutPt>, pp: int)
    requires
        links_ok(t),
        0 <= pp < t.len(),
        ring_len(t, pp) >= 3,
    ensures
        forall|y: int|
            #[trigger] in_ring(unlinked(t, pp), t[pp].prev as int, y) ==> in_ring(t, pp, y) && y
                != pp,
        in_ring(t, pp, t[pp].prev as int),
{
    let p = t[pp].prev as int;
    let t2 = unlinked(t, pp);
    assert(t[p].next as int == pp);
    lemma_ring_len(t, pp);
    lemma_ring_closed(t, pp, pp);
    assert(nexts(t, pp, 0) == pp);
    assert(in_ring(t, pp, pp));
    lemma_same_ring(t, pp, p);
    assert(nexts(t, p, 0) == p);
    assert(nexts(t, p, 1) == pp);
    lemma_unlinked_ring(t, p, 1);
    lemma_unlinked_len(t, p, 1);
    lemma_ring_len_unique(t2, p, (ring_len(t, p) - 1) as nat);
    assert forall|y: int| #[trigger] in_ring(t2, p, y) implies in_ring(t, pp, y) && y != pp by {
        let k = choose|k: nat| k < ring_len(t2, p) && nexts(t2, p, k) == y;
        if k < 1 {
            lemma_nexts_in_ring(t, p, k);
            assert(nexts(t, p, k) == p);
        } else {
            assert(nexts(t2, p, k) == nexts(t, p, k + 1));
            lemma_nexts_in_ring(t, p, k + 1);
            lemma_ring_distinct(t, p, 1, k + 1);
        }
        assert(in_ring(t, p, y));
    }
}

/// Taking a point out of a ring of three or more keeps the order: the
/// link that now passes over it passes over it and what its two links
/// passed over.
#[verifier::spinoff_prover]
#[verifier::rlimit(40)]
proof fn lemma_keeps_order_unlinked(s0: Seq<OutPt>, t: Seq<OutPt>, pp: int)
    requires
        links_ok(t),
        0 <= pp < t.len(),
        ring_len(t, pp) >= 3,
        keeps_order(s0, t, pp),
    ensures
        keeps_order(s0, unlinked(t, pp), t[pp].prev as int),
{
    let p = t[pp].prev as int;
    let t2 = unlinked(t, pp);
    lemma_unlinked_subring(t, pp);
    assert forall|i: int| #[trigger] in_ring(t2, p, i) implies exists|g: nat|
        1 <= g && nexts(s0, i, g) == t2[i].next as int && forall|k: nat|
            1 <= k < g ==> !in_ring(t2, p, #[trigger] nexts(s0, i, k)) by {
        lemma_keeps_order_link(s0, t, pp, i);
    }
}

/// One link of the ring once a point is taken out (see
/// `lemma_keeps_order_unlinked`).
#[verifier::spinoff_prover]
#[verifier::rlimit(40)]
proof fn lemma_keeps_order_link(s0: Seq<OutPt>, t: Seq<OutPt>, pp: int, i: int)
    requires
        links_ok(t),
        0 <= pp < t.len(),
        ring_len(t, pp) >= 3,
        keeps_order(s0, t, pp),
        in_ring(unlinked(t, pp), t[pp].prev as int, i),
        forall|y: int|
            #[trigger] in_ring(unlinked(t, pp), t[pp].prev as int, y) ==> in_ring(t, pp, y) && y
                != pp,
        in_ring(t, pp, t[pp].prev as int),
    ensures
        exists|g: nat|
            1 <= g && nexts(s0, i, g) == unlinked(t, pp)[i].next as int && forall|k: nat|
                1 <= k < g ==> !in_ring(
                    unlinked(t, pp),
                    t[pp].prev as int,
                    #[trigger] nexts(s0, i, k),
                ),
{
    let p = t[pp].prev as int;
    let n = t[pp].next as int;
    let t2 = unlinked(t, pp);
    assert(in_ring(t, pp, i) && i != pp);
    lemma_same_ring(t, pp, i);
    lemma_unlinked_fields(t, pp, i);
    let g1 = choose|g: nat|
        1 <= g && nexts(s0, i, g) == t[i].next as int && forall|k: nat|
            1 <= k < g ==> !in_ring(t, pp, #[trigger] nexts(s0, i, k));
    if i != p {
        assert(t2[i].next == t[i].next);
        assert forall|k: nat| 1 <= k < g1 implies !in_ring(t2, p, #[trigger] nexts(s0, i, k)) by {
            assert(!in_ring(t, pp, nexts(s0, i, k)));
        }
    } else {
        lemma_ring_len(t, pp);
        lemma_ring_closed(t, pp, pp);
        assert(nexts(t, pp, 0) == pp);
        assert(in_ring(t, pp, pp));
        let g2 = choose|g: nat|
            1 <= g && nexts(s0, pp, g) == t[pp].next as int && forall|k: nat|
                1 <= k < g ==> !in_ring(t, pp, #[trigger] nexts(s0, pp, k));
        assert(t[p].next as int == pp);
        assert(nexts(s0, p, g1) == pp);
        lemma_nexts_add(s0, p, g1, g2);
        assert(t2[p].next as int == n);
        assert forall|k: nat| 1 <= k < g1 + g2 implies !in_ring(t2, p, #[trigger] nexts(s0, p, k)) by {
            if k < g1 {
                assert(!in_ring(t, pp, nexts(s0, p, k)));
            } else if k == g1 {
            } else {
                lemma_nexts_add(s0, p, g1, (k - g1) as nat);
                assert(!in_ring(t, pp, nexts(s0, pp, (k - g1) as nat)));
            }
        }
    }
}

/// `a` read from its element `k` on, round to the element before it.
pub open spec fn rotated(a: Seq<IntPoint>, k: int) -> Seq<IntPoint> {
    a.subrange(k, a.len() as int) + a.subrange(0, k)
}

/// Vertex `i` of the closed ring of coordinates `r` can go (the same test
/// as `needless`, on a ring given by its coordinates).
pub open spec fn needless_in(r: Seq<IntPoint>, i: int, preserve_collinear: bool) -> bool {
    let m = r.len() as int;
    let p = r[if i == 0 {
        m - 1
    } else {
        i - 1
    }];
    let c = r[i];
    let n = r[if i + 1 == m {
        0
    } else {
        i + 1
    }];
    c == n || c == p || (slopes_equal_3_spec(p, c, n) && (!preserve_collinear || !pt2_between_spec(
        p,
        c,
        n,
    )))
}

/// One step of tidying the closed ring of coordinates `x` into `y`: a
/// vertex that can go is taken away, or the ring is read from another
/// vertex.
pub open spec fn tidy_step(x: Seq<IntPoint>, y: Seq<IntPoint>, preserve_collinear: bool) -> bool {
    ||| exists|i: int|
        0 <= i < x.len() && #[trigger] needless_in(x, i, preserve_collinear) && y == x.remove(i)
    ||| exists|i: int| 0 <= i < x.len() && y == #[trigger] rotated(x, i)
}

/// The closed ring of coordinates `b` comes from `a` by tidying steps.
pub open spec fn tidies_to(a: Seq<IntPoint>, b: Seq<IntPoint>, preserve_collinear: bool) -> bool {
    exists|rs: Seq<Seq<IntPoint>>|
        #![trigger rs.len()]
        rs.len() >= 1 && rs[0] == a && rs.last() == b && forall|j: int|
            0 <= j < rs.len() - 1 ==> tidy_step(#[trigger] rs[j], rs[j + 1], preserve_collinear)
}

/// No step at all.
proof fn lemma_tidies_refl(a: Seq<IntPoint>, preserve_collinear: bool)
    ensures
        tidies_to(a, a, preserve_collinear),
{
    let rs = seq![a];
    assert(rs.len() >= 1 && rs[0] == a && rs.last() == a);
}

/// One more step at the end.
proof fn lemma_tidies_step(
    a: Seq<IntPoint>,
    b: Seq<IntPoint>,
    c: Seq<IntPoint>,
    preserve_collinear: bool,
)
    requires
        tidies_to(a, b, preserve_collinear),
        tidy_step(b, c, preserve_collinear),
    ensures
        tidies_to(a, c, preserve_collinear),
{
    let rs = choose|rs: Seq<Seq<IntPoint>>|
        #![trigger rs.len()]
        rs.len() >= 1 && rs[0] == a && rs.last() == b && forall|j: int|
            0 <= j < rs.len() - 1 ==> tidy_step(#[trigger] rs[j], rs[j + 1], preserve_collinear);
    let rs2 = rs.push(c);
    assert forall|j: int| 0 <= j < rs2.len() - 1 implies tidy_step(
        #[trigger] rs2[j],
        rs2[j + 1],
        preserve_collinear,
    ) by {
        if j < rs.len() - 1 {
            assert(rs2[j] == rs[j] && rs2[j + 1] == rs[j + 1]);
        } else {
            assert(rs2[j] == b && rs2[j + 1] == c);
        }
    }
    assert(rs2.len() >= 1 && rs2[0] == a && rs2.last() == c);
}

/// Reading a ring from the point `j` steps along it rotates its sequence.
proof fn lemma_ring_seq_from(s: Seq<OutPt>, x: int, j: nat)
    requires
        links_ok(s),
        0 <= x < s.len(),
        j < ring_len(s, x),
    ensures
        ring_seq(s, nexts(s, x, j)) =~= ring_seq(s, x).subrange(j as int, ring_len(s, x) as int)
            + ring_seq(s, x).subrange(0, j as int),
        ring_pts(s, nexts(s, x, j)) =~= rotated(ring_pts(s, x), j as int),
{
    lemma_ring_len(s, x);
    let l = ring_len(s, x);
    let y = nexts(s, x, j);
    lemma_nexts_in_ring(s, x, j);
    lemma_same_ring(s, x, y);
    let a = ring_seq(s, y);
    let b = ring_seq(s, x).subrange(j as int, l as int) + ring_seq(s, x).subrange(0, j as int);
    assert forall|k: int| 0 <= k < l implies a[k] == b[k] by {
        lemma_nexts_add(s, x, j, k as nat);
        if j + k >= l {
            lemma_nexts_add(s, x, l, (j + k - l) as nat);
            assert(nexts(s, x, l) == x);
            assert(b[k] == nexts(s, x, (j + k - l) as nat));
        } else {
            assert(b[k] == nexts(s, x, (j + k) as nat));
        }
    }
    assert(a =~= b);
    assert(ring_pts(s, y) =~= rotated(ring_pts(s, x), j as int));
}

/// The last point of the walk round a ring is the predecessor of its start.
proof fn lemma_last_is_prev(t: Seq<OutPt>, x: int)
    requires
        links_ok(t),
        0 <= x < t.len(),
    ensures
        nexts(t, x, (ring_len(t, x) - 1) as nat) == t[x].prev as int,
{
    lemma_ring_len(t, x);
    let l = ring_len(t, x);
    let q = nexts(t, x, (l - 1) as nat);
    lemma_nexts_in_range(t, x, (l - 1) as nat);
    assert(nexts(t, x, l) == t[q].next as int);
    assert(t[t[q].next as int].prev as int == q);
}

/// Seen through the coordinates of its ring, a point is needless exactly
/// when it is the first vertex of its ring and can go there.
proof fn lemma_needless_first(t: Seq<OutPt>, x: int, preserve_collinear: bool)
    requires
        links_ok(t),
        0 <= x < t.len(),
        ring_len(t, x) >= 3,
    ensures
        needless(t, x, preserve_collinear) == needless_in(ring_pts(t, x), 0, preserve_collinear),
{
    lemma_ring_len(t, x);
    let l = ring_len(t, x);
    lemma_last_is_prev(t, x);
    assert(nexts(t, x, 0) == x);
    assert(nexts(t, x, 1) == t[x].next as int);
    let r = ring_pts(t, x);
    assert(r[0] == t[x].pt);
    assert(r[1] == t[t[x].next as int].pt);
    assert(r[l - 1] == t[t[x].prev as int].pt);
}

/// Moving on to the next point reads the ring from its next vertex.
proof fn lemma_tidy_pass(t: Seq<OutPt>, x: int, preserve_collinear: bool)
    requires
        links_ok(t),
        0 <= x < t.len(),
        ring_len(t, x) >= 3,
    ensures
        tidy_step(ring_pts(t, x), ring_pts(t, t[x].next as int), preserve_collinear),
{
    lemma_ring_len(t, x);
    assert(nexts(t, x, 0) == x);
    assert(nexts(t, x, 1) == t[x].next as int);
    lemma_ring_seq_from(t, x, 1);
    let r = ring_pts(t, x);
    assert(ring_pts(t, t[x].next as int) == rotated(r, 1));
}

/// Taking out point `x` and going on from its predecessor takes its vertex
/// out of the coordinates of the ring and reads the rest from the
/// predecessor.
#[verifier::spinoff_prover]
#[verifier::rlimit(40)]
proof fn lemma_tidy_drop(t: Seq<OutPt>, x: int, preserve_collinear: bool)
    requires
        links_ok(t),
        0 <= x < t.len(),
        ring_len(t, x) >= 3,
        needless(t, x, preserve_collinear),
    ensures
        tidy_step(ring_pts(t, x), ring_pts(t, x).remove(0), preserve_collinear),
        tidy_step(
            ring_pts(t, x).remove(0),
            ring_pts(unlinked(t, x), t[x].prev as int),
            preserve_collinear,
        ),
{
    lemma_ring_len(t, x);
    let l = ring_len(t, x);
    let p = t[x].prev as int;
    let r = ring_pts(t, x);
    lemma_needless_first(t, x, preserve_collinear);
    lemma_last_is_prev(t, x);
    lemma_ring_seq_from(t, x, (l - 1) as nat);
    assert(ring_pts(t, p) =~= rotated(r, l - 1));
    lemma_nexts_in_ring(t, x, (l - 1) as nat);
    lemma_same_ring(t, x, p);
    assert(t[p].next as int == x);
    assert(nexts(t, p, 0) == p);
    assert(nexts(t, p, 1) == x);
    lemma_unlinked_ring(t, p, 1);
    let t2 = unlinked(t, x);
    let q = ring_pts(t2, p);
    assert(q =~= ring_pts(t, p).remove(1)) by {
        assert(ring_seq(t2, p) =~= ring_seq(t, p).remove(1));
        assert forall|k: int| 0 <= k < q.len() implies q[k] == ring_pts(t, p).remove(1)[k] by {
            let i = ring_seq(t2, p)[k];
            lemma_nexts_in_range(t2, p, k as nat);
            assert(t2[i].pt == t[i].pt);
        }
    }
    let r0 = r.remove(0);
    assert(q =~= rotated(r0, l - 2));
    assert(needless_in(r, 0, preserve_collinear));
}

/// The state of the walk that tidies the polygon ring through `start` of
/// `s0`: `t` has lost only points of that ring, the ring of `pp` keeps to
/// it, and when `last_ok` is set the `d` points from it up to `pp` were
/// found needed.
#[verifier::opaque]
spec fn polygon_state(
    s0: Seq<OutPt>,
    t: Seq<OutPt>,
    start: int,
    pp: int,
    last_ok: Option<usize>,
    d: nat,
    preserve_collinear: bool,
    use_full_range: bool,
) -> bool {
    &&& links_ok(s0)
    &&& 0 <= start < s0.len()
    &&& links_ok(t)
    &&& t.len() == s0.len()
    &&& coords_within(t, use_full_range)
    &&& 0 <= pp < t.len()
    &&& in_ring(s0, start, pp)
    &&& forall|i: int| in_ring(t, pp, i) ==> in_ring(s0, start, i)
    &&& forall|j: int| 0 <= j < s0.len() && !in_ring(s0, start, j) ==> #[trigger] t[j] == s0[j]
    &&& keeps_order(s0, t, pp)
    &&& tidies_to(ring_pts(s0, start), ring_pts(t, pp), preserve_collinear)
    &&& last_ok matches Some(o) ==> {
        &&& 0 <= o < t.len()
        &&& 1 <= d <= ring_len(t, o as int)
        &&& pp == nexts(t, o as int, d)
        &&& forall|k: nat| k < d ==> !needless(t, #[trigger] nexts(t, o as int, k), preserve_collinear)
    }
}

proof fn lemma_polygon_init(s0: Seq<OutPt>, start: int, preserve_collinear: bool, use_full_range: bool)
    requires
        links_ok(s0),
        0 <= start < s0.len(),
        coords_within(s0, use_full_range),
    ensures
        polygon_state(s0, s0, start, start, None, 0, preserve_collinear, use_full_range),
{
    reveal(polygon_state);
    lemma_ring_len(s0, start);
    assert(nexts(s0, start, 0) == start);
    assert(in_ring(s0, start, start));
    lemma_keeps_order_refl(s0, start);
    lemma_tidies_refl(ring_pts(s0, start), preserve_collinear);
}

/// What the state gives about the current point.
proof fn lemma_polygon_facts(
    s0: Seq<OutPt>,
    t: Seq<OutPt>,
    start: int,
    pp: int,
    last_ok: Option<usize>,
    d: nat,
    preserve_collinear: bool,
    use_full_range: bool,
)
    requires
        polygon_state(s0, t, start, pp, last_ok, d, preserve_collinear, use_full_range),
    ensures
        links_ok(t),
        t.len() == s0.len(),
        0 <= pp < t.len(),
        coords_within(t, use_full_range),
        in_ring(s0, start, pp),
        forall|i: int| in_ring(t, pp, i) ==> in_ring(s0, start, i),
        forall|j: int| 0 <= j < s0.len() && !in_ring(s0, start, j) ==> #[trigger] t[j] == s0[j],
        keeps_order(s0, t, pp),
        tidies_to(ring_pts(s0, start), ring_pts(t, pp), preserve_collinear),
{
    reveal(polygon_state);
}

/// A needless point is taken out; the walk goes on from its predecessor.
#[verifier::spinoff_prover]
#[verifier::rlimit(40)]
proof fn lemma_polygon_drop(
    s0: Seq<OutPt>,
    t: Seq<OutPt>,
    start: int,
    pp: int,
    last_ok: Option<usize>,
    d: nat,
    preserve_collinear: bool,
    use_full_range: bool,
)
    requires
        polygon_state(s0, t, start, pp, last_ok, d, preserve_collinear, use_full_range),
        ring_len(t, pp) >= 3,
        needless(t, pp, preserve_collinear),
    ensures
        polygon_state(
            s0,
            unlinked(t, pp),
            start,
            t[pp].prev as int,
            None,
            0,
            preserve_collinear,
            use_full_range,
        ),
        ring_len(unlinked(t, pp), t[pp].prev as int) == ring_len(t, pp) - 1,
{
    reveal(polygon_state);
    let p = t[pp].prev as int;
    assert(t[p].next as int == pp);
    lemma_ring_len(t, pp);
    lemma_ring_closed(t, pp, pp);
    assert(nexts(t, pp, 0) == pp);
    assert(in_ring(t, pp, pp));
    lemma_same_ring(t, pp, p);
    assert(nexts(t, p, 0) == p);
    assert(nexts(t, p, 1) == pp);
    lemma_unlinked_ring(t, p, 1);
    lemma_unlinked_len(t, p, 1);
    let t2 = unlinked(t, pp);
    lemma_keeps_order_unlinked(s0, t, pp);
    lemma_tidy_drop(t, pp, preserve_collinear);
    lemma_tidies_step(ring_pts(s0, start), ring_pts(t, pp), ring_pts(t, pp).remove(0), preserve_collinear);
    lemma_tidies_step(ring_pts(s0, start), ring_pts(t, pp).remove(0), ring_pts(t2, p), preserve_collinear);
    // the neighbours of pp lie on its ring, so on the first ring
    assert(in_ring(t, pp, t[pp].next as int));
    assert(in_ring(t, pp, p));
    assert(in_ring(s0, start, p));
    assert(in_ring(s0, start, t[pp].next as int));
    lemma_unlink_outside(s0, t, start, pp);
    // the ring of p shrinks by pp
    lemma_ring_len_unique(t2, p, (ring_len(t, p) - 1) as nat);
    assert forall|i: int| in_ring(t2, p, i) implies in_ring(s0, start, i) by {
        let k = choose|k: nat| k < ring_len(t2, p) && nexts(t2, p, k) == i;
        if k < 1 {
            lemma_nexts_in_ring(t, p, k);
        } else {
            lemma_nexts_in_ring(t, p, k + 1);
        }
        assert(in_ring(t, p, i));
    }
    assert forall|j: int| 0 <= j < t2.len() implies #[trigger] t2[j].pt == t[j].pt by {}
    assert(coords_within(t2, use_full_range)) by {
        assert forall|i: int| 0 <= i < t2.len() implies #[trigger] t2[i].pt == t[i].pt by {}
    }
}

/// A needed point is passed: it starts the stretch of needed points when
/// none was open, and extends it otherwise.
#[verifier::spinoff_prover]
#[verifier::rlimit(40)]
proof fn lemma_polygon_pass(
    s0: Seq<OutPt>,
    t: Seq<OutPt>,
    start: int,
    pp: int,
    last_ok: Option<usize>,
    d: nat,
    preserve_collinear: bool,
    use_full_range: bool,
)
    requires
        polygon_state(s0, t, start, pp, last_ok, d, preserve_collinear, use_full_range),
        !needless(t, pp, preserve_collinear),
        last_ok != Some(pp as usize),
        ring_len(t, pp) >= 3,
    ensures
        ({
            let o = if last_ok is Some {
                last_ok
            } else {
                Some(pp as usize)
            };
            let d2: nat = if last_ok is Some {
                d + 1
            } else {
                1
            };
            &&& polygon_state(
                s0,
                t,
                start,
                t[pp].next as int,
                o,
                d2,
                preserve_collinear,
                use_full_range,
            )
            &&& ring_len(t, t[pp].next as int) == ring_len(t, pp)
            &&& d2 <= ring_len(t, pp)
            &&& (last_ok is Some ==> d < ring_len(t, pp))
        }),
{
    reveal(polygon_state);
    lemma_ring_len(t, pp);
    let n = t[pp].next as int;
    assert(nexts(t, pp, 0) == pp);
    assert(nexts(t, pp, 1) == n);
    lemma_nexts_in_ring(t, pp, 1);
    lemma_same_ring(t, pp, n);
    assert(in_ring(t, pp, pp));
    lemma_ring_closed(t, pp, pp);
    assert(in_ring(s0, start, n));
    assert forall|i: int| in_ring(t, n, i) implies in_ring(s0, start, i) by {}
    lemma_keeps_order_same_ring(s0, t, pp, n);
    lemma_tidy_pass(t, pp, preserve_collinear);
    lemma_tidies_step(ring_pts(s0, start), ring_pts(t, pp), ring_pts(t, n), preserve_collinear);
    match last_ok {
        None => {
            assert(nexts(t, pp, 1) == n);
            assert forall|k: nat| k < 1 implies !needless(t, #[trigger] nexts(t, pp, k), preserve_collinear) by {
                assert(k == 0);
            }
        },
        Some(o) => {
            let o = o as int;
            lemma_ring_len(t, o);
            lemma_nexts_in_ring(t, o, d);
            lemma_same_ring(t, o, pp);
            if d == ring_len(t, o) {
                assert(nexts(t, o, d) == o);
            }
            assert(nexts(t, o, d + 1) == n);
            assert forall|k: nat| k < d + 1 implies !needless(t, #[trigger] nexts(t, o, k), preserve_collinear) by {
                if k == d {
                    assert(nexts(t, o, k) == pp);
                }
            }
        },
    }
}

/// Back at the start of the stretch of needed points: every point of the
/// ring is needed, and the ring has at least three points.
#[verifier::spinoff_prover]
proof fn lemma_polygon_done(
    s0: Seq<OutPt>,
    t: Seq<OutPt>,
    start: int,
    pp: int,
    d: nat,
    preserve_collinear: bool,
    use_full_range: bool,
)
    requires
        polygon_state(s0, t, start, pp, Some(pp as usize), d, preserve_collinear, use_full_range),
    ensures
        forall|i: int| in_ring(t, pp, i) ==> in_ring(s0, start, i) && !needless(t, i, preserve_collinear),
        keeps_order(s0, t, pp),
        tidies_to(ring_pts(s0, start), ring_pts(t, pp), preserve_collinear),
{
    reveal(polygon_state);
    lemma_ring_len(t, pp);
    let l = ring_len(t, pp);
    if d < l {
        assert(nexts(t, pp, d) != pp);
    }
    assert forall|i: int| in_ring(t, pp, i) implies !needless(t, i, preserve_collinear) by {
        let k = choose|k: nat| k < l && nexts(t, pp, k) == i;
        assert(!needless(t, nexts(t, pp, k), preserve_collinear));
    }
}

/// The tidying walk over the ring through `pp`, `last_ok` being the first
/// of the points passed as needed since the last removal: it stops with no
/// ring when `pp` has one or two points left on its ring, takes `pp` out
/// when it is needless and goes on from its predecessor, stops with `pp`
/// when it is back at `last_ok`, and else passes on to the successor. The
/// result is the points and the point returned, or `None` when `fuel`
/// steps do not reach the end.
pub open spec fn polygon_walk(
    t: Seq<OutPt>,
    pp: int,
    last_ok: Option<usize>,
    preserve_collinear: bool,
    fuel: nat,
) -> Option<(Seq<OutPt>, Option<usize>)>
    decreases fuel,
{
    if fuel == 0 {
        None
    } else if t[pp].prev == pp || t[pp].prev == t[pp].next {
        Some((t, None))
    } else if needless(t, pp, preserve_collinear) {
        polygon_walk(unlinked(t, pp), t[pp].prev as int, None, preserve_collinear, (fuel - 1) as nat)
    } else if last_ok == Some(pp as usize) {
        Some((t, Some(pp as usize)))
    } else {
        polygon_walk(
            t,
            t[pp].next as int,
            if last_ok is Some {
                last_ok
            } else {
                Some(pp as usize)
            },
            preserve_collinear,
            (fuel - 1) as nat,
        )
    }
}

/// The walk ends the same way whatever fuel lets it end.
pub proof fn lemma_polygon_walk_unique(
    t: Seq<OutPt>,
    pp: int,
    last_ok: Option<usize>,
    preserve_collinear: bool,
    f1: nat,
    f2: nat,
)
    requires
        polygon_walk(t, pp, last_ok, preserve_collinear, f1) is Some,
        polygon_walk(t, pp, last_ok, preserve_collinear, f2) is Some,
    ensures
        polygon_walk(t, pp, last_ok, preserve_collinear, f1) == polygon_walk(
            t,
            pp,
            last_ok,
            preserve_collinear,
            f2,
        ),
    decreases f1,
{
    if f1 > 0 && f2 > 0 && !(t[pp].prev == pp || t[pp].prev == t[pp].next) {
        if needless(t, pp, preserve_collinear) {
            lemma_polygon_walk_unique(
                unlinked(t, pp),
                t[pp].prev as int,
                None,
                preserve_collinear,
                (f1 - 1) as nat,
                (f2 - 1) as nat,
            );
        } else if last_ok != Some(pp as usize) {
            lemma_polygon_walk_unique(
                t,
                t[pp].next as int,
                if last_ok is Some {
                    last_ok
                } else {
                    Some(pp as usize)
                },
                preserve_collinear,
                (f1 - 1) as nat,
                (f2 - 1) as nat,
            );
        }
    }
}

impl OutPtArena {
    /// Tidies the polygon ring through `start`: takes out, one by one,
    /// points that repeat a neighbour or lie needlessly on the line through
    /// their neighbours (see `needless`), until the walk has passed the
    /// whole ring without finding one, or the ring is down to two points.
    /// Returns a point of the tidied ring, whose points keep their old
    /// order (see `keeps_order`), or `None` when it is down to two points or
    /// fewer; either way the coordinates of the ring left come from the old
    /// ones by taking out, one at a time, vertices that could go at that
    /// point (see `tidies_to`). Only points of that ring change. The points
    /// left and the point returned are those of the walk `polygon_walk`
    /// from `start`, which fixes which points go, in which order, and
    /// which point is returned.
    pub fn fixup_polygon(&mut self, start: usize, preserve_collinear: bool, use_full_range: bool) -> (r:
        Option<usize>)
        requires
            start < old(self).nodes().len(),
            coords_within(old(self).nodes(), use_full_range),
        ensures
            exists|f: nat|
                polygon_walk(old(self).nodes(), start as int, None, preserve_collinear, f) == Some(
                    (final(self).nodes(), r),
                ),
            final(self).nodes().len() == old(self).nodes().len(),
            forall|i: int|
                0 <= i < old(self).nodes().len() && !in_ring(old(self).nodes(), start as int, i)
                    ==> #[trigger] final(self).nodes()[i] == old(self).nodes()[i],
            match r {
                Some(q) => {
                    &&& q < final(self).nodes().len()
                    &&& in_ring(old(self).nodes(), start as int, q as int)
                    &&& ring_len(final(self).nodes(), q as int) >= 3
                    &&& keeps_order(old(self).nodes(), final(self).nodes(), q as int)
                    &&& tidies_to(
                        ring_pts(old(self).nodes(), start as int),
                        ring_pts(final(self).nodes(), q as int),
                        preserve_collinear,
                    )
                    &&& forall|i: int|
                        in_ring(final(self).nodes(), q as int, i) ==> in_ring(
                            old(self).nodes(),
                            start as int,
                            i,
                        ) && !needless(final(self).nodes(), i, preserve_collinear)
                },
                None => exists|x: int|
                    0 <= x < old(self).nodes().len() && in_ring(old(self).nodes(), start as int, x)
                        && ring_len(final(self).nodes(), x) <= 2 && (forall|i: int|
                        in_ring(final(self).nodes(), x, i) ==> in_ring(
                            old(self).nodes(),
                            start as int,
                            i,
                        )) && tidies_to(
                        ring_pts(old(self).nodes(), start as int),
                        ring_pts(final(self).nodes(), x),
                        preserve_collinear,
                    ),
            },
    {
        let ghost s0 = self.nodes();
        let _ = self.len();
        proof {
            lemma_polygon_init(s0, start as int, preserve_collinear, use_full_range);
        }
        let mut pp = start;
        let mut last_ok: Option<usize> = None;
        let ghost mut d: nat = 0;
        let ghost mut steps: nat = 0;
        loop
            invariant
                forall|f: nat|
                    polygon_walk(s0, start as int, None, preserve_collinear, f + steps)
                        == #[trigger] polygon_walk(
                        self.nodes(),
                        pp as int,
                        last_ok,
                        preserve_collinear,
                        f,
                    ),
                s0 == old(self).nodes(),
                polygon_state(
                    s0,
                    self.nodes(),
                    start as int,
                    pp as int,
                    last_ok,
                    d,
                    preserve_collinear,
                    use_full_range,
                ),
                last_ok is Some ==> d <= ring_len(self.nodes(), pp as int),
            decreases ring_len(self.nodes(), pp as int), if last_ok is Some {
                ring_len(self.nodes(), pp as int) - d
            } else {
                ring_len(self.nodes(), pp as int) + 1int
            },
        {
            let ghost t = self.nodes();
            proof {
                lemma_polygon_facts(s0, t, start as int, pp as int, last_ok, d, preserve_collinear, use_full_range);
                lemma_ring_three(t, pp as int);
            }
            let cur = self.get(pp);
            if cur.prev == pp || cur.prev == cur.next {
                assert(polygon_walk(s0, start as int, None, preserve_collinear, 1 + steps) == Some(
                    (t, None::<usize>),
                )) by {
                    assert(polygon_walk(t, pp as int, last_ok, preserve_collinear, 1) == Some(
                        (t, None::<usize>),
                    ));
                }
                return None;
            }
            if is_needless(self, pp, preserve_collinear, use_full_range) {
                proof {
                    lemma_polygon_drop(s0, t, start as int, pp as int, last_ok, d, preserve_collinear, use_full_range);
                }
                let ghost old_last = last_ok;
                let ghost old_pp = pp as int;
                last_ok = None;
                pp = self.unlink(pp);
                proof {
                    d = 0;
                    assert forall|f: nat|
                        polygon_walk(s0, start as int, None, preserve_collinear, f + (steps + 1))
                            == #[trigger] polygon_walk(
                            self.nodes(),
                            pp as int,
                            last_ok,
                            preserve_collinear,
                            f,
                        ) by {
                        assert(polygon_walk(s0, start as int, None, preserve_collinear, (f + 1) + steps)
                            == polygon_walk(t, old_pp, old_last, preserve_collinear, f + 1));
                        assert(f + (steps + 1) == (f + 1) + steps);
                    }
                    steps = steps + 1;
                }
            } else if last_ok == Some(pp) {
                proof {
                    lemma_polygon_done(s0, t, start as int, pp as int, d, preserve_collinear, use_full_range);
                }
                assert(polygon_walk(s0, start as int, None, preserve_collinear, 1 + steps) == Some(
                    (t, Some(pp)),
                )) by {
                    assert(polygon_walk(t, pp as int, last_ok, preserve_collinear, 1) == Some(
                        (t, Some(pp)),
                    ));
                }
                return Some(pp);
            } else {
                proof {
                    lemma_polygon_pass(s0, t, start as int, pp as int, last_ok, d, preserve_collinear, use_full_range);
                }
                let ghost old_last = last_ok;
                let ghost old_pp = pp as int;
                if last_ok.is_none() {
                    last_ok = Some(pp);
                    proof {
                        d = 1;
                    }
                } else {
                    proof {
                        d = d + 1;
                    }
                }
                pp = cur.next;
                proof {
                    assert forall|f: nat|
                        polygon_walk(s0, start as int, None, preserve_collinear, f + (steps + 1))
                            == #[trigger] polygon_walk(
                            self.nodes(),
                            pp as int,
                            last_ok,
                            preserve_collinear,
                            f,
                        ) by {
                        assert(polygon_walk(s0, start as int, None, preserve_collinear, (f + 1) + steps)
                            == polygon_walk(t, old_pp, old_last, preserve_collinear, f + 1));
                        assert(f + (steps + 1) == (f + 1) + steps);
                    }
                    steps = steps + 1;
                }
            }
        }
    }
}

} // verus!
