//! What a successful join does to the output records: a join within one
//! ring cuts it in two and gives the new part a record of its own; a join
//! of two rings merges the second record into the first.
use vstd::prelude::*;

use crate::fixup::ring_pts;
use crate::outpt::{ring_with_idx, OutPt, OutPtArena};
use crate::outrec::{
    all_parse_end, create_out_rec, fixup1_rec, fixup2_rec, fixup3_rec, fixup_first_lefts1,
    fixup_first_lefts2, fixup_first_lefts3, lefts_in_range, lemma_parse_end_kept,
    lemma_parse_ends_after, parse_ends, parse_stops, same_pointless, OutRec,
};
use crate::ring_query::{inside_from, poly2_contains_poly1};

verus! {

/// The records after a join merged the ring of record `r2` into that of
/// `r1`: `r2` loses its ring, takes `r1`'s index and lies in `r1`; `r1`
/// takes the hole state of `hole_rec` and, when that is `r2`, its
/// `first_left`.
pub open spec fn merged_records(a: Seq<OutRec>, r1: usize, r2: usize, hole_rec: usize) -> Seq<
    OutRec,
> {
    let rec1 = a[r1 as int];
    let rec2 = a[r2 as int];
    a.update(
        r2 as int,
        OutRec { pts: None, bottom_pt: None, idx: rec1.idx, first_left: Some(r1), ..rec2 },
    ).update(
        r1 as int,
        OutRec {
            is_hole: a[hole_rec as int].is_hole,
            first_left: if hole_rec == r2 {
                rec2.first_left
            } else {
                rec1.first_left
            },
            ..rec1
        },
    )
}

/// After the ring of record `r2` was joined to that of `r1`: the records
/// as `merged_records` leaves them and, when a result tree is built, with
/// every record that stood in `r2` moved to `r1` (see `fixup3_rec`).
pub fn merge_records(
    recs: &mut Vec<OutRec>,
    r1: usize,
    r2: usize,
    hole_rec: usize,
    using_poly_tree: bool,
)
    requires
        r1 < old(recs)@.len(),
        r2 < old(recs)@.len(),
        hole_rec < old(recs)@.len(),
        r1 != r2,
        old(recs)@[r1 as int].pts is Some,
        old(recs)@[r2 as int].pts is Some,
        lefts_in_range(old(recs)@),
        using_poly_tree ==> all_parse_end(old(recs)@),
    ensures
        final(recs)@ == if using_poly_tree {
            Seq::new(
                old(recs)@.len(),
                |i: int| fixup3_rec(merged_records(old(recs)@, r1, r2, hole_rec), r2, r1, i),
            )
        } else {
            merged_records(old(recs)@, r1, r2, hole_rec)
        },
{
    let ghost a = recs@;
    let rec1 = recs[r1];
    let rec2 = recs[r2];
    let hole = recs[hole_rec].is_hole;
    recs.set(
        r2,
        OutRec { pts: None, bottom_pt: None, idx: rec1.idx, first_left: Some(r1), ..rec2 },
    );
    let first_left = if hole_rec == r2 {
        rec2.first_left
    } else {
        rec1.first_left
    };
    recs.set(r1, OutRec { is_hole: hole, first_left, ..rec1 });
    let ghost m = recs@;
    proof {
        assert(m =~= merged_records(a, r1, r2, hole_rec));
        assert forall|i: int| 0 <= i < m.len() implies (#[trigger] m[i].first_left matches Some(
            f,
        ) ==> f < m.len()) by {
            if i != r1 as int && i != r2 as int {
                assert(m[i] == a[i]);
            }
        }
        if using_poly_tree {
            lemma_merged_walks_end(a, m, r1, r2);
        }
    }
    if using_poly_tree {
        fixup_first_lefts3(recs, r2, r1);
        proof {
            assert(recs@ =~= Seq::new(a.len(), |i: int| fixup3_rec(m, r2, r1, i)));
        }
    }
}

/// The records after the ring of record `r2` was appended to that of
/// `r1`, the joined ring headed by `head`: `r1` heads it, forgets its
/// lowest point and, when `hole_rec` is `r2`, takes `r2`'s hole state and
/// (unless that is `r1` itself) its `first_left`; `r2` loses its ring,
/// takes `r1`'s index and lies in `r1`.
pub open spec fn appended_records(
    a: Seq<OutRec>,
    r1: usize,
    r2: usize,
    hole_rec: usize,
    head: usize,
) -> Seq<OutRec> {
    let rec1 = a[r1 as int];
    let rec2 = a[r2 as int];
    let rec1b = if hole_rec == r2 {
        OutRec {
            pts: Some(head),
            bottom_pt: None,
            first_left: if rec2.first_left != Some(r1) {
                rec2.first_left
            } else {
                rec1.first_left
            },
            is_hole: rec2.is_hole,
            ..rec1
        }
    } else {
        OutRec { pts: Some(head), bottom_pt: None, ..rec1 }
    };
    a.update(r1 as int, rec1b).update(
        r2 as int,
        OutRec { pts: None, bottom_pt: None, first_left: Some(r1), idx: rec1.idx, ..rec2 },
    )
}

/// After the ring of record `r2` was appended to that of `r1`: the
/// records as `appended_records` leaves them.
pub fn append_records(recs: &mut Vec<OutRec>, r1: usize, r2: usize, hole_rec: usize, head: usize)
    requires
        r1 < old(recs)@.len(),
        r2 < old(recs)@.len(),
    ensures
        final(recs)@ == appended_records(old(recs)@, r1, r2, hole_rec, head),
{
    let ghost a = recs@;
    let rec1 = recs[r1];
    let rec2 = recs[r2];
    if hole_rec == r2 {
        let first_left = if rec2.first_left != Some(r1) {
            rec2.first_left
        } else {
            rec1.first_left
        };
        recs.set(
            r1,
            OutRec { pts: Some(head), bottom_pt: None, first_left, is_hole: rec2.is_hole, ..rec1 },
        );
    } else {
        recs.set(r1, OutRec { pts: Some(head), bottom_pt: None, ..rec1 });
    }
    recs.set(
        r2,
        OutRec { pts: None, bottom_pt: None, first_left: Some(r1), idx: rec1.idx, ..rec2 },
    );
    proof {
        assert(recs@ =~= appended_records(a, r1, r2, hole_rec, head));
    }
}

/// Every walk along `first_left` still ends after a merge.
proof fn lemma_merged_walks_end(a: Seq<OutRec>, m: Seq<OutRec>, r1: usize, r2: usize)
    requires
        r1 < a.len(),
        r2 < a.len(),
        r1 != r2,
        a[r1 as int].pts is Some,
        a[r2 as int].pts is Some,
        lefts_in_range(a),
        lefts_in_range(m),
        all_parse_end(a),
        m.len() == a.len(),
        m[r2 as int].pts is None,
        m[r2 as int].first_left == Some(r1),
        m[r1 as int].pts is Some,
        m[r1 as int].first_left == a[r1 as int].first_left || m[r1 as int].first_left
            == a[r2 as int].first_left,
        forall|i: int| 0 <= i < a.len() && i != r1 && i != r2 ==> #[trigger] m[i] == a[i],
    ensures
        all_parse_end(m),
{
    reveal(all_parse_end);
    assert forall|i: int| 0 <= i < m.len() implies parse_ends(m, #[trigger] m[i].first_left) by {
        let r = m[i].first_left;
        if i == r2 as int {
            assert(parse_stops(m, r, 0));
        } else {
            let j = if i == r1 as int && r == a[r2 as int].first_left {
                r2 as int
            } else {
                i
            };
            assert(parse_ends(a, a[j].first_left));
            assert(r == a[j].first_left);
            lemma_parse_ends_after(a, m, r);
        }
    }
}

/// The records after the ring of record `r1` was cut in two, its head
/// `op1` staying with `r1` and `op2` heading a new record `r2` (the next
/// index), with `t` the points once the new part carries `r2`'s index;
/// before the records that lay in the old ring are moved. A part that
/// lies inside the other is a hole of the opposite kind placed in it; two
/// parts side by side are of one kind and lie in the same polygon.
pub open spec fn split_records(a: Seq<OutRec>, t: Seq<OutPt>, r1: usize, op2: usize) -> Seq<
    OutRec,
> {
    let r2 = a.len();
    let rec1 = a[r1 as int];
    let op1 = rec1.pts->0;
    let base = a;
    let fresh = OutRec {
        idx: r2 as i32,
        is_hole: false,
        is_open: false,
        first_left: None,
        poly_nd: None,
        pts: Some(op2),
        bottom_pt: None,
    };
    if inside_from(ring_pts(t, op2 as int), ring_pts(t, op1 as int), 0) {
        base.push(OutRec { is_hole: !rec1.is_hole, first_left: Some(r1), ..fresh })
    } else if inside_from(ring_pts(t, op1 as int), ring_pts(t, op2 as int), 0) {
        base.update(
            r1 as int,
            OutRec { is_hole: !rec1.is_hole, first_left: Some(r2 as usize), ..rec1 },
        ).push(OutRec { is_hole: rec1.is_hole, first_left: rec1.first_left, ..fresh })
    } else {
        base.push(OutRec { is_hole: rec1.is_hole, first_left: rec1.first_left, ..fresh })
    }
}

/// `split_records` and, when a result tree is built, the records that lay
/// in the old ring placed in the part that holds them (`fixup2_rec` when
/// one part lies inside the other, `fixup1_rec` when they lie side by
/// side).
pub open spec fn split_result(
    a: Seq<OutRec>,
    t: Seq<OutPt>,
    r1: usize,
    op2: usize,
    using_poly_tree: bool,
) -> Seq<OutRec> {
    let r2 = a.len() as usize;
    let op1 = a[r1 as int].pts->0;
    let m = split_records(a, t, r1, op2);
    if !using_poly_tree {
        m
    } else if inside_from(ring_pts(t, op2 as int), ring_pts(t, op1 as int), 0) {
        Seq::new(m.len(), |i: int| fixup2_rec(m, t, r2, r1, i))
    } else if inside_from(ring_pts(t, op1 as int), ring_pts(t, op2 as int), 0) {
        Seq::new(m.len(), |i: int| fixup2_rec(m, t, r1, r2, i))
    } else {
        Seq::new(m.len(), |i: int| fixup1_rec(m, t, r1, r2, i))
    }
}

/// The orientation a cut leaves to check: when one part lies inside the
/// other, the ring of the inner part must turn so that its area is
/// positive exactly when it is an outer polygon and the output is not
/// reversed, or a hole and the output is reversed.
pub open spec fn split_turn(
    a: Seq<OutRec>,
    t: Seq<OutPt>,
    r1: usize,
    op2: usize,
    reverse_output: bool,
) -> Option<(usize, bool)> {
    let hole1 = a[r1 as int].is_hole;
    let op1 = a[r1 as int].pts->0;
    if inside_from(ring_pts(t, op2 as int), ring_pts(t, op1 as int), 0) {
        Some((op2, !(!hole1 ^ reverse_output)))
    } else if inside_from(ring_pts(t, op1 as int), ring_pts(t, op2 as int), 0) {
        Some((op1, !(!hole1 ^ reverse_output)))
    } else {
        None
    }
}

/// After the ring of record `r1`, headed by `op1`, was cut in two, the
/// part through `op2` gets a new record and its points that record's
/// index; the records are as `split_result` leaves them, and the result
/// names the ring whose orientation is left to check (`split_turn`).
#[verifier::spinoff_prover]
#[verifier::rlimit(60)]
pub fn split_off_record(
    recs: &mut Vec<OutRec>,
    arena: &mut OutPtArena,
    r1: usize,
    op2: usize,
    using_poly_tree: bool,
    reverse_output: bool,
) -> (r: Option<(usize, bool)>)
    requires
        r1 < old(recs)@.len(),
        old(recs)@[r1 as int].pts is Some,
        op2 < old(arena).nodes().len(),
        lefts_in_range(old(recs)@),
        forall|i: int|
            0 <= i < old(recs)@.len() ==> (#[trigger] old(recs)@[i].pts matches Some(p) ==> p
                < old(arena).nodes().len()),
        using_poly_tree ==> all_parse_end(old(recs)@),
    ensures
        final(arena).nodes() == ring_with_idx(
            old(arena).nodes(),
            op2 as int,
            old(recs)@.len() as i32,
        ),
        final(recs)@ == split_result(old(recs)@, final(arena).nodes(), r1, op2, using_poly_tree),
        r == split_turn(old(recs)@, final(arena).nodes(), r1, op2, reverse_output),
        final(recs)@.len() == old(recs)@.len() + 1,
        lefts_in_range(final(recs)@),
        forall|i: int|
            0 <= i < final(recs)@.len() ==> (#[trigger] final(recs)@[i].pts matches Some(p) ==> p
                < final(arena).nodes().len()),
        forall|i: int|
            0 <= i < old(recs)@.len() ==> (#[trigger] final(recs)@[i]).pts == old(recs)@[i].pts
                && final(recs)@[i].is_open == old(recs)@[i].is_open,
        final(recs)@[old(recs)@.len() as int].pts == Some(op2),
        !final(recs)@[old(recs)@.len() as int].is_open,
        all_parse_end(old(recs)@) ==> all_parse_end(final(recs)@),
{
    let ghost a = recs@;
    let rec1 = recs[r1];
    let op1 = rec1.pts.unwrap();
    let r2 = create_out_rec(recs);
    let fresh = recs[r2];
    recs.set(r2, OutRec { pts: Some(op2), ..fresh });
    arena.set_ring_idx(op2, recs[r2].idx);
    let ghost t = arena.nodes();
    let _ = arena.len();
    let inner2 = poly2_contains_poly1(arena, op2, op1);
    let result = if inner2 {
        recs.set(r2, OutRec { is_hole: !rec1.is_hole, first_left: Some(r1), ..recs[r2] });
        Some((op2, !(!rec1.is_hole ^ reverse_output)))
    } else if poly2_contains_poly1(arena, op1, op2) {
        recs.set(r2, OutRec { is_hole: rec1.is_hole, first_left: rec1.first_left, ..recs[r2] });
        recs.set(r1, OutRec { is_hole: !rec1.is_hole, first_left: Some(r2), ..rec1 });
        Some((op1, !(!rec1.is_hole ^ reverse_output)))
    } else {
        recs.set(r2, OutRec { is_hole: rec1.is_hole, first_left: rec1.first_left, ..recs[r2] });
        None
    };
    let ghost m = recs@;
    proof {
        assert(m =~= split_records(a, t, r1, op2));
        lemma_split_records_ok(a, m, r1, r2, t.len(), using_poly_tree || all_parse_end(a));
    }
    if using_poly_tree {
        if inner2 {
            fixup_first_lefts2(recs, arena, r2, r1);
        } else if result.is_some() {
            fixup_first_lefts2(recs, arena, r1, r2);
        } else {
            fixup_first_lefts1(recs, arena, r1, r2);
        }
        proof {
            assert(recs@ =~= split_result(a, t, r1, op2, using_poly_tree));
            lemma_placed_kept(m, recs@, t, r1, r2, result.is_some(), inner2);
        }
    }
    result
}

/// The ring of record `r1` after a join is headed by `op1`, forgets its
/// lowest point, and the part through `op2` is split off
/// (`split_off_record`).
pub fn split_record(
    recs: &mut Vec<OutRec>,
    arena: &mut OutPtArena,
    r1: usize,
    op1: usize,
    op2: usize,
    using_poly_tree: bool,
    reverse_output: bool,
) -> (r: Option<(usize, bool)>)
    requires
        r1 < old(recs)@.len(),
        old(recs)@[r1 as int].pts is Some,
        op1 < old(arena).nodes().len(),
        op2 < old(arena).nodes().len(),
        lefts_in_range(old(recs)@),
        forall|i: int|
            0 <= i < old(recs)@.len() ==> (#[trigger] old(recs)@[i].pts matches Some(p) ==> p
                < old(arena).nodes().len()),
        using_poly_tree ==> all_parse_end(old(recs)@),
    ensures
        final(arena).nodes() == ring_with_idx(
            old(arena).nodes(),
            op2 as int,
            old(recs)@.len() as i32,
        ),
        final(recs)@ == split_result(
            headed(old(recs)@, r1, op1),
            final(arena).nodes(),
            r1,
            op2,
            using_poly_tree,
        ),
        r == split_turn(headed(old(recs)@, r1, op1), final(arena).nodes(), r1, op2, reverse_output),
{
    let ghost a = recs@;
    let rec1 = recs[r1];
    recs.set(r1, OutRec { pts: Some(op1), bottom_pt: None, ..rec1 });
    proof {
        assert(recs@ =~= headed(a, r1, op1));
        lemma_headed_ok(a, r1, op1, arena.nodes().len());
    }
    split_off_record(recs, arena, r1, op2, using_poly_tree, reverse_output)
}

/// Record `r1` headed by `op1`, its lowest point forgotten.
pub open spec fn headed(a: Seq<OutRec>, r1: usize, op1: usize) -> Seq<OutRec> {
    a.update(r1 as int, OutRec { pts: Some(op1), bottom_pt: None, ..a[r1 as int] })
}

/// A record with points given another head keeps the links in range, the
/// heads in the arena and the walks finite.
proof fn lemma_headed_ok(a: Seq<OutRec>, r1: usize, op1: usize, n: nat)
    requires
        r1 < a.len(),
        a[r1 as int].pts is Some,
        op1 < n,
        lefts_in_range(a),
        forall|i: int| 0 <= i < a.len() ==> (#[trigger] a[i].pts matches Some(p) ==> p < n),
    ensures
        lefts_in_range(headed(a, r1, op1)),
        forall|i: int|
            0 <= i < a.len() ==> (#[trigger] headed(a, r1, op1)[i].pts matches Some(p) ==> p < n),
        all_parse_end(a) ==> all_parse_end(headed(a, r1, op1)),
{
    let b = headed(a, r1, op1);
    assert forall|i: int| 0 <= i < b.len() implies (#[trigger] b[i].first_left matches Some(f)
        ==> f < b.len()) by {
        assert(b[i].first_left == a[i].first_left);
    }
    assert forall|i: int| 0 <= i < a.len() implies (#[trigger] b[i].pts matches Some(p) ==> p
        < n) by {
        if i != r1 as int {
            assert(b[i] == a[i]);
        }
    }
    if all_parse_end(a) {
        reveal(all_parse_end);
        assert forall|i: int| 0 <= i < b.len() implies parse_ends(b, #[trigger] b[i].first_left) by {
            assert(b[i].first_left == a[i].first_left);
            assert(parse_ends(a, a[i].first_left));
            lemma_parse_ends_after(a, b, a[i].first_left);
        }
    }
}

/// Placing the records that lay in a cut ring keeps every record's ring,
/// kind of path and, when they ended before, the walks along
/// `first_left` finite.
proof fn lemma_placed_kept(
    m: Seq<OutRec>,
    f: Seq<OutRec>,
    t: Seq<OutPt>,
    r1: usize,
    r2: usize,
    inner: bool,
    outer_first: bool,
)
    requires
        r1 < m.len(),
        r2 < m.len(),
        m[r1 as int].pts is Some,
        m[r2 as int].pts is Some,
        lefts_in_range(m),
        lefts_in_range(f),
        same_pointless(m, f),
        f.len() == m.len(),
        forall|i: int|
            0 <= i < m.len() ==> #[trigger] f[i] == if inner {
                if outer_first {
                    fixup2_rec(m, t, r2, r1, i)
                } else {
                    fixup2_rec(m, t, r1, r2, i)
                }
            } else {
                fixup1_rec(m, t, r1, r2, i)
            },
    ensures
        forall|i: int| 0 <= i < m.len() ==> (#[trigger] f[i]).pts == m[i].pts && f[i].is_open == m[i].is_open,
        all_parse_end(m) ==> all_parse_end(f),
{
    reveal(same_pointless);
    assert forall|i: int| 0 <= i < m.len() implies (#[trigger] f[i]).pts == m[i].pts && f[i].is_open
        == m[i].is_open by {}
    if all_parse_end(m) {
        assert forall|i: int| 0 <= i < f.len() implies (exists|j: int|
            0 <= j < m.len() && #[trigger] f[i].first_left == #[trigger] m[j].first_left) || (
        f[i].first_left matches Some(k) && f[k as int].pts is Some) by {
            if f[i].first_left == m[i].first_left {
            } else if f[i].first_left == m[r1 as int].first_left {
            } else if f[i].first_left == m[r2 as int].first_left {
            } else {
                assert(f[i].first_left == Some(r1) || f[i].first_left == Some(r2));
            }
        }
        lemma_parse_end_kept(m, f);
    }
}

/// The records after a cut keep their links in range, their points in
/// the arena, and, when asked, every walk along `first_left` finite.
proof fn lemma_split_records_ok(
    a: Seq<OutRec>,
    m: Seq<OutRec>,
    r1: usize,
    r2: usize,
    n: nat,
    walks: bool,
)
    requires
        r1 < a.len(),
        r2 == a.len(),
        a[r1 as int].pts is Some,
        lefts_in_range(a),
        walks ==> all_parse_end(a),
        forall|i: int| 0 <= i < a.len() ==> (#[trigger] a[i].pts matches Some(p) ==> p < n),
        m.len() == a.len() + 1,
        forall|i: int| 0 <= i < a.len() && i != r1 ==> #[trigger] m[i] == a[i],
        m[r1 as int].pts matches Some(p) && p < n,
        m[r2 as int].pts matches Some(p) && p < n,
        m[r1 as int].first_left == a[r1 as int].first_left || m[r1 as int].first_left == Some(r2),
        m[r2 as int].first_left == a[r1 as int].first_left || m[r2 as int].first_left == Some(r1),
    ensures
        lefts_in_range(m),
        forall|i: int| 0 <= i < m.len() ==> (#[trigger] m[i].pts matches Some(p) ==> p < n),
        walks ==> all_parse_end(m),
        walks ==> forall|i: int| 0 <= i < m.len() ==> parse_ends(m, #[trigger] m[i].first_left),
{
    assert forall|i: int| 0 <= i < m.len() implies (#[trigger] m[i].first_left matches Some(f)
        ==> f < m.len()) by {
        if i != r1 as int && i != r2 as int {
            assert(m[i] == a[i]);
        }
    }
    assert forall|i: int| 0 <= i < m.len() implies (#[trigger] m[i].pts matches Some(p) ==> p
        < n) by {
        if i != r1 as int && i != r2 as int {
            assert(m[i] == a[i]);
        }
    }
    if walks {
        reveal(all_parse_end);
        assert forall|i: int| 0 <= i < m.len() implies parse_ends(m, #[trigger] m[i].first_left) by {
            let r = m[i].first_left;
            if r == Some(r1) || r == Some(r2) {
                assert(parse_stops(m, r, 0));
            } else {
                let j = if i == r1 as int || i == r2 as int {
                    r1 as int
                } else {
                    i
                };
                assert(parse_ends(a, a[j].first_left));
                lemma_parse_ends_after(a, m, r);
            }
        }
    }
}

} // verus!
