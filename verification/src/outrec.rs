//! The records of the output polygons under construction, kept in one
//! vector and linked by index: each knows its ring, whether it is a hole,
//! and the record of the polygon it lies in (`first_left`).
use vstd::prelude::*;

use crate::fixup::ring_pts;
use crate::outpt::{OutPt, OutPtArena};
use crate::ring_query::{inside_from, poly2_contains_poly1};

verus! {

/// An output polygon under construction: `pts` heads its ring in the point
/// arena (none once the ring is gone), `first_left` is the record of the
/// polygon it lies in, `poly_nd` its node in the result tree once made,
/// `bottom_pt` its lowest point once found.
#[derive(Debug, Clone, Copy)]
pub struct OutRec {
    pub idx: i32,
    pub is_hole: bool,
    pub is_open: bool,
    pub first_left: Option<usize>,
    pub poly_nd: Option<usize>,
    pub pts: Option<usize>,
    pub bottom_pt: Option<usize>,
}

/// Every `first_left` link names a record.
pub open spec fn lefts_in_range(recs: Seq<OutRec>) -> bool {
    forall|i: int|
        0 <= i < recs.len() ==> (#[trigger] recs[i].first_left matches Some(f) ==> f < recs.len())
}

/// An optional record index names a record.
pub open spec fn names_rec(recs: Seq<OutRec>, r: Option<usize>) -> bool {
    r matches Some(i) ==> i < recs.len()
}

/// The record reached from `r` after `k` steps along `first_left`.
pub open spec fn left_chain(recs: Seq<OutRec>, r: Option<usize>, k: nat) -> Option<usize>
    decreases k,
{
    if k == 0 {
        r
    } else {
        match left_chain(recs, r, (k - 1) as nat) {
            None => None,
            Some(i) => recs[i as int].first_left,
        }
    }
}

/// Every record on the walk along `first_left` is a record.
pub proof fn lemma_left_chain_in_range(recs: Seq<OutRec>, r: Option<usize>, k: nat)
    requires
        lefts_in_range(recs),
        names_rec(recs, r),
    ensures
        names_rec(recs, left_chain(recs, r, k)),
    decreases k,
{
    if k > 0 {
        lemma_left_chain_in_range(recs, r, (k - 1) as nat);
    }
}

/// Step `k` of the walk from `r` ends it: no record is left, or the
/// record still has points.
pub open spec fn parse_stops(recs: Seq<OutRec>, r: Option<usize>, k: nat) -> bool {
    match left_chain(recs, r, k) {
        None => true,
        Some(i) => recs[i as int].pts is Some,
    }
}

/// The walk along `first_left` from `r` ends.
pub open spec fn parse_ends(recs: Seq<OutRec>, r: Option<usize>) -> bool {
    exists|k: nat| parse_stops(recs, r, k)
}

/// The number of steps of the walk from `r`.
pub open spec fn parse_steps(recs: Seq<OutRec>, r: Option<usize>) -> nat {
    choose|k: nat| parse_stops(recs, r, k) && forall|j: nat| j < k ==> !parse_stops(recs, r, j)
}

/// The record that stands for `r`: walking `first_left` from `r`, the
/// first record that still has points, or none.
pub open spec fn parsed_left(recs: Seq<OutRec>, r: Option<usize>) -> Option<usize> {
    left_chain(recs, r, parse_steps(recs, r))
}

/// Whether `r` names a record that has no points.
fn names_pointless(recs: &Vec<OutRec>, r: Option<usize>) -> (b: bool)
    requires
        names_rec(recs@, r),
    ensures
        b == (r matches Some(i) && recs@[i as int].pts is None),
{
    match r {
        Some(i) => recs[i].pts.is_none(),
        None => false,
    }
}

/// The record that stands for `first_left` (see `parsed_left`).
pub fn parse_first_left(recs: &Vec<OutRec>, first_left: Option<usize>) -> (r: Option<usize>)
    requires
        lefts_in_range(recs@),
        names_rec(recs@, first_left),
        parse_ends(recs@, first_left),
    ensures
        r == parsed_left(recs@, first_left),
        names_rec(recs@, r),
{
    let ghost s = recs@;
    let ghost bound = choose|k: nat| parse_stops(s, first_left, k);
    let mut cur = first_left;
    let ghost mut k: nat = 0;
    while names_pointless(recs, cur)
        invariant
            s == recs@,
            lefts_in_range(s),
            names_rec(s, first_left),
            parse_stops(s, first_left, bound),
            cur == left_chain(s, first_left, k),
            names_rec(s, cur),
            k <= bound,
            forall|j: nat| j < k ==> !parse_stops(s, first_left, j),
        decreases bound - k,
    {
        let i = cur.unwrap();
        cur = recs[i].first_left;
        proof {
            assert(!parse_stops(s, first_left, k));
            k = k + 1;
            lemma_left_chain_in_range(s, first_left, k);
        }
    }
    proof {
        let c = parse_steps(s, first_left);
        assert(parse_stops(s, first_left, k));
        assert(parse_stops(s, first_left, c) && forall|j: nat|
            j < c ==> !parse_stops(s, first_left, j));
        if c < k {
            assert(!parse_stops(s, first_left, c));
        }
        if k < c {
            assert(!parse_stops(s, first_left, k));
        }
    }
    cur
}

/// `b` agrees with `a` on every record without points, and has points at
/// the same records.
#[verifier::opaque]
pub open spec fn same_pointless(a: Seq<OutRec>, b: Seq<OutRec>) -> bool {
    &&& a.len() == b.len()
    &&& forall|m: int| 0 <= m < a.len() ==> (#[trigger] b[m].pts is Some) == (a[m].pts is Some)
    &&& forall|m: int| 0 <= m < a.len() && a[m].pts is None ==> #[trigger] b[m] == a[m]
}

/// A walk that ends has a first step at which it ends.
pub proof fn lemma_parse_least(recs: Seq<OutRec>, r: Option<usize>, w: nat)
    requires
        parse_stops(recs, r, w),
    ensures
        parse_stops(recs, r, parse_steps(recs, r)),
        forall|j: nat| j < parse_steps(recs, r) ==> !parse_stops(recs, r, j),
        parse_steps(recs, r) <= w,
    decreases w,
{
    if exists|j: nat| j < w && parse_stops(recs, r, j) {
        let j = choose|j: nat| j < w && parse_stops(recs, r, j);
        lemma_parse_least(recs, r, j);
    } else {
        assert(parse_stops(recs, r, w) && forall|j: nat| j < w ==> !parse_stops(recs, r, j));
        let c = parse_steps(recs, r);
        if c < w {
            assert(!parse_stops(recs, r, c));
        }
        if w < c {
            assert(!parse_stops(recs, r, w));
        }
    }
}

/// The walks that stand records for others pass only records without
/// points, so changing records that have points changes none of them.
pub proof fn lemma_parse_unchanged(a: Seq<OutRec>, b: Seq<OutRec>, r: Option<usize>)
    requires
        lefts_in_range(a),
        names_rec(a, r),
        same_pointless(a, b),
        parse_ends(a, r),
    ensures
        parse_ends(b, r),
        parsed_left(b, r) == parsed_left(a, r),
{
    reveal(same_pointless);
    let w = choose|k: nat| parse_stops(a, r, k);
    lemma_parse_least(a, r, w);
    let c = parse_steps(a, r);
    lemma_parse_chain_same(a, b, r, c, c);
    assert(left_chain(b, r, c) == left_chain(a, r, c));
    lemma_left_chain_in_range(a, r, c);
    assert(parse_stops(b, r, c));
    assert forall|j: nat| j < c implies !parse_stops(b, r, j) by {
        lemma_parse_chain_same(a, b, r, c, j);
        lemma_left_chain_in_range(a, r, j);
        assert(!parse_stops(a, r, j));
    }
    lemma_parse_least(b, r, c);
    let d = parse_steps(b, r);
    if d < c {
        assert(!parse_stops(b, r, d));
    }
}

proof fn lemma_parse_chain_same(a: Seq<OutRec>, b: Seq<OutRec>, r: Option<usize>, c: nat, k: nat)
    requires
        lefts_in_range(a),
        names_rec(a, r),
        same_pointless(a, b),
        forall|j: nat| j < c ==> !parse_stops(a, r, j),
        k <= c,
    ensures
        left_chain(b, r, k) == left_chain(a, r, k),
    decreases k,
{
    reveal(same_pointless);
    if k > 0 {
        lemma_parse_chain_same(a, b, r, c, (k - 1) as nat);
        assert(!parse_stops(a, r, (k - 1) as nat));
        lemma_left_chain_in_range(a, r, (k - 1) as nat);
        let y = left_chain(a, r, (k - 1) as nat);
        if let Some(m) = y {
            assert(a[m as int].pts is None);
            assert(b[m as int] == a[m as int]);
        }
    }
}

/// A walk that ends still ends after the records change, as long as every
/// record without points stays as it was and every record with points
/// keeps them or, losing them, leads straight to a record with points.
pub proof fn lemma_parse_ends_after(a: Seq<OutRec>, b: Seq<OutRec>, r: Option<usize>)
    requires
        lefts_in_range(a),
        names_rec(a, r),
        parse_ends(a, r),
        a.len() <= b.len(),
        forall|m: int| 0 <= m < a.len() && a[m].pts is None ==> #[trigger] b[m] == a[m],
        forall|m: int|
            0 <= m < a.len() && a[m].pts is Some && (#[trigger] b[m]).pts is None ==> (
            b[m].first_left matches Some(x) && x < b.len() && b[x as int].pts is Some),
    ensures
        parse_ends(b, r),
{
    let w = choose|k: nat| parse_stops(a, r, k);
    lemma_parse_least(a, r, w);
    let c = parse_steps(a, r);
    lemma_walk_agrees(a, b, r, c, c);
    lemma_left_chain_in_range(a, r, c);
    match left_chain(a, r, c) {
        None => {
            assert(parse_stops(b, r, c));
        },
        Some(m) => {
            if b[m as int].pts is Some {
                assert(parse_stops(b, r, c));
            } else {
                assert(left_chain(b, r, c + 1) == b[m as int].first_left);
                assert(parse_stops(b, r, c + 1));
            }
        },
    }
}

proof fn lemma_walk_agrees(a: Seq<OutRec>, b: Seq<OutRec>, r: Option<usize>, c: nat, k: nat)
    requires
        lefts_in_range(a),
        names_rec(a, r),
        a.len() <= b.len(),
        forall|m: int| 0 <= m < a.len() && a[m].pts is None ==> #[trigger] b[m] == a[m],
        forall|j: nat| j < c ==> !parse_stops(a, r, j),
        k <= c,
    ensures
        left_chain(b, r, k) == left_chain(a, r, k),
    decreases k,
{
    if k > 0 {
        lemma_walk_agrees(a, b, r, c, (k - 1) as nat);
        assert(!parse_stops(a, r, (k - 1) as nat));
        lemma_left_chain_in_range(a, r, (k - 1) as nat);
        if let Some(m) = left_chain(a, r, (k - 1) as nat) {
            assert(b[m as int] == a[m as int]);
        }
    }
}

/// Walks still end after records with points are relinked, each to where
/// some record pointed before or straight to a record with points.
pub proof fn lemma_parse_end_kept(a: Seq<OutRec>, b: Seq<OutRec>)
    requires
        lefts_in_range(a),
        lefts_in_range(b),
        same_pointless(a, b),
        all_parse_end(a),
        forall|i: int|
            0 <= i < b.len() ==> (exists|j: int|
                0 <= j < a.len() && #[trigger] b[i].first_left == #[trigger] a[j].first_left) || (
            b[i].first_left matches Some(k) && b[k as int].pts is Some),
    ensures
        all_parse_end(b),
{
    reveal(all_parse_end);
    reveal(same_pointless);
    assert forall|i: int| 0 <= i < b.len() implies parse_ends(b, #[trigger] b[i].first_left) by {
        let r = b[i].first_left;
        if exists|j: int| 0 <= j < a.len() && #[trigger] b[i].first_left == #[trigger] a[j].first_left {
            let j = choose|j: int|
                0 <= j < a.len() && #[trigger] b[i].first_left == #[trigger] a[j].first_left;
            assert(parse_ends(a, a[j].first_left));
            lemma_parse_ends_after(a, b, r);
        } else {
            assert(parse_stops(b, r, 0));
        }
    }
}

/// `rec` with `first_left` replaced.
pub open spec fn with_left(rec: OutRec, first_left: Option<usize>) -> OutRec {
    OutRec { first_left, ..rec }
}

/// Putting `rec` in place of record `i`, with the same points and a
/// `first_left` that names a record, keeps the records without points and
/// the links in range.
proof fn lemma_fixup_step(a: Seq<OutRec>, b: Seq<OutRec>, i: int, rec: OutRec)
    requires
        same_pointless(a, b),
        lefts_in_range(b),
        0 <= i < a.len(),
        b[i] == a[i],
        rec.pts == a[i].pts,
        names_rec(b, rec.first_left),
        a[i].pts is None ==> rec == a[i],
    ensures
        same_pointless(a, b.update(i, rec)),
        lefts_in_range(b.update(i, rec)),
{
    reveal(same_pointless);
    let c = b.update(i, rec);
    assert forall|m: int| 0 <= m < c.len() implies (#[trigger] c[m].first_left matches Some(f)
        ==> f < c.len()) by {
        if m != i {
            assert(c[m] == b[m]);
        }
    }
    assert forall|m: int| 0 <= m < a.len() implies (#[trigger] c[m].pts is Some) == (
    a[m].pts is Some) by {
        if m != i {
            assert(c[m] == b[m]);
        }
    }
    assert forall|m: int| 0 <= m < a.len() && a[m].pts is None implies #[trigger] c[m] == a[m] by {
        if m != i {
            assert(c[m] == b[m]);
        }
    }
}

/// Record `i` of `recs` after `fixup_first_lefts3(recs, old_rec, new_rec)`.
pub open spec fn fixup3_rec(recs: Seq<OutRec>, old_rec: usize, new_rec: usize, i: int) -> OutRec {
    if recs[i].pts is Some && parsed_left(recs, recs[i].first_left) == Some(old_rec) {
        with_left(recs[i], Some(new_rec))
    } else {
        recs[i]
    }
}

/// The walk from every record's `first_left` ends.
#[verifier::opaque]
pub open spec fn all_parse_end(recs: Seq<OutRec>) -> bool {
    forall|i: int| 0 <= i < recs.len() ==> parse_ends(recs, #[trigger] recs[i].first_left)
}

/// The walk from record `i`'s `first_left` ends.
proof fn lemma_parse_end_at(a: Seq<OutRec>, i: int)
    requires
        all_parse_end(a),
        0 <= i < a.len(),
    ensures
        parse_ends(a, a[i].first_left),
{
    reveal(all_parse_end);
}

/// At the start nothing has changed.
proof fn lemma_same_pointless_refl(a: Seq<OutRec>)
    ensures
        same_pointless(a, a),
{
    reveal(same_pointless);
}

/// Record `i` as `fixup_first_lefts3` leaves it.
#[verifier::spinoff_prover]
#[verifier::rlimit(40)]
fn fixup3_update(
    recs: &Vec<OutRec>,
    i: usize,
    old_rec: usize,
    new_rec: usize,
    Ghost(a): Ghost<Seq<OutRec>>,
) -> (r: OutRec)
    requires
        i < a.len(),
        recs@.len() == a.len(),
        recs@[i as int] == a[i as int],
        lefts_in_range(a),
        new_rec < a.len(),
        parse_ends(a, a[i as int].first_left),
        same_pointless(a, recs@),
        lefts_in_range(recs@),
    ensures
        r == fixup3_rec(a, old_rec, new_rec, i as int),
        r.pts == a[i as int].pts,
        names_rec(recs@, r.first_left),
        a[i as int].pts is None ==> r == a[i as int],
{
    let rec = recs[i];
    proof {
        lemma_parse_unchanged(a, recs@, rec.first_left);
    }
    let first_left = parse_first_left(recs, rec.first_left);
    if rec.pts.is_some() && first_left == Some(old_rec) {
        OutRec { first_left: Some(new_rec), ..rec }
    } else {
        rec
    }
}

/// Every record with points that stood in `old_rec` (see `parsed_left`)
/// now lies in `new_rec`.
#[verifier::spinoff_prover]
#[verifier::rlimit(40)]
pub fn fixup_first_lefts3(recs: &mut Vec<OutRec>, old_rec: usize, new_rec: usize)
    requires
        lefts_in_range(old(recs)@),
        all_parse_end(old(recs)@),
        new_rec < old(recs)@.len(),
    ensures
        final(recs)@.len() == old(recs)@.len(),
        lefts_in_range(final(recs)@),
        same_pointless(old(recs)@, final(recs)@),
        forall|i: int|
            0 <= i < old(recs)@.len() ==> #[trigger] final(recs)@[i] == fixup3_rec(
                old(recs)@,
                old_rec,
                new_rec,
                i,
            ),
{
    let ghost a = recs@;
    proof {
        lemma_same_pointless_refl(a);
    }
    let n = recs.len();
    let mut i: usize = 0;
    while i < n
        invariant
            n == a.len(),
            i <= n,
            lefts_in_range(a),
            all_parse_end(a),
            new_rec < n,
            same_pointless(a, recs@),
            recs@.len() == n,
            lefts_in_range(recs@),
            forall|m: int| 0 <= m < i ==> #[trigger] recs@[m] == fixup3_rec(a, old_rec, new_rec, m),
            forall|m: int| i <= m < n ==> #[trigger] recs@[m] == a[m],
        decreases n - i,
    {
        proof {
            lemma_parse_end_at(a, i as int);
        }
        let updated = fixup3_update(recs, i, old_rec, new_rec, Ghost(a));
        proof {
            lemma_fixup_step(a, recs@, i as int, updated);
        }
        recs.set(i, updated);
        i += 1;
    }
}

/// Record `i` of `recs` after `fixup_first_lefts1(recs, arena,
/// old_rec, new_rec)`.
pub open spec fn fixup1_rec(
    recs: Seq<OutRec>,
    s: Seq<OutPt>,
    old_rec: usize,
    new_rec: usize,
    i: int,
) -> OutRec {
    if recs[i].pts is Some && parsed_left(recs, recs[i].first_left) == Some(old_rec) && inside_from(
        ring_pts(s, recs[i].pts.unwrap() as int),
        ring_pts(s, recs[new_rec as int].pts.unwrap() as int),
        0,
    ) {
        with_left(recs[i], Some(new_rec))
    } else {
        recs[i]
    }
}

/// Record `i` as `fixup_first_lefts1` leaves it.
#[verifier::spinoff_prover]
#[verifier::rlimit(40)]
fn fixup1_update(
    recs: &Vec<OutRec>,
    arena: &OutPtArena,
    i: usize,
    old_rec: usize,
    new_rec: usize,
    new_pts: usize,
    Ghost(a): Ghost<Seq<OutRec>>,
) -> (r: OutRec)
    requires
        i < a.len(),
        recs@.len() == a.len(),
        recs@[i as int] == a[i as int],
        lefts_in_range(a),
        new_rec < a.len(),
        a[new_rec as int].pts == Some(new_pts),
        new_pts < arena.nodes().len(),
        a[i as int].pts matches Some(p) ==> p < arena.nodes().len(),
        parse_ends(a, a[i as int].first_left),
        same_pointless(a, recs@),
        lefts_in_range(recs@),
    ensures
        r == fixup1_rec(a, arena.nodes(), old_rec, new_rec, i as int),
        r.pts == a[i as int].pts,
        names_rec(recs@, r.first_left),
        a[i as int].pts is None ==> r == a[i as int],
{
    let rec = recs[i];
    proof {
        lemma_parse_unchanged(a, recs@, rec.first_left);
    }
    let first_left = parse_first_left(recs, rec.first_left);
    match rec.pts {
        Some(p) => {
            if first_left == Some(old_rec) && poly2_contains_poly1(arena, p, new_pts) {
                OutRec { first_left: Some(new_rec), ..rec }
            } else {
                rec
            }
        },
        None => rec,
    }
}

/// Every record with points that stood in `old_rec` (see `parsed_left`)
/// and whose ring lies inside the ring of `new_rec` now lies in `new_rec`.
#[verifier::spinoff_prover]
#[verifier::rlimit(40)]
pub fn fixup_first_lefts1(recs: &mut Vec<OutRec>, arena: &OutPtArena, old_rec: usize, new_rec: usize)
    requires
        lefts_in_range(old(recs)@),
        all_parse_end(old(recs)@),
        new_rec < old(recs)@.len(),
        old(recs)@[new_rec as int].pts matches Some(p) && p < arena.nodes().len(),
        forall|i: int|
            0 <= i < old(recs)@.len() ==> (#[trigger] old(recs)@[i].pts matches Some(p) ==> p
                < arena.nodes().len()),
    ensures
        final(recs)@.len() == old(recs)@.len(),
        lefts_in_range(final(recs)@),
        same_pointless(old(recs)@, final(recs)@),
        forall|i: int|
            0 <= i < old(recs)@.len() ==> #[trigger] final(recs)@[i] == fixup1_rec(
                old(recs)@,
                arena.nodes(),
                old_rec,
                new_rec,
                i,
            ),
{
    let ghost a = recs@;
    proof {
        lemma_same_pointless_refl(a);
    }
    let n = recs.len();
    let new_pts = recs[new_rec].pts.unwrap();
    let mut i: usize = 0;
    while i < n
        invariant
            n == a.len(),
            i <= n,
            lefts_in_range(a),
            all_parse_end(a),
            new_rec < n,
            a[new_rec as int].pts == Some(new_pts),
            new_pts < arena.nodes().len(),
            forall|m: int|
                0 <= m < a.len() ==> (#[trigger] a[m].pts matches Some(p) ==> p
                    < arena.nodes().len()),
            same_pointless(a, recs@),
            recs@.len() == n,
            lefts_in_range(recs@),
            forall|m: int|
                0 <= m < i ==> #[trigger] recs@[m] == fixup1_rec(a, arena.nodes(), old_rec, new_rec, m),
            forall|m: int| i <= m < n ==> #[trigger] recs@[m] == a[m],
        decreases n - i,
    {
        proof {
            lemma_parse_end_at(a, i as int);
        }
        let updated = fixup1_update(recs, arena, i, old_rec, new_rec, new_pts, Ghost(a));
        proof {
            lemma_fixup_step(a, recs@, i as int, updated);
        }
        recs.set(i, updated);
        i += 1;
    }
}

/// Record `i` of `recs` after `fixup_first_lefts2(recs, arena,
/// inner_rec, outer_rec)`.
pub open spec fn fixup2_rec(
    recs: Seq<OutRec>,
    s: Seq<OutPt>,
    inner_rec: usize,
    outer_rec: usize,
    i: int,
) -> OutRec {
    let orfl = recs[outer_rec as int].first_left;
    let rec = recs[i];
    if rec.pts is None || i == outer_rec || i == inner_rec {
        rec
    } else {
        let fl = parsed_left(recs, rec.first_left);
        let ring = ring_pts(s, rec.pts.unwrap() as int);
        if fl != orfl && fl != Some(inner_rec) && fl != Some(outer_rec) {
            rec
        } else if inside_from(ring, ring_pts(s, recs[inner_rec as int].pts.unwrap() as int), 0) {
            with_left(rec, Some(inner_rec))
        } else if inside_from(ring, ring_pts(s, recs[outer_rec as int].pts.unwrap() as int), 0) {
            with_left(rec, Some(outer_rec))
        } else if rec.first_left == Some(inner_rec) || rec.first_left == Some(outer_rec) {
            with_left(rec, orfl)
        } else {
            rec
        }
    }
}

/// Record `i` as `fixup_first_lefts2` leaves it.
#[verifier::spinoff_prover]
#[verifier::rlimit(40)]
fn fixup2_update(
    recs: &Vec<OutRec>,
    arena: &OutPtArena,
    i: usize,
    inner_rec: usize,
    outer_rec: usize,
    orfl: Option<usize>,
    inner_pts: usize,
    outer_pts: usize,
    Ghost(a): Ghost<Seq<OutRec>>,
) -> (r: OutRec)
    requires
        i < a.len(),
        recs@.len() == a.len(),
        recs@[i as int] == a[i as int],
        lefts_in_range(a),
        inner_rec < a.len(),
        outer_rec < a.len(),
        orfl == a[outer_rec as int].first_left,
        a[inner_rec as int].pts == Some(inner_pts),
        a[outer_rec as int].pts == Some(outer_pts),
        inner_pts < arena.nodes().len(),
        outer_pts < arena.nodes().len(),
        a[i as int].pts matches Some(p) ==> p < arena.nodes().len(),
        a[i as int].pts is Some ==> parse_ends(a, a[i as int].first_left),
        same_pointless(a, recs@),
        lefts_in_range(recs@),
    ensures
        r == fixup2_rec(a, arena.nodes(), inner_rec, outer_rec, i as int),
        r.pts == a[i as int].pts,
        names_rec(recs@, r.first_left),
        a[i as int].pts is None ==> r == a[i as int],
{
    let rec = recs[i];
    match rec.pts {
        None => rec,
        Some(p) => {
            if i == outer_rec || i == inner_rec {
                return rec;
            }
            proof {
                lemma_parse_unchanged(a, recs@, rec.first_left);
            }
            let fl = parse_first_left(recs, rec.first_left);
            if fl != orfl && fl != Some(inner_rec) && fl != Some(outer_rec) {
                rec
            } else if poly2_contains_poly1(arena, p, inner_pts) {
                OutRec { first_left: Some(inner_rec), ..rec }
            } else if poly2_contains_poly1(arena, p, outer_pts) {
                OutRec { first_left: Some(outer_rec), ..rec }
            } else if rec.first_left == Some(inner_rec) || rec.first_left == Some(outer_rec) {
                OutRec { first_left: orfl, ..rec }
            } else {
                rec
            }
        },
    }
}

/// After a ring was cut into an inner and an outer part: every record
/// with points that stood in either part or in the polygon around the
/// outer part is placed in whichever part contains its ring, or, when it
/// lay in one of the parts and neither contains it, in the polygon around
/// the outer part.
#[verifier::spinoff_prover]
#[verifier::rlimit(40)]
pub fn fixup_first_lefts2(
    recs: &mut Vec<OutRec>,
    arena: &OutPtArena,
    inner_rec: usize,
    outer_rec: usize,
)
    requires
        lefts_in_range(old(recs)@),
        inner_rec < old(recs)@.len(),
        outer_rec < old(recs)@.len(),
        old(recs)@[inner_rec as int].pts matches Some(p) && p < arena.nodes().len(),
        old(recs)@[outer_rec as int].pts matches Some(p) && p < arena.nodes().len(),
        forall|i: int|
            0 <= i < old(recs)@.len() ==> (#[trigger] old(recs)@[i].pts matches Some(p) ==> p
                < arena.nodes().len()),
        forall|i: int|
            0 <= i < old(recs)@.len() && old(recs)@[i].pts is Some ==> parse_ends(
                old(recs)@,
                #[trigger] old(recs)@[i].first_left,
            ),
    ensures
        final(recs)@.len() == old(recs)@.len(),
        lefts_in_range(final(recs)@),
        same_pointless(old(recs)@, final(recs)@),
        forall|i: int|
            0 <= i < old(recs)@.len() ==> #[trigger] final(recs)@[i] == fixup2_rec(
                old(recs)@,
                arena.nodes(),
                inner_rec,
                outer_rec,
                i,
            ),
{
    let ghost a = recs@;
    proof {
        lemma_same_pointless_refl(a);
    }
    let n = recs.len();
    let orfl = recs[outer_rec].first_left;
    let inner_pts = recs[inner_rec].pts.unwrap();
    let outer_pts = recs[outer_rec].pts.unwrap();
    let mut i: usize = 0;
    while i < n
        invariant
            n == a.len(),
            i <= n,
            lefts_in_range(a),
            inner_rec < n,
            outer_rec < n,
            orfl == a[outer_rec as int].first_left,
            a[inner_rec as int].pts == Some(inner_pts),
            a[outer_rec as int].pts == Some(outer_pts),
            inner_pts < arena.nodes().len(),
            outer_pts < arena.nodes().len(),
            forall|m: int|
                0 <= m < a.len() ==> (#[trigger] a[m].pts matches Some(p) ==> p
                    < arena.nodes().len()),
            forall|m: int|
                0 <= m < a.len() && a[m].pts is Some ==> parse_ends(a, #[trigger] a[m].first_left),
            same_pointless(a, recs@),
            recs@.len() == n,
            lefts_in_range(recs@),
            forall|m: int|
                0 <= m < i ==> #[trigger] recs@[m] == fixup2_rec(a, arena.nodes(), inner_rec, outer_rec, m),
            forall|m: int| i <= m < n ==> #[trigger] recs@[m] == a[m],
        decreases n - i,
    {
        let rec = recs[i];
        proof {
            assert(rec == a[i as int]);
        }
        let updated = fixup2_update(recs, arena, i, inner_rec, outer_rec, orfl, inner_pts, outer_pts, Ghost(a));
        proof {
            lemma_fixup_step(a, recs@, i as int, updated);
        }
        recs.set(i, updated);
        i += 1;
    }
}

/// The first `k` at which `p` holds.
pub open spec fn first_where(p: spec_fn(nat) -> bool) -> nat {
    choose|k: nat| #[trigger] p(k) && forall|j: nat| j < k ==> !#[trigger] p(j)
}

/// When `p` holds somewhere it holds first somewhere.
pub proof fn lemma_first_where(p: spec_fn(nat) -> bool, w: nat)
    requires
        p(w),
    ensures
        p(first_where(p)),
        forall|j: nat| j < first_where(p) ==> !#[trigger] p(j),
        first_where(p) <= w,
    decreases w,
{
    if exists|j: nat| j < w && #[trigger] p(j) {
        let j = choose|j: nat| j < w && #[trigger] p(j);
        lemma_first_where(p, j);
    } else {
        assert(p(w) && forall|j: nat| j < w ==> !#[trigger] p(j));
        let c = first_where(p);
        if c < w {
            assert(!p(c));
        }
        if w < c {
            assert(!p(w));
        }
    }
}

/// Step `k` of the walk from `r` ends the search for the polygon that a
/// hole (or an outer polygon, by `hole`) lies in: no record is left, or
/// the record is of the other kind and still has points.
pub open spec fn hole_stop(recs: Seq<OutRec>, hole: bool, r: Option<usize>) -> spec_fn(nat) -> bool {
    |k: nat|
        match left_chain(recs, r, k) {
            None => true,
            Some(m) => recs[m as int].is_hole != hole && recs[m as int].pts is Some,
        }
}

/// The polygon record `i` lies in, found by walking `first_left` past
/// records of its own kind and records without points.
pub open spec fn hole_left(recs: Seq<OutRec>, i: int) -> Option<usize> {
    left_chain(
        recs,
        recs[i].first_left,
        first_where(hole_stop(recs, recs[i].is_hole, recs[i].first_left)),
    )
}

/// Links record `i` to the polygon it lies in (see `hole_left`).
pub fn fix_hole_linkage(recs: &mut Vec<OutRec>, i: usize)
    requires
        i < old(recs)@.len(),
        lefts_in_range(old(recs)@),
        exists|k: nat|
            #[trigger] hole_stop(old(recs)@, old(recs)@[i as int].is_hole, old(recs)@[i as int].first_left)(
                k,
            ),
    ensures
        final(recs)@ == old(recs)@.update(i as int, with_left(old(recs)@[i as int], hole_left(old(recs)@, i as int))),
        lefts_in_range(final(recs)@),
{
    let ghost a = recs@;
    let hole = recs[i].is_hole;
    let ghost p = hole_stop(a, hole, a[i as int].first_left);
    let ghost w = choose|k: nat| #[trigger] p(k);
    proof {
        lemma_first_where(p, w);
    }
    let ghost c = first_where(p);
    let mut orfl = recs[i].first_left;
    let ghost mut k: nat = 0;
    while continues_past(recs, orfl, hole)
        invariant
            a == recs@,
            i < a.len(),
            lefts_in_range(a),
            hole == a[i as int].is_hole,
            p == hole_stop(a, hole, a[i as int].first_left),
            p(c),
            forall|j: nat| j < c ==> !#[trigger] p(j),
            orfl == left_chain(a, a[i as int].first_left, k),
            names_rec(a, orfl),
            k <= c,
            forall|j: nat| j < k ==> !#[trigger] p(j),
        decreases c - k,
    {
        let m = orfl.unwrap();
        orfl = recs[m].first_left;
        proof {
            assert(!p(k));
            k = k + 1;
            lemma_left_chain_in_range(a, a[i as int].first_left, k);
        }
    }
    proof {
        assert(p(k));
        if k < c {
            assert(!p(k));
        }
        if c < k {
            assert(!p(c));
        }
    }
    let rec = recs[i];
    recs.set(i, OutRec { first_left: orfl, ..rec });
    proof {
        assert forall|m: int| 0 <= m < recs@.len() implies (#[trigger] recs@[m].first_left matches Some(
            f,
        ) ==> f < recs@.len()) by {
            if m != i {
                assert(recs@[m] == a[m]);
            }
        }
    }
}

/// Whether the search for the polygon a record lies in goes on past `r`.
fn continues_past(recs: &Vec<OutRec>, r: Option<usize>, hole: bool) -> (b: bool)
    requires
        names_rec(recs@, r),
    ensures
        b == (r matches Some(m) && (recs@[m as int].is_hole == hole || recs@[m as int].pts is None)),
{
    match r {
        Some(m) => recs[m].is_hole == hole || recs[m].pts.is_none(),
        None => false,
    }
}

/// Step `k` ends the walk along `first_left` that starts one step after
/// `r1`: it reaches `r2` or runs out.
pub open spec fn right_stop(recs: Seq<OutRec>, r1: usize, r2: usize) -> spec_fn(nat) -> bool {
    |k: nat|
        left_chain(recs, Some(r1), k + 1) == Some(r2) || left_chain(recs, Some(r1), k + 1) is None
}

/// Whether `r2` is among the polygons that `r1` lies in: walking
/// `first_left` from `r1`, `r2` comes before the walk runs out.
pub open spec fn lies_in(recs: Seq<OutRec>, r1: usize, r2: usize) -> bool {
    left_chain(recs, Some(r1), first_where(right_stop(recs, r1, r2)) + 1) == Some(r2)
}

/// Whether `out_rec2` is among the polygons that `out_rec1` lies in (see
/// `lies_in`).
pub fn out_rec1_right_of_out_rec2(recs: &Vec<OutRec>, out_rec1: usize, out_rec2: usize) -> (r: bool)
    requires
        out_rec1 < recs@.len(),
        lefts_in_range(recs@),
        exists|k: nat| #[trigger] right_stop(recs@, out_rec1, out_rec2)(k),
    ensures
        r == lies_in(recs@, out_rec1, out_rec2),
{
    let ghost a = recs@;
    let ghost p = right_stop(a, out_rec1, out_rec2);
    let ghost w = choose|k: nat| #[trigger] p(k);
    proof {
        lemma_first_where(p, w);
    }
    let ghost c = first_where(p);
    let mut cur = recs[out_rec1].first_left;
    let ghost mut k: nat = 0;
    proof {
        assert(left_chain(a, Some(out_rec1), 0) == Some(out_rec1));
        assert(cur == left_chain(a, Some(out_rec1), 1));
    }
    while cur != Some(out_rec2) && cur.is_some()
        invariant
            a == recs@,
            out_rec1 < a.len(),
            lefts_in_range(a),
            p == right_stop(a, out_rec1, out_rec2),
            p(c),
            forall|j: nat| j < c ==> !#[trigger] p(j),
            cur == left_chain(a, Some(out_rec1), k + 1),
            names_rec(a, cur),
            k <= c,
            forall|j: nat| j < k ==> !#[trigger] p(j),
        decreases c - k,
    {
        let m = cur.unwrap();
        cur = recs[m].first_left;
        proof {
            assert(!p(k));
            k = k + 1;
            lemma_left_chain_in_range(a, Some(out_rec1), k + 1);
        }
    }
    proof {
        assert(p(k));
        if k < c {
            assert(!p(k));
        }
        if c < k {
            assert(!p(c));
        }
    }
    cur == Some(out_rec2)
}

/// Every record's `idx` names a record.
pub open spec fn idxs_in_range(recs: Seq<OutRec>) -> bool {
    forall|i: int| 0 <= i < recs.len() ==> 0 <= #[trigger] recs[i].idx < recs.len()
}

/// The record reached from `i` after `k` steps along `idx`.
pub open spec fn idx_chain(recs: Seq<OutRec>, i: int, k: nat) -> int
    decreases k,
{
    if k == 0 {
        i
    } else {
        recs[idx_chain(recs, i, (k - 1) as nat)].idx as int
    }
}

/// Step `k` of the walk along `idx` from `i` reaches a record that
/// names itself.
pub open spec fn idx_stop(recs: Seq<OutRec>, i: int) -> spec_fn(nat) -> bool {
    |k: nat| recs[idx_chain(recs, i, k)].idx == idx_chain(recs, i, k)
}

/// The record that record `i` was merged into: walking `idx` from `i`,
/// the first record that names itself.
pub open spec fn merged_rec(recs: Seq<OutRec>, i: int) -> int {
    idx_chain(recs, i, first_where(idx_stop(recs, i)))
}

/// The record that record `idx` was merged into (see `merged_rec`).
pub fn get_out_rec(recs: &Vec<OutRec>, idx: usize) -> (r: usize)
    requires
        idx < recs@.len(),
        recs@.len() <= i32::MAX,
        idxs_in_range(recs@),
        exists|k: nat| #[trigger] idx_stop(recs@, idx as int)(k),
    ensures
        r == merged_rec(recs@, idx as int),
        r < recs@.len(),
{
    let ghost a = recs@;
    let ghost p = idx_stop(a, idx as int);
    let ghost w = choose|k: nat| #[trigger] p(k);
    proof {
        lemma_first_where(p, w);
    }
    let ghost c = first_where(p);
    let mut cur = idx;
    let ghost mut k: nat = 0;
    while recs[cur].idx != cur as i32
        invariant
            a == recs@,
            idxs_in_range(a),
            idx < a.len(),
            p == idx_stop(a, idx as int),
            p(c),
            forall|j: nat| j < c ==> !#[trigger] p(j),
            cur as int == idx_chain(a, idx as int, k),
            cur < a.len(),
            a.len() <= i32::MAX,
            k <= c,
            forall|j: nat| j < k ==> !#[trigger] p(j),
        decreases c - k,
    {
        proof {
            assert(0 <= a[cur as int].idx < a.len());
        }
        cur = recs[cur].idx as usize;
        proof {
            assert(!p(k));
            k = k + 1;
        }
    }
    proof {
        assert(p(k));
        if k < c {
            assert(!p(k));
        }
        if c < k {
            assert(!p(c));
        }
    }
    cur
}

/// Adds a record with no points, its `idx` its own index (wrapped to
/// `i32`), and returns that index.
pub fn create_out_rec(recs: &mut Vec<OutRec>) -> (r: usize)
    ensures
        r == old(recs)@.len(),
        final(recs)@ == old(recs)@.push(
            OutRec {
                idx: r as i32,
                is_hole: false,
                is_open: false,
                first_left: None,
                poly_nd: None,
                pts: None,
                bottom_pt: None,
            },
        ),
{
    let r = recs.len();
    recs.push(
        OutRec {
            idx: r as i32,
            is_hole: false,
            is_open: false,
            first_left: None,
            poly_nd: None,
            pts: None,
            bottom_pt: None,
        },
    );
    r
}

/// Empties record `index`: it keeps its place and its fields but loses its
/// points, so nothing is output for it.
pub fn dispose_out_rec(recs: &mut Vec<OutRec>, index: usize)
    requires
        index < old(recs)@.len(),
    ensures
        final(recs)@ == old(recs)@.update(index as int, OutRec { pts: None, ..old(recs)@[index as int] }),
{
    let r = recs[index];
    recs.set(index, OutRec { pts: None, ..r });
}

} // verus!
