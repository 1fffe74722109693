//! Cutting output polygons where a vertex comes back to the position of an
//! earlier one that is not its neighbour: the ring is cut in two there and
//! the part split off gets a record of its own.
use vstd::prelude::*;

use crate::cuts::{lemma_cut_sizes, lemma_relabel_keeps_rings, lemma_walk_off_cut};
use crate::outpt::{
    is_ring_len, lemma_ring_with_idx_ok, lemma_swapped_fields, lemma_swapped_next_ok, swapped_next,
};
use crate::fixup::{lemma_nexts_in_ring, lemma_ring_len_unique, lemma_same_ring};
use crate::join_records::{split_off_record, split_result};
use crate::outpt::{
    in_ring, lemma_nexts_add, lemma_nexts_in_range, lemma_ring_closed, lemma_ring_distinct,
    lemma_ring_len, links_ok, nexts, ring_len, ring_with_idx, OutPt, OutPtArena,
};
use crate::outrec::{
    all_parse_end, lefts_in_range, lemma_parse_end_kept, same_pointless, OutRec,
};

verus! {

/// The records' links name records, their heads name points of `s`, and,
/// when asked, every walk along `first_left` ends.
pub open spec fn recs_fit(recs: Seq<OutRec>, s: Seq<OutPt>, walks: bool) -> bool {
    &&& lefts_in_range(recs)
    &&& forall|i: int|
        0 <= i < recs.len() ==> (#[trigger] recs[i].pts matches Some(p) ==> p < s.len())
    &&& walks ==> all_parse_end(recs)
}

/// Points `a` and `b` are neighbours on their ring.
pub open spec fn neighbours(s: Seq<OutPt>, a: int, b: int) -> bool {
    s[b].next == a || s[b].prev == a
}

/// On the ring through `h`, every pair of points of which the first is
/// one of the first `m` (walking from `h`) and which share a position are
/// neighbours.
pub open spec fn checked_upto(s: Seq<OutPt>, h: int, m: int) -> bool {
    forall|i: nat, j: nat|
        i < m && i < j < ring_len(s, h) && s[#[trigger] nexts(s, h, i)].pt == s[#[trigger] nexts(
            s,
            h,
            j,
        )].pt ==> neighbours(s, nexts(s, h, i), nexts(s, h, j))
}

/// No two points of the ring through `h` share a position unless they
/// are neighbours.
pub open spec fn ring_simple(s: Seq<OutPt>, h: int) -> bool {
    checked_upto(s, h, ring_len(s, h) as int)
}

/// On the ring through `h`, the point `i` steps from `h` and each point
/// after it, up to `upto` steps from `h`, that shares its position is its
/// neighbour.
pub open spec fn row_checked(s: Seq<OutPt>, h: int, i: nat, upto: int) -> bool {
    forall|j: nat|
        i < j < upto && s[nexts(s, h, i)].pt == s[#[trigger] nexts(s, h, j)].pt ==> neighbours(
            s,
            nexts(s, h, i),
            nexts(s, h, j),
        )
}

/// Every ring of `s0` that is simple is still simple in `s`.
pub open spec fn simple_kept(s0: Seq<OutPt>, s: Seq<OutPt>) -> bool {
    forall|h: int| 0 <= h < s0.len() && #[trigger] ring_simple(s0, h) ==> ring_simple(s, h)
}

/// Every record of `a` but `ri` keeps its head and kind in `b`.
pub open spec fn others_kept(a: Seq<OutRec>, b: Seq<OutRec>, ri: int) -> bool {
    forall|j: int|
        0 <= j < a.len() && j != ri ==> (#[trigger] b[j]).pts == a[j].pts && b[j].is_open
            == a[j].is_open
}

/// Record `ri` of `a` is closed, its ring runs through `op`, and `op2` is
/// another point of that ring at `op`'s position that is not its
/// neighbour: a place where the cutting pass may cut.
pub open spec fn cut_pair(a: Seq<OutRec>, s: Seq<OutPt>, ri: int, op: int, op2: int) -> bool {
    &&& 0 <= ri < a.len()
    &&& a[ri].pts is Some
    &&& !a[ri].is_open
    &&& 0 <= op < s.len()
    &&& 0 <= op2 < s.len()
    &&& op != op2
    &&& in_ring(s, a[ri].pts->0 as int, op)
    &&& in_ring(s, op, op2)
    &&& s[op].pt == s[op2].pt
    &&& !neighbours(s, op, op2)
}

/// The points after a cut between `op` and `op2`: the successors of their
/// predecessors are exchanged, which leaves the stretch from `op` to the
/// point before `op2` on one ring and the stretch from `op2` to the point
/// before `op` on the other, every point at its position, and the points
/// of the ring through `op2` take the index `n` of the record made for it.
pub open spec fn cut_points(s: Seq<OutPt>, op: int, op2: int, n: int) -> Seq<OutPt> {
    ring_with_idx(swapped_next(s, s[op].prev as int, s[op2].prev as int), op2, n as i32)
}

/// The records after a cut between `op` and `op2` on the ring of record
/// `ri`: `op` heads that record, and the ring through `op2` goes to a new
/// record whose kind and container, and the containers of the records the
/// old ring held, are set as `split_result` sets them.
#[verifier::opaque]
pub open spec fn cut_records(
    a: Seq<OutRec>,
    s: Seq<OutPt>,
    ri: int,
    op: int,
    op2: int,
    using_poly_tree: bool,
) -> Seq<OutRec> {
    split_result(
        a.update(ri, OutRec { pts: Some(op as usize), ..a[ri] }),
        cut_points(s, op, op2, a.len() as int),
        ri as usize,
        op2 as usize,
        using_poly_tree,
    )
}

/// `(b, t)` comes from `(a, s)` by one cut of a closed ring at two points
/// that share a position and are not neighbours.
#[verifier::opaque]
pub open spec fn cut_step(
    a: Seq<OutRec>,
    s: Seq<OutPt>,
    b: Seq<OutRec>,
    t: Seq<OutPt>,
    using_poly_tree: bool,
) -> bool {
    exists|ri: int, op: int, op2: int|
        #[trigger] cut_pair(a, s, ri, op, op2) && b == cut_records(a, s, ri, op, op2, using_poly_tree)
            && t == cut_points(s, op, op2, a.len() as int)
}

/// `(b, t)` comes from `(a, s)` by cuts (`cut_step`), none at all
/// included.
#[verifier::opaque]
pub open spec fn cuts_to(
    a: Seq<OutRec>,
    s: Seq<OutPt>,
    b: Seq<OutRec>,
    t: Seq<OutPt>,
    using_poly_tree: bool,
) -> bool {
    exists|rs: Seq<(Seq<OutRec>, Seq<OutPt>)>|
        #![trigger rs.len()]
        rs.len() >= 1 && rs[0] == (a, s) && rs.last() == (b, t) && forall|j: int|
            0 <= j < rs.len() - 1 ==> cut_step(
                (#[trigger] rs[j]).0,
                rs[j].1,
                rs[j + 1].0,
                rs[j + 1].1,
                using_poly_tree,
            )
}

/// No cut at all.
proof fn lemma_cuts_refl(a: Seq<OutRec>, s: Seq<OutPt>, using_poly_tree: bool)
    ensures
        cuts_to(a, s, a, s, using_poly_tree),
{
    reveal(cuts_to);
    let rs = seq![(a, s)];
    assert(rs.len() >= 1 && rs[0] == (a, s) && rs.last() == (a, s));
}

/// One cut more.
proof fn lemma_cuts_step(
    a: Seq<OutRec>,
    s: Seq<OutPt>,
    b: Seq<OutRec>,
    t: Seq<OutPt>,
    c: Seq<OutRec>,
    u: Seq<OutPt>,
    using_poly_tree: bool,
)
    requires
        cuts_to(a, s, b, t, using_poly_tree),
        cut_step(b, t, c, u, using_poly_tree),
    ensures
        cuts_to(a, s, c, u, using_poly_tree),
{
    reveal(cuts_to);
    let rs = choose|rs: Seq<(Seq<OutRec>, Seq<OutPt>)>|
        #![trigger rs.len()]
        rs.len() >= 1 && rs[0] == (a, s) && rs.last() == (b, t) && forall|j: int|
            0 <= j < rs.len() - 1 ==> cut_step(
                (#[trigger] rs[j]).0,
                rs[j].1,
                rs[j + 1].0,
                rs[j + 1].1,
                using_poly_tree,
            );
    let rs2 = rs.push((c, u));
    assert forall|j: int| 0 <= j < rs2.len() - 1 implies cut_step(
        (#[trigger] rs2[j]).0,
        rs2[j].1,
        rs2[j + 1].0,
        rs2[j + 1].1,
        using_poly_tree,
    ) by {
        if j < rs.len() - 1 {
            assert(rs2[j] == rs[j] && rs2[j + 1] == rs[j + 1]);
        }
    }
    assert(rs2.len() >= 1 && rs2[0] == (a, s) && rs2.last() == (c, u));
}

/// Cuts after cuts.
proof fn lemma_cuts_trans(
    a: Seq<OutRec>,
    s: Seq<OutPt>,
    b: Seq<OutRec>,
    t: Seq<OutPt>,
    c: Seq<OutRec>,
    u: Seq<OutPt>,
    using_poly_tree: bool,
)
    requires
        cuts_to(a, s, b, t, using_poly_tree),
        cuts_to(b, t, c, u, using_poly_tree),
    ensures
        cuts_to(a, s, c, u, using_poly_tree),
{
    reveal(cuts_to);
    let rs1 = choose|rs: Seq<(Seq<OutRec>, Seq<OutPt>)>|
        #![trigger rs.len()]
        rs.len() >= 1 && rs[0] == (a, s) && rs.last() == (b, t) && forall|j: int|
            0 <= j < rs.len() - 1 ==> cut_step(
                (#[trigger] rs[j]).0,
                rs[j].1,
                rs[j + 1].0,
                rs[j + 1].1,
                using_poly_tree,
            );
    let rs2 = choose|rs: Seq<(Seq<OutRec>, Seq<OutPt>)>|
        #![trigger rs.len()]
        rs.len() >= 1 && rs[0] == (b, t) && rs.last() == (c, u) && forall|j: int|
            0 <= j < rs.len() - 1 ==> cut_step(
                (#[trigger] rs[j]).0,
                rs[j].1,
                rs[j + 1].0,
                rs[j + 1].1,
                using_poly_tree,
            );
    let n1 = rs1.len() as int;
    let rs3 = rs1 + rs2.skip(1);
    assert forall|j: int| 0 <= j < rs3.len() - 1 implies cut_step(
        (#[trigger] rs3[j]).0,
        rs3[j].1,
        rs3[j + 1].0,
        rs3[j + 1].1,
        using_poly_tree,
    ) by {
        if j < n1 - 1 {
            assert(rs3[j] == rs1[j] && rs3[j + 1] == rs1[j + 1]);
        } else if j == n1 - 1 {
            assert(rs3[j] == rs2[0] && rs3[j + 1] == rs2[1]);
            assert(rs2[0] == rs2[j - (n1 - 1)]);
        } else {
            let k = j - (n1 - 1);
            assert(rs3[j] == rs2[k] && rs3[j + 1] == rs2[k + 1]);
        }
    }
    assert(rs3.len() >= 1 && rs3[0] == (a, s));
    assert(rs3.last() == (c, u)) by {
        if rs2.len() == 1 {
            assert(rs3 =~= rs1);
        }
    }
}

/// A cut moves no point: every point keeps its position, and the links
/// stay those of closed rings.
proof fn lemma_cut_step_keeps(
    a: Seq<OutRec>,
    s: Seq<OutPt>,
    b: Seq<OutRec>,
    t: Seq<OutPt>,
    using_poly_tree: bool,
)
    requires
        links_ok(s),
        cut_step(a, s, b, t, using_poly_tree),
    ensures
        links_ok(t),
        t.len() == s.len(),
        forall|i: int| 0 <= i < s.len() ==> (#[trigger] t[i]).pt == s[i].pt,
{
    reveal(cut_step);
    let (ri, op, op2) = choose|ri: int, op: int, op2: int|
        #[trigger] cut_pair(a, s, ri, op, op2) && b == cut_records(a, s, ri, op, op2, using_poly_tree)
            && t == cut_points(s, op, op2, a.len() as int);
    let x = s[op].prev as int;
    let y = s[op2].prev as int;
    let w = swapped_next(s, x, y);
    lemma_swapped_next_ok(s, x, y);
    lemma_ring_with_idx_ok(w, op2, a.len() as i32);
    assert(w.len() == s.len());
    assert forall|i: int| 0 <= i < s.len() implies (#[trigger] t[i]).pt == s[i].pt by {
        assert(w[i].pt == s[i].pt);
    }
}

/// Whatever cuts the cutting pass makes, every point keeps its position
/// and the links stay those of closed rings: the pass only regroups the
/// points of each ring into rings of their own.
pub proof fn lemma_cuts_keep_points(
    a: Seq<OutRec>,
    s: Seq<OutPt>,
    b: Seq<OutRec>,
    t: Seq<OutPt>,
    using_poly_tree: bool,
)
    requires
        links_ok(s),
        cuts_to(a, s, b, t, using_poly_tree),
    ensures
        links_ok(t),
        t.len() == s.len(),
        forall|i: int| 0 <= i < s.len() ==> (#[trigger] t[i]).pt == s[i].pt,
{
    reveal(cuts_to);
    let rs = choose|rs: Seq<(Seq<OutRec>, Seq<OutPt>)>|
        #![trigger rs.len()]
        rs.len() >= 1 && rs[0] == (a, s) && rs.last() == (b, t) && forall|j: int|
            0 <= j < rs.len() - 1 ==> cut_step(
                (#[trigger] rs[j]).0,
                rs[j].1,
                rs[j + 1].0,
                rs[j + 1].1,
                using_poly_tree,
            );
    lemma_steps_keep(rs, rs.len() - 1, s, using_poly_tree);
}

/// Along a run of cut steps from `s`, the state after `k` of them keeps
/// every point of `s` at its position.
proof fn lemma_steps_keep(
    rs: Seq<(Seq<OutRec>, Seq<OutPt>)>,
    k: int,
    s: Seq<OutPt>,
    using_poly_tree: bool,
)
    requires
        0 <= k < rs.len(),
        rs[0].1 == s,
        links_ok(s),
        forall|j: int|
            0 <= j < rs.len() - 1 ==> cut_step(
                (#[trigger] rs[j]).0,
                rs[j].1,
                rs[j + 1].0,
                rs[j + 1].1,
                using_poly_tree,
            ),
    ensures
        links_ok(rs[k].1),
        rs[k].1.len() == s.len(),
        forall|i: int| 0 <= i < s.len() ==> (#[trigger] rs[k].1[i]).pt == s[i].pt,
    decreases k,
{
    if k > 0 {
        lemma_steps_keep(rs, k - 1, s, using_poly_tree);
        let p = rs[k - 1];
        let q = rs[k];
        lemma_cut_step_keeps(p.0, p.1, q.0, q.1, using_poly_tree);
    }
}

/// Heading record `ri` by `op`, exchanging the successors of the
/// predecessors of `op` and `op2`, and splitting off the ring through
/// `op2` (`split_result`), at a place where the pass may cut, is a cut
/// step.
proof fn lemma_cut_step_intro(
    a: Seq<OutRec>,
    s: Seq<OutPt>,
    m: Seq<OutRec>,
    t: Seq<OutPt>,
    u: Seq<OutPt>,
    f: Seq<OutRec>,
    ri: int,
    op: int,
    op2: int,
    using_poly_tree: bool,
)
    requires
        cut_pair(a, s, ri, op, op2),
        m == a.update(ri, OutRec { pts: Some(op as usize), ..a[ri] }),
        t == swapped_next(s, s[op].prev as int, s[op2].prev as int),
        u == ring_with_idx(t, op2, a.len() as i32),
        split_as(m, u, ri as usize, op2 as usize, using_poly_tree, f),
    ensures
        cut_step(a, s, f, u, using_poly_tree),
        f == cut_records(a, s, ri, op, op2, using_poly_tree),
        u == cut_points(s, op, op2, a.len() as int),
{
    reveal(cut_step);
    reveal(split_as);
    reveal(cut_records);
    assert(u == cut_points(s, op, op2, a.len() as int));
    assert(f == cut_records(a, s, ri, op, op2, using_poly_tree));
}

/// Where the cutting pass stands: the records and points so far, the next
/// record to take up (`next_rec`), and, while it scans the ring of record
/// `ri` (`scanning`), the point `op` whose position it looks for and the
/// point `op2` it compares with.
pub struct SimpleState {
    pub recs: Seq<OutRec>,
    pub pts: Seq<OutPt>,
    pub next_rec: int,
    pub ri: int,
    pub op: int,
    pub op2: int,
    pub scanning: bool,
}

/// One step of the cutting pass. Between records: done once every record
/// was taken up; else the next record, when closed and with points, is
/// scanned from its head (`op` the head, `op2` its successor), and
/// otherwise passed over. While scanning the ring of record `ri`, headed
/// by `head`: while `op2` is not back at `head`, when `op2` shares `op`'s
/// position and is not its neighbour the ring is cut there (`cut_records`,
/// `cut_points`, after which `op` heads the record) and the scan goes on
/// from `op`'s new successor, else from `op2`'s successor; back at `head`,
/// the scan moves `op` to its successor, or ends the record when that is
/// `head`.
#[verifier::opaque]
pub open spec fn simple_step(st: SimpleState, using_poly_tree: bool) -> SimpleState {
    if !st.scanning {
        if st.next_rec < 0 || st.next_rec >= st.recs.len() {
            st
        } else if st.recs[st.next_rec].pts is Some && !st.recs[st.next_rec].is_open {
            let h = st.recs[st.next_rec].pts->0 as int;
            SimpleState {
                next_rec: st.next_rec + 1,
                ri: st.next_rec,
                op: h,
                op2: st.pts[h].next as int,
                scanning: true,
                ..st
            }
        } else {
            SimpleState { next_rec: st.next_rec + 1, ..st }
        }
    } else {
        let s = st.pts;
        let head = st.recs[st.ri].pts->0 as int;
        if st.op2 != head {
            if s[st.op].pt == s[st.op2].pt && !neighbours(s, st.op, st.op2) {
                let t = cut_points(s, st.op, st.op2, st.recs.len() as int);
                SimpleState {
                    recs: cut_records(st.recs, s, st.ri, st.op, st.op2, using_poly_tree),
                    pts: t,
                    op2: t[st.op].next as int,
                    ..st
                }
            } else {
                SimpleState { op2: s[st.op2].next as int, ..st }
            }
        } else {
            let nx = s[st.op].next as int;
            if nx == head {
                SimpleState { ri: 0, op: 0, op2: 0, scanning: false, ..st }
            } else {
                SimpleState { op: nx, op2: s[nx].next as int, ..st }
            }
        }
    }
}

/// The state after `k` steps.
pub open spec fn simple_steps(st: SimpleState, k: nat, using_poly_tree: bool) -> SimpleState
    decreases k,
{
    if k == 0 {
        st
    } else {
        simple_step(simple_steps(st, (k - 1) as nat, using_poly_tree), using_poly_tree)
    }
}

/// The pass goes from `a` to `b` in some number of steps.
#[verifier::opaque]
pub open spec fn simple_reaches(a: SimpleState, b: SimpleState, using_poly_tree: bool) -> bool {
    exists|k: nat| simple_steps(a, k, using_poly_tree) == b
}

/// The pass between records, about to take up record `i`.
pub open spec fn between_recs(recs: Seq<OutRec>, pts: Seq<OutPt>, i: int) -> SimpleState {
    SimpleState { recs, pts, next_rec: i, ri: 0, op: 0, op2: 0, scanning: false }
}

/// The pass scanning the ring of record `ri` at `op` and `op2`.
pub open spec fn scanning_at(
    recs: Seq<OutRec>,
    pts: Seq<OutPt>,
    ri: int,
    op: int,
    op2: int,
) -> SimpleState {
    SimpleState { recs, pts, next_rec: ri + 1, ri, op, op2, scanning: true }
}

/// The pass has taken up every record.
pub open spec fn simple_done(st: SimpleState) -> bool {
    !st.scanning && st.next_rec >= st.recs.len()
}

proof fn lemma_reaches_refl(a: SimpleState, using_poly_tree: bool)
    ensures
        simple_reaches(a, a, using_poly_tree),
{
    reveal(simple_reaches);
    assert(simple_steps(a, 0, using_poly_tree) == a);
}

proof fn lemma_reaches_next(a: SimpleState, b: SimpleState, using_poly_tree: bool)
    requires
        simple_reaches(a, b, using_poly_tree),
    ensures
        simple_reaches(a, simple_step(b, using_poly_tree), using_poly_tree),
{
    reveal(simple_reaches);
    let k = choose|k: nat| simple_steps(a, k, using_poly_tree) == b;
    assert(simple_steps(a, k + 1, using_poly_tree) == simple_step(b, using_poly_tree));
}

/// Once every record was taken up the pass stays where it is, so the state
/// it ends in is the one its steps reach first: the pass has one result.
pub proof fn lemma_simple_done_stays(st: SimpleState, using_poly_tree: bool)
    requires
        simple_done(st),
    ensures
        simple_step(st, using_poly_tree) == st,
{
    reveal(simple_step);
}

proof fn lemma_step_between(recs: Seq<OutRec>, pts: Seq<OutPt>, i: int, using_poly_tree: bool)
    requires
        0 <= i < recs.len(),
    ensures
        (recs[i].pts is Some && !recs[i].is_open) ==> simple_step(
            between_recs(recs, pts, i),
            using_poly_tree,
        ) == scanning_at(
            recs,
            pts,
            i,
            recs[i].pts->0 as int,
            pts[recs[i].pts->0 as int].next as int,
        ),
        !(recs[i].pts is Some && !recs[i].is_open) ==> simple_step(
            between_recs(recs, pts, i),
            using_poly_tree,
        ) == between_recs(recs, pts, i + 1),
{
    reveal(simple_step);
}

proof fn lemma_step_scan(
    recs: Seq<OutRec>,
    pts: Seq<OutPt>,
    ri: int,
    op: int,
    op2: int,
    using_poly_tree: bool,
)
    ensures
        ({
            let head = recs[ri].pts->0 as int;
            let st = scanning_at(recs, pts, ri, op, op2);
            let nx = pts[op].next as int;
            &&& op2 != head && pts[op].pt == pts[op2].pt && !neighbours(pts, op, op2)
                ==> simple_step(st, using_poly_tree) == scanning_at(
                cut_records(recs, pts, ri, op, op2, using_poly_tree),
                cut_points(pts, op, op2, recs.len() as int),
                ri,
                op,
                cut_points(pts, op, op2, recs.len() as int)[op].next as int,
            )
            &&& op2 != head && !(pts[op].pt == pts[op2].pt && !neighbours(pts, op, op2))
                ==> simple_step(st, using_poly_tree) == scanning_at(
                recs,
                pts,
                ri,
                op,
                pts[op2].next as int,
            )
            &&& op2 == head && nx == head ==> simple_step(st, using_poly_tree) == between_recs(
                recs,
                pts,
                ri + 1,
            )
            &&& op2 == head && nx != head ==> simple_step(st, using_poly_tree) == scanning_at(
                recs,
                pts,
                ri,
                nx,
                pts[nx].next as int,
            )
        }),
{
    reveal(simple_step);
}

/// A checked row extends the pairs checked by one.
proof fn lemma_checked_extend(s: Seq<OutPt>, h: int, pos: nat)
    requires
        checked_upto(s, h, pos as int),
        row_checked(s, h, pos, ring_len(s, h) as int),
    ensures
        checked_upto(s, h, pos + 1int),
{
    assert forall|i: nat, j: nat|
        i < pos + 1 && i < j < ring_len(s, h) && s[#[trigger] nexts(s, h, i)].pt == s[#[trigger] nexts(
            s,
            h,
            j,
        )].pt implies neighbours(s, nexts(s, h, i), nexts(s, h, j)) by {
        if i < pos {
        } else {
            assert(i == pos);
        }
    }
}

/// A simple ring holds no two points at one position that are not
/// neighbours.
proof fn lemma_simple_pair(s: Seq<OutPt>, h: int, a: int, b: int)
    requires
        links_ok(s),
        0 <= h < s.len(),
        ring_simple(s, h),
        in_ring(s, h, a),
        in_ring(s, h, b),
        a != b,
        s[a].pt == s[b].pt,
    ensures
        neighbours(s, a, b),
{
    let l = ring_len(s, h);
    let i = choose|i: nat| i < l && nexts(s, h, i) == a;
    let j = choose|j: nat| j < l && nexts(s, h, j) == b;
    if i < j {
        assert(s[nexts(s, h, i)].pt == s[nexts(s, h, j)].pt);
    } else {
        assert(s[nexts(s, h, j)].pt == s[nexts(s, h, i)].pt);
        lemma_nexts_in_range(s, h, i);
        lemma_nexts_in_range(s, h, j);
        assert(neighbours(s, b, a));
        if s[a].next == b {
            assert(s[s[a].next as int].prev == a);
        } else {
            assert(s[s[a].prev as int].next == a);
        }
    }
}

/// A cut between two points at one position that are not neighbours
/// does not touch a simple ring: its walk meets none of the points whose
/// links change, and is walked the same way after the cut.
#[verifier::spinoff_prover]
#[verifier::rlimit(40)]
proof fn lemma_cut_misses_simple(s: Seq<OutPt>, op: usize, op2: usize, h: int, idx: i32)
    requires
        links_ok(s),
        op < s.len(),
        op2 < s.len(),
        op != op2,
        in_ring(s, op as int, op2 as int),
        s[op as int].pt == s[op2 as int].pt,
        !neighbours(s, op as int, op2 as int),
        0 <= h < s.len(),
        ring_simple(s, h),
    ensures
        forall|m: nat|
            #![trigger nexts(s, h, m)]
            nexts(s, h, m) != s[op as int].prev && nexts(s, h, m) != s[op2 as int].prev && nexts(
                s,
                h,
                m,
            ) != op && nexts(s, h, m) != op2,
        forall|k: nat|
            #[trigger] nexts(
                ring_with_idx(
                    swapped_next(s, s[op as int].prev as int, s[op2 as int].prev as int),
                    op2 as int,
                    idx,
                ),
                h,
                k,
            ) == nexts(s, h, k),
        ring_len(
            ring_with_idx(
                swapped_next(s, s[op as int].prev as int, s[op2 as int].prev as int),
                op2 as int,
                idx,
            ),
            h,
        ) == ring_len(s, h),
{
    let x = s[op as int].prev as int;
    let y = s[op2 as int].prev as int;
    let t = swapped_next(s, x, y);
    lemma_ring_len(s, h);
    lemma_ring_len(s, op as int);
    assert(in_ring(s, op as int, op as int)) by {
        assert(nexts(s, op as int, 0) == op as int);
    }
    lemma_ring_closed(s, op as int, op as int);
    lemma_ring_closed(s, op as int, op2 as int);
    assert(x != y) by {
        assert(s[s[op as int].prev as int].next == op);
        assert(s[s[op2 as int].prev as int].next == op2);
    }
    assert(!in_ring(s, h, op as int)) by {
        if in_ring(s, h, op as int) {
            lemma_same_ring(s, h, op as int);
            lemma_simple_pair(s, h, op as int, op2 as int);
        }
    }
    let l = ring_len(s, h);
    assert forall|m: nat| #![trigger nexts(s, h, m)]
        nexts(s, h, m) != x && nexts(s, h, m) != y && nexts(s, h, m) != op && nexts(s, h, m) != op2 by {
        lemma_nexts_in_ring(s, h, m);
        lemma_nexts_in_range(s, h, m);
        let w = nexts(s, h, m);
        if w == x || w == y || w == op || w == op2 {
            lemma_same_ring(s, op as int, w);
            lemma_same_ring(s, h, w);
        }
    }
    assert forall|k: nat| #[trigger] nexts(t, h, k) == nexts(s, h, k) by {
        lemma_walk_off_cut(s, x, y, h, k);
    }
    lemma_swapped_next_ok(s, x, y);
    lemma_relabel_keeps_rings(t, op2 as int, idx);
    assert(is_ring_len(t, h, l));
    lemma_ring_len_unique(t, h, l);
}

/// A cut between two points at one position that are not neighbours
/// leaves every simple ring simple.
#[verifier::spinoff_prover]
#[verifier::rlimit(40)]
proof fn lemma_cut_keeps_simple(s: Seq<OutPt>, op: usize, op2: usize, h: int, idx: i32)
    requires
        links_ok(s),
        op < s.len(),
        op2 < s.len(),
        op != op2,
        in_ring(s, op as int, op2 as int),
        s[op as int].pt == s[op2 as int].pt,
        !neighbours(s, op as int, op2 as int),
        0 <= h < s.len(),
        ring_simple(s, h),
    ensures
        ring_simple(
            ring_with_idx(
                swapped_next(s, s[op as int].prev as int, s[op2 as int].prev as int),
                op2 as int,
                idx,
            ),
            h,
        ),
{
    let x = s[op as int].prev as int;
    let y = s[op2 as int].prev as int;
    let t = swapped_next(s, x, y);
    let u = ring_with_idx(t, op2 as int, idx);
    lemma_cut_misses_simple(s, op, op2, h, idx);
    let l = ring_len(s, h);
    assert(x != y) by {
        assert(s[s[op as int].prev as int].next == op);
        assert(s[s[op2 as int].prev as int].next == op2);
    }
    assert(s[x].next != s[y].next) by {
        assert(s[s[x].next as int].prev == x);
        assert(s[s[y].next as int].prev == y);
    }
    assert(s[x].next == op && s[y].next == op2);
    assert forall|i: nat, j: nat|
        i < l && i < j < l && u[#[trigger] nexts(u, h, i)].pt == u[#[trigger] nexts(u, h, j)].pt
            implies neighbours(u, nexts(u, h, i), nexts(u, h, j)) by {
        let a = nexts(s, h, i);
        let b = nexts(s, h, j);
        lemma_nexts_in_range(s, h, i);
        lemma_nexts_in_range(s, h, j);
        lemma_swapped_fields(s, x, y, a);
        lemma_swapped_fields(s, x, y, b);
        assert(s[nexts(s, h, i)].pt == s[nexts(s, h, j)].pt);
    }
}

/// The work a record can still cause: one, plus the square of the length
/// of its ring when it heads a closed one.
pub open spec fn rec_weight(r: OutRec, s: Seq<OutPt>) -> nat {
    match r.pts {
        Some(h) => if r.is_open {
            1
        } else {
            1 + ring_len(s, h as int) * ring_len(s, h as int)
        },
        None => 1,
    }
}

/// The work the records from `i` on can still cause.
pub open spec fn pending_weight(recs: Seq<OutRec>, s: Seq<OutPt>, i: int) -> nat
    decreases recs.len() - i,
{
    if i < 0 || i >= recs.len() {
        0
    } else {
        rec_weight(recs[i], s) + pending_weight(recs, s, i + 1)
    }
}

/// Records that keep their heads and kinds, over rings that do not grow,
/// cause no more work, but for the records added after them.
proof fn lemma_pending_le(a: Seq<OutRec>, s: Seq<OutPt>, b: Seq<OutRec>, t: Seq<OutPt>, k: int)
    requires
        0 <= k <= a.len() <= b.len(),
        forall|r: int|
            k <= r < a.len() ==> (#[trigger] b[r]).pts == a[r].pts && b[r].is_open == a[r].is_open,
        forall|r: int| k <= r < a.len() ==> (#[trigger] a[r].pts matches Some(h) ==> h < s.len()),
        forall|z: int| 0 <= z < s.len() ==> #[trigger] ring_len(t, z) <= ring_len(s, z),
    ensures
        pending_weight(b, t, k) <= pending_weight(a, s, k) + pending_weight(b, t, a.len() as int),
    decreases a.len() - k,
{
    if k < a.len() {
        lemma_pending_le(a, s, b, t, k + 1);
        if let Some(h) = a[k].pts {
            let x = ring_len(t, h as int);
            let y = ring_len(s, h as int);
            assert(x <= y);
            assert(x * x <= y * y) by (nonlinear_arith)
                requires
                    x <= y,
            ;
        }
    }
}

/// Cutting a ring of `a + b` points into rings of `a` and `b` points
/// lowers the work by at least one.
proof fn lemma_cut_weight(a: nat, b: nat)
    requires
        a >= 1,
        b >= 1,
    ensures
        a * a + 1 + b * b < (a + b) * (a + b),
{
    assert(a * a + 1 + b * b < (a + b) * (a + b)) by (nonlinear_arith)
        requires
            a >= 1,
            b >= 1,
    ;
}

/// Giving a record with points another head keeps the records fit.
proof fn lemma_rehead_fit(a: Seq<OutRec>, s: Seq<OutPt>, walks: bool, ri: int, h: usize)
    requires
        recs_fit(a, s, walks),
        0 <= ri < a.len(),
        a[ri].pts is Some,
        h < s.len(),
    ensures
        recs_fit(a.update(ri, OutRec { pts: Some(h), ..a[ri] }), s, walks),
{
    let b = a.update(ri, OutRec { pts: Some(h), ..a[ri] });
    assert forall|i: int| 0 <= i < b.len() implies (#[trigger] b[i].first_left matches Some(f) ==> f
        < b.len()) by {
        assert(b[i].first_left == a[i].first_left);
    }
    assert forall|i: int| 0 <= i < b.len() implies (#[trigger] b[i].pts matches Some(p) ==> p
        < s.len()) by {
        if i != ri {
            assert(b[i] == a[i]);
        }
    }
    if walks {
        assert(same_pointless(a, b)) by {
            reveal(same_pointless);
            assert forall|m: int| 0 <= m < a.len() implies (#[trigger] b[m].pts is Some) == (
            a[m].pts is Some) by {
                if m != ri {
                    assert(b[m] == a[m]);
                }
            }
            assert forall|m: int| 0 <= m < a.len() && a[m].pts is None implies #[trigger] b[m]
                == a[m] by {
                if m != ri {
                    assert(b[m] == a[m]);
                }
            }
        }
        assert forall|i: int| 0 <= i < b.len() implies (exists|j: int|
            0 <= j < a.len() && #[trigger] b[i].first_left == #[trigger] a[j].first_left) || (
        b[i].first_left matches Some(k) && b[k as int].pts is Some) by {
            assert(b[i].first_left == a[i].first_left);
        }
        lemma_parse_end_kept(a, b);
    }
}

/// Cuts the ring of record `ri` between `op` and the point `op2` on it:
/// the successors of their predecessors are exchanged, `op` heads the
/// record's part and the part through `op2` goes to a new record
/// (`split_off_record`). The record's ring gets shorter and the work the
/// records can still cause goes down.
#[verifier::spinoff_prover]
#[verifier::rlimit(100)]
fn cut_at(
    recs: &mut Vec<OutRec>,
    arena: &mut OutPtArena,
    ri: usize,
    op: usize,
    op2: usize,
    using_poly_tree: bool,
    reverse_output: bool,
)
    requires
        recs_fit(old(recs)@, old(arena).nodes(), using_poly_tree),
        ri < old(recs)@.len(),
        old(recs)@[ri as int].pts is Some,
        !old(recs)@[ri as int].is_open,
        op < old(arena).nodes().len(),
        op2 < old(arena).nodes().len(),
        op != op2,
        in_ring(old(arena).nodes(), op as int, op2 as int),
        in_ring(old(arena).nodes(), old(recs)@[ri as int].pts->0 as int, op as int),
        old(arena).nodes()[op as int].pt == old(arena).nodes()[op2 as int].pt,
        !neighbours(old(arena).nodes(), op as int, op2 as int),
    ensures
        cut_step(old(recs)@, old(arena).nodes(), final(recs)@, final(arena).nodes(), using_poly_tree),
        final(recs)@ == cut_records(
            old(recs)@,
            old(arena).nodes(),
            ri as int,
            op as int,
            op2 as int,
            using_poly_tree,
        ),
        final(arena).nodes() == cut_points(
            old(arena).nodes(),
            op as int,
            op2 as int,
            old(recs)@.len() as int,
        ),
        recs_fit(final(recs)@, final(arena).nodes(), using_poly_tree),
        ri < final(recs)@.len(),
        old(recs)@.len() <= final(recs)@.len(),
        simple_kept(old(arena).nodes(), final(arena).nodes()),
        others_kept(old(recs)@, final(recs)@, ri as int),
        final(recs)@[ri as int].pts == Some(op),
        !final(recs)@[ri as int].is_open,
        links_ok(final(arena).nodes()),
        final(arena).nodes().len() == old(arena).nodes().len(),
        ring_len(final(arena).nodes(), op as int) < ring_len(old(arena).nodes(), op as int),
        pending_weight(final(recs)@, final(arena).nodes(), ri + 1) + ring_len(
            final(arena).nodes(),
            op as int,
        ) * ring_len(final(arena).nodes(), op as int) < pending_weight(
            old(recs)@,
            old(arena).nodes(),
            ri + 1,
        ) + ring_len(old(arena).nodes(), op as int) * ring_len(old(arena).nodes(), op as int),
{
    let ghost s = arena.nodes();
    let _ = arena.len();
    let p = arena.get(op);
    let p2 = arena.get(op2);
    let x = p.prev;
    let y = p2.prev;
    proof {
        lemma_cut_parts(s, op, op2);
    }
    arena.swap_next(x, y);
    let ghost t = arena.nodes();
    let rec = recs[ri];
    let ghost before_set = recs@;
    proof {
        lemma_rehead_fit(recs@, t, using_poly_tree, ri as int, op);
    }
    recs.set(ri, OutRec { pts: Some(op), ..rec });
    let ghost set_recs = recs@;
    let ghost n0 = recs@.len();
    split_off(recs, arena, ri, op2, using_poly_tree, reverse_output);
    let ghost u = arena.nodes();
    proof {
        lemma_relabel_keeps_rings(t, op2 as int, n0 as i32);
        lemma_cut_step_intro(before_set, s, set_recs, t, u, recs@, ri as int, op as int, op2 as int, using_poly_tree);
        lemma_cut_pending(before_set, set_recs, recs@, s, t, u, ri as int, op, op2);
        assert forall|h: int| 0 <= h < s.len() && #[trigger] ring_simple(s, h) implies ring_simple(
            u,
            h,
        ) by {
            lemma_cut_keeps_simple(s, op, op2, h, n0 as i32);
        }
        assert forall|j: int| 0 <= j < before_set.len() && j != ri implies (#[trigger] recs@[j]).pts
            == before_set[j].pts && recs@[j].is_open == before_set[j].is_open by {
            assert(set_recs[j] == before_set[j]);
        }
    }
}

/// The two parts of a cut between `op` and `op2`, on one ring: `op` is on
/// one, `op2` on the other, their lengths add up to the old one, and no
/// ring grows.
proof fn lemma_cut_parts(s: Seq<OutPt>, op: usize, op2: usize)
    requires
        links_ok(s),
        op < s.len(),
        op2 < s.len(),
        op != op2,
        in_ring(s, op as int, op2 as int),
    ensures
        s[op as int].prev != s[op2 as int].prev,
        s[op as int].prev < s.len(),
        s[op2 as int].prev < s.len(),
        links_ok(swapped_next(s, s[op as int].prev as int, s[op2 as int].prev as int)),
        ring_len(swapped_next(s, s[op as int].prev as int, s[op2 as int].prev as int), op as int)
            + ring_len(swapped_next(s, s[op as int].prev as int, s[op2 as int].prev as int), op2 as int)
            == ring_len(s, op as int),
        ring_len(swapped_next(s, s[op as int].prev as int, s[op2 as int].prev as int), op as int) >= 1,
        ring_len(swapped_next(s, s[op as int].prev as int, s[op2 as int].prev as int), op2 as int)
            >= 1,
        forall|z: int|
            0 <= z < s.len() ==> #[trigger] ring_len(
                swapped_next(s, s[op as int].prev as int, s[op2 as int].prev as int),
                z,
            ) <= ring_len(s, z),
{
    let x = s[op as int].prev as int;
    let y = s[op2 as int].prev as int;
    lemma_ring_len(s, op as int);
    assert(x != y) by {
        assert(s[s[op as int].prev as int].next == op);
        assert(s[s[op2 as int].prev as int].next == op2);
    }
    assert(in_ring(s, op as int, op as int)) by {
        assert(nexts(s, op as int, 0) == op as int);
    }
    lemma_ring_closed(s, op as int, op as int);
    lemma_ring_closed(s, op as int, op2 as int);
    lemma_same_ring(s, op as int, x);
    lemma_cut_sizes(s, x, y);
    let t = swapped_next(s, x, y);
    lemma_swapped_next_ok(s, x, y);
    lemma_same_ring(t, y, op as int);
    lemma_same_ring(t, x, op2 as int);
}

/// `split_off_record`, of which only what the cutting pass needs is kept.
fn split_off(
    recs: &mut Vec<OutRec>,
    arena: &mut OutPtArena,
    r1: usize,
    op2: usize,
    using_poly_tree: bool,
    reverse_output: bool,
)
    requires
        recs_fit(old(recs)@, old(arena).nodes(), using_poly_tree),
        r1 < old(recs)@.len(),
        old(recs)@[r1 as int].pts is Some,
        op2 < old(arena).nodes().len(),
    ensures
        recs_fit(final(recs)@, final(arena).nodes(), using_poly_tree),
        final(arena).nodes() == ring_with_idx(
            old(arena).nodes(),
            op2 as int,
            old(recs)@.len() as i32,
        ),
        split_as(old(recs)@, final(arena).nodes(), r1, op2, using_poly_tree, final(recs)@),
        final(recs)@.len() == old(recs)@.len() + 1,
        forall|i: int|
            0 <= i < old(recs)@.len() ==> (#[trigger] final(recs)@[i]).pts == old(recs)@[i].pts
                && final(recs)@[i].is_open == old(recs)@[i].is_open,
        final(recs)@[old(recs)@.len() as int].pts == Some(op2),
        !final(recs)@[old(recs)@.len() as int].is_open,
{
    let _ = split_off_record(recs, arena, r1, op2, using_poly_tree, reverse_output);
    proof {
        reveal(split_as);
    }
}

/// `f` is what `split_result` leaves of `a`.
#[verifier::opaque]
spec fn split_as(
    a: Seq<OutRec>,
    t: Seq<OutPt>,
    r1: usize,
    op2: usize,
    using_poly_tree: bool,
    f: Seq<OutRec>,
) -> bool {
    f == split_result(a, t, r1, op2, using_poly_tree)
}

/// The work left after a cut: the record's ring of `a + b` points became
/// one of `a` and a new record's of `b`; no other ring grew.
proof fn lemma_cut_pending(
    a: Seq<OutRec>,
    m: Seq<OutRec>,
    f: Seq<OutRec>,
    s: Seq<OutPt>,
    t: Seq<OutPt>,
    u: Seq<OutPt>,
    ri: int,
    op: usize,
    op2: usize,
)
    requires
        0 <= ri < a.len(),
        m.len() == a.len(),
        f.len() == a.len() + 1,
        forall|r: int| 0 <= r < a.len() && r != ri ==> #[trigger] m[r] == a[r],
        forall|r: int|
            0 <= r < m.len() ==> (#[trigger] f[r]).pts == m[r].pts && f[r].is_open == m[r].is_open,
        f[a.len() as int].pts == Some(op2),
        !f[a.len() as int].is_open,
        forall|r: int| 0 <= r < a.len() ==> (#[trigger] a[r].pts matches Some(h) ==> h < s.len()),
        op < s.len(),
        op2 < s.len(),
        t.len() == s.len(),
        forall|z: int| 0 <= z < s.len() ==> #[trigger] ring_len(t, z) <= ring_len(s, z),
        forall|z: int| 0 <= z < s.len() ==> #[trigger] ring_len(u, z) == ring_len(t, z),
        ring_len(t, op as int) + ring_len(t, op2 as int) == ring_len(s, op as int),
        ring_len(t, op as int) >= 1,
        ring_len(t, op2 as int) >= 1,
    ensures
        pending_weight(f, u, ri + 1) + ring_len(u, op as int) * ring_len(u, op as int)
            < pending_weight(a, s, ri + 1) + ring_len(s, op as int) * ring_len(s, op as int),
{
    assert forall|z: int| 0 <= z < s.len() implies #[trigger] ring_len(u, z) <= ring_len(s, z) by {
        assert(ring_len(u, z) == ring_len(t, z));
    }
    assert forall|z: int| 0 <= z < s.len() implies #[trigger] ring_len(s, z) <= ring_len(s, z) by {}
    lemma_pending_le(a, s, m, s, ri + 1);
    lemma_pending_le(m, s, f, u, ri + 1);
    assert(pending_weight(m, s, a.len() as int) == 0);
    assert(pending_weight(f, u, a.len() + 1int) == 0);
    let b_len = ring_len(t, op2 as int);
    let a_len = ring_len(t, op as int);
    assert(ring_len(u, op2 as int) == b_len);
    assert(pending_weight(f, u, a.len() as int) == 1 + b_len * b_len);
    lemma_cut_weight(a_len, b_len);
}

/// Scans the points after `op` on the ring of record `ri` (headed by
/// `head`, `d` steps after `op`) for one at `op`'s position that is not a
/// neighbour of `op`; at each, the ring is cut between the two, `op` heads
/// the part kept and the other part goes to a new record
/// (`split_off_record`). Returns the head of the ring kept: `head` when
/// nothing was cut, else `op`, on a shorter ring.
#[verifier::spinoff_prover]
#[verifier::rlimit(100)]
fn scan_pairs(
    recs: &mut Vec<OutRec>,
    arena: &mut OutPtArena,
    ri: usize,
    op: usize,
    head: usize,
    using_poly_tree: bool,
    reverse_output: bool,
    Ghost(bound): Ghost<int>,
    Ghost(d): Ghost<nat>,
    Ghost(st0): Ghost<SimpleState>,
) -> (r: usize)
    requires
        simple_reaches(
            st0,
            scanning_at(
                old(recs)@,
                old(arena).nodes(),
                ri as int,
                op as int,
                old(arena).nodes()[op as int].next as int,
            ),
            using_poly_tree,
        ),
        recs_fit(old(recs)@, old(arena).nodes(), using_poly_tree),
        ri < old(recs)@.len(),
        old(recs)@[ri as int].pts == Some(head),
        !old(recs)@[ri as int].is_open,
        op < old(arena).nodes().len(),
        head < old(arena).nodes().len(),
        1 <= d <= ring_len(old(arena).nodes(), head as int),
        nexts(old(arena).nodes(), op as int, d) == head,
        op == nexts(old(arena).nodes(), head as int, (ring_len(old(arena).nodes(), head as int) - d) as nat),
        checked_upto(old(arena).nodes(), head as int, ring_len(old(arena).nodes(), head as int) - d),
        pending_weight(old(recs)@, old(arena).nodes(), ri + 1) + ring_len(
            old(arena).nodes(),
            head as int,
        ) * ring_len(old(arena).nodes(), head as int) <= bound,
    ensures
        simple_reaches(
            st0,
            scanning_at(final(recs)@, final(arena).nodes(), ri as int, op as int, r as int),
            using_poly_tree,
        ),
        cuts_to(old(recs)@, old(arena).nodes(), final(recs)@, final(arena).nodes(), using_poly_tree),
        simple_kept(old(arena).nodes(), final(arena).nodes()),
        others_kept(old(recs)@, final(recs)@, ri as int),
        r == head ==> checked_upto(
            final(arena).nodes(),
            r as int,
            ring_len(old(arena).nodes(), head as int) - d + 1,
        ),
        r != head ==> checked_upto(final(arena).nodes(), r as int, 1),
        recs_fit(final(recs)@, final(arena).nodes(), using_poly_tree),
        ri < final(recs)@.len(),
        old(recs)@.len() <= final(recs)@.len(),
        final(recs)@[ri as int].pts == Some(r),
        !final(recs)@[ri as int].is_open,
        r < final(arena).nodes().len(),
        final(arena).nodes().len() == old(arena).nodes().len(),
        (r == head && final(arena).nodes() == old(arena).nodes() && final(recs)@ == old(recs)@) || (
        r == op && ring_len(final(arena).nodes(), op as int) < ring_len(
            old(arena).nodes(),
            head as int,
        )),
        pending_weight(final(recs)@, final(arena).nodes(), ri + 1) + ring_len(
            final(arena).nodes(),
            r as int,
        ) * ring_len(final(arena).nodes(), r as int) <= bound,
{
    let ghost s0 = arena.nodes();
    let ghost recs0 = recs@;
    let _ = arena.len();
    let mut head = head;
    let mut op2 = arena.get(op).next;
    let ghost mut c: nat = 1;
    let ghost mut dd: nat = d;
    let ghost mut cut = false;
    let ghost mut pos: nat = (ring_len(s0, head as int) - d) as nat;
    proof {
        lemma_ring_len(s0, head as int);
        assert(nexts(s0, op as int, 0) == op as int);
        assert(nexts(s0, op as int, 1) == op2 as int);
        lemma_nexts_in_range(s0, op as int, d);
        lemma_same_ring_len(s0, op as int, d);
        assert forall|j: nat|
            pos < j < pos + c && s0[nexts(s0, head as int, pos)].pt == s0[#[trigger] nexts(
                s0,
                head as int,
                j,
            )].pt implies neighbours(s0, nexts(s0, head as int, pos), nexts(s0, head as int, j)) by {}
        lemma_cuts_refl(recs0, s0, using_poly_tree);
    }
    while op2 != head
        invariant
            simple_reaches(
                st0,
                scanning_at(recs@, arena.nodes(), ri as int, op as int, op2 as int),
                using_poly_tree,
            ),
            cuts_to(recs0, s0, recs@, arena.nodes(), using_poly_tree),
            recs_fit(recs@, arena.nodes(), using_poly_tree),
            ri < recs@.len(),
            recs0.len() <= recs@.len(),
            recs@[ri as int].pts == Some(head),
            !recs@[ri as int].is_open,
            links_ok(arena.nodes()),
            arena.nodes().len() == s0.len(),
            op < s0.len(),
            head < s0.len(),
            op2 < s0.len(),
            1 <= c <= dd,
            dd <= ring_len(arena.nodes(), op as int),
            ring_len(arena.nodes(), op as int) == ring_len(arena.nodes(), head as int),
            nexts(arena.nodes(), op as int, dd) == head,
            nexts(arena.nodes(), op as int, c) == op2,
            !cut ==> head == old(recs)@[ri as int].pts->0 && arena.nodes() == s0 && recs@ == recs0,
            cut ==> head == op && ring_len(arena.nodes(), op as int) < ring_len(
                s0,
                old(recs)@[ri as int].pts->0 as int,
            ),
            pending_weight(recs@, arena.nodes(), ri + 1) + ring_len(arena.nodes(), head as int)
                * ring_len(arena.nodes(), head as int) <= bound,
            pos + dd == ring_len(arena.nodes(), head as int),
            op == nexts(arena.nodes(), head as int, pos),
            !cut ==> pos == ring_len(s0, old(recs)@[ri as int].pts->0 as int) - d,
            cut ==> pos == 0,
            checked_upto(arena.nodes(), head as int, pos as int),
            row_checked(arena.nodes(), head as int, pos, (pos + c) as int),
            simple_kept(s0, arena.nodes()),
            others_kept(recs0, recs@, ri as int),
        decreases ring_len(arena.nodes(), op as int), dd - c,
    {
        let ghost s = arena.nodes();
        let p = arena.get(op);
        let p2 = arena.get(op2);
        proof {
            assert(c < dd);
            lemma_ring_len(s, op as int);
        }
        if p.pt == p2.pt && p2.next != op && p2.prev != op {
            proof {
                lemma_ring_distinct(s, op as int, 0, c);
                assert(nexts(s, op as int, 0) == op as int);
                lemma_nexts_in_ring(s, op as int, c);
                lemma_nexts_in_ring(s, head as int, pos);
            }
            let ghost recs_before = recs@;
            cut_at(recs, arena, ri, op, op2, using_poly_tree, reverse_output);
            let ghost u = arena.nodes();
            proof {
                lemma_cuts_step(recs0, s0, recs_before, s, recs@, u, using_poly_tree);
                lemma_step_scan(recs_before, s, ri as int, op as int, op2 as int, using_poly_tree);
                lemma_reaches_next(
                    st0,
                    scanning_at(recs_before, s, ri as int, op as int, op2 as int),
                    using_poly_tree,
                );
            }
            head = op;
            op2 = op;
            proof {
                cut = true;
                c = 0;
                pos = 0;
                dd = ring_len(u, op as int);
                lemma_ring_len(u, op as int);
                assert(nexts(u, op as int, 0) == op as int);
                assert forall|h: int| 0 <= h < s0.len() && #[trigger] ring_simple(s0, h) implies ring_simple(
                    u,
                    h,
                ) by {
                    assert(ring_simple(s, h));
                }
                assert forall|j: int| 0 <= j < recs0.len() && j != ri implies (#[trigger] recs@[j]).pts
                    == recs0[j].pts && recs@[j].is_open == recs0[j].is_open by {
                    assert(recs_before[j].pts == recs0[j].pts);
                }
            }
        } else {
            proof {
                lemma_step_scan(recs@, s, ri as int, op as int, op2 as int, using_poly_tree);
                lemma_reaches_next(
                    st0,
                    scanning_at(recs@, s, ri as int, op as int, op2 as int),
                    using_poly_tree,
                );
                lemma_nexts_add(s, head as int, pos, c);
                assert(op2 == nexts(s, head as int, pos + c));
                assert forall|j: nat|
                    pos < j < pos + c + 1 && s[nexts(s, head as int, pos)].pt == s[#[trigger] nexts(
                        s,
                        head as int,
                        j,
                    )].pt implies neighbours(s, nexts(s, head as int, pos), nexts(s, head as int, j)) by {
                    if j < pos + c {
                    } else {
                        assert(j == pos + c);
                    }
                }
            }
        }
        let ghost s2 = arena.nodes();
        let nx = arena.get(op2).next;
        op2 = nx;
        proof {
            c = c + 1;
            assert(nexts(s2, op as int, c) == op2 as int);
        }
    }
    proof {
        let s3 = arena.nodes();
        assert(c == dd) by {
            if c < dd {
                lemma_ring_len(s3, op as int);
                lemma_ring_distinct(s3, op as int, c, dd);
            }
        }
        lemma_checked_extend(s3, head as int, pos);
    }
    head
}

/// A point `d` steps along the ring from `op` lies on a ring as long as
/// `op`'s.
proof fn lemma_same_ring_len(s: Seq<OutPt>, op: int, d: nat)
    requires
        links_ok(s),
        0 <= op < s.len(),
    ensures
        ring_len(s, nexts(s, op, d)) == ring_len(s, op),
{
    lemma_nexts_in_ring(s, op, d);
    lemma_same_ring(s, op, nexts(s, op, d));
}

/// Walks the ring of record `ri` once from its head, cutting it (see
/// `scan_pairs`) wherever a point comes back to the position of an
/// earlier one that is not its neighbour; after a cut the walk starts
/// again from the point cut at, which heads the record's ring.
#[verifier::spinoff_prover]
#[verifier::rlimit(100)]
fn simplify_record(
    recs: &mut Vec<OutRec>,
    arena: &mut OutPtArena,
    ri: usize,
    using_poly_tree: bool,
    reverse_output: bool,
    Ghost(bound): Ghost<int>,
    Ghost(st0): Ghost<SimpleState>,
)
    requires
        simple_reaches(
            st0,
            scanning_at(
                old(recs)@,
                old(arena).nodes(),
                ri as int,
                old(recs)@[ri as int].pts->0 as int,
                old(arena).nodes()[old(recs)@[ri as int].pts->0 as int].next as int,
            ),
            using_poly_tree,
        ),
        recs_fit(old(recs)@, old(arena).nodes(), using_poly_tree),
        ri < old(recs)@.len(),
        old(recs)@[ri as int].pts is Some,
        !old(recs)@[ri as int].is_open,
        pending_weight(old(recs)@, old(arena).nodes(), ri + 1) + ring_len(
            old(arena).nodes(),
            old(recs)@[ri as int].pts->0 as int,
        ) * ring_len(old(arena).nodes(), old(recs)@[ri as int].pts->0 as int) <= bound,
    ensures
        simple_reaches(
            st0,
            between_recs(final(recs)@, final(arena).nodes(), ri + 1),
            using_poly_tree,
        ),
        cuts_to(old(recs)@, old(arena).nodes(), final(recs)@, final(arena).nodes(), using_poly_tree),
        recs_fit(final(recs)@, final(arena).nodes(), using_poly_tree),
        ri < final(recs)@.len(),
        old(recs)@.len() <= final(recs)@.len(),
        final(recs)@[ri as int].pts is Some,
        final(arena).nodes().len() == old(arena).nodes().len(),
        pending_weight(final(recs)@, final(arena).nodes(), ri + 1) + ring_len(
            final(arena).nodes(),
            final(recs)@[ri as int].pts->0 as int,
        ) * ring_len(final(arena).nodes(), final(recs)@[ri as int].pts->0 as int) <= bound,
        !final(recs)@[ri as int].is_open,
        ring_simple(final(arena).nodes(), final(recs)@[ri as int].pts->0 as int),
        simple_kept(old(arena).nodes(), final(arena).nodes()),
        others_kept(old(recs)@, final(recs)@, ri as int),
{
    let ghost s0 = arena.nodes();
    let ghost recs0 = recs@;
    let ghost len0 = recs@.len();
    let _ = arena.len();
    let mut head = recs[ri].pts.unwrap();
    let mut op = head;
    let ghost mut d: nat = ring_len(s0, head as int);
    proof {
        lemma_ring_len(s0, head as int);
        assert(nexts(s0, head as int, 0) == head as int);
        lemma_cuts_refl(recs0, s0, using_poly_tree);
    }
    loop
        invariant_except_break
            simple_reaches(
                st0,
                scanning_at(
                    recs@,
                    arena.nodes(),
                    ri as int,
                    op as int,
                    arena.nodes()[op as int].next as int,
                ),
                using_poly_tree,
            ),
            1 <= d <= ring_len(arena.nodes(), head as int),
            nexts(arena.nodes(), op as int, d) == head,
            op == nexts(arena.nodes(), head as int, (ring_len(arena.nodes(), head as int) - d) as nat),
            checked_upto(arena.nodes(), head as int, ring_len(arena.nodes(), head as int) - d),
        invariant
            cuts_to(recs0, s0, recs@, arena.nodes(), using_poly_tree),
            simple_kept(s0, arena.nodes()),
            others_kept(recs0, recs@, ri as int),
            recs0.len() == len0,
            recs_fit(recs@, arena.nodes(), using_poly_tree),
            ri < recs@.len(),
            len0 <= recs@.len(),
            recs@[ri as int].pts == Some(head),
            !recs@[ri as int].is_open,
            links_ok(arena.nodes()),
            arena.nodes().len() == s0.len(),
            op < s0.len(),
            head < s0.len(),
            pending_weight(recs@, arena.nodes(), ri + 1) + ring_len(arena.nodes(), head as int)
                * ring_len(arena.nodes(), head as int) <= bound,
        ensures
            simple_reaches(st0, between_recs(recs@, arena.nodes(), ri + 1), using_poly_tree),
            ring_simple(arena.nodes(), head as int),
        decreases ring_len(arena.nodes(), head as int), d,
    {
        let ghost s = arena.nodes();
        let ghost old_head = head;
        let ghost recs_s = recs@;
        let ghost l0 = ring_len(s, head as int);
        proof {
            lemma_ring_len(s, head as int);
            if op == head && l0 - d > 0 {
                lemma_ring_distinct(s, head as int, 0, (l0 - d) as nat);
                assert(nexts(s, head as int, 0) == head as int);
            }
        }
        let h2 = scan_pairs(recs, arena, ri, op, head, using_poly_tree, reverse_output, Ghost(bound), Ghost(d), Ghost(st0));
        let ghost t = arena.nodes();
        head = h2;
        let nx = arena.get(op).next;
        proof {
            lemma_step_scan(recs@, t, ri as int, op as int, head as int, using_poly_tree);
            lemma_reaches_next(
                st0,
                scanning_at(recs@, t, ri as int, op as int, head as int),
                using_poly_tree,
            );
        }
        proof {
            lemma_cuts_trans(recs0, s0, recs_s, s, recs@, t, using_poly_tree);
            lemma_ring_len(t, head as int);
            assert forall|h: int| 0 <= h < s0.len() && #[trigger] ring_simple(s0, h) implies ring_simple(
                t,
                h,
            ) by {
                assert(ring_simple(s, h));
            }
            assert forall|j: int| 0 <= j < recs0.len() && j != ri implies (#[trigger] recs@[j]).pts
                == recs0[j].pts && recs@[j].is_open == recs0[j].is_open by {
                assert(j < recs_s.len());
                assert(recs_s[j].pts == recs0[j].pts && recs_s[j].is_open == recs0[j].is_open);
                assert(others_kept(recs_s, recs@, ri as int));
                assert(recs@[j].pts == recs_s[j].pts && recs@[j].is_open == recs_s[j].is_open);
            }
            if !(h2 == old_head && t == s) {
                // a cut: the pair at the point cut at is checked
                assert(checked_upto(t, head as int, 1));
            }
        }
        if nx == head {
            proof {
                if h2 == old_head && t == s {
                    assert(nexts(s, op as int, 0) == op as int);
                    assert(nexts(s, op as int, 1) == head as int);
                    lemma_ring_len(s, op as int);
                    lemma_same_ring_len(s, op as int, d);
                    if d > 1 {
                        if d < l0 {
                            lemma_ring_distinct(s, op as int, 1, d);
                        } else {
                            assert(nexts(s, op as int, l0) == op as int);
                        }
                    }
                } else {
                    assert(nexts(t, head as int, 0) == head as int);
                    assert(nexts(t, head as int, 1) == head as int);
                    if ring_len(t, head as int) > 1 {
                        assert(nexts(t, head as int, 1) != head as int);
                    }
                }
            }
            op = nx;
            break;
        }
        proof {
            if h2 == old_head && t == s {
                // no cut: one step nearer the head
                assert(nexts(s, op as int, 0) == op as int);
                assert(nexts(s, op as int, 1) == nx as int);
                if d == 1 {
                    assert(nexts(s, op as int, 1) == head as int);
                }
                lemma_nexts_add(s, op as int, 1, (d - 1) as nat);
                lemma_nexts_add(s, head as int, (l0 - d) as nat, 1);
                d = (d - 1) as nat;
            } else {
                // a cut: the walk starts again from the point cut at
                let l = ring_len(t, head as int);
                assert(nexts(t, head as int, 0) == head as int);
                assert(nexts(t, head as int, 1) == nx as int);
                assert(l >= 2) by {
                    if l == 1 {
                        assert(nexts(t, head as int, 1) == head as int);
                    }
                }
                lemma_nexts_add(t, head as int, 1, (l - 1) as nat);
                lemma_nexts_in_range(t, head as int, 1);
                lemma_same_ring_len(t, head as int, 1);
                d = (l - 1) as nat;
            }
        }
        op = nx;
    }
}

/// Every closed ring headed by one of the first `n` records is simple.
pub open spec fn simple_below(recs: Seq<OutRec>, s: Seq<OutPt>, n: int) -> bool {
    forall|j: int|
        0 <= j < n && j < recs.len() && (#[trigger] recs[j]).pts is Some && !recs[j].is_open
            ==> ring_simple(s, recs[j].pts->0 as int)
}

/// Makes every closed polygon simple: for each record in turn, records
/// added on the way included, its ring is cut wherever a point comes back
/// to the position of an earlier one that is not its neighbour (see
/// `simplify_record`). What comes out is what such cuts make of the
/// input (`cuts_to`): each cut splits one closed ring, between two of its
/// points at one position, into two stretches of it, moves no point, and
/// gives the stretch split off a record set up as `split_result` sets it.
/// Which cuts are made, and in which order, is fixed by the pass's steps
/// (`simple_step`): the state it ends in is reached from the start by
/// those steps and is the first in which every record was taken up, after
/// which the steps stay put (`lemma_simple_done_stays`).
/// At the end the ring of every closed record is simple (`ring_simple`).
/// Every step ends: the work the records can still cause
/// (`pending_weight`) goes down with each.
pub fn do_simple_polygons(
    recs: &mut Vec<OutRec>,
    arena: &mut OutPtArena,
    using_poly_tree: bool,
    reverse_output: bool,
)
    requires
        recs_fit(old(recs)@, old(arena).nodes(), using_poly_tree),
    ensures
        recs_fit(final(recs)@, final(arena).nodes(), using_poly_tree),
        cuts_to(old(recs)@, old(arena).nodes(), final(recs)@, final(arena).nodes(), using_poly_tree),
        simple_reaches(
            between_recs(old(recs)@, old(arena).nodes(), 0),
            between_recs(final(recs)@, final(arena).nodes(), final(recs)@.len() as int),
            using_poly_tree,
        ),
        simple_done(between_recs(final(recs)@, final(arena).nodes(), final(recs)@.len() as int)),
        old(recs)@.len() <= final(recs)@.len(),
        final(arena).nodes().len() == old(arena).nodes().len(),
        simple_below(final(recs)@, final(arena).nodes(), final(recs)@.len() as int),
{
    let mut i: usize = 0;
    let ghost len0 = recs@.len();
    let ghost n0 = arena.nodes().len();
    let ghost recs0 = recs@;
    let ghost s0 = arena.nodes();
    let ghost st0 = between_recs(recs0, s0, 0);
    proof {
        lemma_cuts_refl(recs0, s0, using_poly_tree);
        lemma_reaches_refl(st0, using_poly_tree);
    }
    while i < recs.len()
        invariant
            st0 == between_recs(recs0, s0, 0),
            simple_reaches(st0, between_recs(recs@, arena.nodes(), i as int), using_poly_tree),
            cuts_to(recs0, s0, recs@, arena.nodes(), using_poly_tree),
            recs_fit(recs@, arena.nodes(), using_poly_tree),
            i <= recs@.len(),
            len0 <= recs@.len(),
            arena.nodes().len() == n0,
            simple_below(recs@, arena.nodes(), i as int),
        decreases pending_weight(recs@, arena.nodes(), i as int),
    {
        let ri = i;
        i += 1;
        let rec = recs[ri];
        let ghost s = arena.nodes();
        let ghost w = pending_weight(recs@, s, ri as int);
        proof {
            assert(w == rec_weight(recs@[ri as int], s) + pending_weight(recs@, s, ri + 1));
            lemma_step_between(recs@, s, ri as int, using_poly_tree);
            lemma_reaches_next(st0, between_recs(recs@, s, ri as int), using_poly_tree);
        }
        if let Some(h) = rec.pts {
            if !rec.is_open {
                let ghost bound: int = (pending_weight(recs@, s, ri + 1) + ring_len(s, h as int)
                    * ring_len(s, h as int)) as int;
                let ghost recs_b = recs@;
                simplify_record(recs, arena, ri, using_poly_tree, reverse_output, Ghost(bound), Ghost(st0));
                let _ = arena.len();
                proof {
                    lemma_cuts_trans(recs0, s0, recs_b, s, recs@, arena.nodes(), using_poly_tree);
                    let t = arena.nodes();
                    assert forall|j: int|
                        0 <= j < ri + 1 && j < recs@.len() && (#[trigger] recs@[j]).pts is Some
                            && !recs@[j].is_open implies ring_simple(t, recs@[j].pts->0 as int) by {
                        if j < ri {
                            assert(recs@[j].pts == recs_b[j].pts && recs@[j].is_open == recs_b[j].is_open);
                            if let Some(hj) = recs_b[j].pts {
                                if !recs_b[j].is_open {
                                    assert(ring_simple(s, hj as int));
                                }
                            }
                        }
                    }
                }
                proof {
                    let t = arena.nodes();
                    let hh = recs@[ri as int].pts->0 as int;
                    lemma_ring_len(t, hh);
                    assert(ring_len(t, hh) * ring_len(t, hh) >= 1) by (nonlinear_arith)
                        requires
                            ring_len(t, hh) >= 1,
                    ;
                }
            }
        }
    }
}

} // verus!
