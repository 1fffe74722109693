//! Walks along the `first_left` links of the output records: they compose,
//! a walk that runs out stays out, and relinking a record to a record
//! further along its own walk keeps every walk finite.
use vstd::prelude::*;

use crate::outrec::{
    first_where, hole_left, hole_stop, lefts_in_range, left_chain, lemma_first_where,
    lemma_left_chain_in_range, names_rec, with_left, OutRec,
};

verus! {

/// The walk along `first_left` from `r` runs out of records.
pub open spec fn chain_ends(recs: Seq<OutRec>, r: Option<usize>) -> bool {
    exists|k: nat| #[trigger] left_chain(recs, r, k) is None
}

/// No walk along `first_left` goes round for ever.
pub open spec fn lefts_acyclic(recs: Seq<OutRec>) -> bool {
    forall|i: int| 0 <= i < recs.len() ==> #[trigger] chain_ends(recs, Some(i as usize))
}

/// `a + b` steps are `a` steps and then `b` more.
pub proof fn lemma_left_chain_add(recs: Seq<OutRec>, r: Option<usize>, a: nat, b: nat)
    ensures
        left_chain(recs, r, a + b) == left_chain(recs, left_chain(recs, r, a), b),
    decreases b,
{
    if b > 0 {
        lemma_left_chain_add(recs, r, a, (b - 1) as nat);
        assert((a + b - 1) as nat == a + (b - 1) as nat);
    }
}

/// A walk from no record stays at no record.
proof fn lemma_left_chain_none(recs: Seq<OutRec>, k: nat)
    ensures
        left_chain(recs, None, k) is None,
    decreases k,
{
    if k > 0 {
        lemma_left_chain_none(recs, (k - 1) as nat);
    }
}

/// A walk that has run out stays out.
proof fn lemma_left_chain_stays_none(recs: Seq<OutRec>, r: Option<usize>, k: nat, d: nat)
    requires
        left_chain(recs, r, k) is None,
    ensures
        left_chain(recs, r, k + d) is None,
{
    lemma_left_chain_add(recs, r, k, d);
    lemma_left_chain_none(recs, d);
}

/// A walk that comes back to its start after `p` steps does so after
/// every multiple of `p`.
proof fn lemma_cycle_repeats(recs: Seq<OutRec>, i: usize, p: nat, n: nat)
    requires
        left_chain(recs, Some(i), p) == Some(i),
    ensures
        left_chain(recs, Some(i), n * p) == Some(i),
    decreases n,
{
    if n > 0 {
        lemma_cycle_repeats(recs, i, p, (n - 1) as nat);
        lemma_left_chain_add(recs, Some(i), ((n - 1) * p) as nat, p);
        assert(n * p == (n - 1) * p + p) by (nonlinear_arith)
            requires
                n > 0,
        ;
    }
}

/// A walk that runs out never comes back to its start.
proof fn lemma_no_return(recs: Seq<OutRec>, i: usize, p: nat)
    requires
        p >= 1,
        chain_ends(recs, Some(i)),
    ensures
        left_chain(recs, Some(i), p) != Some(i),
{
    let k = choose|k: nat| #[trigger] left_chain(recs, Some(i), k) is None;
    if left_chain(recs, Some(i), p) == Some(i) {
        lemma_cycle_repeats(recs, i, p, k);
        assert(k * p >= k) by (nonlinear_arith)
            requires
                p >= 1,
        ;
        lemma_left_chain_stays_none(recs, Some(i), k, (k * p - k) as nat);
    }
}

/// Changing the `first_left` of record `i` leaves alone every walk up to
/// its first visit to `i`.
proof fn lemma_walk_before_visit(
    a: Seq<OutRec>,
    i: usize,
    rec: OutRec,
    r: Option<usize>,
    m: nat,
)
    requires
        i < a.len(),
        lefts_in_range(a),
        names_rec(a, r),
        forall|j: nat| j < m ==> #[trigger] left_chain(a, r, j) != Some(i),
    ensures
        left_chain(a.update(i as int, rec), r, m) == left_chain(a, r, m),
    decreases m,
{
    if m > 0 {
        lemma_walk_before_visit(a, i, rec, r, (m - 1) as nat);
        lemma_left_chain_in_range(a, r, (m - 1) as nat);
        assert(left_chain(a, r, (m - 1) as nat) != Some(i));
    }
}

/// Pointing record `i` at the record `k >= 1` steps along its own walk
/// keeps every walk along `first_left` finite, and every link in range.
pub proof fn lemma_relink_keeps_acyclic(a: Seq<OutRec>, i: usize, k: nat)
    requires
        lefts_in_range(a),
        lefts_acyclic(a),
        i < a.len(),
        k >= 1,
    ensures
        lefts_in_range(a.update(i as int, with_left(a[i as int], left_chain(a, Some(i), k)))),
        lefts_acyclic(a.update(i as int, with_left(a[i as int], left_chain(a, Some(i), k)))),
{
    let t = left_chain(a, Some(i), k);
    let rec = with_left(a[i as int], t);
    let b = a.update(i as int, rec);
    lemma_left_chain_in_range(a, Some(i), k);
    assert forall|m: int| 0 <= m < b.len() implies (#[trigger] b[m].first_left matches Some(f)
        ==> f < b.len()) by {
        if m != i as int {
            assert(b[m] == a[m]);
        }
    }
    assert(chain_ends(a, Some(i))) by {
        assert(chain_ends(a, Some(i as int as usize)));
    }
    // The walk from `t` never reaches `i` again, so it runs out in `b` too.
    let kt: nat = match t {
        None => 0,
        Some(x) => {
            assert(chain_ends(a, Some(x as int as usize)));
            choose|q: nat| #[trigger] left_chain(a, Some(x), q) is None
        },
    };
    assert(left_chain(a, t, kt) is None) by {
        if t is None {
            lemma_left_chain_none(a, 0);
        }
    }
    assert forall|j: nat| j < kt implies #[trigger] left_chain(a, t, j) != Some(i) by {
        lemma_left_chain_add(a, Some(i), k, j);
        lemma_no_return(a, i, k + j);
    }
    lemma_walk_before_visit(a, i, rec, t, kt);
    assert(b[i as int].first_left == t);
    assert(left_chain(b, Some(i), 0) == Some(i));
    assert(left_chain(b, Some(i), 1) == t);
    lemma_left_chain_add(b, Some(i), 1, kt);
    assert(left_chain(b, Some(i), 1 + kt) is None);
    assert forall|j: int| 0 <= j < b.len() implies #[trigger] chain_ends(b, Some(j as usize)) by {
        let r = Some(j as usize);
        assert(chain_ends(a, r));
        let kj = choose|q: nat| #[trigger] left_chain(a, r, q) is None;
        let q = |m: nat| left_chain(a, r, m) == Some(i) || left_chain(a, r, m) is None;
        assert(q(kj));
        lemma_first_where(q, kj);
        let m0 = first_where(q);
        assert forall|m: nat| m < m0 implies #[trigger] left_chain(a, r, m) != Some(i) by {
            assert(!q(m));
        }
        lemma_walk_before_visit(a, i, rec, r, m0);
        if left_chain(a, r, m0) is None {
            assert(left_chain(b, r, m0) is None);
        } else {
            assert(left_chain(b, r, m0) == Some(i));
            lemma_left_chain_add(b, r, m0, 1 + kt);
            assert(left_chain(b, r, m0 + (1 + kt)) is None);
        }
    }
}

/// Walks that run out end the search for the polygon a record lies in,
/// and that search stops one step along the record's own walk or later.
pub proof fn lemma_hole_search_ends(recs: Seq<OutRec>, i: usize)
    requires
        lefts_in_range(recs),
        lefts_acyclic(recs),
        i < recs.len(),
    ensures
        exists|k: nat|
            #[trigger] hole_stop(recs, recs[i as int].is_hole, recs[i as int].first_left)(k),
        hole_left(recs, i as int) == left_chain(
            recs,
            Some(i),
            1 + first_where(hole_stop(recs, recs[i as int].is_hole, recs[i as int].first_left)),
        ),
{
    let r = Some(i);
    assert(chain_ends(recs, Some(i as int as usize)));
    let kr = choose|q: nat| #[trigger] left_chain(recs, r, q) is None;
    assert(left_chain(recs, r, 0) == r);
    assert(kr >= 1);
    assert(left_chain(recs, r, 1) == recs[i as int].first_left);
    lemma_left_chain_add(recs, r, 1, (kr - 1) as nat);
    let p = hole_stop(recs, recs[i as int].is_hole, recs[i as int].first_left);
    assert(left_chain(recs, recs[i as int].first_left, (kr - 1) as nat) is None);
    assert(p((kr - 1) as nat));
    lemma_left_chain_add(recs, r, 1, first_where(p));
}

/// Two record lists with the same `first_left` links have the same walks.
pub proof fn lemma_same_lefts(a: Seq<OutRec>, b: Seq<OutRec>)
    requires
        a.len() == b.len(),
        forall|j: int| 0 <= j < a.len() ==> (#[trigger] b[j]).first_left == a[j].first_left,
        lefts_in_range(a),
    ensures
        lefts_in_range(b),
        forall|r: Option<usize>, k: nat|
            names_rec(a, r) ==> #[trigger] left_chain(b, r, k) == left_chain(a, r, k),
        lefts_acyclic(a) ==> lefts_acyclic(b),
{
    assert forall|j: int| 0 <= j < b.len() implies (#[trigger] b[j].first_left matches Some(f)
        ==> f < b.len()) by {
        assert(b[j].first_left == a[j].first_left);
    }
    assert forall|r: Option<usize>, k: nat|
        names_rec(a, r) implies #[trigger] left_chain(b, r, k) == left_chain(a, r, k) by {
        lemma_same_walk(a, b, r, k);
    }
    if lefts_acyclic(a) {
        assert forall|i: int| 0 <= i < b.len() implies #[trigger] chain_ends(b, Some(i as usize)) by {
            assert(chain_ends(a, Some(i as usize)));
            let k = choose|q: nat| #[trigger] left_chain(a, Some(i as usize), q) is None;
            lemma_same_walk(a, b, Some(i as usize), k);
        }
    }
}

proof fn lemma_same_walk(a: Seq<OutRec>, b: Seq<OutRec>, r: Option<usize>, k: nat)
    requires
        a.len() == b.len(),
        forall|j: int| 0 <= j < a.len() ==> (#[trigger] b[j]).first_left == a[j].first_left,
        lefts_in_range(a),
        names_rec(a, r),
    ensures
        left_chain(b, r, k) == left_chain(a, r, k),
    decreases k,
{
    if k > 0 {
        lemma_same_walk(a, b, r, (k - 1) as nat);
        lemma_left_chain_in_range(a, r, (k - 1) as nat);
        if let Some(m) = left_chain(a, r, (k - 1) as nat) {
            assert(b[m as int].first_left == a[m as int].first_left);
        }
    }
}

/// The polygon a record is linked to is of the other kind (hole or outer)
/// and still has points; in particular it is not the record itself.
pub proof fn lemma_hole_left_other_kind(recs: Seq<OutRec>, i: usize)
    requires
        lefts_in_range(recs),
        lefts_acyclic(recs),
        i < recs.len(),
    ensures
        hole_left(recs, i as int) matches Some(m) ==> {
            &&& m < recs.len()
            &&& recs[m as int].is_hole != recs[i as int].is_hole
            &&& recs[m as int].pts is Some
        },
        hole_left(recs, i as int) != Some(i),
{
    lemma_hole_search_ends(recs, i);
    let p = hole_stop(recs, recs[i as int].is_hole, recs[i as int].first_left);
    let w = choose|k: nat| #[trigger] p(k);
    lemma_first_where(p, w);
    lemma_left_chain_in_range(recs, recs[i as int].first_left, first_where(p));
}

} // verus!
