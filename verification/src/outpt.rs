//! The points of the output polygons under construction: doubly linked
//! rings kept in one arena and addressed by index.
use vstd::prelude::*;

use crate::types::IntPoint;

verus! {

/// A point of an output ring: `next` and `prev` are indices of its
/// neighbours in the arena, `idx` the output record the ring belongs to.
#[derive(Debug, Clone, Copy, PartialEq, Eq, Structural)]
pub struct OutPt {
    pub idx: i32,
    pub pt: IntPoint,
    pub next: usize,
    pub prev: usize,
}

/// The links of the arena `s` are mutually inverse: every `next` and
/// `prev` stays in the arena and leads back.
pub open spec fn links_ok(s: Seq<OutPt>) -> bool {
    forall|i: int|
        0 <= i < s.len() ==> {
            &&& (#[trigger] s[i]).next < s.len()
            &&& s[i].prev < s.len()
            &&& s[s[i].next as int].prev == i
            &&& s[s[i].prev as int].next == i
        }
}

/// The point reached from `x` after `k` steps along `next`.
pub open spec fn nexts(s: Seq<OutPt>, x: int, k: nat) -> int
    decreases k,
{
    if k == 0 {
        x
    } else {
        s[nexts(s, x, (k - 1) as nat)].next as int
    }
}

/// The point reached from `x` after `k` steps along `prev`.
pub open spec fn prevs(s: Seq<OutPt>, x: int, k: nat) -> int
    decreases k,
{
    if k == 0 {
        x
    } else {
        s[prevs(s, x, (k - 1) as nat)].prev as int
    }
}

/// `k` is the number of points of the ring through `x`: the walk along
/// `next` first comes back to `x` after `k` steps.
pub open spec fn is_ring_len(s: Seq<OutPt>, x: int, k: nat) -> bool {
    &&& 1 <= k
    &&& nexts(s, x, k) == x
    &&& forall|j: nat| 1 <= j < k ==> nexts(s, x, j) != x
}

/// The number of points of the ring through `x`.
pub open spec fn ring_len(s: Seq<OutPt>, x: int) -> nat {
    choose|k: nat| is_ring_len(s, x, k)
}

/// An arena of points linked into rings.
#[derive(Debug)]
pub struct OutPtArena {
    pts: Vec<OutPt>,
}

pub proof fn lemma_nexts_in_range(s: Seq<OutPt>, x: int, k: nat)
    requires
        links_ok(s),
        0 <= x < s.len(),
    ensures
        0 <= nexts(s, x, k) < s.len(),
    decreases k,
{
    if k > 0 {
        lemma_nexts_in_range(s, x, (k - 1) as nat);
        let y = nexts(s, x, (k - 1) as nat);
        assert(s[y].next < s.len());
    }
}

pub proof fn lemma_prevs_in_range(s: Seq<OutPt>, x: int, k: nat)
    requires
        links_ok(s),
        0 <= x < s.len(),
    ensures
        0 <= prevs(s, x, k) < s.len(),
    decreases k,
{
    if k > 0 {
        lemma_prevs_in_range(s, x, (k - 1) as nat);
        let y = prevs(s, x, (k - 1) as nat);
        assert(s[y].prev < s.len());
    }
}

/// Walking `i + j` steps is walking `i` steps, then `j` more.
pub proof fn lemma_nexts_add(s: Seq<OutPt>, x: int, i: nat, j: nat)
    ensures
        nexts(s, x, i + j) == nexts(s, nexts(s, x, i), j),
    decreases j,
{
    if j > 0 {
        lemma_nexts_add(s, x, i, (j - 1) as nat);
        assert(nexts(s, x, i + j) == s[nexts(s, x, (i + j - 1) as nat)].next as int);
    }
}

/// Two walks from `x` that meet after `i < j` steps meet again at `x`
/// after `j - i` steps: `next` is injective.
proof fn lemma_nexts_cancel(s: Seq<OutPt>, x: int, i: nat, j: nat)
    requires
        links_ok(s),
        0 <= x < s.len(),
        i < j,
        nexts(s, x, i) == nexts(s, x, j),
    ensures
        nexts(s, x, (j - i) as nat) == x,
    decreases i,
{
    if i > 0 {
        let a = nexts(s, x, (i - 1) as nat);
        let b = nexts(s, x, (j - 1) as nat);
        lemma_nexts_in_range(s, x, (i - 1) as nat);
        lemma_nexts_in_range(s, x, (j - 1) as nat);
        assert(s[a].next == s[b].next);
        assert(s[s[a].next as int].prev == a);
        assert(s[s[b].next as int].prev == b);
        lemma_nexts_cancel(s, x, (i - 1) as nat, (j - 1) as nat);
    }
}

/// Within `s.len()` steps the walk from `x` comes back to `x`.
pub proof fn lemma_walk_returns(s: Seq<OutPt>, x: int) -> (k: nat)
    requires
        links_ok(s),
        0 <= x < s.len(),
    ensures
        1 <= k <= s.len(),
        nexts(s, x, k) == x,
{
    let n = s.len();
    let walk = Seq::new(n + 1, |k: int| nexts(s, x, k as nat));
    if walk.no_duplicates() {
        walk.unique_seq_to_set();
        vstd::set_lib::lemma_int_range(0, n as int);
        assert forall|v: int| walk.to_set().contains(v) implies vstd::set_lib::set_int_range(
            0,
            n as int,
        ).contains(v) by {
            let k = choose|k: int| 0 <= k < walk.len() && walk[k] == v;
            lemma_nexts_in_range(s, x, k as nat);
        }
        vstd::set_lib::lemma_len_subset(walk.to_set(), vstd::set_lib::set_int_range(0, n as int));
        assert(false);
    }
    let (i, j) = choose|i: int, j: int|
        0 <= i < walk.len() && 0 <= j < walk.len() && i != j && walk[i] == walk[j];
    if i < j {
        lemma_nexts_cancel(s, x, i as nat, j as nat);
        (j - i) as nat
    } else {
        lemma_nexts_cancel(s, x, j as nat, i as nat);
        (i - j) as nat
    }
}

/// Among the steps `1..=k` that come back to `x`, the first.
proof fn lemma_first_return(s: Seq<OutPt>, x: int, k: nat) -> (m: nat)
    requires
        1 <= k,
        nexts(s, x, k) == x,
    ensures
        is_ring_len(s, x, m),
        m <= k,
    decreases k,
{
    if exists|j: nat| 1 <= j < k && nexts(s, x, j) == x {
        let j = choose|j: nat| 1 <= j < k && nexts(s, x, j) == x;
        lemma_first_return(s, x, j)
    } else {
        k
    }
}

/// The ring through `x` has between 1 and `s.len()` points, and its walk
/// first comes back after exactly that many steps.
pub proof fn lemma_ring_len(s: Seq<OutPt>, x: int)
    requires
        links_ok(s),
        0 <= x < s.len(),
    ensures
        is_ring_len(s, x, ring_len(s, x)),
        1 <= ring_len(s, x) <= s.len(),
{
    let k = lemma_walk_returns(s, x);
    let m = lemma_first_return(s, x, k);
    assert(is_ring_len(s, x, m));
    let r = ring_len(s, x);
    assert(is_ring_len(s, x, r));
    // the first return is unique
    if r < m {
        assert(nexts(s, x, r) != x);
    }
    if m < r {
        assert(nexts(s, x, m) != x);
    }
}


/// `p` with `next` replaced.
pub open spec fn set_next(p: OutPt, next: usize) -> OutPt {
    OutPt { idx: p.idx, pt: p.pt, next, prev: p.prev }
}

/// `p` with `prev` replaced.
pub open spec fn set_prev(p: OutPt, prev: usize) -> OutPt {
    OutPt { idx: p.idx, pt: p.pt, next: p.next, prev }
}

/// The arena `s` once a point `(idx, pt)` is linked in after `at`; the
/// new point takes the index `s.len()`.
pub open spec fn inserted_after(s: Seq<OutPt>, at: int, idx: i32, pt: IntPoint) -> Seq<OutPt> {
    let r = s.len() as usize;
    let n = s[at].next as int;
    let s1 = s.update(at, set_next(s[at], r));
    let s2 = s1.update(n, set_prev(s1[n], r));
    s2.push(OutPt { idx, pt, next: n as usize, prev: at as usize })
}

/// The arena `s` once a point `(idx, pt)` is linked in before `at`; the
/// new point takes the index `s.len()`.
pub open spec fn inserted_before(s: Seq<OutPt>, at: int, idx: i32, pt: IntPoint) -> Seq<OutPt> {
    let r = s.len() as usize;
    let p = s[at].prev as int;
    let s1 = s.update(at, set_prev(s[at], r));
    let s2 = s1.update(p, set_next(s1[p], r));
    s2.push(OutPt { idx, pt, next: at as usize, prev: p as usize })
}

/// The arena `s` once point `i` is taken out of its ring and left on a
/// ring of its own.
pub open spec fn unlinked(s: Seq<OutPt>, i: int) -> Seq<OutPt> {
    let p = s[i].prev as int;
    let n = s[i].next as int;
    let s1 = s.update(p, set_next(s[p], n as usize));
    let s2 = s1.update(n, set_prev(s1[n], p as usize));
    s2.update(i, OutPt { idx: s2[i].idx, pt: s2[i].pt, next: i as usize, prev: i as usize })
}

/// The arena `s` once the successors of `x` and `y` are exchanged: two
/// rings are joined into one, or one ring is cut in two.
pub open spec fn swapped_next(s: Seq<OutPt>, x: int, y: int) -> Seq<OutPt> {
    let xn = s[x].next as int;
    let yn = s[y].next as int;
    let s1 = s.update(x, set_next(s[x], yn as usize));
    let s2 = s1.update(y, set_next(s1[y], xn as usize));
    let s3 = s2.update(yn, set_prev(s2[yn], x as usize));
    s3.update(xn, set_prev(s3[xn], y as usize))
}

pub proof fn lemma_inserted_after_ok(s: Seq<OutPt>, at: int, idx: i32, pt: IntPoint)
    requires
        links_ok(s),
        0 <= at < s.len(),
        s.len() < usize::MAX,
    ensures
        links_ok(inserted_after(s, at, idx, pt)),
{
    let t = inserted_after(s, at, idx, pt);
    let r = s.len() as int;
    let n = s[at].next as int;
    assert(s[n].prev == at);
    assert forall|i: int| 0 <= i < t.len() implies {
        &&& (#[trigger] t[i]).next < t.len()
        &&& t[i].prev < t.len()
        &&& t[t[i].next as int].prev == i
        &&& t[t[i].prev as int].next == i
    } by {
        if i < r {
            assert(s[s[i].next as int].prev == i);
            assert(s[s[i].prev as int].next == i);
        }
    }
}

pub proof fn lemma_inserted_before_ok(s: Seq<OutPt>, at: int, idx: i32, pt: IntPoint)
    requires
        links_ok(s),
        0 <= at < s.len(),
        s.len() < usize::MAX,
    ensures
        links_ok(inserted_before(s, at, idx, pt)),
{
    let t = inserted_before(s, at, idx, pt);
    let r = s.len() as int;
    let p = s[at].prev as int;
    assert(s[p].next == at);
    assert forall|i: int| 0 <= i < t.len() implies {
        &&& (#[trigger] t[i]).next < t.len()
        &&& t[i].prev < t.len()
        &&& t[t[i].next as int].prev == i
        &&& t[t[i].prev as int].next == i
    } by {
        if i < r {
            assert(s[s[i].next as int].prev == i);
            assert(s[s[i].prev as int].next == i);
        }
    }
}

pub proof fn lemma_unlinked_fields(s: Seq<OutPt>, i0: int, i: int)
    requires
        0 <= i0 < s.len(),
        0 <= i < s.len(),
        0 <= s[i0].next < s.len(),
        0 <= s[i0].prev < s.len(),
    ensures
        unlinked(s, i0).len() == s.len(),
        unlinked(s, i0)[i].next == (if i == i0 {
            i0 as usize
        } else if i == s[i0].prev {
            s[i0].next
        } else {
            s[i].next
        }),
        unlinked(s, i0)[i].prev == (if i == i0 {
            i0 as usize
        } else if i == s[i0].next {
            s[i0].prev
        } else {
            s[i].prev
        }),
{
}

#[verifier::spinoff_prover]
#[verifier::rlimit(40)]
pub proof fn lemma_unlinked_ok(s: Seq<OutPt>, i0: int)
    requires
        links_ok(s),
        0 <= i0 < s.len(),
    ensures
        links_ok(unlinked(s, i0)),
{
    let t = unlinked(s, i0);
    let p = s[i0].prev as int;
    let n = s[i0].next as int;
    assert(s[p].next == i0);
    assert(s[n].prev == i0);
    assert forall|i: int| 0 <= i < t.len() implies {
        &&& (#[trigger] t[i]).next < t.len()
        &&& t[i].prev < t.len()
        &&& t[t[i].next as int].prev == i
        &&& t[t[i].prev as int].next == i
    } by {
        let ni = s[i].next as int;
        let pi = s[i].prev as int;
        assert(s[ni].prev == i);
        assert(s[pi].next == i);
        lemma_unlinked_fields(s, i0, i);
        lemma_unlinked_fields(s, i0, ni);
        lemma_unlinked_fields(s, i0, pi);
        lemma_unlinked_fields(s, i0, n);
        lemma_unlinked_fields(s, i0, p);
        lemma_unlinked_fields(s, i0, i0);
    }
}

pub proof fn lemma_swapped_fields(s: Seq<OutPt>, x: int, y: int, i: int)
    requires
        0 <= x < s.len(),
        0 <= y < s.len(),
        0 <= i < s.len(),
        0 <= s[x].next < s.len(),
        0 <= s[y].next < s.len(),
        x != y,
        s[x].next != s[y].next,
    ensures
        swapped_next(s, x, y).len() == s.len(),
        swapped_next(s, x, y)[i].next == (if i == x {
            s[y].next
        } else if i == y {
            s[x].next
        } else {
            s[i].next
        }),
        swapped_next(s, x, y)[i].prev == (if i == s[x].next {
            y as usize
        } else if i == s[y].next {
            x as usize
        } else {
            s[i].prev
        }),
{
}

#[verifier::spinoff_prover]
#[verifier::rlimit(40)]
pub proof fn lemma_swapped_next_ok(s: Seq<OutPt>, x: int, y: int)
    requires
        links_ok(s),
        0 <= x < s.len(),
        0 <= y < s.len(),
    ensures
        links_ok(swapped_next(s, x, y)),
{
    let t = swapped_next(s, x, y);
    let xn = s[x].next as int;
    let yn = s[y].next as int;
    assert(s[xn].prev == x);
    assert(s[yn].prev == y);
    if x == y {
        assert(t =~= s);
    } else {
        assert(xn != yn);
        assert forall|i: int| 0 <= i < t.len() implies {
            &&& (#[trigger] t[i]).next < t.len()
            &&& t[i].prev < t.len()
            &&& t[t[i].next as int].prev == i
            &&& t[t[i].prev as int].next == i
        } by {
            let n = s[i].next as int;
            let p = s[i].prev as int;
            assert(s[n].prev == i);
            assert(s[p].next == i);
            lemma_swapped_fields(s, x, y, i);
            lemma_swapped_fields(s, x, y, n);
            lemma_swapped_fields(s, x, y, p);
            lemma_swapped_fields(s, x, y, xn);
            lemma_swapped_fields(s, x, y, yn);
            lemma_swapped_fields(s, x, y, x);
            lemma_swapped_fields(s, x, y, y);
        }
    }
}

/// Point `i` lies on the ring through `x`.
pub open spec fn in_ring(s: Seq<OutPt>, x: int, i: int) -> bool {
    exists|k: nat| k < ring_len(s, x) && nexts(s, x, k) == i
}

/// `p` with its links turned around.
pub open spec fn flipped(p: OutPt) -> OutPt {
    OutPt { idx: p.idx, pt: p.pt, next: p.prev, prev: p.next }
}

/// The arena `s` with the ring through `x` turned around.
pub open spec fn reversed_ring(s: Seq<OutPt>, x: int) -> Seq<OutPt> {
    Seq::new(
        s.len(),
        |i: int|
            if in_ring(s, x, i) {
                flipped(s[i])
            } else {
                s[i]
            },
    )
}

/// The arena `s` with every point of the ring through `x` given the
/// record index `idx`.
pub open spec fn ring_with_idx(s: Seq<OutPt>, x: int, idx: i32) -> Seq<OutPt> {
    Seq::new(
        s.len(),
        |i: int|
            if in_ring(s, x, i) {
                OutPt { idx, pt: s[i].pt, next: s[i].next, prev: s[i].prev }
            } else {
                s[i]
            },
    )
}

/// The points of the ring through `x` are distinct along one lap.
pub proof fn lemma_ring_distinct(s: Seq<OutPt>, x: int, i: nat, j: nat)
    requires
        links_ok(s),
        0 <= x < s.len(),
        i < j < ring_len(s, x),
    ensures
        nexts(s, x, i) != nexts(s, x, j),
{
    lemma_ring_len(s, x);
    if nexts(s, x, i) == nexts(s, x, j) {
        lemma_nexts_cancel(s, x, i, j);
        assert(nexts(s, x, (j - i) as nat) != x);
    }
}

/// The ring through `x` is closed under `next` and `prev`, and so is the
/// rest of the arena.
pub proof fn lemma_ring_closed(s: Seq<OutPt>, x: int, i: int)
    requires
        links_ok(s),
        0 <= x < s.len(),
        0 <= i < s.len(),
    ensures
        in_ring(s, x, i) ==> in_ring(s, x, s[i].next as int) && in_ring(s, x, s[i].prev as int),
        in_ring(s, x, s[i].next as int) ==> in_ring(s, x, i),
        in_ring(s, x, s[i].prev as int) ==> in_ring(s, x, i),
{
    lemma_ring_len(s, x);
    let l = ring_len(s, x);
    assert(nexts(s, x, 0) == x);
    if in_ring(s, x, i) {
        let k = choose|k: nat| k < l && nexts(s, x, k) == i;
        assert(nexts(s, x, k + 1) == s[i].next);
        if k + 1 == l {
            assert(nexts(s, x, 0) == s[i].next);
        } else {
            assert(nexts(s, x, k + 1) == s[i].next);
        }
        if k == 0 {
            lemma_nexts_in_range(s, x, (l - 1) as nat);
            let q = nexts(s, x, (l - 1) as nat);
            assert(s[q].next == x);
            assert(s[s[q].next as int].prev == q);
            assert(nexts(s, x, (l - 1) as nat) == s[i].prev);
        } else {
            lemma_nexts_in_range(s, x, (k - 1) as nat);
            let q = nexts(s, x, (k - 1) as nat);
            assert(s[q].next == i);
            assert(s[s[q].next as int].prev == q);
            assert(nexts(s, x, (k - 1) as nat) == s[i].prev);
        }
    }
    let n = s[i].next as int;
    let p = s[i].prev as int;
    assert(s[n].prev == i);
    assert(s[p].next == i);
    if in_ring(s, x, n) {
        let k = choose|k: nat| k < l && nexts(s, x, k) == n;
        if k == 0 {
            lemma_nexts_in_range(s, x, (l - 1) as nat);
            let q = nexts(s, x, (l - 1) as nat);
            assert(s[q].next == x);
            assert(s[s[q].next as int].prev == q);
            assert(nexts(s, x, (l - 1) as nat) == i);
        } else {
            lemma_nexts_in_range(s, x, (k - 1) as nat);
            let q = nexts(s, x, (k - 1) as nat);
            assert(s[q].next == n);
            assert(s[s[q].next as int].prev == q);
            assert(nexts(s, x, (k - 1) as nat) == i);
        }
    }
    if in_ring(s, x, p) {
        let k = choose|k: nat| k < l && nexts(s, x, k) == p;
        assert(nexts(s, x, k + 1) == i);
        if k + 1 == l {
            assert(nexts(s, x, 0) == i);
        }
    }
}

proof fn lemma_reversed_ring_ok(s: Seq<OutPt>, x: int)
    requires
        links_ok(s),
        0 <= x < s.len(),
    ensures
        links_ok(reversed_ring(s, x)),
{
    let t = reversed_ring(s, x);
    assert forall|i: int| 0 <= i < t.len() implies {
        &&& (#[trigger] t[i]).next < t.len()
        &&& t[i].prev < t.len()
        &&& t[t[i].next as int].prev == i
        &&& t[t[i].prev as int].next == i
    } by {
        let n = s[i].next as int;
        let p = s[i].prev as int;
        assert(s[n].prev == i);
        assert(s[p].next == i);
        lemma_ring_closed(s, x, i);
        lemma_ring_closed(s, x, n);
        lemma_ring_closed(s, x, p);
    }
}

pub(crate) proof fn lemma_ring_with_idx_ok(s: Seq<OutPt>, x: int, idx: i32)
    requires
        links_ok(s),
        0 <= x < s.len(),
    ensures
        links_ok(ring_with_idx(s, x, idx)),
{
    let t = ring_with_idx(s, x, idx);
    assert forall|i: int| 0 <= i < t.len() implies {
        &&& (#[trigger] t[i]).next < t.len()
        &&& t[i].prev < t.len()
        &&& t[t[i].next as int].prev == i
        &&& t[t[i].prev as int].next == i
    } by {
        let n = s[i].next as int;
        let p = s[i].prev as int;
        assert(s[n].prev == i);
        assert(s[p].next == i);
    }
}

impl OutPtArena {
    /// The points of the arena.
    pub closed spec fn nodes(&self) -> Seq<OutPt> {
        self.pts@
    }

    /// Every value of the type has mutually inverse links.
    #[verifier::type_invariant]
    spec fn inv(self) -> bool {
        links_ok(self.pts@)
    }

    /// An empty arena.
    pub fn new() -> (r: Self)
        ensures
            r.nodes().len() == 0,
    {
        OutPtArena { pts: Vec::new() }
    }

    /// Drops every point.
    pub fn clear(&mut self)
        ensures
            final(self).nodes().len() == 0,
    {
        self.pts = Vec::new();
    }

    /// Number of points in the arena; its links are mutually inverse.
    pub fn len(&self) -> (r: usize)
        ensures
            r == self.nodes().len(),
            links_ok(self.nodes()),
    {
        proof {
            use_type_invariant(self);
        }
        self.pts.len()
    }

    /// Point `i`.
    pub fn get(&self, i: usize) -> (r: OutPt)
        requires
            i < self.nodes().len(),
        ensures
            r == self.nodes()[i as int],
            r.next < self.nodes().len(),
            r.prev < self.nodes().len(),
            links_ok(self.nodes()),
    {
        proof {
            use_type_invariant(self);
        }
        self.pts[i]
    }

    /// Adds the point `(idx, pt)` on a ring of its own and returns its
    /// index.
    pub fn new_ring(&mut self, idx: i32, pt: IntPoint) -> (r: usize)
        requires
            old(self).nodes().len() < usize::MAX,
        ensures
            r == old(self).nodes().len(),
            final(self).nodes() == old(self).nodes().push(OutPt { idx, pt, next: r, prev: r }),
    {
        proof {
            use_type_invariant(&*self);
        }
        let r = self.pts.len();
        let mut pts: Vec<OutPt> = Vec::new();
        std::mem::swap(&mut pts, &mut self.pts);
        let ghost s = pts@;
        pts.push(OutPt { idx, pt, next: r, prev: r });
        assert forall|i: int| 0 <= i < pts@.len() implies {
            &&& (#[trigger] pts@[i]).next < pts@.len()
            &&& pts@[i].prev < pts@.len()
            &&& pts@[pts@[i].next as int].prev == i
            &&& pts@[pts@[i].prev as int].next == i
        } by {
            if i < r {
                assert(s[s[i].next as int].prev == i);
                assert(s[s[i].prev as int].next == i);
            }
        }
        self.pts = pts;
        r
    }

    /// Links the point `(idx, pt)` in after point `at` and returns its
    /// index.
    pub fn insert_after(&mut self, at: usize, idx: i32, pt: IntPoint) -> (r: usize)
        requires
            at < old(self).nodes().len(),
            old(self).nodes().len() < usize::MAX,
        ensures
            r == old(self).nodes().len(),
            final(self).nodes() == inserted_after(old(self).nodes(), at as int, idx, pt),
    {
        proof {
            use_type_invariant(&*self);
        }
        let r = self.pts.len();
        let mut pts: Vec<OutPt> = Vec::new();
        std::mem::swap(&mut pts, &mut self.pts);
        let ghost s = pts@;
        let n = pts[at].next;
        let a = pts[at];
        pts.set(at, OutPt { idx: a.idx, pt: a.pt, next: r, prev: a.prev });
        let b = pts[n];
        pts.set(n, OutPt { idx: b.idx, pt: b.pt, next: b.next, prev: r });
        pts.push(OutPt { idx, pt, next: n, prev: at });
        proof {
            lemma_inserted_after_ok(s, at as int, idx, pt);
            assert(pts@ =~= inserted_after(s, at as int, idx, pt));
        }
        self.pts = pts;
        r
    }

    /// Links the point `(idx, pt)` in before point `at` and returns its
    /// index.
    pub fn insert_before(&mut self, at: usize, idx: i32, pt: IntPoint) -> (r: usize)
        requires
            at < old(self).nodes().len(),
            old(self).nodes().len() < usize::MAX,
        ensures
            r == old(self).nodes().len(),
            final(self).nodes() == inserted_before(old(self).nodes(), at as int, idx, pt),
    {
        proof {
            use_type_invariant(&*self);
        }
        let r = self.pts.len();
        let mut pts: Vec<OutPt> = Vec::new();
        std::mem::swap(&mut pts, &mut self.pts);
        let ghost s = pts@;
        let p = pts[at].prev;
        let a = pts[at];
        pts.set(at, OutPt { idx: a.idx, pt: a.pt, next: a.next, prev: r });
        let b = pts[p];
        pts.set(p, OutPt { idx: b.idx, pt: b.pt, next: r, prev: b.prev });
        pts.push(OutPt { idx, pt, next: at, prev: p });
        proof {
            lemma_inserted_before_ok(s, at as int, idx, pt);
            assert(pts@ =~= inserted_before(s, at as int, idx, pt));
        }
        self.pts = pts;
        r
    }

    /// Takes point `i` out of its ring, leaving it on a ring of its own;
    /// returns its former predecessor.
    pub fn unlink(&mut self, i: usize) -> (r: usize)
        requires
            i < old(self).nodes().len(),
        ensures
            r == old(self).nodes()[i as int].prev,
            final(self).nodes() == unlinked(old(self).nodes(), i as int),
    {
        proof {
            use_type_invariant(&*self);
        }
        let mut pts: Vec<OutPt> = Vec::new();
        std::mem::swap(&mut pts, &mut self.pts);
        let ghost s = pts@;
        let p = pts[i].prev;
        let n = pts[i].next;
        let a = pts[p];
        pts.set(p, OutPt { idx: a.idx, pt: a.pt, next: n, prev: a.prev });
        let b = pts[n];
        pts.set(n, OutPt { idx: b.idx, pt: b.pt, next: b.next, prev: p });
        let c = pts[i];
        pts.set(i, OutPt { idx: c.idx, pt: c.pt, next: i, prev: i });
        proof {
            lemma_unlinked_ok(s, i as int);
            assert(pts@ =~= unlinked(s, i as int));
        }
        self.pts = pts;
        p
    }

    /// Exchanges the successors of points `x` and `y`: joins their rings
    /// when they differ, cuts their ring in two when they share one.
    pub fn swap_next(&mut self, x: usize, y: usize)
        requires
            x < old(self).nodes().len(),
            y < old(self).nodes().len(),
        ensures
            final(self).nodes() == swapped_next(old(self).nodes(), x as int, y as int),
    {
        proof {
            use_type_invariant(&*self);
        }
        let mut pts: Vec<OutPt> = Vec::new();
        std::mem::swap(&mut pts, &mut self.pts);
        let ghost s = pts@;
        let xn = pts[x].next;
        let yn = pts[y].next;
        let a = pts[x];
        pts.set(x, OutPt { idx: a.idx, pt: a.pt, next: yn, prev: a.prev });
        let b = pts[y];
        pts.set(y, OutPt { idx: b.idx, pt: b.pt, next: xn, prev: b.prev });
        let c = pts[yn];
        pts.set(yn, OutPt { idx: c.idx, pt: c.pt, next: c.next, prev: x });
        let d = pts[xn];
        pts.set(xn, OutPt { idx: d.idx, pt: d.pt, next: d.next, prev: y });
        proof {
            lemma_swapped_next_ok(s, x as int, y as int);
            assert(pts@ =~= swapped_next(s, x as int, y as int));
        }
        self.pts = pts;
    }

    /// Moves point `i` to `pt`.
    pub fn set_pt(&mut self, i: usize, pt: IntPoint)
        requires
            i < old(self).nodes().len(),
        ensures
            final(self).nodes() == old(self).nodes().update(
                i as int,
                OutPt {
                    idx: old(self).nodes()[i as int].idx,
                    pt,
                    next: old(self).nodes()[i as int].next,
                    prev: old(self).nodes()[i as int].prev,
                },
            ),
    {
        proof {
            use_type_invariant(&*self);
        }
        let mut pts: Vec<OutPt> = Vec::new();
        std::mem::swap(&mut pts, &mut self.pts);
        let ghost s = pts@;
        let a = pts[i];
        pts.set(i, OutPt { idx: a.idx, pt, next: a.next, prev: a.prev });
        assert forall|j: int| 0 <= j < pts@.len() implies {
            &&& (#[trigger] pts@[j]).next < pts@.len()
            &&& pts@[j].prev < pts@.len()
            &&& pts@[pts@[j].next as int].prev == j
            &&& pts@[pts@[j].prev as int].next == j
        } by {
            assert(s[s[j].next as int].prev == j);
            assert(s[s[j].prev as int].next == j);
        }
        self.pts = pts;
    }

    /// Records point `i` as belonging to output record `idx`.
    pub fn set_idx(&mut self, i: usize, idx: i32)
        requires
            i < old(self).nodes().len(),
        ensures
            final(self).nodes() == old(self).nodes().update(
                i as int,
                OutPt {
                    idx,
                    pt: old(self).nodes()[i as int].pt,
                    next: old(self).nodes()[i as int].next,
                    prev: old(self).nodes()[i as int].prev,
                },
            ),
    {
        proof {
            use_type_invariant(&*self);
        }
        let mut pts: Vec<OutPt> = Vec::new();
        std::mem::swap(&mut pts, &mut self.pts);
        let ghost s = pts@;
        let a = pts[i];
        pts.set(i, OutPt { idx, pt: a.pt, next: a.next, prev: a.prev });
        assert forall|j: int| 0 <= j < pts@.len() implies {
            &&& (#[trigger] pts@[j]).next < pts@.len()
            &&& pts@[j].prev < pts@.len()
            &&& pts@[pts@[j].next as int].prev == j
            &&& pts@[pts@[j].prev as int].next == j
        } by {
            assert(s[s[j].next as int].prev == j);
            assert(s[s[j].prev as int].next == j);
        }
        self.pts = pts;
    }

    /// Number of points of the ring through `start`.
    pub fn ring_len(&self, start: usize) -> (r: usize)
        requires
            start < self.nodes().len(),
        ensures
            r == ring_len(self.nodes(), start as int),
    {
        proof {
            use_type_invariant(self);
            lemma_ring_len(self.pts@, start as int);
        }
        let ghost s = self.pts@;
        let ghost l = ring_len(s, start as int);
        let n = self.pts.len();
        let mut cur = self.pts[start].next;
        let mut k: usize = 1;
        assert(nexts(s, start as int, 0) == start);
        while cur != start
            invariant
                s == self.pts@,
                n == s.len(),
                links_ok(s),
                start < s.len(),
                is_ring_len(s, start as int, l),
                l <= s.len(),
                1 <= k <= l,
                cur == nexts(s, start as int, k as nat),
            decreases l - k,
        {
            proof {
                lemma_nexts_in_range(s, start as int, k as nat);
                if k == l {
                    assert(nexts(s, start as int, l) == start);
                }
            }
            cur = self.pts[cur].next;
            k += 1;
        }
        k
    }

    /// Turns the ring through `start` around: every point's `next` and
    /// `prev` are exchanged.
    pub fn reverse_ring(&mut self, start: usize)
        requires
            start < old(self).nodes().len(),
        ensures
            final(self).nodes() == reversed_ring(old(self).nodes(), start as int),
    {
        proof {
            use_type_invariant(&*self);
            lemma_ring_len(self.pts@, start as int);
        }
        let l = self.ring_len(start);
        let mut pts: Vec<OutPt> = Vec::new();
        std::mem::swap(&mut pts, &mut self.pts);
        let ghost s = pts@;
        let mut cur = start;
        let mut k: usize = 0;
        while k < l
            invariant
                links_ok(s),
                start < s.len(),
                l == ring_len(s, start as int),
                is_ring_len(s, start as int, l as nat),
                l <= s.len(),
                k <= l,
                cur == nexts(s, start as int, k as nat),
                pts@.len() == s.len(),
                forall|j: nat| j < k ==> #[trigger] pts@[nexts(s, start as int, j)] == flipped(
                    s[nexts(s, start as int, j)],
                ),
                forall|i: int|
                    0 <= i < s.len() && (forall|j: nat| j < k ==> nexts(s, start as int, j) != i)
                        ==> #[trigger] pts@[i] == s[i],
            decreases l - k,
        {
            proof {
                lemma_nexts_in_range(s, start as int, k as nat);
                assert forall|j: nat| j < k implies nexts(s, start as int, j) != cur by {
                    lemma_ring_distinct(s, start as int, j, k as nat);
                }
            }
            let c = cur;
            let p = pts[c];
            assert(p == s[c as int]);
            pts.set(c, OutPt { idx: p.idx, pt: p.pt, next: p.prev, prev: p.next });
            assert(pts@[c as int] == flipped(s[c as int]));
            let ghost old_k = k;
            cur = p.next;
            k += 1;
            proof {
                assert(nexts(s, start as int, k as nat) == cur);
                assert forall|j: nat| j < k implies #[trigger] pts@[nexts(s, start as int, j)]
                    == flipped(s[nexts(s, start as int, j)]) by {
                    lemma_nexts_in_range(s, start as int, j);
                    if j < old_k {
                        lemma_ring_distinct(s, start as int, j, old_k as nat);
                    } else {
                        assert(nexts(s, start as int, j) == c);
                    }
                }
                assert forall|i: int|
                    0 <= i < s.len() && (forall|j: nat| j < k ==> nexts(s, start as int, j) != i)
                        implies #[trigger] pts@[i] == s[i] by {
                    assert(nexts(s, start as int, old_k as nat) != i);
                    assert forall|j: nat| j < old_k implies nexts(s, start as int, j) != i by {}
                }
            }
        }
        proof {
            assert(pts@ =~= reversed_ring(s, start as int)) by {
                assert forall|i: int| 0 <= i < s.len() implies pts@[i] == reversed_ring(
                    s,
                    start as int,
                )[i] by {
                    if in_ring(s, start as int, i) {
                        let j = choose|j: nat| j < l && nexts(s, start as int, j) == i;
                        assert(pts@[nexts(s, start as int, j)] == flipped(
                            s[nexts(s, start as int, j)],
                        ));
                    } else {
                        assert forall|j: nat| j < k implies nexts(s, start as int, j) != i by {}
                    }
                }
            }
            lemma_reversed_ring_ok(s, start as int);
        }
        self.pts = pts;
    }

    /// Gives every point of the ring through `start` the record index
    /// `idx`.
    pub fn set_ring_idx(&mut self, start: usize, idx: i32)
        requires
            start < old(self).nodes().len(),
        ensures
            final(self).nodes() == ring_with_idx(old(self).nodes(), start as int, idx),
    {
        proof {
            use_type_invariant(&*self);
            lemma_ring_len(self.pts@, start as int);
        }
        let l = self.ring_len(start);
        let mut pts: Vec<OutPt> = Vec::new();
        std::mem::swap(&mut pts, &mut self.pts);
        let ghost s = pts@;
        let mut cur = start;
        let mut k: usize = 0;
        while k < l
            invariant
                links_ok(s),
                start < s.len(),
                l == ring_len(s, start as int),
                is_ring_len(s, start as int, l as nat),
                l <= s.len(),
                k <= l,
                cur == nexts(s, start as int, k as nat),
                pts@.len() == s.len(),
                forall|j: nat| j < k ==> #[trigger] pts@[nexts(s, start as int, j)] == (OutPt {
                    idx,
                    pt: s[nexts(s, start as int, j)].pt,
                    next: s[nexts(s, start as int, j)].next,
                    prev: s[nexts(s, start as int, j)].prev,
                }),
                forall|i: int|
                    0 <= i < s.len() && (forall|j: nat| j < k ==> nexts(s, start as int, j) != i)
                        ==> #[trigger] pts@[i] == s[i],
            decreases l - k,
        {
            proof {
                lemma_nexts_in_range(s, start as int, k as nat);
                assert forall|j: nat| j < k implies nexts(s, start as int, j) != cur by {
                    lemma_ring_distinct(s, start as int, j, k as nat);
                }
            }
            let c = cur;
            let p = pts[c];
            assert(p == s[c as int]);
            pts.set(c, OutPt { idx, pt: p.pt, next: p.next, prev: p.prev });
            let ghost old_k = k;
            cur = p.next;
            k += 1;
            proof {
                assert(nexts(s, start as int, k as nat) == cur);
                assert forall|i: int|
                    0 <= i < s.len() && (forall|j: nat| j < k ==> nexts(s, start as int, j) != i)
                        implies #[trigger] pts@[i] == s[i] by {
                    assert(nexts(s, start as int, old_k as nat) != i);
                    assert forall|j: nat| j < old_k implies nexts(s, start as int, j) != i by {}
                }
                assert forall|j: nat| j < k implies #[trigger] pts@[nexts(s, start as int, j)]
                    == (OutPt {
                    idx,
                    pt: s[nexts(s, start as int, j)].pt,
                    next: s[nexts(s, start as int, j)].next,
                    prev: s[nexts(s, start as int, j)].prev,
                }) by {
                    lemma_nexts_in_range(s, start as int, j);
                    if j < old_k {
                        lemma_ring_distinct(s, start as int, j, old_k as nat);
                    } else {
                        assert(nexts(s, start as int, j) == c);
                    }
                }
            }
        }
        proof {
            assert(pts@ =~= ring_with_idx(s, start as int, idx)) by {
                assert forall|i: int| 0 <= i < s.len() implies pts@[i] == ring_with_idx(
                    s,
                    start as int,
                    idx,
                )[i] by {
                    if in_ring(s, start as int, i) {
                        let j = choose|j: nat| j < l && nexts(s, start as int, j) == i;
                        assert(pts@[nexts(s, start as int, j)] == (OutPt {
                            idx,
                            pt: s[nexts(s, start as int, j)].pt,
                            next: s[nexts(s, start as int, j)].next,
                            prev: s[nexts(s, start as int, j)].prev,
                        }));
                    } else {
                        assert forall|j: nat| j < k implies nexts(s, start as int, j) != i by {}
                    }
                }
            }
            lemma_ring_with_idx_ok(s, start as int, idx);
        }
        self.pts = pts;
    }

    /// The points of the ring through `start`, walking `prev` from `start`.
    pub fn ring_points_backwards(&self, start: usize) -> (r: Vec<IntPoint>)
        requires
            start < self.nodes().len(),
        ensures
            r@.len() == ring_len(self.nodes(), start as int),
            forall|k: int|
                0 <= k < r@.len() ==> #[trigger] r@[k] == self.nodes()[prevs(
                    self.nodes(),
                    start as int,
                    k as nat,
                )].pt,
    {
        proof {
            use_type_invariant(self);
        }
        let ghost s = self.pts@;
        let l = self.ring_len(start);
        let mut r: Vec<IntPoint> = Vec::new();
        let mut cur = start;
        let mut k: usize = 0;
        while k < l
            invariant
                s == self.pts@,
                links_ok(s),
                start < s.len(),
                k <= l,
                cur == prevs(s, start as int, k as nat),
                r@.len() == k,
                forall|j: int| 0 <= j < k ==> #[trigger] r@[j] == s[prevs(s, start as int, j as nat)].pt,
            decreases l - k,
        {
            proof {
                lemma_prevs_in_range(s, start as int, k as nat);
            }
            r.push(self.pts[cur].pt);
            cur = self.pts[cur].prev;
            k += 1;
        }
        r
    }


    /// Links a copy of point `at` (same record index and coordinates) in
    /// after it, or before it, and returns the copy's index.
    pub fn dup(&mut self, at: usize, insert_after: bool) -> (r: usize)
        requires
            at < old(self).nodes().len(),
            old(self).nodes().len() < usize::MAX,
        ensures
            r == old(self).nodes().len(),
            final(self).nodes() == if insert_after {
                inserted_after(
                    old(self).nodes(),
                    at as int,
                    old(self).nodes()[at as int].idx,
                    old(self).nodes()[at as int].pt,
                )
            } else {
                inserted_before(
                    old(self).nodes(),
                    at as int,
                    old(self).nodes()[at as int].idx,
                    old(self).nodes()[at as int].pt,
                )
            },
    {
        let p = self.get(at);
        if insert_after {
            self.insert_after(at, p.idx, p.pt)
        } else {
            self.insert_before(at, p.idx, p.pt)
        }
    }
}

} // verus!
