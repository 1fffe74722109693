//! The walk that lays out one bound of a local minimum: from its first
//! edge it climbs the edges of the path's ring in one direction, links them
//! through `next_in_lml`, turns horizontal edges to run the way the bound
//! does, and returns the edge after the bound. Open paths mark their
//! closing edge `SKIP`; a bound starting there begins a local minimum of its
//! own further on.
use vstd::prelude::*;

use crate::types::{IntPoint, SKIP};

verus! {

/// An edge of a path's ring, as the bound walk sees it: its bottom and top
/// points, the path's vertex it starts from (`curr`), its neighbours on the
/// ring, the next edge of its bound, its
/// output index (`SKIP` for the closing edge of an open path) and its
/// winding delta.
#[derive(Debug, Clone, Copy, PartialEq, Eq, Structural)]
pub struct BoundEdge {
    pub bot: IntPoint,
    pub top: IntPoint,
    pub curr: IntPoint,
    pub next: usize,
    pub prev: usize,
    pub next_in_lml: Option<usize>,
    pub out_idx: i32,
    pub wind_delta: i32,
}

/// Every edge's neighbours are edges of `es`.
pub open spec fn ring_links_ok(es: Seq<BoundEdge>) -> bool {
    forall|i: int| 0 <= i < es.len() ==> (#[trigger] es[i]).next < es.len() && es[i].prev < es.len()
}

/// The neighbour of edge `x` in the walk's direction.
pub open spec fn ahead(es: Seq<BoundEdge>, x: int, fwd: bool) -> int {
    if fwd {
        es[x].next as int
    } else {
        es[x].prev as int
    }
}

/// The neighbour of edge `x` against the walk's direction.
pub open spec fn behind(es: Seq<BoundEdge>, x: int, fwd: bool) -> int {
    if fwd {
        es[x].prev as int
    } else {
        es[x].next as int
    }
}

/// The edge is horizontal.
pub open spec fn horizontal(e: BoundEdge) -> bool {
    e.bot.y == e.top.y
}

/// The edge with the x coordinates of its ends exchanged.
pub open spec fn turned(e: BoundEdge) -> BoundEdge {
    BoundEdge {
        bot: IntPoint { x: e.top.x, y: e.bot.y },
        top: IntPoint { x: e.bot.x, y: e.top.y },
        ..e
    }
}

/// From `x`, the first edge whose top is not the bottom of the edge ahead
/// (with `kept`, or whose edge ahead is `SKIP`), taking at most `fuel`
/// steps; `None` when more are needed.
pub open spec fn climb(es: Seq<BoundEdge>, x: int, fwd: bool, kept: bool, fuel: nat) -> Option<int>
    decreases fuel,
{
    if es[x].top.y == es[ahead(es, x, fwd)].bot.y && (!kept || es[ahead(es, x, fwd)].out_idx
        != SKIP) {
        if fuel == 0 {
            None
        } else {
            climb(es, ahead(es, x, fwd), fwd, kept, (fuel - 1) as nat)
        }
    } else {
        Some(x)
    }
}

/// From `x`, back against the walk's direction while the edge is
/// horizontal and not `stop`, taking at most `fuel` steps.
pub open spec fn back_off(es: Seq<BoundEdge>, x: int, stop: int, fwd: bool, fuel: nat) -> Option<
    int,
>
    decreases fuel,
{
    if x != stop && horizontal(es[x]) {
        if fuel == 0 {
            None
        } else {
            back_off(es, behind(es, x, fwd), stop, fwd, (fuel - 1) as nat)
        }
    } else {
        Some(x)
    }
}

/// From `x`, back against the walk's direction while the edge behind is
/// horizontal, taking at most `fuel` steps.
pub open spec fn horz_first(es: Seq<BoundEdge>, x: int, fwd: bool, fuel: nat) -> Option<int>
    decreases fuel,
{
    if horizontal(es[behind(es, x, fwd)]) {
        if fuel == 0 {
            None
        } else {
            horz_first(es, behind(es, x, fwd), fwd, (fuel - 1) as nat)
        }
    } else {
        Some(x)
    }
}

/// Edge `x` once laid on its bound: a horizontal edge other than the
/// bound's first is turned when its bottom is not where the edge behind
/// ends.
pub open spec fn laid(es: Seq<BoundEdge>, x: int, first: int, fwd: bool) -> Seq<BoundEdge> {
    if horizontal(es[x]) && x != first && es[x].bot.x != es[behind(es, x, fwd)].top.x {
        es.update(x, turned(es[x]))
    } else {
        es
    }
}

/// From `x` up to `last`, each edge linked to the edge ahead and laid on
/// the bound, taking at most `fuel` steps; then `last` is laid too.
pub open spec fn link_bound(
    es: Seq<BoundEdge>,
    x: int,
    first: int,
    last: int,
    fwd: bool,
    fuel: nat,
) -> Option<Seq<BoundEdge>>
    decreases fuel,
{
    if x != last {
        if fuel == 0 {
            None
        } else {
            let es1 = es.update(x, BoundEdge { next_in_lml: Some(ahead(es, x, fwd) as usize), ..es[x] });
            link_bound(laid(es1, x, first, fwd), ahead(es, x, fwd), first, last, fwd, (fuel - 1) as nat)
        }
    } else {
        Some(laid(es, x, first, fwd))
    }
}

/// The first edge `e` of a bound, turned when it is horizontal and its
/// bottom does not meet the edge behind.
pub open spec fn start_fixed(es: Seq<BoundEdge>, e: int, fwd: bool) -> Seq<BoundEdge> {
    let b = es[behind(es, e, fwd)];
    if horizontal(es[e]) && ((horizontal(b) && b.bot.x != es[e].bot.x && b.top.x != es[e].bot.x)
        || (!horizontal(b) && b.bot.x != es[e].bot.x)) {
        es.update(e, turned(es[e]))
    } else {
        es
    }
}

/// The last edge of the bound starting at `e`: the climb's end `rc`, or,
/// when `rc` is horizontal and not before `SKIP`, the edge before its run
/// of horizontals (found by `horz_first` as `h`) when that edge reaches
/// further than the edge after `rc` (or as far, walking backwards).
pub open spec fn bound_last(es: Seq<BoundEdge>, rc: int, h: int, fwd: bool) -> int {
    let p = behind(es, h, fwd);
    let q = ahead(es, rc, fwd);
    if if fwd {
        es[p].top.x > es[q].top.x
    } else {
        es[p].top.x >= es[q].top.x
    } {
        p
    } else {
        rc
    }
}

/// The bound walk from edge `e` in direction `fwd` (forward along `next`
/// when set), with the local minima found so far, each as its bottom `y`
/// and its right bound: the edges, the minima and the edge returned, or
/// `None` when a walk along the ring takes more than `es.len()` steps
/// (it never ends then) or `depth` starts from `SKIP` edges do not
/// suffice.
///
/// From a `SKIP` edge: climb from `e`, and back off over horizontal edges;
/// back at `e`, the result is the edge ahead of `e`; else the edge ahead
/// of `e` starts a local minimum of its own with no left bound and a zero
/// winding delta, is walked, and its minimum is added after those its walk
/// adds. From another edge: fix the first edge (`start_fixed`), climb to
/// the last edge (`bound_last`), link and lay the edges from the first to
/// the last (`link_bound`), and return the edge after the last.
pub open spec fn bound_walk(
    es: Seq<BoundEdge>,
    minima: Seq<(i64, usize)>,
    e: int,
    fwd: bool,
    depth: nat,
) -> Option<(Seq<BoundEdge>, Seq<(i64, usize)>, int)>
    decreases depth,
{
    let n = es.len();
    if depth == 0 {
        None
    } else if es[e].out_idx == SKIP {
        match climb(es, e, fwd, false, n) {
            None => None,
            Some(e1) => match back_off(es, e1, e, fwd, n) {
                None => None,
                Some(e2) => if e2 == e {
                    Some((es, minima, ahead(es, e, fwd)))
                } else {
                    let e3 = ahead(es, e, fwd);
                    let es1 = es.update(e3, BoundEdge { wind_delta: 0, ..es[e3] });
                    match bound_walk(es1, minima, e3, fwd, (depth - 1) as nat) {
                        None => None,
                        Some((es2, m2, r)) => Some((es2, m2.push((es[e3].bot.y, e3 as usize)), r)),
                    }
                },
            },
        }
    } else {
        let es1 = start_fixed(es, e, fwd);
        match climb(es1, e, fwd, true, n) {
            None => None,
            Some(rc) => {
                let last = if horizontal(es1[rc]) && es1[ahead(es1, rc, fwd)].out_idx != SKIP {
                    match horz_first(es1, rc, fwd, n) {
                        None => None,
                        Some(h) => Some(bound_last(es1, rc, h, fwd)),
                    }
                } else {
                    Some(rc)
                };
                match last {
                    None => None,
                    Some(l) => match link_bound(es1, e, e, l, fwd, n) {
                        None => None,
                        Some(es2) => Some((es2, minima, ahead(es2, l, fwd))),
                    },
                }
            },
        }
    }
}

/// `r` as a value of `Option<int>`.
pub open spec fn as_int(r: Option<usize>) -> Option<int> {
    match r {
        Some(v) => Some(v as int),
        None => None,
    }
}

/// Every edge of `b` that differs from the same edge of `a` is listed in
/// `touched`.
pub open spec fn changes_listed(a: Seq<BoundEdge>, b: Seq<BoundEdge>, touched: Seq<usize>) -> bool {
    &&& b.len() == a.len()
    &&& forall|i: int| 0 <= i < a.len() && b[i] != a[i] ==> touched.contains(i as usize)
}

/// Listing more keeps the changes listed.
proof fn lemma_listed_more(a: Seq<BoundEdge>, b: Seq<BoundEdge>, t: Seq<usize>, u: Seq<usize>)
    requires
        changes_listed(a, b, t),
        forall|k: int| 0 <= k < t.len() ==> u.contains(#[trigger] t[k]),
    ensures
        changes_listed(a, b, u),
{
    assert forall|i: int| 0 <= i < a.len() && b[i] != a[i] implies u.contains(i as usize) by {
        let k = choose|k: int| 0 <= k < t.len() && t[k] == i as usize;
        assert(u.contains(t[k]));
    }
}

/// Changes listed in two steps are listed.
proof fn lemma_listed_trans(
    a: Seq<BoundEdge>,
    b: Seq<BoundEdge>,
    c: Seq<BoundEdge>,
    t: Seq<usize>,
    u: Seq<usize>,
)
    requires
        changes_listed(a, b, t),
        changes_listed(b, c, u),
        forall|k: int| 0 <= k < t.len() ==> u.contains(#[trigger] t[k]),
    ensures
        changes_listed(a, c, u),
{
    assert forall|i: int| 0 <= i < a.len() && c[i] != a[i] implies u.contains(i as usize) by {
        if b[i] != a[i] {
            let k = choose|k: int| 0 <= k < t.len() && t[k] == i as usize;
            assert(u.contains(t[k]));
        }
    }
}

/// Sets edge `i` to `v` and lists it.
fn set_listed(es: &mut Vec<BoundEdge>, i: usize, v: BoundEdge, touched: &mut Vec<usize>)
    requires
        i < old(es)@.len(),
    ensures
        final(es)@ == old(es)@.update(i as int, v),
        final(touched)@ == old(touched)@.push(i),
        changes_listed(old(es)@, final(es)@, final(touched)@),
        forall|k: int| 0 <= k < old(touched)@.len() ==> final(touched)@.contains(#[trigger] old(touched)@[k]),
{
    es.set(i, v);
    touched.push(i);
    assert(final(touched)@[old(touched)@.len() as int] == i);
    assert forall|k: int| 0 <= k < old(touched)@.len() implies final(touched)@.contains(
        #[trigger] old(touched)@[k],
    ) by {
        assert(final(touched)@[k] == old(touched)@[k]);
    }
}

/// The neighbour ahead (see `ahead`).
fn ahead_of(es: &Vec<BoundEdge>, x: usize, fwd: bool) -> (r: usize)
    requires
        ring_links_ok(es@),
        x < es@.len(),
    ensures
        r as int == ahead(es@, x as int, fwd),
        r < es@.len(),
{
    if fwd {
        es[x].next
    } else {
        es[x].prev
    }
}

/// The neighbour behind (see `behind`).
fn behind_of(es: &Vec<BoundEdge>, x: usize, fwd: bool) -> (r: usize)
    requires
        ring_links_ok(es@),
        x < es@.len(),
    ensures
        r as int == behind(es@, x as int, fwd),
        r < es@.len(),
{
    if fwd {
        es[x].prev
    } else {
        es[x].next
    }
}

/// See `climb`, with `es.len()` steps at most.
fn climb_from(es: &Vec<BoundEdge>, x: usize, fwd: bool, kept: bool) -> (r: Option<usize>)
    requires
        ring_links_ok(es@),
        x < es@.len(),
    ensures
        as_int(r) == climb(es@, x as int, fwd, kept, es@.len()),
        r matches Some(v) ==> v < es@.len(),
{
    let n = es.len();
    let mut cur = x;
    let mut steps: usize = 0;
    while es[cur].top.y == es[ahead_of(es, cur, fwd)].bot.y && (!kept || es[ahead_of(
        es,
        cur,
        fwd,
    )].out_idx != SKIP)
        invariant
            ring_links_ok(es@),
            n == es@.len(),
            cur < n,
            steps <= n,
            climb(es@, x as int, fwd, kept, n as nat) == climb(es@, cur as int, fwd, kept, (n - steps) as nat),
        decreases n - steps,
    {
        if steps == n {
            return None;
        }
        cur = ahead_of(es, cur, fwd);
        steps += 1;
    }
    Some(cur)
}

/// See `back_off`, with `es.len()` steps at most.
fn back_off_from(es: &Vec<BoundEdge>, x: usize, stop: usize, fwd: bool) -> (r: Option<usize>)
    requires
        ring_links_ok(es@),
        x < es@.len(),
    ensures
        as_int(r) == back_off(es@, x as int, stop as int, fwd, es@.len()),
        r matches Some(v) ==> v < es@.len(),
{
    let n = es.len();
    let mut cur = x;
    let mut steps: usize = 0;
    while cur != stop && es[cur].bot.y == es[cur].top.y
        invariant
            ring_links_ok(es@),
            n == es@.len(),
            cur < n,
            steps <= n,
            back_off(es@, x as int, stop as int, fwd, n as nat) == back_off(
                es@,
                cur as int,
                stop as int,
                fwd,
                (n - steps) as nat,
            ),
        decreases n - steps,
    {
        if steps == n {
            return None;
        }
        cur = behind_of(es, cur, fwd);
        steps += 1;
    }
    Some(cur)
}

/// See `horz_first`, with `es.len()` steps at most.
fn horz_first_from(es: &Vec<BoundEdge>, x: usize, fwd: bool) -> (r: Option<usize>)
    requires
        ring_links_ok(es@),
        x < es@.len(),
    ensures
        as_int(r) == horz_first(es@, x as int, fwd, es@.len()),
        r matches Some(v) ==> v < es@.len(),
{
    let n = es.len();
    let mut cur = x;
    let mut steps: usize = 0;
    while es[behind_of(es, cur, fwd)].bot.y == es[behind_of(es, cur, fwd)].top.y
        invariant
            ring_links_ok(es@),
            n == es@.len(),
            cur < n,
            steps <= n,
            horz_first(es@, x as int, fwd, n as nat) == horz_first(es@, cur as int, fwd, (n - steps) as nat),
        decreases n - steps,
    {
        if steps == n {
            return None;
        }
        cur = behind_of(es, cur, fwd);
        steps += 1;
    }
    Some(cur)
}

/// Lays edge `x` on its bound (see `laid`).
fn lay(es: &mut Vec<BoundEdge>, x: usize, first: usize, fwd: bool, touched: &mut Vec<usize>)
    requires
        ring_links_ok(old(es)@),
        x < old(es)@.len(),
    ensures
        final(es)@ == laid(old(es)@, x as int, first as int, fwd),
        ring_links_ok(final(es)@),
        changes_listed(old(es)@, final(es)@, final(touched)@),
        forall|k: int| 0 <= k < old(touched)@.len() ==> final(touched)@.contains(#[trigger] old(touched)@[k]),
{
    let b = behind_of(es, x, fwd);
    let c = es[x];
    if c.bot.y == c.top.y && x != first && c.bot.x != es[b].top.x {
        let v = BoundEdge {
            bot: IntPoint { x: c.top.x, y: c.bot.y },
            top: IntPoint { x: c.bot.x, y: c.top.y },
            ..c
        };
        set_listed(es, x, v, touched);
        assert(es@ == laid(old(es)@, x as int, first as int, fwd));
    } else {
        assert(changes_listed(old(es)@, es@, touched@));
    }
}

/// Links and lays the edges from `x` up to `last` (see `link_bound`), with
/// `es.len()` steps at most; `false` when more are needed.
fn link_from(
    es: &mut Vec<BoundEdge>,
    x: usize,
    first: usize,
    last: usize,
    fwd: bool,
    touched: &mut Vec<usize>,
) -> (ok: bool)
    requires
        ring_links_ok(old(es)@),
        x < old(es)@.len(),
    ensures
        ok ==> link_bound(old(es)@, x as int, first as int, last as int, fwd, old(es)@.len()) == Some(
            final(es)@,
        ),
        !ok ==> link_bound(old(es)@, x as int, first as int, last as int, fwd, old(es)@.len())
            is None,
        ring_links_ok(final(es)@),
        changes_listed(old(es)@, final(es)@, final(touched)@),
        forall|k: int| 0 <= k < old(touched)@.len() ==> final(touched)@.contains(#[trigger] old(touched)@[k]),
{
    let n = es.len();
    let ghost es0 = es@;
    let ghost t0 = touched@;
    let mut cur = x;
    let mut steps: usize = 0;
    proof {
        assert(changes_listed(es0, es@, touched@));
    }
    while cur != last
        invariant
            ring_links_ok(es@),
            n == es@.len(),
            n == es0.len(),
            cur < n,
            steps <= n,
            link_bound(es0, x as int, first as int, last as int, fwd, n as nat) == link_bound(
                es@,
                cur as int,
                first as int,
                last as int,
                fwd,
                (n - steps) as nat,
            ),
            es0 == old(es)@,
            t0 == old(touched)@,
            changes_listed(es0, es@, touched@),
            forall|k: int| 0 <= k < t0.len() ==> touched@.contains(#[trigger] t0[k]),
        decreases n - steps,
    {
        if steps == n {
            return false;
        }
        let ghost s1 = es@;
        let ghost u1 = touched@;
        let a = ahead_of(es, cur, fwd);
        let c = es[cur];
        set_listed(es, cur, BoundEdge { next_in_lml: Some(a), ..c }, touched);
        let ghost s2 = es@;
        let ghost u2 = touched@;
        lay(es, cur, first, fwd, touched);
        proof {
            lemma_listed_trans(es0, s1, s2, u1, u2);
            lemma_listed_trans(es0, s2, es@, u2, touched@);
            assert forall|k: int| 0 <= k < t0.len() implies touched@.contains(#[trigger] t0[k]) by {
                assert(u1.contains(t0[k]));
                let j = choose|j: int| 0 <= j < u1.len() && u1[j] == t0[k];
                assert(u2.contains(u1[j]));
                let j2 = choose|j2: int| 0 <= j2 < u2.len() && u2[j2] == u1[j];
                assert(touched@.contains(u2[j2]));
            }
        }
        cur = a;
        steps += 1;
    }
    let ghost s1 = es@;
    let ghost u1 = touched@;
    lay(es, cur, first, fwd, touched);
    proof {
        lemma_listed_trans(es0, s1, es@, u1, touched@);
        assert forall|k: int| 0 <= k < t0.len() implies touched@.contains(#[trigger] t0[k]) by {
            assert(u1.contains(t0[k]));
            let j = choose|j: int| 0 <= j < u1.len() && u1[j] == t0[k];
            assert(touched@.contains(u1[j]));
        }
    }
    true
}

/// Fixes the first edge of a bound (see `start_fixed`).
fn fix_start(es: &mut Vec<BoundEdge>, e: usize, fwd: bool, touched: &mut Vec<usize>)
    requires
        ring_links_ok(old(es)@),
        e < old(es)@.len(),
    ensures
        final(es)@ == start_fixed(old(es)@, e as int, fwd),
        ring_links_ok(final(es)@),
        changes_listed(old(es)@, final(es)@, final(touched)@),
        forall|k: int| 0 <= k < old(touched)@.len() ==> final(touched)@.contains(#[trigger] old(touched)@[k]),
{
    let b = es[behind_of(es, e, fwd)];
    let c = es[e];
    if c.bot.y == c.top.y && ((b.bot.y == b.top.y && b.bot.x != c.bot.x && b.top.x != c.bot.x) || (
    b.bot.y != b.top.y && b.bot.x != c.bot.x)) {
        let v = BoundEdge {
            bot: IntPoint { x: c.top.x, y: c.bot.y },
            top: IntPoint { x: c.bot.x, y: c.top.y },
            ..c
        };
        set_listed(es, e, v, touched);
        assert(es@ == start_fixed(old(es)@, e as int, fwd));
    } else {
        assert(changes_listed(old(es)@, es@, touched@));
    }
}

/// The bound walk (see `bound_walk`) with `depth` starts from `SKIP` edges
/// at most; every edge it changes is listed in `touched`.
#[verifier::rlimit(40)]
fn walk_bound(
    es: &mut Vec<BoundEdge>,
    minima: &mut Vec<(i64, usize)>,
    e: usize,
    fwd: bool,
    depth: usize,
    touched: &mut Vec<usize>,
) -> (r: Option<usize>)
    requires
        ring_links_ok(old(es)@),
        e < old(es)@.len(),
    ensures
        ring_links_ok(final(es)@),
        changes_listed(old(es)@, final(es)@, final(touched)@),
        forall|k: int| 0 <= k < old(touched)@.len() ==> final(touched)@.contains(#[trigger] old(touched)@[k]),
        match bound_walk(old(es)@, old(minima)@, e as int, fwd, depth as nat) {
            Some((es2, m2, rr)) => r == Some(rr as usize) && final(es)@ == es2 && final(minima)@ == m2,
            None => r is None,
        },
    decreases depth,
{
    let ghost es0 = es@;
    let ghost t0 = touched@;
    if depth == 0 {
        return None;
    }
    if es[e].out_idx == SKIP {
        let e1 = match climb_from(es, e, fwd, false) {
            None => {
                return None;
            },
            Some(v) => v,
        };
        let e2 = match back_off_from(es, e1, e, fwd) {
            None => {
                return None;
            },
            Some(v) => v,
        };
        if e2 == e {
            return Some(ahead_of(es, e, fwd));
        }
        let e3 = ahead_of(es, e, fwd);
        let y = es[e3].bot.y;
        let c = es[e3];
        set_listed(es, e3, BoundEdge { wind_delta: 0, ..c }, touched);
        let ghost s1 = es@;
        let ghost u1 = touched@;
        let r = walk_bound(es, minima, e3, fwd, depth - 1, touched);
        proof {
            lemma_listed_trans(es0, s1, es@, u1, touched@);
            assert forall|k: int| 0 <= k < t0.len() implies touched@.contains(#[trigger] t0[k]) by {
                assert(u1.contains(t0[k]));
                let j = choose|j: int| 0 <= j < u1.len() && u1[j] == t0[k];
                assert(touched@.contains(u1[j]));
            }
        }
        match r {
            None => None,
            Some(v) => {
                minima.push((y, e3));
                Some(v)
            },
        }
    } else {
        fix_start(es, e, fwd, touched);
        let ghost s1 = es@;
        let ghost u1 = touched@;
        let rc = match climb_from(es, e, fwd, true) {
            None => {
                return None;
            },
            Some(v) => v,
        };
        let q = ahead_of(es, rc, fwd);
        let last = if es[rc].bot.y == es[rc].top.y && es[q].out_idx != SKIP {
            let h = match horz_first_from(es, rc, fwd) {
                None => {
                    return None;
                },
                Some(v) => v,
            };
            let p = behind_of(es, h, fwd);
            let further = if fwd {
                es[p].top.x > es[q].top.x
            } else {
                es[p].top.x >= es[q].top.x
            };
            if further {
                p
            } else {
                rc
            }
        } else {
            rc
        };
        let ok = link_from(es, e, e, last, fwd, touched);
        proof {
            lemma_listed_trans(es0, s1, es@, u1, touched@);
            assert forall|k: int| 0 <= k < t0.len() implies touched@.contains(#[trigger] t0[k]) by {
                assert(u1.contains(t0[k]));
                let j = choose|j: int| 0 <= j < u1.len() && u1[j] == t0[k];
                assert(touched@.contains(u1[j]));
            }
        }
        if !ok {
            return None;
        }
        Some(ahead_of(es, last, fwd))
    }
}

/// Lays out the bound that starts at edge `e`, walking forward along
/// `next` when `next_is_forward` and back along `prev` otherwise (see
/// `bound_walk`): links its edges, turns its horizontal edges, adds the
/// local minima it finds past `SKIP` edges to `minima`, and returns the
/// edge after the bound. Returns `None` when a walk along the ring does
/// not stop within `es.len()` steps, or the walk starts from `SKIP` edges
/// more times than there are edges: it only revisits edges then, so it
/// goes on for ever. Every edge it changes is added to `touched`.
pub fn process_bound(
    es: &mut Vec<BoundEdge>,
    minima: &mut Vec<(i64, usize)>,
    e: usize,
    next_is_forward: bool,
    touched: &mut Vec<usize>,
) -> (r: Option<usize>)
    requires
        ring_links_ok(old(es)@),
        e < old(es)@.len(),
        old(es)@.len() < usize::MAX,
    ensures
        ring_links_ok(final(es)@),
        changes_listed(old(es)@, final(es)@, final(touched)@),
        match bound_walk(old(es)@, old(minima)@, e as int, next_is_forward, old(es)@.len() + 1) {
            Some((es2, m2, rr)) => r == Some(rr as usize) && final(es)@ == es2 && final(minima)@ == m2,
            None => r is None,
        },
{
    let depth = es.len() + 1;
    walk_bound(es, minima, e, next_is_forward, depth, touched)
}

/// From `x`, forward along `next` while the edge's bottom differs from
/// the bottom of the edge before it, or the edge starts at its top, taking
/// at most `fuel` steps.
pub open spec fn skip_to_bottom(es: Seq<BoundEdge>, x: int, fuel: nat) -> Option<int>
    decreases fuel,
{
    if es[x].bot != es[es[x].prev as int].bot || es[x].curr == es[x].top {
        if fuel == 0 {
            None
        } else {
            skip_to_bottom(es, es[x].next as int, (fuel - 1) as nat)
        }
    } else {
        Some(x)
    }
}

/// From `x`, back along `prev` while the edge before is horizontal, taking
/// at most `fuel` steps.
pub open spec fn back_over_flats(es: Seq<BoundEdge>, x: int, fuel: nat) -> Option<int>
    decreases fuel,
{
    if horizontal(es[es[x].prev as int]) {
        if fuel == 0 {
            None
        } else {
            back_over_flats(es, es[x].prev as int, (fuel - 1) as nat)
        }
    } else {
        Some(x)
    }
}

/// From `x`, forward along `next` while the edge is horizontal, taking at
/// most `fuel` steps.
pub open spec fn past_flats(es: Seq<BoundEdge>, x: int, fuel: nat) -> Option<int>
    decreases fuel,
{
    if horizontal(es[x]) {
        if fuel == 0 {
            None
        } else {
            past_flats(es, es[x].next as int, (fuel - 1) as nat)
        }
    } else {
        Some(x)
    }
}

/// The next local minimum from `x`: skip to an edge that shares its bottom
/// with the edge before it and does not start at its top; it is the
/// minimum when neither it nor the edge before is horizontal. Else the run
/// of horizontals there is passed over; when the edge after it climbs
/// from the run's end the search goes on from there (at most `fuel` more
/// times), and otherwise the minimum is the run's first edge when the edge
/// before the run starts further left than the edge after it ends, else
/// that edge after. `None` when a walk along the ring takes more than
/// `es.len()` steps or the search restarts more than `fuel` times.
pub open spec fn next_loc_min(es: Seq<BoundEdge>, x: int, fuel: nat) -> Option<int>
    decreases fuel,
{
    let n = es.len();
    match skip_to_bottom(es, x, n) {
        None => None,
        Some(a) => if !horizontal(es[a]) && !horizontal(es[es[a].prev as int]) {
            Some(a)
        } else {
            match back_over_flats(es, a, n) {
                None => None,
                Some(e2) => match past_flats(es, e2, n) {
                    None => None,
                    Some(b) => if es[b].top.y == es[es[b].prev as int].bot.y {
                        if fuel == 0 {
                            None
                        } else {
                            next_loc_min(es, b, (fuel - 1) as nat)
                        }
                    } else if es[es[e2].prev as int].bot.x < es[b].bot.x {
                        Some(e2)
                    } else {
                        Some(b)
                    },
                },
            }
        },
    }
}

fn skip_to_bottom_from(es: &Vec<BoundEdge>, x: usize) -> (r: Option<usize>)
    requires
        ring_links_ok(es@),
        x < es@.len(),
    ensures
        as_int(r) == skip_to_bottom(es@, x as int, es@.len()),
        r matches Some(v) ==> v < es@.len(),
{
    let n = es.len();
    let mut cur = x;
    let mut steps: usize = 0;
    while es[cur].bot != es[es[cur].prev].bot || es[cur].curr == es[cur].top
        invariant
            ring_links_ok(es@),
            n == es@.len(),
            cur < n,
            steps <= n,
            skip_to_bottom(es@, x as int, n as nat) == skip_to_bottom(es@, cur as int, (n - steps) as nat),
        decreases n - steps,
    {
        if steps == n {
            return None;
        }
        cur = es[cur].next;
        steps += 1;
    }
    Some(cur)
}

fn back_over_flats_from(es: &Vec<BoundEdge>, x: usize) -> (r: Option<usize>)
    requires
        ring_links_ok(es@),
        x < es@.len(),
    ensures
        as_int(r) == back_over_flats(es@, x as int, es@.len()),
        r matches Some(v) ==> v < es@.len(),
{
    let n = es.len();
    let mut cur = x;
    let mut steps: usize = 0;
    while es[es[cur].prev].bot.y == es[es[cur].prev].top.y
        invariant
            ring_links_ok(es@),
            n == es@.len(),
            cur < n,
            steps <= n,
            back_over_flats(es@, x as int, n as nat) == back_over_flats(es@, cur as int, (n - steps) as nat),
        decreases n - steps,
    {
        if steps == n {
            return None;
        }
        cur = es[cur].prev;
        steps += 1;
    }
    Some(cur)
}

fn past_flats_from(es: &Vec<BoundEdge>, x: usize) -> (r: Option<usize>)
    requires
        ring_links_ok(es@),
        x < es@.len(),
    ensures
        as_int(r) == past_flats(es@, x as int, es@.len()),
        r matches Some(v) ==> v < es@.len(),
{
    let n = es.len();
    let mut cur = x;
    let mut steps: usize = 0;
    while es[cur].bot.y == es[cur].top.y
        invariant
            ring_links_ok(es@),
            n == es@.len(),
            cur < n,
            steps <= n,
            past_flats(es@, x as int, n as nat) == past_flats(es@, cur as int, (n - steps) as nat),
        decreases n - steps,
    {
        if steps == n {
            return None;
        }
        cur = es[cur].next;
        steps += 1;
    }
    Some(cur)
}

/// The next local minimum of the path's ring from edge `e` (see
/// `next_loc_min`, with as many restarts as there are edges). Returns
/// `None` when a walk does not stop within `es.len()` steps or the search
/// restarts more often than there are edges: it only revisits edges then,
/// so it goes on for ever.
pub fn find_next_loc_min(es: &Vec<BoundEdge>, e: usize) -> (r: Option<usize>)
    requires
        ring_links_ok(es@),
        e < es@.len(),
    ensures
        as_int(r) == next_loc_min(es@, e as int, es@.len()),
        r matches Some(v) ==> v < es@.len(),
{
    let n = es.len();
    let mut cur = e;
    let mut restarts: usize = 0;
    loop
        invariant
            ring_links_ok(es@),
            n == es@.len(),
            cur < n,
            restarts <= n,
            next_loc_min(es@, e as int, n as nat) == next_loc_min(es@, cur as int, (n - restarts) as nat),
        decreases n - restarts,
    {
        let a = match skip_to_bottom_from(es, cur) {
            None => {
                return None;
            },
            Some(v) => v,
        };
        let pa = es[a].prev;
        if es[a].bot.y != es[a].top.y && es[pa].bot.y != es[pa].top.y {
            return Some(a);
        }
        let e2 = match back_over_flats_from(es, a) {
            None => {
                return None;
            },
            Some(v) => v,
        };
        let b = match past_flats_from(es, e2) {
            None => {
                return None;
            },
            Some(v) => v,
        };
        if es[b].top.y == es[es[b].prev].bot.y {
            if restarts == n {
                return None;
            }
            cur = b;
            restarts += 1;
        } else if es[es[e2].prev].bot.x < es[b].bot.x {
            return Some(e2);
        } else {
            return Some(b);
        }
    }
}

} // verus!
