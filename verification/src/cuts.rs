//! Cutting a ring in two by exchanging the successors of two of its
//! points: the sizes of the parts, and that no ring grows.
use vstd::prelude::*;

use crate::fixup::{lemma_nexts_in_ring, lemma_ring_len_unique, lemma_same_ring};
use crate::joins::lemma_split_walk;
use crate::outpt::{
    in_ring, is_ring_len, lemma_nexts_in_range, lemma_ring_distinct,
    lemma_ring_len, lemma_ring_with_idx_ok, lemma_swapped_fields, lemma_swapped_next_ok, links_ok,
    nexts, ring_len, ring_with_idx, swapped_next, OutPt,
};

verus! {

/// Exchanging the successors of `x` and of the point `j` steps after it
/// leaves `x` on a ring of the other `ring_len - j` points, met in their
/// old order from `x`'s old successor's place on.
proof fn lemma_cut_len(s: Seq<OutPt>, x: int, j: nat)
    requires
        links_ok(s),
        0 <= x < s.len(),
        1 <= j < ring_len(s, x),
    ensures
        ring_len(swapped_next(s, x, nexts(s, x, j)), x) == ring_len(s, x) - j,
        forall|k: nat|
            1 <= k <= ring_len(s, x) - j ==> #[trigger] nexts(
                swapped_next(s, x, nexts(s, x, j)),
                x,
                k,
            ) == nexts(s, x, j + k),
{
    let y = nexts(s, x, j);
    let t = swapped_next(s, x, y);
    let l = ring_len(s, x);
    lemma_ring_len(s, x);
    lemma_nexts_in_range(s, x, j);
    lemma_swapped_next_ok(s, x, y);
    assert forall|k: nat| 1 <= k <= l - j implies #[trigger] nexts(t, x, k) == nexts(s, x, j + k) by {
        lemma_split_walk(s, x, j, k);
    }
    assert(nexts(s, x, l) == x);
    assert(nexts(t, x, (l - j) as nat) == x);
    assert forall|k: nat| 1 <= k < l - j implies nexts(t, x, k) != x by {
        lemma_ring_distinct(s, x, 0, j + k);
        assert(nexts(s, x, 0) == x);
    }
    assert(is_ring_len(t, x, (l - j) as nat));
    lemma_ring_len_unique(t, x, (l - j) as nat);
}

/// After the exchange, the walk from `y == nexts(s, x, j)` goes to `x`'s
/// old successor and on along the old ring, back to `y` after `j` steps.
proof fn lemma_cut_other(s: Seq<OutPt>, x: int, j: nat, k: nat)
    requires
        links_ok(s),
        0 <= x < s.len(),
        1 <= j < ring_len(s, x),
        1 <= k <= j,
    ensures
        nexts(swapped_next(s, x, nexts(s, x, j)), nexts(s, x, j), k) == nexts(s, x, k),
    decreases k,
{
    let y = nexts(s, x, j);
    let t = swapped_next(s, x, y);
    lemma_ring_len(s, x);
    lemma_nexts_in_range(s, x, j);
    lemma_ring_distinct(s, x, 0, j);
    assert(nexts(s, x, 0) == x);
    assert(s[x].next != s[y].next) by {
        assert(s[s[x].next as int].prev == x);
        assert(s[s[y].next as int].prev == y);
    }
    if k == 1 {
        lemma_swapped_fields(s, x, y, y);
        assert(nexts(t, y, 0) == y);
    } else {
        lemma_cut_other(s, x, j, (k - 1) as nat);
        let w = nexts(s, x, (k - 1) as nat);
        lemma_nexts_in_range(s, x, (k - 1) as nat);
        lemma_ring_distinct(s, x, 0, (k - 1) as nat);
        lemma_ring_distinct(s, x, (k - 1) as nat, j);
        lemma_swapped_fields(s, x, y, w);
    }
}

/// The ring through `y` after the exchange has `j` points.
proof fn lemma_cut_other_len(s: Seq<OutPt>, x: int, j: nat)
    requires
        links_ok(s),
        0 <= x < s.len(),
        1 <= j < ring_len(s, x),
    ensures
        ring_len(swapped_next(s, x, nexts(s, x, j)), nexts(s, x, j)) == j,
        forall|k: nat|
            1 <= k <= j ==> #[trigger] nexts(swapped_next(s, x, nexts(s, x, j)), nexts(s, x, j), k)
                == nexts(s, x, k),
{
    let y = nexts(s, x, j);
    let t = swapped_next(s, x, y);
    lemma_ring_len(s, x);
    lemma_nexts_in_range(s, x, j);
    assert forall|k: nat| 1 <= k <= j implies #[trigger] nexts(t, y, k) == nexts(s, x, k) by {
        lemma_cut_other(s, x, j, k);
    }
    assert forall|k: nat| 1 <= k < j implies nexts(t, y, k) != y by {
        lemma_ring_distinct(s, x, k, j);
    }
    assert(is_ring_len(t, y, j));
    lemma_swapped_next_ok(s, x, y);
    lemma_ring_len_unique(t, y, j);
}

/// A walk that keeps off the points whose successors were exchanged is
/// the same walk after the exchange.
pub(crate) proof fn lemma_walk_off_cut(s: Seq<OutPt>, x: int, y: int, z: int, k: nat)
    requires
        links_ok(s),
        0 <= x < s.len(),
        0 <= y < s.len(),
        0 <= z < s.len(),
        x != y,
        forall|m: nat| m < k ==> #[trigger] nexts(s, z, m) != x && nexts(s, z, m) != y,
    ensures
        nexts(swapped_next(s, x, y), z, k) == nexts(s, z, k),
    decreases k,
{
    if k > 0 {
        lemma_walk_off_cut(s, x, y, z, (k - 1) as nat);
        let w = nexts(s, z, (k - 1) as nat);
        lemma_nexts_in_range(s, z, (k - 1) as nat);
        assert(s[x].next != s[y].next) by {
            assert(s[s[x].next as int].prev == x);
            assert(s[s[y].next as int].prev == y);
        }
        lemma_swapped_fields(s, x, y, w);
    }
}

/// Exchanging the successors of two points of one ring cuts it into a
/// ring through `x` and `y`'s old successor and a ring through `y` and
/// `x`'s old successor, whose lengths add up to the old one; no ring of
/// the arena grows.
#[verifier::spinoff_prover]
#[verifier::rlimit(80)]
pub proof fn lemma_cut_sizes(s: Seq<OutPt>, x: int, y: int)
    requires
        links_ok(s),
        0 <= x < s.len(),
        0 <= y < s.len(),
        x != y,
        in_ring(s, x, y),
    ensures
        ring_len(swapped_next(s, x, y), x) + ring_len(swapped_next(s, x, y), y) == ring_len(s, x),
        ring_len(swapped_next(s, x, y), x) >= 1,
        ring_len(swapped_next(s, x, y), y) >= 1,
        in_ring(swapped_next(s, x, y), x, s[y].next as int),
        in_ring(swapped_next(s, x, y), y, s[x].next as int),
        forall|z: int|
            0 <= z < s.len() ==> #[trigger] ring_len(swapped_next(s, x, y), z) <= ring_len(s, z),
{
    let t = swapped_next(s, x, y);
    let l = ring_len(s, x);
    lemma_ring_len(s, x);
    lemma_swapped_next_ok(s, x, y);
    let j = choose|j: nat| j < l && nexts(s, x, j) == y;
    assert(j != 0) by {
        assert(nexts(s, x, 0) == x);
    }
    lemma_cut_len(s, x, j);
    lemma_cut_other_len(s, x, j);
    lemma_ring_len(t, x);
    lemma_ring_len(t, y);
    // the two successors
    assert(nexts(t, x, 1) == nexts(s, x, j + 1));
    assert(nexts(s, x, j + 1) == s[y].next as int);
    assert(nexts(t, y, 1) == nexts(s, x, 1));
    assert(nexts(s, x, 0) == x);
    assert(nexts(s, x, 1) == s[x].next as int);
    if 1 < l - j {
        assert(in_ring(t, x, s[y].next as int));
    } else {
        assert(nexts(t, x, 1) == x);
        assert(nexts(t, x, 0) == x);
        assert(in_ring(t, x, s[y].next as int));
    }
    if 1 < j {
        assert(in_ring(t, y, s[x].next as int));
    } else {
        assert(nexts(t, y, 1) == y);
        assert(nexts(t, y, 0) == y);
        assert(in_ring(t, y, s[x].next as int));
    }
    assert forall|z: int| 0 <= z < s.len() implies #[trigger] ring_len(t, z) <= ring_len(s, z) by {
        lemma_ring_len(s, z);
        if in_ring(s, x, z) {
            lemma_same_ring(s, x, z);
            let m = choose|m: nat| m < l && nexts(s, x, m) == z;
            if m == 0 || m > j {
                if m == 0 {
                    assert(nexts(t, x, 0) == x);
                    assert(in_ring(t, x, z));
                } else {
                    assert(nexts(t, x, (m - j) as nat) == nexts(s, x, m));
                    assert(in_ring(t, x, z));
                }
                lemma_same_ring(t, x, z);
            } else {
                if m < j {
                    assert(nexts(t, y, m) == z);
                    assert(in_ring(t, y, z));
                } else {
                    assert(z == y);
                    assert(nexts(t, y, 0) == y);
                    assert(in_ring(t, y, z));
                }
                lemma_same_ring(t, y, z);
            }
        } else {
            // the ring of z keeps off x and y and is walked the same way
            let lz = ring_len(s, z);
            assert forall|m: nat| true implies #[trigger] nexts(s, z, m) != x && nexts(s, z, m) != y by {
                lemma_nexts_in_ring(s, z, m);
                if nexts(s, z, m) == x {
                    lemma_same_ring(s, z, x);
                    assert(in_ring(s, z, z)) by {
                        assert(nexts(s, z, 0) == z);
                    }
                }
                if nexts(s, z, m) == y {
                    lemma_same_ring(s, z, y);
                    lemma_same_ring(s, x, y);
                    assert(in_ring(s, z, z)) by {
                        assert(nexts(s, z, 0) == z);
                    }
                    assert(in_ring(s, y, x));
                }
            }
            assert forall|k: nat| k <= lz implies nexts(t, z, k) == nexts(s, z, k) by {
                lemma_walk_off_cut(s, x, y, z, k);
            }
            assert(is_ring_len(t, z, lz));
            lemma_ring_len_unique(t, z, lz);
        }
    }
}

/// Giving the points of a ring another record index changes no walk.
proof fn lemma_relabel_walk(s: Seq<OutPt>, x: int, idx: i32, z: int, k: nat)
    requires
        links_ok(s),
        0 <= x < s.len(),
        0 <= z < s.len(),
    ensures
        nexts(ring_with_idx(s, x, idx), z, k) == nexts(s, z, k),
    decreases k,
{
    if k > 0 {
        lemma_relabel_walk(s, x, idx, z, (k - 1) as nat);
        lemma_nexts_in_range(s, z, (k - 1) as nat);
    }
}

/// Giving the points of a ring another record index keeps every ring's
/// length.
pub proof fn lemma_relabel_keeps_rings(s: Seq<OutPt>, x: int, idx: i32)
    requires
        links_ok(s),
        0 <= x < s.len(),
    ensures
        links_ok(ring_with_idx(s, x, idx)),
        forall|z: int|
            0 <= z < s.len() ==> #[trigger] ring_len(ring_with_idx(s, x, idx), z) == ring_len(s, z),
        forall|z: int, k: nat|
            0 <= z < s.len() ==> #[trigger] nexts(ring_with_idx(s, x, idx), z, k) == nexts(s, z, k),
{
    let t = ring_with_idx(s, x, idx);
    lemma_ring_with_idx_ok(s, x, idx);
    assert forall|z: int, k: nat| 0 <= z < s.len() implies #[trigger] nexts(t, z, k) == nexts(s, z, k) by {
        lemma_relabel_walk(s, x, idx, z, k);
    }
    assert forall|z: int| 0 <= z < s.len() implies #[trigger] ring_len(t, z) == ring_len(s, z) by {
        lemma_ring_len(s, z);
        let l = ring_len(s, z);
        assert forall|k: nat| k <= l implies nexts(t, z, k) == nexts(s, z, k) by {
            lemma_relabel_walk(s, x, idx, z, k);
        }
        assert(is_ring_len(t, z, l));
        lemma_ring_len_unique(t, z, l);
    }
}

} // verus!
