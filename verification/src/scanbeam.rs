//! The queue of scanline positions still to visit, taken from the largest
//! (the bottom, y growing downwards) to the smallest.
use vstd::prelude::*;

verus! {

/// A set of y positions, popped from the largest.
#[derive(Debug)]
pub struct Scanbeam {
    ys: Vec<i64>,
}

/// Strictly increasing.
pub open spec fn strictly_sorted(s: Seq<i64>) -> bool {
    forall|i: int, j: int| 0 <= i < j < s.len() ==> s[i] < s[j]
}

impl Scanbeam {
    /// The positions, in increasing order.
    pub closed spec fn view_seq(&self) -> Seq<i64> {
        self.ys@
    }

    /// `y` is queued.
    pub open spec fn contains(&self, y: i64) -> bool {
        self.view_seq().contains(y)
    }

    /// Nothing is queued.
    pub open spec fn is_empty_spec(&self) -> bool {
        self.view_seq().len() == 0
    }

    /// The representation is strictly increasing.
    pub open spec fn wf(&self) -> bool {
        strictly_sorted(self.view_seq())
    }

    /// Every value of the type keeps its positions strictly increasing.
    #[verifier::type_invariant]
    spec fn sorted_inv(self) -> bool {
        strictly_sorted(self.ys@)
    }

    /// An empty queue.
    pub fn new() -> (r: Self)
        ensures
            r.wf(),
            r.is_empty_spec(),
            forall|y: i64| !r.contains(y),
    {
        Scanbeam { ys: Vec::new() }
    }

    /// Empties the queue.
    pub fn clear(&mut self)
        ensures
            final(self).wf(),
            final(self).is_empty_spec(),
            forall|y: i64| !final(self).contains(y),
    {
        self.ys = Vec::new();
    }

    /// Number of distinct queued positions.
    pub fn len(&self) -> (r: usize)
        ensures
            r == self.view_seq().len(),
    {
        self.ys.len()
    }

    /// Queues `y`; a position already queued is kept once.
    pub fn insert(&mut self, y: i64)
        ensures
            final(self).wf(),
            forall|v: i64| final(self).contains(v) == (old(self).contains(v) || v == y),
    {
        proof {
            use_type_invariant(&*self);
        }
        let ghost s = self.ys@;
        let n = self.ys.len();
        // first index whose value is not below y
        let mut lo: usize = 0;
        let mut hi: usize = n;
        while lo < hi
            invariant
                s == self.ys@,
                n == s.len(),
                strictly_sorted(s),
                lo <= hi <= n,
                forall|i: int| 0 <= i < lo ==> s[i] < y,
                forall|i: int| hi <= i < n ==> s[i] >= y,
            decreases hi - lo,
        {
            let mid = lo + (hi - lo) / 2;
            if self.ys[mid] < y {
                lo = mid + 1;
            } else {
                hi = mid;
            }
        }
        if lo < n && self.ys[lo] == y {
            assert(s[lo as int] == y);
            assert(s.contains(y));
            return;
        }
        let mut ys: Vec<i64> = Vec::new();
        std::mem::swap(&mut ys, &mut self.ys);
        ys.insert(lo, y);
        self.ys = ys;
        assert forall|v: i64| self.contains(v) == (s.contains(v) || v == y) by {
            if self.ys@.contains(v) {
                let k = choose|k: int| 0 <= k < self.ys@.len() && self.ys@[k] == v;
                if k < lo {
                    assert(s[k] == v);
                } else if k > lo {
                    assert(s[k - 1] == v);
                }
            }
            if s.contains(v) {
                let k = choose|k: int| 0 <= k < s.len() && s[k] == v;
                if k < lo {
                    assert(self.ys@[k] == v);
                } else {
                    assert(self.ys@[k + 1] == v);
                }
            }
            if v == y {
                assert(self.ys@[lo as int] == y);
            }
        }
        assert(s == old(self).ys@);
        assert(forall|v: i64| self.contains(v) == (old(self).contains(v) || v == y));
    }

    /// Takes out the largest queued position.
    pub fn pop(&mut self) -> (r: Option<i64>)
        ensures
            final(self).wf(),
            r is None <==> old(self).is_empty_spec(),
            r is None ==> final(self).is_empty_spec(),
            r matches Some(m) ==> old(self).contains(m) && (forall|v: i64|
                old(self).contains(v) ==> v <= m) && (forall|v: i64|
                final(self).contains(v) == (old(self).contains(v) && v != m)) && (forall|v: i64|
                final(self).contains(v) ==> v < m),
    {
        proof {
            use_type_invariant(&*self);
        }
        let ghost s = self.ys@;
        let mut ys: Vec<i64> = Vec::new();
        std::mem::swap(&mut ys, &mut self.ys);
        let r = ys.pop();
        self.ys = ys;
        match r {
            None => None,
            Some(m) => {
                let ghost n = s.len();
                assert(s[n - 1] == m);
                assert forall|v: i64| s.contains(v) implies v <= m by {
                    let k = choose|k: int| 0 <= k < s.len() && s[k] == v;
                    assert(k <= n - 1);
                }
                assert forall|v: i64|
                    self.ys@.contains(v) == (s.contains(v) && v != m) by {
                    if s.contains(v) && v != m {
                        let k = choose|k: int| 0 <= k < s.len() && s[k] == v;
                        assert(k < n - 1);
                        assert(self.ys@[k] == v);
                    }
                    if self.ys@.contains(v) {
                        let k = choose|k: int| 0 <= k < self.ys@.len() && self.ys@[k] == v;
                        assert(s[k] == v);
                    }
                }
                Some(m)
            },
        }
    }
}

impl Default for Scanbeam {
    fn default() -> (r: Self)
        ensures
            r.wf(),
            r.is_empty_spec(),
    {
        Scanbeam::new()
    }
}

} // verus!
