//! The integer side of polygon offsetting: the queue of input paths, their
//! clean-up when they are added, and the orientation fix applied before the
//! paths are offset.
use vstd::prelude::*;

use crate::geometry::{area2_spec, orientation, reverse_path};
use crate::polytree::copy_path;
use crate::types::{AddPathResult, EndType, IntPoint, IntRect, JoinType, Path};

verus! {

/// Longest contour that the exact orientation test accepts; a vector of
/// 16-byte points cannot reach it.
pub open spec fn max_contour_len() -> int {
    0x1000_0000_0000_0000
}

/// A path queued for offsetting, with its corner and end styles.
#[derive(Debug)]
pub struct OffsetPath {
    pub contour: Path,
    pub join_type: JoinType,
    pub end_type: EndType,
}

/// End styles whose paths are closed.
pub open spec fn closes(end_type: EndType) -> bool {
    end_type == EndType::ClosedLine || end_type == EndType::ClosedPolygon
}

/// Last index kept of `s[..=h]` once trailing copies of `s[0]` are dropped.
pub open spec fn trim_closing(s: Seq<IntPoint>, h: int) -> int
    decreases h,
{
    if h > 0 && s[0] == s[h] {
        trim_closing(s, h - 1)
    } else {
        h
    }
}

/// `s[..=h]` without points equal to the point kept before them.
pub open spec fn dedup_prefix(s: Seq<IntPoint>, h: int) -> Seq<IntPoint>
    decreases h,
{
    if h <= 0 {
        seq![s[0]]
    } else {
        let c = dedup_prefix(s, h - 1);
        if c.last() != s[h] {
            c.push(s[h])
        } else {
            c
        }
    }
}

/// The contour that offsetting keeps of `path`: trailing copies of the
/// first point dropped for closed end styles, repeated points collapsed.
pub open spec fn offset_contour(path: Seq<IntPoint>, end_type: EndType) -> Seq<IntPoint> {
    let h = if closes(end_type) {
        trim_closing(path, path.len() - 1)
    } else {
        path.len() - 1
    };
    dedup_prefix(path, h)
}

/// `p` lies lower than `q` (y grows downwards), or level and left of it.
pub open spec fn lower_than(p: IntPoint, q: IntPoint) -> bool {
    p.y > q.y || (p.y == q.y && p.x < q.x)
}

/// Index of the first lowest point among `c[..m]`.
pub open spec fn lowest_index(c: Seq<IntPoint>, m: int) -> int
    decreases m,
{
    if m <= 1 {
        0
    } else {
        let k = lowest_index(c, m - 1);
        if lower_than(c[m - 1], c[k]) {
            m - 1
        } else {
            k
        }
    }
}

/// `add_path` skips `path`: it is empty, or as a closed polygon fewer than
/// three distinct consecutive points remain.
pub open spec fn offset_skips(path: Seq<IntPoint>, end_type: EndType) -> bool {
    path.len() == 0 || (end_type == EndType::ClosedPolygon && offset_contour(path, end_type).len()
        < 3)
}

/// The queued contours and the lowest point once `path` is queued after
/// the contours `st.0` with lowest point `st.1`: nothing changes when it is
/// skipped; else its cleaned contour is appended, and, for a closed
/// polygon, its lowest point becomes the lowest when there was none or it
/// lies lower than the one there was.
pub open spec fn queue_step(
    st: (Seq<Seq<IntPoint>>, Option<(usize, usize)>),
    path: Seq<IntPoint>,
    end_type: EndType,
) -> (Seq<Seq<IntPoint>>, Option<(usize, usize)>) {
    if offset_skips(path, end_type) {
        st
    } else {
        let n = st.0.len();
        let c = offset_contour(path, end_type);
        let k = lowest_index(c, c.len() as int);
        (
            st.0.push(c),
            if end_type != EndType::ClosedPolygon {
                st.1
            } else {
                match st.1 {
                    None => Some((n as usize, k as usize)),
                    Some((a, b)) => if lower_than(c[k], st.0[a as int][b as int]) {
                        Some((n as usize, k as usize))
                    } else {
                        st.1
                    },
                }
            },
        )
    }
}

/// `queue_step` applied for the first `k` paths of `paths`, in order.
pub open spec fn queue_all(
    st: (Seq<Seq<IntPoint>>, Option<(usize, usize)>),
    paths: Seq<Path>,
    k: int,
    end_type: EndType,
) -> (Seq<Seq<IntPoint>>, Option<(usize, usize)>)
    decreases k,
{
    if k <= 0 {
        st
    } else {
        queue_step(queue_all(st, paths, k - 1, end_type), paths[k - 1]@, end_type)
    }
}

/// The contours of queued paths.
pub open spec fn contours_of(nodes: Seq<OffsetPath>) -> Seq<Seq<IntPoint>> {
    nodes.map_values(|p: OffsetPath| p.contour@)
}

/// The paths queued for offsetting and the position of the lowest point of
/// the closed polygons among them.
#[derive(Debug)]
pub struct OffsetPaths {
    nodes: Vec<OffsetPath>,
    lowest: Option<(usize, usize)>,
}

proof fn lemma_lowest_index_range(c: Seq<IntPoint>, m: int)
    requires
        1 <= m,
    ensures
        0 <= lowest_index(c, m) < m,
    decreases m,
{
    if m > 1 {
        lemma_lowest_index_range(c, m - 1);
    }
}

proof fn lemma_trim_range(s: Seq<IntPoint>, h: int)
    requires
        0 <= h,
    ensures
        0 <= trim_closing(s, h) <= h,
    decreases h,
{
    if h > 0 && s[0] == s[h] {
        lemma_trim_range(s, h - 1);
    }
}

proof fn lemma_dedup_len(s: Seq<IntPoint>, h: int)
    requires
        0 <= h,
    ensures
        1 <= dedup_prefix(s, h).len() <= h + 1,
        dedup_prefix(s, h)[0] == s[0],
    decreases h,
{
    if h > 0 {
        lemma_dedup_len(s, h - 1);
    }
}

impl OffsetPaths {
    /// The queued paths.
    pub closed spec fn nodes_view(&self) -> Seq<OffsetPath> {
        self.nodes@
    }

    /// The lowest point, as (path index, point index).
    pub closed spec fn lowest_view(&self) -> Option<(usize, usize)> {
        self.lowest
    }

    /// Contours are short enough for the exact orientation test and the
    /// lowest point designates a point of a closed polygon.
    pub open spec fn wf(&self) -> bool {
        &&& forall|i: int|
            0 <= i < self.nodes_view().len() ==> #[trigger] self.nodes_view()[i].contour@.len()
                <= max_contour_len()
        &&& self.lowest_view() matches Some((a, b)) ==> a < self.nodes_view().len() && b
            < self.nodes_view()[a as int].contour@.len() && self.nodes_view()[a as int].end_type
            == EndType::ClosedPolygon
    }

    /// Every value of the type is well formed.
    #[verifier::type_invariant]
    spec fn inv(self) -> bool {
        self.wf()
    }

    /// Nothing queued.
    pub fn new() -> (r: Self)
        ensures
            r.wf(),
            r.nodes_view().len() == 0,
            r.lowest_view() is None,
    {
        OffsetPaths { nodes: Vec::new(), lowest: None }
    }

    /// Drops every queued path.
    pub fn clear(&mut self)
        ensures
            final(self).wf(),
            final(self).nodes_view().len() == 0,
            final(self).lowest_view() is None,
    {
        proof {
            use_type_invariant(&*self);
        }
        self.lowest = None;
        self.nodes = Vec::new();
    }

    /// Number of queued paths.
    pub fn child_count(&self) -> (r: usize)
        ensures
            r == self.nodes_view().len(),
    {
        self.nodes.len()
    }

    /// Queued path `i`.
    pub fn node(&self, i: usize) -> (r: &OffsetPath)
        requires
            i < self.nodes_view().len(),
        ensures
            *r == self.nodes_view()[i as int],
    {
        &self.nodes[i]
    }

    /// Position (path index, point index) of the lowest point of the queued
    /// closed polygons.
    pub fn lowest_index(&self) -> (r: Option<(usize, usize)>)
        ensures
            r == self.lowest_view(),
    {
        self.lowest
    }

    /// Queues `path` with its styles. The path is skipped when empty, or
    /// when as a closed polygon fewer than three distinct consecutive points
    /// remain; otherwise its cleaned contour (`offset_contour`) is queued and
    /// a closed polygon whose lowest point lies lower than the lowest so far
    /// becomes the lowest.
    pub fn add_path(&mut self, path: &Path, join_type: JoinType, end_type: EndType) -> (r:
        AddPathResult)
        requires
            path@.len() <= max_contour_len(),
        ensures
            final(self).wf(),
            r == AddPathResult::Skipped <==> (path@.len() == 0 || (end_type
                == EndType::ClosedPolygon && offset_contour(path@, end_type).len() < 3)),
            r == AddPathResult::Skipped ==> final(self).nodes_view() == old(self).nodes_view()
                && final(self).lowest_view() == old(self).lowest_view(),
            r == AddPathResult::Added ==> {
                let n = old(self).nodes_view().len();
                let c = offset_contour(path@, end_type);
                let k = lowest_index(c, c.len() as int);
                &&& final(self).nodes_view().len() == n + 1
                &&& forall|i: int|
                    0 <= i < n ==> #[trigger] final(self).nodes_view()[i] == old(
                        self,
                    ).nodes_view()[i]
                &&& final(self).nodes_view()[n as int].contour@ == c
                &&& final(self).nodes_view()[n as int].join_type == join_type
                &&& final(self).nodes_view()[n as int].end_type == end_type
                &&& final(self).lowest_view() == if end_type != EndType::ClosedPolygon {
                    old(self).lowest_view()
                } else {
                    match old(self).lowest_view() {
                        None => Some((n as usize, k as usize)),
                        Some((a, b)) => if lower_than(
                            c[k],
                            old(self).nodes_view()[a as int].contour@[b as int],
                        ) {
                            Some((n as usize, k as usize))
                        } else {
                            old(self).lowest_view()
                        },
                    }
                }
            },
    {
        proof {
            use_type_invariant(&*self);
        }
        let len = path.len();
        if len == 0 {
            return AddPathResult::Skipped;
        }
        let ghost s = path@;
        let mut high_i = len - 1;
        if end_type == EndType::ClosedLine || end_type == EndType::ClosedPolygon {
            while high_i > 0 && path[0] == path[high_i]
                invariant
                    s == path@,
                    high_i < len,
                    len == s.len(),
                    trim_closing(s, len - 1) == trim_closing(s, high_i as int),
                decreases high_i,
            {
                high_i -= 1;
            }
        }
        let ghost h = high_i as int;
        let mut contour: Path = Vec::new();
        contour.push(path[0]);
        let mut j: usize = 0;
        let mut k: usize = 0;
        let mut i: usize = 1;
        assert(contour@ =~= dedup_prefix(s, 0));
        while i <= high_i
            invariant
                s == path@,
                len == s.len(),
                high_i < len,
                h == high_i,
                1 <= i <= high_i + 1,
                contour@ == dedup_prefix(s, i - 1),
                j + 1 == contour@.len(),
                k == lowest_index(contour@, contour@.len() as int),
                contour@.len() <= i,
            decreases high_i + 1 - i,
        {
            proof {
                lemma_lowest_index_range(contour@, contour@.len() as int);
            }
            if contour[j] != path[i] {
                let ghost prev = contour@;
                contour.push(path[i]);
                j += 1;
                assert(contour@.subrange(0, j as int) =~= prev);
                assert(lowest_index(contour@, j as int) == lowest_index(prev, j as int)) by {
                    lemma_lowest_prefix(contour@, prev, j as int);
                }
                if path[i].y > contour[k].y || (path[i].y == contour[k].y && path[i].x
                    < contour[k].x) {
                    k = j;
                }
            }
            i += 1;
        }
        assert(contour@ == offset_contour(s, end_type));
        if end_type == EndType::ClosedPolygon && j < 2 {
            return AddPathResult::Skipped;
        }
        proof {
            lemma_lowest_index_range(contour@, contour@.len() as int);
        }
        let n = self.nodes.len();
        let ghost old_nodes = self.nodes@;
        let low = self.lowest;
        self.lowest = None;
        let mut nodes: Vec<OffsetPath> = Vec::new();
        std::mem::swap(&mut nodes, &mut self.nodes);
        nodes.push(OffsetPath { contour, join_type, end_type });
        self.nodes = nodes;
        self.lowest = low;
        assert forall|t: int| 0 <= t < n implies #[trigger] self.nodes@[t] == old_nodes[t] by {}
        if end_type != EndType::ClosedPolygon {
            return AddPathResult::Added;
        }
        match self.lowest {
            None => {
                self.lowest = Some((n, k));
            },
            Some((a, b)) => {
                let ip = self.nodes[a].contour[b];
                let new_low = self.nodes[n].contour[k];
                if new_low.y > ip.y || (new_low.y == ip.y && new_low.x < ip.x) {
                    self.lowest = Some((n, k));
                }
            },
        }
        AddPathResult::Added
    }

    /// Queues each path of `paths` in order, as `add_path` does (see
    /// `queue_all`): the queued paths are the old ones followed by the
    /// cleaned contour of each path taken, with the given styles, and the
    /// lowest point is updated path after path. `Added` when any was taken.
    pub fn add_paths(&mut self, paths: &Vec<Path>, join_type: JoinType, end_type: EndType) -> (r:
        AddPathResult)
        requires
            forall|i: int| 0 <= i < paths@.len() ==> #[trigger] paths@[i]@.len() <= max_contour_len(),
        ensures
            final(self).wf(),
            (contours_of(final(self).nodes_view()), final(self).lowest_view()) == queue_all(
                (contours_of(old(self).nodes_view()), old(self).lowest_view()),
                paths@,
                paths@.len() as int,
                end_type,
            ),
            forall|i: int|
                0 <= i < old(self).nodes_view().len() ==> #[trigger] final(self).nodes_view()[i]
                    == old(self).nodes_view()[i],
            forall|i: int|
                old(self).nodes_view().len() <= i < final(self).nodes_view().len() ==> (
                #[trigger] final(self).nodes_view()[i]).join_type == join_type
                    && final(self).nodes_view()[i].end_type == end_type,
            r == AddPathResult::Added <==> exists|i: int|
                0 <= i < paths@.len() && !(#[trigger] paths@[i]@.len() == 0 || (end_type
                    == EndType::ClosedPolygon && offset_contour(paths@[i]@, end_type).len() < 3)),
    {
        let mut result = AddPathResult::Skipped;
        let n = paths.len();
        let mut i: usize = 0;
        let ghost st0 = (contours_of(self.nodes_view()), self.lowest_view());
        let ghost nodes0 = self.nodes_view();
        while i < n
            invariant
                n == paths@.len(),
                nodes0 == old(self).nodes_view(),
                st0 == (contours_of(old(self).nodes_view()), old(self).lowest_view()),
                (contours_of(self.nodes_view()), self.lowest_view()) == queue_all(
                    st0,
                    paths@,
                    i as int,
                    end_type,
                ),
                nodes0.len() <= self.nodes_view().len(),
                forall|t: int| 0 <= t < nodes0.len() ==> #[trigger] self.nodes_view()[t] == nodes0[t],
                forall|t: int|
                    nodes0.len() <= t < self.nodes_view().len() ==> (
                    #[trigger] self.nodes_view()[t]).join_type == join_type
                        && self.nodes_view()[t].end_type == end_type,
                forall|t: int| 0 <= t < paths@.len() ==> #[trigger] paths@[t]@.len() <= max_contour_len(),
                i <= n,
                result == AddPathResult::Added <==> exists|t: int|
                    0 <= t < i && !(#[trigger] paths@[t]@.len() == 0 || (end_type
                        == EndType::ClosedPolygon && offset_contour(paths@[t]@, end_type).len()
                        < 3)),
            decreases n - i,
        {
            proof {
                use_type_invariant(&*self);
            }
            let ghost before = self.nodes_view();
            let ghost low_before = self.lowest_view();
            let r = self.add_path(&paths[i], join_type, end_type);
            proof {
                let after = self.nodes_view();
                if r == AddPathResult::Added {
                    let c = offset_contour(paths@[i as int]@, end_type);
                    assert(contours_of(after) =~= contours_of(before).push(c)) by {
                        assert forall|t: int| 0 <= t < after.len() implies #[trigger] contours_of(
                            after,
                        )[t] == contours_of(before).push(c)[t] by {
                            if t < before.len() {
                                assert(after[t] == before[t]);
                            }
                        }
                    }
                    match low_before {
                        Some((a, b)) => {
                            assert(contours_of(before)[a as int] == before[a as int].contour@);
                        },
                        None => {},
                    }
                    assert forall|t: int|
                        nodes0.len() <= t < after.len() implies (#[trigger] after[t]).join_type
                        == join_type && after[t].end_type == end_type by {
                        if t < before.len() {
                            assert(after[t] == before[t]);
                        }
                    }
                } else {
                    assert(contours_of(after) =~= contours_of(before));
                }
            }
            if r == AddPathResult::Added {
                result = AddPathResult::Added;
            }
            i += 1;
        }
        proof {
            use_type_invariant(&*self);
        }
        result
    }
}

/// Whether `fix_orientations` reverses a path with the given end style and
/// doubled area, given whether the polygon holding the lowest point runs
/// clockwise.
pub open spec fn reverses(lowest_clockwise: bool, end_type: EndType, area2: int) -> bool {
    if lowest_clockwise {
        end_type == EndType::ClosedPolygon || (end_type == EndType::ClosedLine && area2 >= 0)
    } else {
        end_type == EndType::ClosedLine && area2 < 0
    }
}

/// Closed polygons are turned all together, exactly when the one holding
/// the lowest point runs clockwise, whatever their own orientation, so each
/// hole keeps running the other way round from its outer polygon; open
/// paths are never turned.
pub proof fn lemma_polygons_turn_together(lowest_clockwise: bool, end_type: EndType, area2: int)
    ensures
        end_type == EndType::ClosedPolygon ==> reverses(lowest_clockwise, end_type, area2)
            == lowest_clockwise,
        !closes(end_type) ==> !reverses(lowest_clockwise, end_type, area2),
{
}

impl OffsetPaths {
    /// The polygon holding the lowest point runs clockwise.
    pub open spec fn lowest_clockwise(&self) -> bool {
        match self.lowest_view() {
            Some((a, _)) => area2_spec(self.nodes_view()[a as int].contour@) < 0,
            None => false,
        }
    }

    /// Orients the queued paths before offsetting: when the outermost closed
    /// polygon (the one holding the lowest point) runs clockwise, every
    /// closed polygon and every counter-clockwise closed line is reversed;
    /// otherwise only clockwise closed lines are. Afterwards the outermost
    /// closed polygon runs counter-clockwise.
    pub fn fix_orientations(&mut self)
        ensures
            final(self).wf(),
            !final(self).lowest_clockwise(),
            final(self).lowest_view() == old(self).lowest_view(),
            final(self).nodes_view().len() == old(self).nodes_view().len(),
            forall|i: int|
                0 <= i < old(self).nodes_view().len() ==> {
                    let o = #[trigger] old(self).nodes_view()[i];
                    let f = final(self).nodes_view()[i];
                    &&& f.join_type == o.join_type
                    &&& f.end_type == o.end_type
                    &&& f.contour@ == if reverses(
                        old(self).lowest_clockwise(),
                        o.end_type,
                        area2_spec(o.contour@),
                    ) {
                        o.contour@.reverse()
                    } else {
                        o.contour@
                    }
                },
            forall|i: int|
                0 <= i < old(self).nodes_view().len() && (#[trigger] old(self).nodes_view()[i]).end_type
                    == EndType::ClosedPolygon ==> final(self).nodes_view()[i].contour@ == if old(
                    self,
                ).lowest_clockwise() {
                    old(self).nodes_view()[i].contour@.reverse()
                } else {
                    old(self).nodes_view()[i].contour@
                },
            forall|i: int|
                0 <= i < old(self).nodes_view().len() && !closes((#[trigger] old(self).nodes_view()[i]).end_type)
                    ==> final(self).nodes_view()[i].contour@ == old(self).nodes_view()[i].contour@,
            forall|i: int|
                0 <= i < old(self).nodes_view().len() && (#[trigger] old(self).nodes_view()[i]).end_type
                    == EndType::ClosedLine ==> if old(self).lowest_clockwise() {
                    area2_spec(final(self).nodes_view()[i].contour@) <= 0
                } else {
                    area2_spec(final(self).nodes_view()[i].contour@) >= 0
                },
            forall|i: int, j: int|
                0 <= i < old(self).nodes_view().len() && 0 <= j < old(self).nodes_view().len()
                    && (#[trigger] old(self).nodes_view()[i]).end_type == EndType::ClosedPolygon
                    && (#[trigger] old(self).nodes_view()[j]).end_type == EndType::ClosedPolygon
                    ==> area2_spec(final(self).nodes_view()[i].contour@) * area2_spec(
                    final(self).nodes_view()[j].contour@,
                ) == area2_spec(old(self).nodes_view()[i].contour@) * area2_spec(
                    old(self).nodes_view()[j].contour@,
                ),
    {
        proof {
            use_type_invariant(&*self);
        }
        let lowest_cw = match self.lowest {
            Some((a, _)) => !orientation(&self.nodes[a].contour),
            None => false,
        };
        let ghost old_nodes = self.nodes@;
        let n = self.nodes.len();
        let low = self.lowest;
        self.lowest = None;
        let mut nodes: Vec<OffsetPath> = Vec::new();
        std::mem::swap(&mut nodes, &mut self.nodes);
        let mut i: usize = 0;
        while i < n
            invariant
                n == old_nodes.len(),
                nodes@.len() == n,
                low == old(self).lowest,
                old_nodes == old(self).nodes@,
                lowest_cw == old(self).lowest_clockwise(),
                forall|t: int| 0 <= t < n ==> #[trigger] old_nodes[t].contour@.len() <= max_contour_len(),
                i <= n,
                forall|t: int| i <= t < n ==> #[trigger] nodes@[t] == old_nodes[t],
                forall|t: int|
                    0 <= t < i ==> {
                        let o = #[trigger] old_nodes[t];
                        let f = nodes@[t];
                        &&& f.join_type == o.join_type
                        &&& f.end_type == o.end_type
                        &&& f.contour@ == if reverses(lowest_cw, o.end_type, area2_spec(o.contour@)) {
                            o.contour@.reverse()
                        } else {
                            o.contour@
                        }
                    },
            decreases n - i,
        {
            let end_type = nodes[i].end_type;
            assert(nodes@[i as int] == old_nodes[i as int]);
            let flip = if lowest_cw {
                end_type == EndType::ClosedPolygon || (end_type == EndType::ClosedLine
                    && orientation(&nodes[i].contour))
            } else {
                end_type == EndType::ClosedLine && !orientation(&nodes[i].contour)
            };
            if flip {
                reverse_path(&mut nodes[i].contour);
            }
            i += 1;
        }
        proof {
            assert forall|t: int| 0 <= t < n implies #[trigger] nodes@[t].contour@.len()
                <= max_contour_len() by {
                assert(old_nodes[t].contour@.len() <= max_contour_len());
            }
            if let Some((a, _)) = low {
                assert(nodes@[a as int].end_type == old_nodes[a as int].end_type);
                crate::geometry::lemma_area2_reverse(old_nodes[a as int].contour@);
            }
        }
        self.nodes = nodes;
        self.lowest = low;
        proof {
            let fin = self.nodes@;
            assert forall|i: int|
                0 <= i < n && (#[trigger] old_nodes[i]).end_type == EndType::ClosedLine implies if lowest_cw {
                area2_spec(fin[i].contour@) <= 0
            } else {
                area2_spec(fin[i].contour@) >= 0
            } by {
                crate::geometry::lemma_area2_reverse(old_nodes[i].contour@);
            }
            assert forall|i: int, j: int|
                0 <= i < n && 0 <= j < n && (#[trigger] old_nodes[i]).end_type
                    == EndType::ClosedPolygon && (#[trigger] old_nodes[j]).end_type
                    == EndType::ClosedPolygon implies area2_spec(fin[i].contour@) * area2_spec(
                fin[j].contour@,
            ) == area2_spec(old_nodes[i].contour@) * area2_spec(old_nodes[j].contour@) by {
                crate::geometry::lemma_area2_reverse(old_nodes[i].contour@);
                crate::geometry::lemma_area2_reverse(old_nodes[j].contour@);
                let a = area2_spec(old_nodes[i].contour@);
                let b = area2_spec(old_nodes[j].contour@);
                assert((-a) * (-b) == a * b) by (nonlinear_arith);
            }
        }
    }
}

proof fn lemma_lowest_prefix(c: Seq<IntPoint>, p: Seq<IntPoint>, m: int)
    requires
        0 <= m <= p.len(),
        m <= c.len(),
        forall|i: int| 0 <= i < m ==> c[i] == p[i],
    ensures
        lowest_index(c, m) == lowest_index(p, m),
    decreases m,
{
    if m > 1 {
        lemma_lowest_prefix(c, p, m - 1);
        lemma_lowest_index_range(p, m - 1);
    }
}

/// The rectangle that encloses `bounds` with a margin of ten units on
/// every side, as a path: an inward offset is computed as the union of the
/// offset paths with this frame, whose own contour is then dropped.
pub fn offset_frame(bounds: &IntRect) -> (outer: Path)
    requires
        bounds.left - 10 >= i64::MIN,
        bounds.top - 10 >= i64::MIN,
        bounds.right + 10 <= i64::MAX,
        bounds.bottom + 10 <= i64::MAX,
    ensures
        outer@ == seq![
            IntPoint { x: (bounds.left - 10) as i64, y: (bounds.bottom + 10) as i64 },
            IntPoint { x: (bounds.right + 10) as i64, y: (bounds.bottom + 10) as i64 },
            IntPoint { x: (bounds.right + 10) as i64, y: (bounds.top - 10) as i64 },
            IntPoint { x: (bounds.left - 10) as i64, y: (bounds.top - 10) as i64 },
        ],
{
    let mut outer: Path = Vec::new();
    outer.push(IntPoint::new(bounds.left - 10, bounds.bottom + 10));
    outer.push(IntPoint::new(bounds.right + 10, bounds.bottom + 10));
    outer.push(IntPoint::new(bounds.right + 10, bounds.top - 10));
    outer.push(IntPoint::new(bounds.left - 10, bounds.top - 10));
    assert(outer@ =~= seq![
        IntPoint { x: (bounds.left - 10) as i64, y: (bounds.bottom + 10) as i64 },
        IntPoint { x: (bounds.right + 10) as i64, y: (bounds.bottom + 10) as i64 },
        IntPoint { x: (bounds.right + 10) as i64, y: (bounds.top - 10) as i64 },
        IntPoint { x: (bounds.left - 10) as i64, y: (bounds.top - 10) as i64 },
    ]);
    outer
}

} // verus!
