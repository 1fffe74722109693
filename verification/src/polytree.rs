//! The nested result of a clipping run: outer polygons own their holes,
//! holes own the polygons nested inside them, open paths hang off the root.
use vstd::prelude::*;

use crate::types::{EndType, IntPoint, JoinType, Path, Paths};

verus! {

/// Copies a path point by point.
pub fn copy_path(p: &Path) -> (r: Path)
    ensures
        r@ == p@,
{
    let mut r: Path = Vec::new();
    let n = p.len();
    let mut i: usize = 0;
    while i < n
        invariant
            n == p@.len(),
            i <= n,
            r@ == p@.subrange(0, i as int),
        decreases n - i,
    {
        r.push(p[i]);
        i += 1;
        assert(r@ =~= p@.subrange(0, i as int));
    }
    assert(p@.subrange(0, n as int) =~= p@);
    r
}

/// A node of a `PolyTree`: a contour and the ids of its children.
#[derive(Debug)]
pub struct PolyNode {
    pub contour: Path,
    pub childs: Vec<usize>,
    pub parent: Option<usize>,
    pub index: usize,
    pub is_open: bool,
    pub jointype: JoinType,
    pub endtype: EndType,
}

impl PolyNode {
    /// A detached node with an empty contour and no children.
    pub fn new() -> (r: Self)
        ensures
            r.contour@.len() == 0,
            r.childs@.len() == 0,
            r.parent is None,
            r.index == 0,
            !r.is_open,
            r.jointype == JoinType::Square,
            r.endtype == EndType::ClosedPolygon,
    {
        PolyNode {
            contour: Vec::new(),
            childs: Vec::new(),
            parent: None,
            index: 0,
            is_open: false,
            jointype: JoinType::Square,
            endtype: EndType::ClosedPolygon,
        }
    }

    /// Number of children.
    pub fn child_count(&self) -> (r: usize)
        ensures
            r == self.childs@.len(),
    {
        self.childs.len()
    }

    /// The node holds an open path.
    pub fn is_open(&self) -> (r: bool)
        ensures
            r == self.is_open,
    {
        self.is_open
    }

    /// The node's contour.
    pub fn contour(&self) -> (r: &Path)
        ensures
            r@ == self.contour@,
    {
        &self.contour
    }

    /// The ids of the node's children, in order.
    pub fn children(&self) -> (r: &Vec<usize>)
        ensures
            r@ == self.childs@,
    {
        &self.childs
    }

    /// Corner style recorded for the node.
    pub fn join_type(&self) -> (r: JoinType)
        ensures
            r == self.jointype,
    {
        self.jointype
    }

    /// End style recorded for the node.
    pub fn end_type(&self) -> (r: EndType)
        ensures
            r == self.endtype,
    {
        self.endtype
    }
}

impl Default for PolyNode {
    fn default() -> (r: Self)
        ensures
            r.contour@.len() == 0,
            r.childs@.len() == 0,
            r.parent is None,
            !r.is_open,
    {
        PolyNode::new()
    }
}

/// A tree of polygon nodes kept in an arena; node 0 is the root, which
/// holds no contour.
#[derive(Debug)]
pub struct PolyTree {
    pub(crate) nodes: Vec<PolyNode>,
}

/// The links of node `i` agree with those of its parent and children.
pub open spec fn node_links_ok(nodes: Seq<PolyNode>, i: int) -> bool {
    let n = nodes[i];
    &&& (forall|k: int|
        0 <= k < n.childs@.len() ==> {
            let c = #[trigger] n.childs@[k];
            &&& 1 <= c < nodes.len()
            &&& nodes[c as int].parent == Some(i as usize)
            &&& nodes[c as int].index == k
        })
    &&& (n.parent matches Some(p) ==> {
        &&& p < nodes.len()
        &&& n.index < nodes[p as int].childs@.len()
        &&& nodes[p as int].childs@[n.index as int] == i
    })
}

/// The arena is non-empty, the root has no parent and every link is
/// mirrored.
pub open spec fn nodes_wf(nodes: Seq<PolyNode>) -> bool {
    &&& nodes.len() >= 1
    &&& nodes[0].parent is None
    &&& forall|i: int| 0 <= i < nodes.len() ==> #[trigger] node_links_ok(nodes, i)
}

/// Number of ancestors of node `id`, following at most `fuel` parent links.
pub open spec fn ancestor_count(nodes: Seq<PolyNode>, id: int, fuel: nat) -> nat
    decreases fuel,
{
    if fuel == 0 || id < 0 || id >= nodes.len() {
        0
    } else {
        match nodes[id].parent {
            None => 0,
            Some(p) => 1 + ancestor_count(nodes, p as int, (fuel - 1) as nat),
        }
    }
}

/// The next node after `id` that is not a descendant of `id`, in depth
/// first order: its next sibling, or the next sibling of the nearest
/// ancestor that has one (looking at most `fuel` levels up).
pub open spec fn next_sibling_up(nodes: Seq<PolyNode>, id: int, fuel: nat) -> Option<usize>
    decreases fuel,
{
    if fuel == 0 || id < 0 || id >= nodes.len() {
        None
    } else {
        match nodes[id].parent {
            None => None,
            Some(p) => if p >= nodes.len() {
                None
            } else if nodes[id].index + 1 >= nodes[p as int].childs@.len() {
                next_sibling_up(nodes, p as int, (fuel - 1) as nat)
            } else {
                Some(nodes[p as int].childs@[nodes[id].index + 1])
            },
        }
    }
}

/// Which contours a traversal collects.
pub open spec fn wanted(node: PolyNode, closed_only: bool) -> bool {
    node.contour@.len() > 0 && (!closed_only || !node.is_open)
}

/// The contours of the subtree at `id` in depth-first order, going at most
/// `fuel` levels down.
pub open spec fn subtree_contours(nodes: Seq<PolyNode>, id: int, fuel: nat, closed_only: bool) -> Seq<
    Seq<IntPoint>,
>
    decreases fuel, 1int, 0int,
{
    if id < 0 || id >= nodes.len() {
        Seq::empty()
    } else {
        let own = if wanted(nodes[id], closed_only) {
            seq![nodes[id].contour@]
        } else {
            Seq::empty()
        };
        own + children_contours(
            nodes,
            nodes[id].childs@,
            nodes[id].childs@.len() as int,
            fuel,
            closed_only,
        )
    }
}

/// The contours of the subtrees at `ids[..k]`, one after the other, each
/// going at most `fuel - 1` levels down.
pub open spec fn children_contours(
    nodes: Seq<PolyNode>,
    ids: Seq<usize>,
    k: int,
    fuel: nat,
    closed_only: bool,
) -> Seq<Seq<IntPoint>>
    decreases fuel, 0int, k,
{
    if fuel == 0 || k <= 0 || k > ids.len() {
        Seq::empty()
    } else {
        children_contours(nodes, ids, k - 1, fuel, closed_only) + subtree_contours(
            nodes,
            ids[k - 1] as int,
            (fuel - 1) as nat,
            closed_only,
        )
    }
}

/// The open contours among the nodes `ids[..k]`.
pub open spec fn open_contours(nodes: Seq<PolyNode>, ids: Seq<usize>, k: int) -> Seq<Seq<IntPoint>>
    decreases k,
{
    if k <= 0 || k > ids.len() {
        Seq::empty()
    } else {
        open_contours(nodes, ids, k - 1) + if 0 <= ids[k - 1] < nodes.len()
            && nodes[ids[k - 1] as int].is_open {
            seq![nodes[ids[k - 1] as int].contour@]
        } else {
            Seq::empty()
        }
    }
}

/// Every node of the subtree at `id` that has a contour, in depth-first
/// order (going at most `fuel` levels down), as its contour and whether it
/// is open.
pub open spec fn subtree_entries(nodes: Seq<PolyNode>, id: int, fuel: nat) -> Seq<
    (Seq<IntPoint>, bool),
>
    decreases fuel, 1int, 0int,
{
    if id < 0 || id >= nodes.len() {
        Seq::empty()
    } else {
        let own = if nodes[id].contour@.len() > 0 {
            seq![(nodes[id].contour@, nodes[id].is_open)]
        } else {
            Seq::empty()
        };
        own + children_entries(nodes, nodes[id].childs@, nodes[id].childs@.len() as int, fuel)
    }
}

/// The entries of the subtrees at `ids[..k]`, one after the other (see
/// `subtree_entries`).
pub open spec fn children_entries(nodes: Seq<PolyNode>, ids: Seq<usize>, k: int, fuel: nat) -> Seq<
    (Seq<IntPoint>, bool),
>
    decreases fuel, 0int, k,
{
    if fuel == 0 || k <= 0 || k > ids.len() {
        Seq::empty()
    } else {
        children_entries(nodes, ids, k - 1, fuel) + subtree_entries(
            nodes,
            ids[k - 1] as int,
            (fuel - 1) as nat,
        )
    }
}

/// The contours of the entries `es` in order; when `closed_only`, those of
/// open nodes are left out.
pub open spec fn entry_contours(es: Seq<(Seq<IntPoint>, bool)>, closed_only: bool) -> Seq<
    Seq<IntPoint>,
>
    decreases es.len(),
{
    if es.len() == 0 {
        Seq::empty()
    } else {
        entry_contours(es.drop_last(), closed_only) + if !closed_only || !es.last().1 {
            seq![es.last().0]
        } else {
            Seq::empty()
        }
    }
}

/// `entry_contours` of two lists one after the other.
proof fn lemma_entry_contours_add(
    a: Seq<(Seq<IntPoint>, bool)>,
    b: Seq<(Seq<IntPoint>, bool)>,
    closed_only: bool,
)
    ensures
        entry_contours(a + b, closed_only) == entry_contours(a, closed_only) + entry_contours(
            b,
            closed_only,
        ),
    decreases b.len(),
{
    if b.len() == 0 {
        assert(a + b =~= a);
        assert(entry_contours(a, closed_only) + entry_contours(b, closed_only) =~= entry_contours(
            a,
            closed_only,
        ));
    } else {
        assert((a + b).drop_last() =~= a + b.drop_last());
        assert((a + b).last() == b.last());
        lemma_entry_contours_add(a, b.drop_last(), closed_only);
        assert(entry_contours(a + b, closed_only) =~= entry_contours(a, closed_only)
            + entry_contours(b, closed_only));
    }
}

/// The contours a traversal of the subtree at `id` collects are those of
/// its entries, those of open nodes left out when only closed ones are
/// wanted.
proof fn lemma_subtree_entries(nodes: Seq<PolyNode>, id: int, fuel: nat, closed_only: bool)
    ensures
        subtree_contours(nodes, id, fuel, closed_only) == entry_contours(
            subtree_entries(nodes, id, fuel),
            closed_only,
        ),
    decreases fuel, 1int, 0int,
{
    if 0 <= id < nodes.len() {
        let own = if nodes[id].contour@.len() > 0 {
            seq![(nodes[id].contour@, nodes[id].is_open)]
        } else {
            Seq::<(Seq<IntPoint>, bool)>::empty()
        };
        let ids = nodes[id].childs@;
        lemma_children_entries(nodes, ids, ids.len() as int, fuel, closed_only);
        lemma_entry_contours_add(
            own,
            children_entries(nodes, ids, ids.len() as int, fuel),
            closed_only,
        );
        if nodes[id].contour@.len() > 0 {
            assert(own.drop_last() =~= Seq::<(Seq<IntPoint>, bool)>::empty());
            assert(entry_contours(own.drop_last(), closed_only) =~= Seq::<Seq<IntPoint>>::empty());
            assert(own.last() == (nodes[id].contour@, nodes[id].is_open));
            assert(entry_contours(own, closed_only) =~= (if wanted(nodes[id], closed_only) {
                seq![nodes[id].contour@]
            } else {
                Seq::empty()
            }));
        } else {
            assert(entry_contours(own, closed_only) =~= Seq::<Seq<IntPoint>>::empty());
        }
    } else {
        assert(entry_contours(Seq::empty(), closed_only) =~= Seq::<Seq<IntPoint>>::empty());
    }
}

/// See `lemma_subtree_entries`, for the subtrees at `ids[..k]`.
proof fn lemma_children_entries(
    nodes: Seq<PolyNode>,
    ids: Seq<usize>,
    k: int,
    fuel: nat,
    closed_only: bool,
)
    ensures
        children_contours(nodes, ids, k, fuel, closed_only) == entry_contours(
            children_entries(nodes, ids, k, fuel),
            closed_only,
        ),
    decreases fuel, 0int, k,
{
    if fuel == 0 || k <= 0 || k > ids.len() {
        assert(entry_contours(Seq::empty(), closed_only) =~= Seq::<Seq<IntPoint>>::empty());
    } else {
        lemma_children_entries(nodes, ids, k - 1, fuel, closed_only);
        lemma_subtree_entries(nodes, ids[k - 1] as int, (fuel - 1) as nat, closed_only);
        lemma_entry_contours_add(
            children_entries(nodes, ids, k - 1, fuel),
            subtree_entries(nodes, ids[k - 1] as int, (fuel - 1) as nat),
            closed_only,
        );
    }
}

/// What `closed_paths_from_poly_tree` writes is what `poly_tree_to_paths`
/// writes with the contours of open nodes taken out, the order kept: both
/// list the tree's nodes that have a contour in depth-first order
/// (`subtree_entries`), the first all of them, the second the closed ones.
pub proof fn lemma_closed_paths_drop_open(tree: &PolyTree)
    ensures
        subtree_contours(tree.nodes_view(), 0, tree.len(), false) == entry_contours(
            subtree_entries(tree.nodes_view(), 0, tree.len()),
            false,
        ),
        subtree_contours(tree.nodes_view(), 0, tree.len(), true) == entry_contours(
            subtree_entries(tree.nodes_view(), 0, tree.len()),
            true,
        ),
{
    lemma_subtree_entries(tree.nodes_view(), 0, tree.len(), false);
    lemma_subtree_entries(tree.nodes_view(), 0, tree.len(), true);
}

/// The points of each path of a list.
pub open spec fn paths_view(ps: Seq<Path>) -> Seq<Seq<IntPoint>> {
    ps.map_values(|p: Path| p@)
}

/// An arena holding the root alone.
fn root_only() -> (r: Vec<PolyNode>)
    ensures
        nodes_wf(r@),
        r@.len() == 1,
        r@[0].childs@.len() == 0,
        r@[0].contour@.len() == 0,
{
    let mut nodes = Vec::new();
    nodes.push(PolyNode::new());
    assert(node_links_ok(nodes@, 0));
    nodes
}

impl PolyTree {
    /// The nodes of the arena.
    pub closed spec fn nodes_view(&self) -> Seq<PolyNode> {
        self.nodes@
    }

    /// The arena is well formed.
    pub open spec fn wf(&self) -> bool {
        nodes_wf(self.nodes_view())
    }

    /// Every value of the type is well formed.
    #[verifier::type_invariant]
    spec fn inv(self) -> bool {
        nodes_wf(self.nodes@)
    }

    /// Number of nodes, the root included.
    pub open spec fn len(&self) -> nat {
        self.nodes_view().len()
    }

    /// Node `id`.
    pub open spec fn node_spec(&self, id: int) -> PolyNode {
        self.nodes_view()[id]
    }

    /// An empty tree: the root alone.
    pub fn new() -> (r: Self)
        ensures
            r.wf(),
            r.len() == 1,
            r.node_spec(0).childs@.len() == 0,
            r.node_spec(0).contour@.len() == 0,
    {
        let mut nodes = Vec::new();
        nodes.push(PolyNode::new());
        let r = PolyTree { nodes };
        assert(node_links_ok(r.nodes@, 0));
        r
    }

    /// Number of nodes, the root included.
    pub fn node_count(&self) -> (r: usize)
        ensures
            r == self.len(),
    {
        self.nodes.len()
    }

    /// Node `id`.
    pub fn node(&self, id: usize) -> (r: &PolyNode)
        requires
            id < self.len(),
        ensures
            *r == self.node_spec(id as int),
    {
        &self.nodes[id]
    }

    /// Removes every node but the root, which loses its children.
    pub fn clear(&mut self)
        ensures
            final(self).wf(),
            final(self).len() == 1,
            final(self).node_spec(0).childs@.len() == 0,
    {
        let mut nodes = Vec::new();
        nodes.push(PolyNode::new());
        self.nodes = nodes;
        assert(node_links_ok(self.nodes@, 0));
    }

    /// Adds a detached node holding `contour` and returns its id.
    pub fn new_node(&mut self, contour: Path, is_open: bool) -> (r: usize)
        requires
            old(self).len() < usize::MAX,
        ensures
            final(self).wf(),
            r == old(self).len(),
            final(self).len() == old(self).len() + 1,
            forall|i: int| 0 <= i < r ==> final(self).node_spec(i) == old(self).node_spec(i),
            final(self).node_spec(r as int).contour@ == contour@,
            final(self).node_spec(r as int).is_open == is_open,
            final(self).node_spec(r as int).parent is None,
            final(self).node_spec(r as int).childs@.len() == 0,
    {
        proof {
            use_type_invariant(&*self);
        }
        let mut nodes = root_only();
        std::mem::swap(&mut nodes, &mut self.nodes);
        let r = nodes.len();
        let node = PolyNode {
            contour,
            childs: Vec::new(),
            parent: None,
            index: 0,
            is_open,
            jointype: JoinType::Square,
            endtype: EndType::ClosedPolygon,
        };
        let ghost old_nodes = nodes@;
        nodes.push(node);
        assert forall|i: int| 0 <= i < nodes@.len() implies #[trigger] node_links_ok(
            nodes@,
            i,
        ) by {
            if i < r {
                assert(node_links_ok(old_nodes, i));
            }
        }
        self.nodes = nodes;
        r
    }

    /// Makes the detached node `child` the last child of `parent`.
    pub fn add_child(&mut self, parent: usize, child: usize)
        requires
            parent < old(self).len(),
            1 <= child < old(self).len(),
            child != parent,
            old(self).node_spec(child as int).parent is None,
        ensures
            final(self).wf(),
            final(self).len() == old(self).len(),
            final(self).node_spec(parent as int).childs@ == old(self).node_spec(
                parent as int,
            ).childs@.push(child),
            final(self).node_spec(child as int).parent == Some(parent),
            final(self).node_spec(child as int).contour@ == old(self).node_spec(
                child as int,
            ).contour@,
            final(self).node_spec(child as int).childs@ == old(self).node_spec(
                child as int,
            ).childs@,
            final(self).node_spec(parent as int).parent == old(self).node_spec(
                parent as int,
            ).parent,
            forall|i: int|
                0 <= i < old(self).len() && i != parent && i != child ==> final(self).node_spec(i)
                    == old(self).node_spec(i),
            forall|i: int|
                0 <= i < old(self).len() ==> final(self).node_spec(i).contour@ == old(
                    self,
                ).node_spec(i).contour@ && final(self).node_spec(i).is_open == old(self).node_spec(
                    i,
                ).is_open,
    {
        proof {
            use_type_invariant(&*self);
        }
        let mut nodes = root_only();
        std::mem::swap(&mut nodes, &mut self.nodes);
        let ghost old_nodes = nodes@;
        let cnt = nodes[parent].childs.len();
        nodes[child].parent = Some(parent);
        nodes[child].index = cnt;
        nodes[parent].childs.push(child);
        assert forall|i: int| 0 <= i < nodes@.len() implies #[trigger] node_links_ok(
            nodes@,
            i,
        ) by {
            assert(node_links_ok(old_nodes, i));
            let n = nodes@[i];
            assert forall|k: int| 0 <= k < n.childs@.len() implies {
                let c = #[trigger] n.childs@[k];
                &&& 1 <= c < nodes@.len()
                &&& nodes@[c as int].parent == Some(i as usize)
                &&& nodes@[c as int].index == k
            } by {
                let c = n.childs@[k];
                if i != parent as int || k < cnt {
                    assert(c == old_nodes[i].childs@[k]);
                    assert(node_links_ok(old_nodes, c as int));
                    assert(c != child) by {
                        if c == child {
                            assert(old_nodes[c as int].parent == Some(i as usize));
                        }
                    }
                }
            }
            if let Some(pp) = n.parent {
                if i != child as int {
                    assert(old_nodes[i].parent == Some(pp));
                    assert(node_links_ok(old_nodes, pp as int));
                }
            }
        }
        self.nodes = nodes;
    }

    /// The root has exactly one child, and that child has children.
    pub open spec fn has_single_outer(&self) -> bool {
        &&& self.node_spec(0).childs@.len() == 1
        &&& self.node_spec(self.node_spec(0).childs@[0] as int).childs@.len() > 0
    }

    /// Where the root has a single child that has children of its own, the
    /// children of that child become the children of the root and the child
    /// itself is detached; any other tree is cleared.  Offsetting inward
    /// uses this to drop the frame that surrounds its result.
    #[verifier::rlimit(40)]
    pub fn hoist_single_outer(&mut self) -> (hoisted: bool)
        ensures
            final(self).wf(),
            hoisted == old(self).has_single_outer(),
            !hoisted ==> final(self).len() == 1 && final(self).node_spec(0).childs@.len() == 0,
            hoisted ==> {
                let o = old(self).node_spec(0).childs@[0] as int;
                &&& final(self).len() == old(self).len()
                &&& final(self).node_spec(0).childs@ == old(self).node_spec(o).childs@
                &&& final(self).node_spec(o).childs@.len() == 0
                &&& final(self).node_spec(o).parent is None
                &&& forall|i: int|
                    0 <= i < old(self).len() ==> {
                        &&& final(self).node_spec(i).contour@ == old(self).node_spec(i).contour@
                        &&& final(self).node_spec(i).is_open == old(self).node_spec(i).is_open
                    }
                &&& forall|k: int|
                    0 <= k < old(self).node_spec(o).childs@.len() ==> {
                        let c = #[trigger] old(self).node_spec(o).childs@[k] as int;
                        &&& final(self).node_spec(c).parent == Some(0usize)
                        &&& final(self).node_spec(c).childs@ == old(self).node_spec(c).childs@
                    }
                &&& forall|i: int|
                    0 < i < old(self).len() && i != o && old(self).node_spec(i).parent != Some(
                        o as usize,
                    ) ==> #[trigger] final(self).node_spec(i) == old(self).node_spec(i)
            },
    {
        proof {
            use_type_invariant(&*self);
        }
        let ghost old_nodes = self.nodes@;
        // the tree is left with its root alone unless the hoist goes ahead
        let mut nodes = root_only();
        std::mem::swap(&mut nodes, &mut self.nodes);
        if nodes[0].childs.len() != 1 {
            return false;
        }
        let o = nodes[0].childs[0];
        assert(node_links_ok(old_nodes, 0));
        if nodes[o].childs.len() == 0 {
            return false;
        }
        assert(node_links_ok(old_nodes, o as int));
        let n = nodes[o].childs.len();
        let len = nodes.len();
        let mut cs: Vec<usize> = Vec::new();
        let mut k: usize = 0;
        while k < n
            invariant
                1 <= o < old_nodes.len(),
                len == old_nodes.len(),
                nodes@.len() == old_nodes.len(),
                n == old_nodes[o as int].childs@.len(),
                k <= n,
                cs@ == old_nodes[o as int].childs@.subrange(0, k as int),
                nodes_wf(old_nodes),
                node_links_ok(old_nodes, o as int),
                node_links_ok(old_nodes, 0),
                old_nodes[0].childs@.len() == 1,
                old_nodes[0].childs@[0] == o,
                forall|i: int|
                    0 <= i < old_nodes.len() ==> {
                        &&& nodes@[i].childs == old_nodes[i].childs
                        &&& nodes@[i].contour == old_nodes[i].contour
                        &&& nodes@[i].is_open == old_nodes[i].is_open
                        &&& nodes@[i].index == old_nodes[i].index
                        &&& nodes@[i].jointype == old_nodes[i].jointype
                        &&& nodes@[i].endtype == old_nodes[i].endtype
                    },
                forall|i: int|
                    0 <= i < old_nodes.len() ==> #[trigger] nodes@[i].parent == (if
                        old_nodes[i].parent == Some(o) && old_nodes[i].index < k {
                        Some(0usize)
                    } else {
                        old_nodes[i].parent
                    }),
            decreases n - k,
        {
            let c = nodes[o].childs[k];
            assert(old_nodes[o as int].childs@[k as int] == c);
            nodes[c].parent = Some(0);
            cs.push(c);
            k += 1;
            assert forall|i: int| 0 <= i < old_nodes.len() implies #[trigger] nodes@[i].parent
                == (if old_nodes[i].parent == Some(o) && old_nodes[i].index < k {
                Some(0usize)
            } else {
                old_nodes[i].parent
            }) by {
                assert(node_links_ok(old_nodes, i));
            }
            assert(cs@ =~= old_nodes[o as int].childs@.subrange(0, k as int));
        }
        assert(cs@ =~= old_nodes[o as int].childs@);
        let ghost mid = nodes@;
        nodes[o].childs = Vec::new();
        nodes[o].parent = None;
        nodes[0].childs = cs;
        assert forall|i: int| 0 <= i < nodes@.len() implies #[trigger] node_links_ok(
            nodes@,
            i,
        ) by {
            assert(node_links_ok(old_nodes, i));
            let nd = nodes@[i];
            if i == 0 {
                assert forall|kk: int| 0 <= kk < nd.childs@.len() implies {
                    let c = #[trigger] nd.childs@[kk];
                    &&& 1 <= c < nodes@.len()
                    &&& nodes@[c as int].parent == Some(i as usize)
                    &&& nodes@[c as int].index == kk
                } by {
                    let c = nd.childs@[kk];
                    assert(c == old_nodes[o as int].childs@[kk]);
                    assert(node_links_ok(old_nodes, c as int));
                }
            } else if i != o as int {
                assert forall|kk: int| 0 <= kk < nd.childs@.len() implies {
                    let c = #[trigger] nd.childs@[kk];
                    &&& 1 <= c < nodes@.len()
                    &&& nodes@[c as int].parent == Some(i as usize)
                    &&& nodes@[c as int].index == kk
                } by {
                    let c = nd.childs@[kk];
                    assert(c == old_nodes[i].childs@[kk]);
                    assert(node_links_ok(old_nodes, c as int));
                    assert(c != o) by {
                        if c == o {
                            assert(old_nodes[0].childs@[0] == o);
                            assert(node_links_ok(old_nodes, 0));
                            assert(old_nodes[o as int].parent == Some(0usize));
                        }
                    }
                }
                if let Some(pp) = nd.parent {
                    if old_nodes[i].parent == Some(o) {
                        assert(pp == 0);
                        assert(old_nodes[i].index < n);
                        assert(old_nodes[o as int].childs@[old_nodes[i].index as int] == i);
                    } else {
                        assert(old_nodes[i].parent == Some(pp));
                        assert(node_links_ok(old_nodes, pp as int));
                        assert(pp != 0) by {
                            if pp == 0 {
                                assert(old_nodes[0].childs@[old_nodes[i].index as int] == i);
                            }
                        }
                    }
                }
            }
        }
        proof {
            assert forall|i: int|
                0 < i < old_nodes.len() && i != o && old_nodes[i].parent != Some(
                    o as usize,
                ) implies #[trigger] nodes@[i] == old_nodes[i] by {
                assert(nodes@[i] == mid[i]);
                assert(mid[i].parent == old_nodes[i].parent);
            }
            assert forall|kk: int| 0 <= kk < n implies {
                let c = #[trigger] old_nodes[o as int].childs@[kk] as int;
                &&& nodes@[c].parent == Some(0usize)
                &&& nodes@[c].childs@ == old_nodes[c].childs@
            } by {
                let c = old_nodes[o as int].childs@[kk];
                assert(node_links_ok(old_nodes, c as int));
            }
        }
        self.nodes = nodes;
        true
    }

    /// The first child of the root.
    pub fn first(&self) -> (r: Option<&PolyNode>)
        ensures
            self.node_spec(0).childs@.len() == 0 ==> r is None,
            self.node_spec(0).childs@.len() > 0 ==> r == Some(
                &self.node_spec(self.node_spec(0).childs@[0] as int),
            ),
    {
        proof {
            use_type_invariant(&*self);
        }
        if self.nodes[0].childs.len() == 0 {
            None
        } else {
            let id = self.nodes[0].childs[0];
            assert(node_links_ok(self.nodes@, 0));
            Some(&self.nodes[id])
        }
    }

    /// Id of the first child of the root.
    pub fn get_first(&self) -> (r: Option<usize>)
        ensures
            self.node_spec(0).childs@.len() == 0 ==> r is None,
            self.node_spec(0).childs@.len() > 0 ==> r == Some(self.node_spec(0).childs@[0]),
    {
        proof {
            use_type_invariant(&*self);
        }
        if self.nodes[0].childs.len() == 0 {
            None
        } else {
            Some(self.nodes[0].childs[0])
        }
    }

    /// Ids of the root's children.
    pub fn children(&self) -> (r: &Vec<usize>)
        ensures
            r@ == self.node_spec(0).childs@,
    {
        proof {
            use_type_invariant(&*self);
        }
        &self.nodes[0].childs
    }

    /// Id of child `index` of node `id`.
    pub fn child(&self, id: usize, index: usize) -> (r: Option<usize>)
        requires
            id < self.len(),
        ensures
            index < self.node_spec(id as int).childs@.len() ==> r == Some(
                self.node_spec(id as int).childs@[index as int],
            ),
            index >= self.node_spec(id as int).childs@.len() ==> r is None,
    {
        if index < self.nodes[id].childs.len() {
            Some(self.nodes[id].childs[index])
        } else {
            None
        }
    }

    /// Number of nodes that hold a result, the root excluded; a tree whose
    /// root's first child is not the first node made counts one less (the
    /// node that offsetting drops from a negative result).
    pub fn total(&self) -> (r: usize)
        requires
            self.len() > 1 ==> self.node_spec(0).childs@.len() > 0,
        ensures
            r == (if self.len() > 1 && self.node_spec(0).childs@[0] != 1 {
                self.len() - 2
            } else {
                self.len() - 1
            }),
    {
        proof {
            use_type_invariant(&*self);
        }
        let mut result = self.nodes.len() - 1;
        if result > 0 && self.nodes[0].childs[0] != 1 {
            result -= 1;
        }
        result
    }

    /// A node with an even number of ancestors is a hole; the root is one,
    /// its children are outer polygons.
    pub fn is_hole(&self, id: usize) -> (r: bool)
        requires
            id < self.len(),
        ensures
            r == (ancestor_count(self.nodes_view(), id as int, self.len()) % 2 == 0),
    {
        proof {
            use_type_invariant(&*self);
        }
        let n = self.nodes.len();
        let mut result = true;
        let mut node = id;
        let mut fuel = n;
        while fuel > 0 && self.nodes[node].parent.is_some()
            invariant
                n == self.nodes@.len(),
                nodes_wf(self.nodes@),
                node < n,
                fuel <= n,
                (ancestor_count(self.nodes@, id as int, n as nat) % 2 == 0) == (result
                    == (ancestor_count(self.nodes@, node as int, fuel as nat) % 2 == 0)),
            decreases fuel,
        {
            let p = self.nodes[node].parent.unwrap();
            assert(node_links_ok(self.nodes@, node as int));
            result = !result;
            node = p;
            fuel -= 1;
        }
        result
    }

    /// The next node after `id` in depth-first order that is not below it
    /// (see `next_sibling_up`).
    pub fn get_next_sibling_up(&self, id: usize) -> (r: Option<usize>)
        requires
            id < self.len(),
        ensures
            r == next_sibling_up(self.nodes_view(), id as int, self.len()),
    {
        proof {
            use_type_invariant(&*self);
        }
        let n = self.nodes.len();
        let mut node = id;
        let mut fuel = n;
        while fuel > 0
            invariant
                n == self.nodes@.len(),
                nodes_wf(self.nodes@),
                node < n,
                fuel <= n,
                next_sibling_up(self.nodes@, id as int, n as nat) == next_sibling_up(
                    self.nodes@,
                    node as int,
                    fuel as nat,
                ),
            decreases fuel,
        {
            match self.nodes[node].parent {
                None => {
                    return None;
                },
                Some(p) => {
                    assert(node_links_ok(self.nodes@, node as int));
                    let idx = self.nodes[node].index;
                    assert(idx < self.nodes@[p as int].childs@.len());
                    if idx == self.nodes[p].childs.len() - 1 {
                        node = p;
                        fuel -= 1;
                    } else {
                        return Some(self.nodes[p].childs[idx + 1]);
                    }
                },
            }
        }
        None
    }

    /// The node after `id` in depth-first order: its first child, or else
    /// the next node not below it.
    pub fn get_next(&self, id: usize) -> (r: Option<usize>)
        requires
            id < self.len(),
        ensures
            self.node_spec(id as int).childs@.len() > 0 ==> r == Some(
                self.node_spec(id as int).childs@[0],
            ),
            self.node_spec(id as int).childs@.len() == 0 ==> r == next_sibling_up(
                self.nodes_view(),
                id as int,
                self.len(),
            ),
    {
        proof {
            use_type_invariant(&*self);
        }
        if self.nodes[id].childs.len() > 0 {
            Some(self.nodes[id].childs[0])
        } else {
            self.get_next_sibling_up(id)
        }
    }
}

impl Default for PolyTree {
    fn default() -> (r: Self)
        ensures
            r.wf(),
            r.len() == 1,
    {
        PolyTree::new()
    }
}


proof fn lemma_paths_view_push(ps: Seq<Path>, p: Path)
    ensures
        paths_view(ps.push(p)) == paths_view(ps).push(p@),
{
    assert(paths_view(ps.push(p)) =~= paths_view(ps).push(p@));
}

/// Appends to `paths` the wanted contours of the subtree at `id`.
fn add_poly_node_to_paths(
    tree: &PolyTree,
    id: usize,
    fuel: usize,
    closed_only: bool,
    paths: &mut Paths,
)
    requires
        tree.wf(),
        id < tree.len(),
    ensures
        paths_view(final(paths)@) == paths_view(old(paths)@) + subtree_contours(
            tree.nodes_view(),
            id as int,
            fuel as nat,
            closed_only,
        ),
    decreases fuel,
{
    let ghost nodes = tree.nodes@;
    let ghost start = paths_view(paths@);
    let node = &tree.nodes[id];
    let ghost own = if wanted(nodes[id as int], closed_only) {
        seq![nodes[id as int].contour@]
    } else {
        Seq::<Seq<IntPoint>>::empty()
    };
    if node.contour.len() > 0 && (!closed_only || !node.is_open) {
        let c = copy_path(&node.contour);
        proof {
            lemma_paths_view_push(paths@, c);
        }
        paths.push(c);
    }
    assert(paths_view(paths@) =~= start + own);
    let childs = &node.childs;
    let n = childs.len();
    proof {
        assert(node_links_ok(nodes, id as int));
    }
    let mut k: usize = 0;
    while k < n
        invariant
            tree.wf(),
            nodes == tree.nodes@,
            id < nodes.len(),
            childs@ == nodes[id as int].childs@,
            n == childs@.len(),
            node_links_ok(nodes, id as int),
            k <= n,
            paths_view(paths@) == start + own + children_contours(
                nodes,
                childs@,
                k as int,
                fuel as nat,
                closed_only,
            ),
        decreases n - k,
    {
        let c = childs[k];
        assert(1 <= c < nodes.len());
        if fuel > 0 {
            add_poly_node_to_paths(tree, c, fuel - 1, closed_only, paths);
        }
        k += 1;
        assert(children_contours(nodes, childs@, k as int, fuel as nat, closed_only)
            =~= children_contours(nodes, childs@, k - 1, fuel as nat, closed_only) + (if fuel > 0 {
            subtree_contours(nodes, c as int, (fuel - 1) as nat, closed_only)
        } else {
            Seq::empty()
        }));
        assert(paths_view(paths@) =~= start + own + children_contours(
            nodes,
            childs@,
            k as int,
            fuel as nat,
            closed_only,
        ));
    }
}

/// Writes into `paths` every contour of the tree in depth-first order:
/// the contours of the tree's entries (`subtree_entries`), all of them.
pub fn poly_tree_to_paths(polytree: &PolyTree, paths: &mut Paths)
    ensures
        paths_view(final(paths)@) == subtree_contours(
            polytree.nodes_view(),
            0,
            polytree.len(),
            false,
        ),
        paths_view(final(paths)@) == entry_contours(
            subtree_entries(polytree.nodes_view(), 0, polytree.len()),
            false,
        ),
{
    proof {
        use_type_invariant(polytree);
        lemma_closed_paths_drop_open(polytree);
    }
    paths.clear();
    assert(paths_view(paths@) =~= Seq::empty());
    add_poly_node_to_paths(polytree, 0, polytree.nodes.len(), false, paths);
    assert(paths_view(paths@) =~= subtree_contours(polytree.nodes@, 0, polytree.len(), false));
}

/// Writes into `paths` every closed contour of the tree in depth-first
/// order: the contours of the tree's entries (`subtree_entries`) with those
/// of open nodes taken out, the order kept; that is, what
/// `poly_tree_to_paths` writes without the open nodes' contours
/// (`lemma_closed_paths_drop_open`).
/// order.
pub fn closed_paths_from_poly_tree(polytree: &PolyTree, paths: &mut Paths)
    ensures
        paths_view(final(paths)@) == subtree_contours(
            polytree.nodes_view(),
            0,
            polytree.len(),
            true,
        ),
        paths_view(final(paths)@) == entry_contours(
            subtree_entries(polytree.nodes_view(), 0, polytree.len()),
            true,
        ),
{
    proof {
        use_type_invariant(polytree);
        lemma_closed_paths_drop_open(polytree);
    }
    paths.clear();
    assert(paths_view(paths@) =~= Seq::empty());
    add_poly_node_to_paths(polytree, 0, polytree.nodes.len(), true, paths);
    assert(paths_view(paths@) =~= subtree_contours(polytree.nodes@, 0, polytree.len(), true));
}

/// Writes into `paths` the open contours held by the root's children, in
/// order.
pub fn open_paths_from_poly_tree(polytree: &PolyTree, paths: &mut Paths)
    ensures
        paths_view(final(paths)@) == open_contours(
            polytree.nodes_view(),
            polytree.node_spec(0).childs@,
            polytree.node_spec(0).childs@.len() as int,
        ),
{
    proof {
        use_type_invariant(polytree);
    }
    paths.clear();
    let ghost nodes = polytree.nodes@;
    let childs = &polytree.nodes[0].childs;
    let n = childs.len();
    proof {
        assert(node_links_ok(nodes, 0));
    }
    let mut k: usize = 0;
    while k < n
        invariant
            polytree.wf(),
            nodes == polytree.nodes@,
            childs@ == nodes[0].childs@,
            n == childs@.len(),
            node_links_ok(nodes, 0),
            k <= n,
            paths_view(paths@) == open_contours(nodes, childs@, k as int),
        decreases n - k,
    {
        let c = childs[k];
        assert(1 <= c < nodes.len());
        if polytree.nodes[c].is_open {
            let p = copy_path(&polytree.nodes[c].contour);
            proof {
                lemma_paths_view_push(paths@, p);
            }
            paths.push(p);
        }
        k += 1;
        assert(paths_view(paths@) =~= open_contours(nodes, childs@, k as int));
    }
}

} // verus!
