//! Selecting the nodes of one level that a view can see.
//!
//! Node rectangles are measured on a fixed grid: the root covers the square
//! from (0, 0) with edge `GRID_EXTENT`, and every child covers one quarter of
//! its parent. A view is any function that classifies such a rectangle.

use vstd::prelude::*;
use vstd::string::*;
use crate::error::PointsViewerError;
use crate::meta::Meta;
use crate::region::Relation;
use crate::node_id::{NodeId, MAX_LEVEL, lemma_name_round_trip, lemma_name_injective, spec_parse_name};

verus! {

/// How many entries a view matrix has: four rows of four.
pub const MATRIX_ENTRIES: usize = 16;

/// Edge length of the root rectangle, in grid units.
pub const GRID_EXTENT: u64 = 0x1_0000_0000;

/// A square on the grid: its lower corner and its edge length.
#[derive(Clone, Copy, Debug, PartialEq, Eq, Structural)]
pub struct BoundingRect {
    pub min_x: u64,
    pub min_y: u64,
    pub edge_length: u64,
}

/// A node together with the square it covers.
#[derive(Clone, Copy, Debug, PartialEq, Eq, Structural)]
pub struct Node {
    pub id: NodeId,
    pub bounding_rect: BoundingRect,
}

/// A selected node as it is reported: its name and the square it covers.
#[derive(Debug)]
pub struct NodeMeta {
    pub id: String,
    pub bounding_rect: BoundingRect,
}

impl BoundingRect {
    /// The square of the root.
    pub open spec fn spec_root() -> BoundingRect {
        BoundingRect { min_x: 0, min_y: 0, edge_length: GRID_EXTENT }
    }

    /// The quarter that child `c` covers: half the edge, moved up by half
    /// an edge in y when bit 0 of `c` is set and in x when bit 1 is set.
    pub open spec fn spec_child(self, c: u8) -> BoundingRect {
        let half = self.edge_length / 2;
        BoundingRect {
            min_x: if c / 2 == 1 {
                (self.min_x + half) as u64
            } else {
                self.min_x
            },
            min_y: if c % 2 == 1 {
                (self.min_y + half) as u64
            } else {
                self.min_y
            },
            edge_length: half,
        }
    }

    /// The square lies on the grid.
    pub open spec fn in_grid(self) -> bool {
        self.min_x + self.edge_length <= GRID_EXTENT && self.min_y + self.edge_length <= GRID_EXTENT
    }

    /// Every point of `self` is a point of `other`.
    pub open spec fn inside(self, other: BoundingRect) -> bool {
        &&& other.min_x <= self.min_x
        &&& other.min_y <= self.min_y
        &&& self.min_x + self.edge_length <= other.min_x + other.edge_length
        &&& self.min_y + self.edge_length <= other.min_y + other.edge_length
    }

    /// The square of child `c` (0 to 3). It lies inside its parent.
    pub fn get_child(&self, c: u8) -> (r: BoundingRect)
        requires
            self.in_grid(),
            c < 4,
        ensures
            r == self.spec_child(c),
            r.inside(*self),
            r.in_grid(),
    {
        let half = self.edge_length / 2;
        let min_x = if c / 2 == 1 {
            self.min_x + half
        } else {
            self.min_x
        };
        let min_y = if c % 2 == 1 {
            self.min_y + half
        } else {
            self.min_y
        };
        BoundingRect { min_x, min_y, edge_length: half }
    }
}

/// The square that node `id` covers.
pub open spec fn spec_rect(id: NodeId) -> BoundingRect
    decreases id.level,
{
    if id.level == 0 {
        BoundingRect::spec_root()
    } else {
        spec_rect(id.spec_parent()).spec_child((id.index % 4) as u8)
    }
}

/// The ancestor of `id` at `level`; `id` itself when it is not below `level`.
pub open spec fn spec_ancestor(id: NodeId, level: u8) -> NodeId
    decreases id.level,
{
    if id.level <= level {
        id
    } else {
        spec_ancestor(id.spec_parent(), level)
    }
}

/// `id` is `top` or lies below it.
pub open spec fn spec_descends(id: NodeId, top: NodeId) -> bool {
    id.level >= top.level && spec_ancestor(id, top.level) == top
}

/// The view may answer something other than `Out` for `rect`.
pub open spec fn spec_may_pass<F: Fn(BoundingRect) -> Relation>(view: F, rect: BoundingRect) -> bool {
    exists|r: Relation| #[trigger] view.ensures((rect,), r) && r != Relation::Out
}

/// The view may answer `Out` for `rect`.
pub open spec fn spec_may_cull<F: Fn(BoundingRect) -> Relation>(view: F, rect: BoundingRect) -> bool {
    view.ensures((rect,), Relation::Out)
}

/// `id` and each of its ancestors holds data and has a square that the view
/// may see.
pub open spec fn spec_visible<F: Fn(BoundingRect) -> Relation>(nodes: Set<NodeId>, view: F, id: NodeId) -> bool
    decreases id.level,
{
    &&& nodes.contains(id)
    &&& spec_may_pass(view, spec_rect(id))
    &&& (id.level == 0 || spec_visible(nodes, view, id.spec_parent()))
}

/// `id` or one of its ancestors holds no data or has a square that the view
/// may rule out.
pub open spec fn spec_blocked<F: Fn(BoundingRect) -> Relation>(nodes: Set<NodeId>, view: F, id: NodeId) -> bool
    decreases id.level,
{
    ||| !nodes.contains(id)
    ||| spec_may_cull(view, spec_rect(id))
    ||| (id.level > 0 && spec_blocked(nodes, view, id.spec_parent()))
}

/// Some entry of `items` from position `from` on is the node `id`.
pub open spec fn spec_listed(items: Seq<Node>, from: int, id: NodeId) -> bool {
    exists|i: int| from <= i < items.len() && (#[trigger] items[i]).id == id
}

/// Some entry of `items` carries the name of `id`.
pub open spec fn spec_named(items: Seq<NodeMeta>, id: NodeId) -> bool {
    exists|i: int| 0 <= i < items.len() && (#[trigger] items[i]).id@ == id.spec_name()
}

/// The square of every node lies on the grid.
pub proof fn lemma_rect_in_grid(id: NodeId)
    ensures
        spec_rect(id).in_grid(),
    decreases id.level,
{
    if id.level > 0 {
        lemma_rect_in_grid(id.spec_parent());
    }
}

/// The ancestor at a level is at that level, for a node at or below it, and
/// is valid when the node is.
pub proof fn lemma_ancestor_level(id: NodeId, level: u8)
    requires
        id.level >= level,
    ensures
        spec_ancestor(id, level).level == level,
        id.wf() ==> spec_ancestor(id, level).wf(),
    decreases id.level,
{
    if id.level > level {
        if id.wf() {
            crate::node_id::lemma_capacity((id.level - 1) as nat);
        }
        lemma_ancestor_level(id.spec_parent(), level);
    }
}

/// Going up to `mid` and from there to `low` is going up to `low`.
pub proof fn lemma_ancestor_twice(id: NodeId, mid: u8, low: u8)
    requires
        low <= mid,
    ensures
        spec_ancestor(spec_ancestor(id, mid), low) == spec_ancestor(id, low),
    decreases id.level,
{
    if id.level > mid {
        lemma_ancestor_twice(id.spec_parent(), mid, low);
    }
}

/// What lies below a node lies below that node's ancestors.
pub proof fn lemma_descends_transitive(id: NodeId, mid: NodeId, top: NodeId)
    requires
        spec_descends(id, mid),
        spec_descends(mid, top),
    ensures
        spec_descends(id, top),
{
    lemma_ancestor_twice(id, mid.level, top.level);
}

/// A node that lies strictly below `top` lies below exactly that child of
/// `top` which its ancestor one level under `top` is.
pub proof fn lemma_descends_child(id: NodeId, top: NodeId)
    requires
        spec_descends(id, top),
        id.level > top.level,
        top.level < MAX_LEVEL,
        top.wf(),
    ensures
        spec_ancestor(id, (top.level + 1) as u8).index % 4 < 4,
        spec_descends(id, top.spec_child((spec_ancestor(id, (top.level + 1) as u8).index % 4) as u8)),
{
    let below = spec_ancestor(id, (top.level + 1) as u8);
    lemma_ancestor_level(id, (top.level + 1) as u8);
    lemma_ancestor_twice(id, (top.level + 1) as u8, top.level);
    assert(spec_ancestor(below, top.level) == spec_ancestor(below.spec_parent(), top.level));
    assert(below.spec_parent() == top);
    crate::node_id::lemma_capacity(top.level as nat);
    crate::node_id::lemma_capacity((top.level + 1) as nat);
    assert(below == top.spec_child((below.index % 4) as u8));
}

/// The squares nest: a node's square lies inside the square of each node it
/// lies below.
pub proof fn lemma_descendant_inside(id: NodeId, top: NodeId)
    requires
        spec_descends(id, top),
    ensures
        spec_rect(id).inside(spec_rect(top)),
    decreases id.level,
{
    if id.level > top.level {
        lemma_descendant_inside(id.spec_parent(), top);
        lemma_rect_in_grid(id.spec_parent());
    }
}

/// Pruning loses nothing: once a node is blocked, so is all that lies below it.
pub proof fn lemma_blocked_descends<F: Fn(BoundingRect) -> Relation>(
    nodes: Set<NodeId>,
    view: F,
    id: NodeId,
    top: NodeId,
)
    requires
        spec_descends(id, top),
        spec_blocked(nodes, view, top),
    ensures
        spec_blocked(nodes, view, id),
    decreases id.level,
{
    if id.level > top.level {
        lemma_blocked_descends(nodes, view, id.spec_parent(), top);
    }
}

/// The view gives each square one answer only.
pub open spec fn spec_single_valued<F: Fn(BoundingRect) -> Relation>(view: F) -> bool {
    forall|b: BoundingRect, r1: Relation, r2: Relation|
        #[trigger] view.ensures((b,), r1) && #[trigger] view.ensures((b,), r2) ==> r1 == r2
}

/// A node cannot be both visible and blocked when the view gives each square
/// one answer only.
pub proof fn lemma_visible_not_blocked<F: Fn(BoundingRect) -> Relation>(nodes: Set<NodeId>, view: F, id: NodeId)
    requires
        spec_single_valued(view),
        spec_visible(nodes, view, id),
    ensures
        !spec_blocked(nodes, view, id),
    decreases id.level,
{
    if id.level > 0 {
        lemma_visible_not_blocked(nodes, view, id.spec_parent());
    }
}

/// Accepts a view matrix by the number of its entries: anything but sixteen
/// is invalid input.
pub fn validate_matrix_entries(count: usize) -> (r: Result<(), PointsViewerError>)
    ensures
        count == MATRIX_ENTRIES ==> r == Ok::<(), PointsViewerError>(()),
        count != MATRIX_ENTRIES ==> r == Err::<(), PointsViewerError>(PointsViewerError::InvalidInput),
{
    if count == MATRIX_ENTRIES {
        Ok(())
    } else {
        Err(PointsViewerError::InvalidInput)
    }
}

/// What holds of the entries of `items` from position `from` on, when they
/// were selected under `top` for `level`.
pub open spec fn spec_selected<F: Fn(BoundingRect) -> Relation>(
    nodes: Set<NodeId>,
    view: F,
    items: Seq<Node>,
    from: int,
    top: NodeId,
    level: u8,
) -> bool {
    &&& forall|i: int|
        from <= i < items.len() ==> {
            let n = #[trigger] items[i];
            &&& n.id.wf()
            &&& n.id.level == level
            &&& spec_descends(n.id, top)
            &&& spec_visible(nodes, view, n.id)
            &&& n.bounding_rect == spec_rect(n.id)
        }
    &&& forall|i: int, j: int| from <= i < j < items.len() ==> (#[trigger] items[i]).id != (#[trigger] items[j]).id
}

impl Meta {
    /// Walks the subtree under `id` depth first and appends to `out` the
    /// visible nodes of `level` in it.
    fn collect<F: Fn(BoundingRect) -> Relation>(
        &self,
        id: NodeId,
        rect: BoundingRect,
        level: u8,
        view: &F,
        out: &mut Vec<Node>,
    )
        requires
            id.wf(),
            rect == spec_rect(id),
            id.level <= level,
            forall|b: BoundingRect| b.in_grid() ==> #[trigger] view.requires((b,)),
            id.level == 0 || spec_visible(self.node_set(), *view, id.spec_parent()),
        ensures
            final(out)@.len() >= old(out)@.len(),
            final(out)@.subrange(0, old(out)@.len() as int) == old(out)@,
            spec_selected(self.node_set(), *view, final(out)@, old(out)@.len() as int, id, level),
            forall|t: NodeId|
                t.wf() && t.level == level && #[trigger] spec_descends(t, id) ==> spec_listed(
                    final(out)@,
                    old(out)@.len() as int,
                    t,
                ) || spec_blocked(self.node_set(), *view, t),
        decreases level - id.level,
    {
        let ghost nodes = self.node_set();
        let ghost start = out@.len() as int;
        proof {
            lemma_rect_in_grid(id);
            assert(out@.subrange(0, start) =~= out@);
        }
        let relation = view(rect);
        if relation == Relation::Out || !self.contains(&id) {
            proof {
                assert(spec_blocked(nodes, *view, id));
                assert forall|t: NodeId| t.wf() && t.level == level && #[trigger] spec_descends(t, id) implies spec_blocked(
                    nodes,
                    *view,
                    t,
                ) by {
                    lemma_blocked_descends(nodes, *view, t, id);
                }
            }
            return ;
        }
        assert(spec_visible(nodes, *view, id));
        if id.level == level {
            out.push(Node { id, bounding_rect: rect });
            proof {
                assert(out@[start].id == id);
                assert(out@.subrange(0, start) =~= old(out)@);
            }
            return ;
        }
        if id.level >= MAX_LEVEL {
            return ;
        }
        let mut k: u8 = 0;
        while k < 4
            invariant
                k <= 4,
                id.wf(),
                id.level < level,
                id.level < MAX_LEVEL,
                rect == spec_rect(id),
                rect.in_grid(),
                nodes == self.node_set(),
                start == old(out)@.len(),
                forall|b: BoundingRect| b.in_grid() ==> #[trigger] view.requires((b,)),
                spec_visible(nodes, *view, id),
                out@.len() >= start,
                out@.subrange(0, start) == old(out)@,
                spec_selected(nodes, *view, out@, start, id, level),
                forall|i: int|
                    start <= i < out@.len() ==> spec_ancestor((#[trigger] out@[i]).id, (id.level + 1) as u8).index % 4
                        >= 4 - k,
                forall|t: NodeId|
                    t.wf() && t.level == level && #[trigger] spec_descends(t, id) && spec_ancestor(
                        t,
                        (id.level + 1) as u8,
                    ).index % 4 >= 4 - k ==> spec_listed(out@, start, t) || spec_blocked(nodes, *view, t),
            decreases 4 - k,
        {
            let c: u8 = 3 - k;
            let child = id.get_child_id(c);
            let child_rect = rect.get_child(c);
            let ghost before = out@;
            let ghost mid = out@.len() as int;
            proof {
                crate::node_id::lemma_capacity(id.level as nat);
                assert(child.index % 4 == c);
                assert(child_rect == spec_rect(child));
            }
            self.collect(child, child_rect, level, view, out);
            proof {
                let after = out@;
                assert(spec_ancestor(child, id.level) == spec_ancestor(child.spec_parent(), id.level));
                assert(spec_descends(child, id));
                assert(after.subrange(0, start) =~= before.subrange(0, start));
                assert forall|i: int| start <= i < mid implies after[i] == before[i] by {
                    assert(after.subrange(0, mid)[i] == before[i]);
                }
                assert forall|i: int| mid <= i < after.len() implies spec_descends((#[trigger] after[i]).id, id)
                    && spec_ancestor(after[i].id, (id.level + 1) as u8) == child by {
                    lemma_descends_transitive(after[i].id, child, id);
                }
                assert forall|t: NodeId|
                    t.wf() && t.level == level && #[trigger] spec_descends(t, id) && spec_ancestor(
                        t,
                        (id.level + 1) as u8,
                    ).index % 4 >= 4 - (k + 1) implies spec_listed(after, start, t) || spec_blocked(nodes, *view, t) by {
                    if spec_ancestor(t, (id.level + 1) as u8).index % 4 >= 4 - k {
                        if spec_listed(before, start, t) {
                            let i = choose|i: int| start <= i < before.len() && (#[trigger] before[i]).id == t;
                            assert(after[i].id == t);
                        }
                    } else {
                        lemma_descends_child(t, id);
                        assert(spec_descends(t, child));
                        if spec_listed(after, mid, t) {
                            let i = choose|i: int| mid <= i < after.len() && (#[trigger] after[i]).id == t;
                            assert(after[i].id == t);
                        }
                    }
                }
            }
            k = k + 1;
        }
    }

    /// The nodes of `level` that the view can see: those that hold data and
    /// whose square the view does not rule out, and of whose ancestors the
    /// same is true. Each is given once, with its square; the order is not
    /// fixed. Whatever is not given is blocked at itself or at an ancestor.
    pub fn nodes_at_level<F: Fn(BoundingRect) -> Relation>(&self, level: u8, view: &F) -> (r: Vec<Node>)
        requires
            forall|b: BoundingRect| b.in_grid() ==> #[trigger] view.requires((b,)),
        ensures
            forall|i: int|
                0 <= i < r@.len() ==> {
                    let n = #[trigger] r@[i];
                    &&& n.id.wf()
                    &&& n.id.level == level
                    &&& self.node_set().contains(n.id)
                    &&& spec_visible(self.node_set(), *view, n.id)
                    &&& n.bounding_rect == spec_rect(n.id)
                },
            forall|i: int, j: int| 0 <= i < j < r@.len() ==> (#[trigger] r@[i]).id != (#[trigger] r@[j]).id,
            forall|t: NodeId|
                #![trigger spec_blocked(self.node_set(), *view, t)]
                #![trigger spec_listed(r@, 0, t)]
                t.wf() && t.level == level ==> spec_listed(r@, 0, t) || spec_blocked(self.node_set(), *view, t),
            spec_single_valued(*view) ==> forall|t: NodeId|
                #![trigger spec_visible(self.node_set(), *view, t)]
                #![trigger spec_listed(r@, 0, t)]
                t.wf() && t.level == level ==> (spec_listed(r@, 0, t) <==> spec_visible(self.node_set(), *view, t)),
    {
        let mut out: Vec<Node> = Vec::new();
        let root = NodeId::root();
        let rect = BoundingRect { min_x: 0, min_y: 0, edge_length: GRID_EXTENT };
        self.collect(root, rect, level, view, &mut out);
        proof {
            assert forall|t: NodeId| t.wf() && t.level == level implies spec_listed(out@, 0, t) || spec_blocked(
                self.node_set(),
                *view,
                t,
            ) by {
                lemma_ancestor_level(t, 0);
                lemma_root_is_top(t);
                assert(spec_descends(t, root));
            }
            if spec_single_valued(*view) {
                assert forall|t: NodeId| t.wf() && t.level == level implies (spec_listed(out@, 0, t) <==> spec_visible(
                    self.node_set(),
                    *view,
                    t,
                )) by {
                    if spec_visible(self.node_set(), *view, t) {
                        lemma_visible_not_blocked(self.node_set(), *view, t);
                    }
                    if spec_listed(out@, 0, t) {
                        let i = choose|i: int| 0 <= i < out@.len() && (#[trigger] out@[i]).id == t;
                        assert(spec_visible(self.node_set(), *view, out@[i].id));
                    }
                }
            }
        }
        out
    }

    /// The nodes of `level` that the view can see, each reported under its
    /// name. The selection is that of `nodes_at_level`.
    pub fn get_nodes_for_level<F: Fn(BoundingRect) -> Relation>(&self, level: u8, view: &F) -> (r: Vec<NodeMeta>)
        requires
            forall|b: BoundingRect| b.in_grid() ==> #[trigger] view.requires((b,)),
        ensures
            forall|i: int|
                0 <= i < r@.len() ==> {
                    let id = spec_parse_name((#[trigger] r@[i]).id@);
                    &&& id is Some
                    &&& id.unwrap().wf()
                    &&& id.unwrap().level == level
                    &&& r@[i].id@ == id.unwrap().spec_name()
                    &&& self.node_set().contains(id.unwrap())
                    &&& spec_visible(self.node_set(), *view, id.unwrap())
                    &&& r@[i].bounding_rect == spec_rect(id.unwrap())
                },
            forall|i: int, j: int| 0 <= i < j < r@.len() ==> (#[trigger] r@[i]).id@ != (#[trigger] r@[j]).id@,
            forall|t: NodeId|
                #![trigger spec_blocked(self.node_set(), *view, t)]
                #![trigger spec_named(r@, t)]
                t.wf() && t.level == level ==> spec_named(r@, t) || spec_blocked(self.node_set(), *view, t),
            spec_single_valued(*view) ==> forall|t: NodeId|
                #![trigger spec_visible(self.node_set(), *view, t)]
                #![trigger spec_named(r@, t)]
                t.wf() && t.level == level ==> (spec_named(r@, t) <==> spec_visible(self.node_set(), *view, t)),
    {
        let found = self.nodes_at_level(level, view);
        let mut out: Vec<NodeMeta> = Vec::new();
        let mut i: usize = 0;
        while i < found.len()
            invariant
                i <= found.len(),
                out@.len() == i,
                forall|j: int| 0 <= j < found@.len() ==> (#[trigger] found@[j]).id.wf(),
                forall|j: int|
                    0 <= j < i ==> (#[trigger] out@[j]).id@ == found@[j].id.spec_name() && out@[j].bounding_rect
                        == found@[j].bounding_rect,
            decreases found.len() - i,
        {
            out.push(NodeMeta { id: found[i].id.to_string(), bounding_rect: found[i].bounding_rect });
            i = i + 1;
        }
        proof {
            assert forall|j: int| 0 <= j < out@.len() implies spec_parse_name((#[trigger] out@[j]).id@) == Some(
                found@[j].id,
            ) by {
                lemma_name_round_trip(found@[j].id);
            }
            assert forall|a: int, b: int| 0 <= a < b < out@.len() implies (#[trigger] out@[a]).id@ != (
            #[trigger] out@[b]).id@ by {
                if out@[a].id@ == out@[b].id@ {
                    lemma_name_injective(found@[a].id, found@[b].id);
                }
            }
            assert forall|t: NodeId| t.wf() && t.level == level implies spec_named(out@, t) || spec_blocked(
                self.node_set(),
                *view,
                t,
            ) by {
                if spec_listed(found@, 0, t) {
                    let j = choose|j: int| 0 <= j < found@.len() && (#[trigger] found@[j]).id == t;
                    assert(out@[j].id@ == t.spec_name());
                }
            }
            if spec_single_valued(*view) {
                assert forall|t: NodeId| t.wf() && t.level == level implies (spec_named(out@, t) <==> spec_visible(
                    self.node_set(),
                    *view,
                    t,
                )) by {
                    if spec_visible(self.node_set(), *view, t) {
                        lemma_visible_not_blocked(self.node_set(), *view, t);
                    }
                    if spec_named(out@, t) {
                        let j = choose|j: int| 0 <= j < out@.len() && (#[trigger] out@[j]).id@ == t.spec_name();
                        lemma_name_injective(found@[j].id, t);
                    }
                }
            }
        }
        out
    }
}

/// In a well-formed description no level below the deepest one holds a
/// visible node, whatever the view.
pub proof fn lemma_nothing_below_deepest<F: Fn(BoundingRect) -> Relation>(meta: Meta, view: F, id: NodeId)
    requires
        meta.wf(),
        id.level > meta.deepest_level,
    ensures
        !meta.node_set().contains(id),
        !spec_visible(meta.node_set(), view, id),
        spec_blocked(meta.node_set(), view, id),
{
}

/// Every node lies below the root.
pub proof fn lemma_root_is_top(id: NodeId)
    requires
        id.wf(),
    ensures
        spec_ancestor(id, 0) == (NodeId { level: 0, index: 0 }),
    decreases id.level,
{
    if id.level > 0 {
        crate::node_id::lemma_capacity((id.level - 1) as nat);
        lemma_root_is_top(id.spec_parent());
    } else {
        vstd::arithmetic::power2::lemma2_to64();
    }
}

} // verus!
