//! The mathematical model of an arena: which handles are live, how the live
//! nodes are linked, and which slots wait for reuse.

use crate::error::NodeIdError;
use crate::handles::without;
use crate::node::NodeView;
use crate::node_id::NodeId;
use snowflake::ProcessUniqueId;
use vstd::prelude::*;

verus! {

/// The state of an arena.
#[verifier::ext_equal]
pub struct TreeView<T> {
    /// The owner tag that every handle of this arena carries.
    pub tag: ProcessUniqueId,
    /// How many slots were ever allocated.
    pub slots: nat,
    /// The live nodes, by handle.
    pub nodes: Map<NodeId, NodeView<T>>,
    /// The designated root, if there is one.
    pub root: Option<NodeId>,
    /// The vacant slots, the most recently vacated last.
    pub free: Seq<NodeId>,
}

impl<T> TreeView<T> {
    /// `id` names a live node of this arena.
    pub open spec fn contains(self, id: NodeId) -> bool {
        self.nodes.dom().contains(id)
    }

    /// The parent link of the live node at `id`.
    pub open spec fn parent_of(self, id: NodeId) -> Option<NodeId> {
        self.nodes[id].parent
    }

    /// The children of the live node at `id`, in order.
    pub open spec fn children_of(self, id: NodeId) -> Seq<NodeId> {
        self.nodes[id].children
    }

    /// The payload of the live node at `id`.
    pub open spec fn data_of(self, id: NodeId) -> T {
        self.nodes[id].data
    }

    /// If `id` carries the tag of this arena, it names a slot that was
    /// allocated. Every handle that an arena issues stays so.
    pub open spec fn in_range(self, id: NodeId) -> bool {
        id.tag() == self.tag ==> id.slot() < self.slots
    }

    /// Why the arena refuses `id`, if it does: the handle belongs to another
    /// arena, or the node it named is gone.
    pub open spec fn refusal(self, id: NodeId) -> Option<NodeIdError> {
        if id.tag() != self.tag {
            Some(NodeIdError::InvalidNodeIdForTree)
        } else if !self.contains(id) {
            Some(NodeIdError::NodeIdNoLongerValid)
        } else {
            None
        }
    }

    /// There is room for one more node: a vacant slot, or a slot index that
    /// was not used yet.
    pub open spec fn has_room(self) -> bool {
        self.free.len() > 0 || self.slots < usize::MAX
    }

    /// The handle that the next insertion will issue: the most recently
    /// vacated slot if there is one, a new slot otherwise.
    pub open spec fn next_id(self) -> NodeId {
        if self.free.len() > 0 {
            self.free.last()
        } else {
            NodeId::of(self.tag, self.slots)
        }
    }

    // ----- elementary changes -----

    /// The node at `id` names `parent` as its parent.
    pub open spec fn with_parent(self, id: NodeId, parent: Option<NodeId>) -> TreeView<T> {
        TreeView { nodes: self.nodes.insert(id, NodeView { parent, ..self.nodes[id] }), ..self }
    }

    /// The node at `id` lists `children` as its children.
    pub open spec fn with_children(self, id: NodeId, children: Seq<NodeId>) -> TreeView<T> {
        TreeView { nodes: self.nodes.insert(id, NodeView { children, ..self.nodes[id] }), ..self }
    }

    /// The node at `id` carries `data`.
    pub open spec fn with_data(self, id: NodeId, data: T) -> TreeView<T> {
        TreeView { nodes: self.nodes.insert(id, NodeView { data, ..self.nodes[id] }), ..self }
    }

    /// `root` is the designated root.
    pub open spec fn with_root(self, root: Option<NodeId>) -> TreeView<T> {
        TreeView { root, ..self }
    }

    /// `child` becomes the last child of `parent`.
    pub open spec fn attach(self, parent: NodeId, child: NodeId) -> TreeView<T> {
        self.with_children(parent, self.children_of(parent).push(child)).with_parent(
            child,
            Some(parent),
        )
    }

    /// `child` leaves the child list of `parent`.
    pub open spec fn unlist(self, parent: NodeId, child: NodeId) -> TreeView<T> {
        self.with_children(parent, without(self.children_of(parent), child))
    }

    /// The arena after `node` took the slot of `next_id()`.
    pub open spec fn place(self, node: NodeView<T>) -> TreeView<T> {
        TreeView {
            slots: if self.free.len() > 0 {
                self.slots
            } else {
                self.slots + 1
            },
            nodes: self.nodes.insert(self.next_id(), node),
            free: if self.free.len() > 0 {
                self.free.drop_last()
            } else {
                self.free
            },
            ..self
        }
    }

    /// The arena after the node at `id` left it: the slot is vacant and is
    /// the next to be reused, and the root designation is gone if `id` had it.
    pub open spec fn vacate(self, id: NodeId) -> TreeView<T> {
        TreeView {
            nodes: self.nodes.remove(id),
            free: self.free.push(id),
            root: if self.root == Some(id) {
                None
            } else {
                self.root
            },
            ..self
        }
    }

    // ----- validity -----

    /// Every live handle is one that this arena issued, the free list holds
    /// exactly the vacant slots, each once, and a slot index fits a machine
    /// word.
    pub open spec fn storage_wf(self) -> bool {
        &&& self.slots <= usize::MAX
        &&& forall|id: NodeId| #[trigger]
            self.contains(id) ==> id.tag() == self.tag && id.slot() < self.slots
        &&& forall|k: int|
            0 <= k < self.free.len() ==> {
                &&& (#[trigger] self.free[k]).tag() == self.tag
                &&& self.free[k].slot() < self.slots
                &&& !self.contains(self.free[k])
            }
        &&& self.free.no_duplicates()
        &&& forall|id: NodeId|
            id.tag() == self.tag && id.slot() < self.slots ==> #[trigger] self.contains(id)
                || self.free.contains(id)
    }

    /// The links of the node at `c` agree with the links of its neighbours:
    /// its parent lists it as a child, each of its children names it as
    /// parent, and it lists no child twice.
    pub open spec fn node_linked(self, c: NodeId) -> bool {
        &&& self.children_of(c).no_duplicates()
        &&& (self.parent_of(c) matches Some(p) ==> self.contains(p) && self.children_of(
            p,
        ).contains(c))
        &&& forall|x: NodeId| #[trigger]
            self.children_of(c).contains(x) ==> self.contains(x) && self.parent_of(x) == Some(c)
    }

    /// `rank` grows strictly from every parent to its child.
    pub open spec fn ranked_by(self, rank: spec_fn(NodeId) -> nat) -> bool {
        forall|c: NodeId| #[trigger]
            self.contains(c) && self.parent_of(c) is Some ==> rank(self.parent_of(c).unwrap())
                < rank(c)
    }

    /// No node is its own ancestor.
    pub open spec fn acyclic(self) -> bool {
        exists|rank: spec_fn(NodeId) -> nat| self.ranked_by(rank)
    }

    /// Parent and child links mirror each other, no child is listed twice,
    /// no node is its own ancestor, and the root, if any, is a live node
    /// without a parent.
    pub open spec fn links_wf(self) -> bool {
        &&& forall|c: NodeId| #[trigger] self.contains(c) ==> self.node_linked(c)
        &&& self.acyclic()
        &&& (self.root matches Some(r) ==> self.contains(r) && self.parent_of(r) is None)
    }

    /// The arena is well formed.
    pub open spec fn wf(self) -> bool {
        self.storage_wf() && self.links_wf()
    }

    // ----- ancestry -----

    /// Some ranking that grows from every parent to its child; one exists
    /// in an arena without cycles.
    pub open spec fn rank(self) -> spec_fn(NodeId) -> nat {
        choose|rank: spec_fn(NodeId) -> nat| self.ranked_by(rank)
    }

    /// The child of `upper` through which the way from `lower` up to
    /// `upper` passes, if `upper` is a proper ancestor of `lower`.
    pub open spec fn path_child(self, lower: NodeId, upper: NodeId) -> Option<NodeId>
        decreases (self.rank())(lower),
        when self.acyclic() && self.contains(lower)
    {
        match self.parent_of(lower) {
            Some(p) => if p == upper {
                Some(lower)
            } else if self.contains(p) {
                self.path_child(p, upper)
            } else {
                None
            },
            None => None,
        }
    }

    /// `upper` is a proper ancestor of `lower`.
    pub open spec fn below(self, lower: NodeId, upper: NodeId) -> bool {
        self.path_child(lower, upper) is Some
    }

    /// `x` is `top` or one of its descendants.
    pub open spec fn in_subtree(self, x: NodeId, top: NodeId) -> bool {
        x == top || self.below(x, top)
    }

    /// The node without a parent that the parent links lead to from `x`.
    pub open spec fn top_of(self, x: NodeId) -> NodeId
        decreases (self.rank())(x),
        when self.acyclic() && self.contains(x)
    {
        match self.parent_of(x) {
            Some(p) => if self.contains(p) {
                self.top_of(p)
            } else {
                x
            },
            None => x,
        }
    }
}

} // verus!
