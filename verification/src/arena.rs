//! The arena: slots that hold the nodes, and the list of vacant slots.

use crate::error::NodeIdError;
use crate::handles::exchanged;
use crate::handles::position;
use crate::handles::remove_all;
use crate::handles::replaced;
use crate::model::TreeView;
use crate::node::Node;
use crate::node::NodeView;
use crate::node_id::fresh_tag;
use crate::node_id::same_tag;
use crate::node_id::NodeId;
use snowflake::ProcessUniqueId;
use vstd::prelude::*;

verus! {

/// Owns every node of one tree. A slot is either occupied by a node or
/// vacant; a vacant slot is reused by a later insertion, the most recently
/// vacated first.
pub(crate) struct CoreTree<T> {
    pub(crate) id: ProcessUniqueId,
    pub(crate) root: Option<NodeId>,
    pub(crate) nodes: Vec<Option<Node<T>>>,
    pub(crate) free_ids: Vec<NodeId>,
}

impl<T> View for CoreTree<T> {
    type V = TreeView<T>;

    open(crate) spec fn view(&self) -> TreeView<T> {
        TreeView {
            tag: self.id,
            slots: self.nodes.len() as nat,
            nodes: Map::new(
                |id: NodeId|
                    id.tag() == self.id && id.slot() < self.nodes.len() && self.nodes@[id.slot() as int] is Some,
                |id: NodeId| self.nodes@[id.slot() as int].unwrap()@,
            ),
            root: self.root,
            free: self.free_ids@,
        }
    }
}

/// How many elements `v` can hold before it has to grow, as
/// `Vec::capacity` reports it. The value depends on the allocator; all
/// that is claimed is that the elements that `v` holds fit in.
#[verifier::external_body]
pub(crate) fn capacity_of<E>(v: &Vec<E>) -> (capacity: usize)
    ensures
        capacity >= v@.len(),
{
    v.capacity()
}

impl<T> CoreTree<T> {
    /// The node that the live handle `id` names, as it is stored.
    pub open(crate) spec fn node_at(&self, id: NodeId) -> Node<T> {
        self.nodes@[id.slot() as int].unwrap()
    }

    /// An arena with room reserved for `node_capacity` nodes and
    /// `swap_capacity` vacant slots. If `root` is given, its payload becomes
    /// the root of the tree, in slot 0.
    pub fn new(root: Option<Node<T>>, node_capacity: usize, swap_capacity: usize) -> (tree:
        CoreTree<T>)
        ensures
            tree@.wf(),
            tree@.free.len() == 0,
            match root {
                Some(node) => {
                    &&& tree@.slots == 1
                    &&& tree@.root == Some(NodeId::of(tree@.tag, 0))
                    &&& tree@.nodes =~= Map::empty().insert(
                        NodeId::of(tree@.tag, 0),
                        NodeView { data: node@.data, parent: None, children: Seq::empty() },
                    )
                },
                None => {
                    &&& tree@.slots == 0
                    &&& tree@.root is None
                    &&& tree@.nodes =~= Map::empty()
                },
            },
    {
        let tag = fresh_tag();
        let mut tree = CoreTree {
            id: tag,
            root: None,
            nodes: Vec::with_capacity(node_capacity),
            free_ids: Vec::with_capacity(swap_capacity),
        };
        match root {
            Some(node) => {
                let node_id = tree.new_node_id(0);
                tree.nodes.push(Some(Node::new(node.data)));
                tree.root = Some(node_id);
                proof {
                    let rank = |x: NodeId| 0nat;
                    assert(tree@.ranked_by(rank));
                }
            },
            None => {
                proof {
                    let rank = |x: NodeId| 0nat;
                    assert(tree@.ranked_by(rank));
                }
            },
        }
        tree
    }

    /// The handle that this arena issues for slot `node_index`.
    pub(crate) fn new_node_id(&self, node_index: usize) -> (id: NodeId)
        ensures
            id == NodeId::of(self@.tag, node_index as nat),
    {
        NodeId { tree_id: self.id, index: node_index }
    }

    /// Whether `node_id` is the handle of the root.
    pub(crate) fn is_root_node(&self, node_id: &NodeId) -> (r: bool)
        ensures
            r == (self@.root == Some(*node_id)),
    {
        match self.root {
            Some(root_id) => root_id == *node_id,
            None => false,
        }
    }

    /// The handle of the designated root, if there is one.
    pub fn root(&self) -> (root: Option<&NodeId>)
        ensures
            match root {
                Some(r) => self@.root == Some(*r),
                None => self@.root is None,
            },
    {
        self.root.as_ref()
    }

    /// Designates `root` as the root.
    pub(crate) fn set_root_id(&mut self, root: Option<NodeId>)
        ensures
            final(self)@ == old(self)@.with_root(root),
    {
        self.root = root;
    }

    /// Whether `node_id`, if it carries the tag of this arena, names a slot
    /// that was allocated.
    pub fn in_range(&self, node_id: &NodeId) -> (r: bool)
        ensures
            r == self@.in_range(*node_id),
    {
        !same_tag(&node_id.tree_id, &self.id) || node_id.index < self.nodes.len()
    }

    /// How many slots were ever allocated.
    pub fn slot_count(&self) -> (n: usize)
        ensures
            n == self@.slots,
    {
        self.nodes.len()
    }

    /// How many slots are vacant.
    pub fn free_count(&self) -> (n: usize)
        ensures
            n == self@.free.len(),
    {
        self.free_ids.len()
    }

    /// How many nodes the arena can hold before its storage has to grow:
    /// at least as many as it has slots.
    pub fn node_capacity(&self) -> (capacity: usize)
        ensures
            capacity >= self@.slots,
    {
        capacity_of(&self.nodes)
    }

    /// How many vacant slots the arena can record before its free list has
    /// to grow: at least as many as are vacant.
    pub fn swap_capacity(&self) -> (capacity: usize)
        ensures
            capacity >= self@.free.len(),
    {
        capacity_of(&self.free_ids)
    }

    /// Stores the payload of `node` as a node without links, in the most
    /// recently vacated slot if there is one and in a new slot otherwise,
    /// and returns its handle.
    pub fn insert(&mut self, node: Node<T>) -> (id: NodeId)
        requires
            old(self)@.storage_wf(),
        ensures
            id == old(self)@.next_id(),
            final(self)@ == old(self)@.place(
                NodeView { data: node@.data, parent: None, children: Seq::empty() },
            ),
    {
        let fresh = Node::new(node.data);
        if self.free_ids.len() > 0 {
            let id = self.free_ids.pop().unwrap();
            assert(old(self)@.free[old(self)@.free.len() - 1] == id);
            self.nodes[id.index] = Some(fresh);
            assert(self@ =~= old(self)@.place(fresh@));
            id
        } else {
            let id = self.new_node_id(self.nodes.len());
            self.nodes.push(Some(fresh));
            assert(self@ =~= old(self)@.place(fresh@));
            id
        }
    }

    /// Takes the node at `node_id` out of the arena. Its slot becomes the
    /// next to be reused. The node comes back with the links it had.
    pub(crate) fn take(&mut self, node_id: NodeId) -> (node: Node<T>)
        requires
            old(self)@.contains(node_id),
        ensures
            node@ == old(self)@.nodes[node_id],
            final(self)@ == old(self)@.vacate(node_id),
    {
        if self.is_root_node(&node_id) {
            self.root = None;
        }
        let node = self.nodes[node_id.index].take().unwrap();
        self.free_ids.push(node_id);
        assert(self@ =~= old(self)@.vacate(node_id));
        node
    }

    /// Checks `node_id` against this arena.
    pub fn validate_node_id(&self, node_id: &NodeId) -> (r: Result<(), NodeIdError>)
        requires
            self@.in_range(*node_id),
        ensures
            r == match self@.refusal(*node_id) {
                Some(e) => Err::<(), NodeIdError>(e),
                None => Ok(()),
            },
    {
        let (is_valid, error) = self.is_valid_node_id(node_id);
        if is_valid {
            Ok(())
        } else {
            Err(error.unwrap())
        }
    }

    /// The node at `node_id`.
    pub fn get(&self, node_id: &NodeId) -> (r: Result<&Node<T>, NodeIdError>)
        requires
            self@.in_range(*node_id),
        ensures
            match r {
                Ok(node) => self@.contains(*node_id) && node@ == self@.nodes[*node_id],
                Err(e) => self@.refusal(*node_id) == Some(e),
            },
    {
        let (is_valid, error) = self.is_valid_node_id(node_id);
        if is_valid {
            Ok(self.get_unsafe(node_id))
        } else {
            Err(error.unwrap())
        }
    }

    /// The node at `node_id`, for writing.
    pub fn get_mut(&mut self, node_id: &NodeId) -> (r: Result<&mut Node<T>, NodeIdError>)
        requires
            old(self)@.in_range(*node_id),
        ensures
            match r {
                Ok(node) => {
                    &&& old(self)@.contains(*node_id)
                    &&& node@ == old(self)@.nodes[*node_id]
                    &&& final(self)@ == (TreeView {
                        nodes: old(self)@.nodes.insert(*node_id, final(node)@),
                        ..old(self)@
                    })
                },
                Err(e) => old(self)@.refusal(*node_id) == Some(e) && *final(self) == *old(self),
            },
    {
        let (is_valid, error) = self.is_valid_node_id(node_id);
        if is_valid {
            Ok(self.get_mut_unsafe(node_id))
        } else {
            Err(error.unwrap())
        }
    }

    /// Decides whether `node_id` names a live node of this arena, and says
    /// why not if it does not.
    pub fn is_valid_node_id(&self, node_id: &NodeId) -> (r: (bool, Option<NodeIdError>))
        requires
            self@.in_range(*node_id),
        ensures
            r.0 == self@.contains(*node_id),
            r.1 == self@.refusal(*node_id),
    {
        if !same_tag(&node_id.tree_id, &self.id) {
            return (false, Some(NodeIdError::InvalidNodeIdForTree));
        }
        if self.nodes[node_id.index].is_none() {
            return (false, Some(NodeIdError::NodeIdNoLongerValid));
        }
        (true, None)
    }

    /// The node at `node_id`, which the caller knows to be live.
    pub(crate) fn get_unsafe(&self, node_id: &NodeId) -> (node: &Node<T>)
        requires
            self@.contains(*node_id),
        ensures
            node@ == self@.nodes[*node_id],
            *node == self.node_at(*node_id),
    {
        self.nodes[node_id.index].as_ref().unwrap()
    }

    /// The node at `node_id`, which the caller knows to be live, for writing.
    pub(crate) fn get_mut_unsafe(&mut self, node_id: &NodeId) -> (node: &mut Node<T>)
        requires
            old(self)@.contains(*node_id),
        ensures
            node@ == old(self)@.nodes[*node_id],
            final(self)@ =~= (TreeView {
                nodes: old(self)@.nodes.insert(*node_id, final(node)@),
                ..old(self)@
            }),
    {
        self.nodes[node_id.index].as_mut().unwrap()
    }

    /// Sets the parent link of the node at `node_id`.
    pub(crate) fn set_parent(&mut self, node_id: &NodeId, parent: Option<NodeId>)
        requires
            old(self)@.contains(*node_id),
        ensures
            final(self)@ == old(self)@.with_parent(*node_id, parent),
    {
        let node = self.get_mut_unsafe(node_id);
        node.parent = parent;
    }

    /// Replaces the child list of the node at `node_id`.
    pub(crate) fn set_children(&mut self, node_id: &NodeId, children: Vec<NodeId>)
        requires
            old(self)@.contains(*node_id),
        ensures
            final(self)@ == old(self)@.with_children(*node_id, children@),
    {
        let node = self.get_mut_unsafe(node_id);
        node.children = children;
    }

    /// A copy of the child list of the node at `node_id`.
    pub(crate) fn children_of(&self, node_id: &NodeId) -> (children: Vec<NodeId>)
        requires
            self@.contains(*node_id),
        ensures
            children@ == self@.children_of(*node_id),
    {
        let node = self.get_unsafe(node_id);
        let mut children: Vec<NodeId> = Vec::new();
        let mut i: usize = 0;
        while i < node.children.len()
            invariant
                i <= node.children@.len(),
                children@ == node.children@.take(i as int),
            decreases node.children@.len() - i,
        {
            children.push(node.children[i]);
            assert(node.children@.take(i + 1) =~= node.children@.take(i as int).push(
                node.children@[i as int],
            ));
            i += 1;
        }
        assert(node.children@.take(i as int) =~= node.children@);
        children
    }

    /// The parent link of the node at `node_id`.
    pub(crate) fn parent_of(&self, node_id: &NodeId) -> (parent: Option<NodeId>)
        requires
            self@.contains(*node_id),
        ensures
            parent == self@.parent_of(*node_id),
    {
        self.get_unsafe(node_id).parent
    }

    /// Appends `child` to the child list of the node at `node_id`.
    pub(crate) fn push_child(&mut self, node_id: &NodeId, child: NodeId)
        requires
            old(self)@.contains(*node_id),
        ensures
            final(self)@ == old(self)@.with_children(
                *node_id,
                old(self)@.children_of(*node_id).push(child),
            ),
    {
        let node = self.get_mut_unsafe(node_id);
        node.children.push(child);
    }

    /// Takes `child` out of the child list of the node at `node_id`.
    pub(crate) fn unlist_child(&mut self, node_id: &NodeId, child: &NodeId)
        requires
            old(self)@.contains(*node_id),
        ensures
            final(self)@ == old(self)@.unlist(*node_id, *child),
    {
        let node = self.get_mut_unsafe(node_id);
        remove_all(&mut node.children, child);
    }

    /// Exchanges the places of `a` and `b` in the child list of the node at
    /// `node_id`, which lists both.
    pub(crate) fn exchange_children(&mut self, node_id: &NodeId, a: &NodeId, b: &NodeId)
        requires
            old(self)@.contains(*node_id),
            old(self)@.children_of(*node_id).contains(*a),
            old(self)@.children_of(*node_id).contains(*b),
        ensures
            final(self)@ == old(self)@.with_children(
                *node_id,
                exchanged(old(self)@.children_of(*node_id), *a, *b),
            ),
    {
        let node = self.get_mut_unsafe(node_id);
        let first_index = position(&node.children, a).unwrap();
        let second_index = position(&node.children, b).unwrap();
        node.children[first_index] = *b;
        node.children[second_index] = *a;
    }

    /// Puts `to` where `from` first stands in the child list of the node at
    /// `node_id`.
    pub(crate) fn replace_child(&mut self, node_id: &NodeId, from: &NodeId, to: NodeId)
        requires
            old(self)@.contains(*node_id),
            old(self)@.children_of(*node_id).contains(*from),
        ensures
            final(self)@ == old(self)@.with_children(
                *node_id,
                replaced(old(self)@.children_of(*node_id), *from, to),
            ),
    {
        let node = self.get_mut_unsafe(node_id);
        let at = position(&node.children, from);
        let at = at.unwrap();
        node.children[at] = to;
    }
}

} // verus!
