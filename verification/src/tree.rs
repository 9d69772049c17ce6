//! A tree with the basic operations only: insertion, lookup, and removal
//! that keeps the children.

use crate::ancestry::lemma_not_own_child;
use crate::arena::CoreTree;
use crate::error::NodeIdError;
use crate::handles::group_handles;
use crate::inserts::blank;
use crate::inserts::lemma_inserted_root_wf;
use crate::inserts::lemma_inserted_under_wf;
use crate::model::TreeView;
use crate::node::Node;
use crate::node::NodeView;
use crate::node_id::NodeId;
use crate::removals::lemma_removed_lift_wf;
use crate::removals::lemma_removed_orphan_wf;
use vstd::prelude::*;

verus! {

/// Collects the settings for a `Tree` before it is built.
pub struct TreeBuilder<T> {
    pub root: Option<Node<T>>,
    pub node_capacity: usize,
    pub swap_capacity: usize,
}

impl<T> TreeBuilder<T> {
    /// A builder without a root and without reserved space.
    pub fn new() -> (builder: TreeBuilder<T>)
        ensures
            builder.root is None,
            builder.node_capacity == 0,
            builder.swap_capacity == 0,
    {
        TreeBuilder { root: None, node_capacity: 0, swap_capacity: 0 }
    }

    /// Sets the node whose payload becomes the root of the tree.
    pub fn with_root(self, root: Node<T>) -> (builder: TreeBuilder<T>)
        ensures
            builder.root == Some(root),
            builder.node_capacity == self.node_capacity,
            builder.swap_capacity == self.swap_capacity,
    {
        let mut builder = self;
        builder.root = Some(root);
        builder
    }

    /// Sets how many nodes the tree reserves room for.
    pub fn with_node_capacity(self, node_capacity: usize) -> (builder: TreeBuilder<T>)
        ensures
            builder.root == self.root,
            builder.node_capacity == node_capacity,
            builder.swap_capacity == self.swap_capacity,
    {
        let mut builder = self;
        builder.node_capacity = node_capacity;
        builder
    }

    /// Sets how many vacant slots the tree reserves room for.
    pub fn with_swap_capacity(self, swap_capacity: usize) -> (builder: TreeBuilder<T>)
        ensures
            builder.root == self.root,
            builder.node_capacity == self.node_capacity,
            builder.swap_capacity == swap_capacity,
    {
        let mut builder = self;
        builder.swap_capacity = swap_capacity;
        builder
    }

    /// Builds the tree: empty, or holding the payload of the root that was
    /// set as its only node.
    pub fn build(self) -> (tree: Tree<T>)
        ensures
            tree@.wf(),
            tree@.free.len() == 0,
            match self.root {
                Some(node) => {
                    &&& tree@.slots == 1
                    &&& tree@.root == Some(NodeId::of(tree@.tag, 0))
                    &&& tree@.nodes == Map::<NodeId, NodeView<T>>::empty().insert(
                        NodeId::of(tree@.tag, 0),
                        blank(node@.data),
                    )
                },
                None => {
                    &&& tree@.slots == 0
                    &&& tree@.root is None
                    &&& tree@.nodes == Map::<NodeId, NodeView<T>>::empty()
                },
            },
    {
        Tree { arena: CoreTree::new(self.root, self.node_capacity, self.swap_capacity) }
    }
}

/// A tree of nodes that are addressed by handles.
pub struct Tree<T> {
    pub(crate) arena: CoreTree<T>,
}

impl<T> View for Tree<T> {
    type V = TreeView<T>;

    open(crate) spec fn view(&self) -> TreeView<T> {
        self.arena@
    }
}

impl<T> Tree<T> {
    /// An empty tree.
    pub fn new() -> (tree: Tree<T>)
        ensures
            tree@.wf(),
            tree@.slots == 0,
            tree@.free.len() == 0,
            tree@.root is None,
            tree@.nodes == Map::<NodeId, NodeView<T>>::empty(),
    {
        TreeBuilder::new().build()
    }

    /// Stores the payload of `new_root` as the root. The root that was
    /// becomes its only child.
    pub fn set_root(&mut self, new_root: Node<T>) -> (id: NodeId)
        requires
            old(self)@.wf(),
        ensures
            final(self)@.wf(),
            id == old(self)@.next_id(),
            final(self)@ == old(self)@.inserted_root(new_root@.data),
    {
        let new_root_id = self.insert_new_node(new_root);
        proof {
            lemma_inserted_root_wf(old(self)@, new_root@.data);
        }
        let current_root = self.arena.root;
        self.arena.set_root_id(Some(new_root_id));
        match current_root {
            Some(current_root_node_id) => {
                self.set_as_parent_and_child(&new_root_id, &current_root_node_id);
            },
            None => (),
        };
        new_root_id
    }

    /// Stores the payload of `child` as the last child of the node at
    /// `parent_id`. Fails, and changes nothing, if the handle is refused.
    pub fn insert_with_parent(&mut self, child: Node<T>, parent_id: &NodeId) -> (r: Result<
        NodeId,
        NodeIdError,
    >)
        requires
            old(self)@.wf(),
            old(self)@.in_range(*parent_id),
        ensures
            final(self)@.wf(),
            match old(self)@.refusal(*parent_id) {
                Some(e) => r == Err::<NodeId, NodeIdError>(e) && *final(self) == *old(self),
                None => {
                    &&& r == Ok::<NodeId, NodeIdError>(old(self)@.next_id())
                    &&& final(self)@ == old(self)@.inserted_under(*parent_id, child@.data)
                },
            },
    {
        let (is_valid, error) = self.is_valid_node_id(parent_id);
        if !is_valid {
            return Err(error.unwrap());
        }
        let new_child_id = self.insert_new_node(child);
        proof {
            lemma_inserted_under_wf(old(self)@, *parent_id, child@.data);
        }
        self.set_as_parent_and_child(parent_id, &new_child_id);
        Ok(new_child_id)
    }

    /// The node at `node_id`, or nothing if the handle is refused.
    pub fn get(&self, node_id: &NodeId) -> (r: Option<&Node<T>>)
        requires
            self@.in_range(*node_id),
        ensures
            match r {
                Some(node) => self@.contains(*node_id) && node@ == self@.nodes[*node_id],
                None => !self@.contains(*node_id),
            },
    {
        let (is_valid, _) = self.is_valid_node_id(node_id);
        if is_valid {
            return Some(self.arena.get_unsafe(node_id));
        }
        None
    }

    /// The node at `node_id`, for writing its payload, or nothing if the
    /// handle is refused.
    pub fn get_mut(&mut self, node_id: &NodeId) -> (r: Option<&mut Node<T>>)
        requires
            old(self)@.in_range(*node_id),
        ensures
            match r {
                Some(node) => {
                    &&& old(self)@.contains(*node_id)
                    &&& node@ == old(self)@.nodes[*node_id]
                    &&& final(self)@ == (TreeView {
                        nodes: old(self)@.nodes.insert(*node_id, final(node)@),
                        ..old(self)@
                    })
                },
                None => !old(self)@.contains(*node_id) && *final(self) == *old(self),
            },
    {
        let (is_valid, _) = self.is_valid_node_id(node_id);
        if is_valid {
            return Some(self.arena.get_mut_unsafe(node_id));
        }
        None
    }

    /// Removes the node at `node_id`. Its children become the last
    /// children of its parent; if it has none, they stay in the arena
    /// without a parent. The node comes back without links. Fails, and
    /// changes nothing, if the handle is refused.
    pub fn remove_node_lift_children(&mut self, node_id: NodeId) -> (r: Result<
        Node<T>,
        NodeIdError,
    >)
        requires
            old(self)@.wf(),
            old(self)@.in_range(node_id),
        ensures
            final(self)@.wf(),
            match old(self)@.refusal(node_id) {
                Some(e) => r == Err::<Node<T>, NodeIdError>(e) && *final(self) == *old(self),
                None => {
                    &&& r is Ok
                    &&& r.unwrap()@ == blank(old(self)@.data_of(node_id))
                    &&& final(self)@ == old(self)@.removed_lift(node_id)
                    &&& final(self)@.refusal(node_id) == Some(NodeIdError::NodeIdNoLongerValid)
                },
            },
    {
        let (is_valid, error) = self.is_valid_node_id(&node_id);
        if !is_valid {
            return Err(error.unwrap());
        }
        if !self.node_has_parent(&node_id) {
            return self.remove_node_orphan_children(node_id);
        }
        proof {
            lemma_removed_lift_wf(old(self)@, node_id);
            lemma_not_own_child(old(self)@, node_id);
            assert(old(self)@.node_linked(node_id));
        }
        let parent_id = self.arena.parent_of(&node_id).unwrap();
        let children = self.arena.children_of(&node_id);
        let mut i: usize = 0;
        while i < children.len()
            invariant
                i <= children@.len(),
                children@ == old(self)@.children_of(node_id),
                old(self)@.wf(),
                old(self)@.contains(node_id),
                old(self)@.contains(parent_id),
                old(self)@.parent_of(node_id) == Some(parent_id),
                self@ == old(self)@.adopted(parent_id, children@.take(i as int)),
            decreases children@.len() - i,
        {
            let child_id = children[i];
            proof {
                assert(old(self)@.node_linked(node_id));
                assert(children@.contains(child_id));
                assert(old(self)@.contains(child_id));
            }
            self.set_as_parent_and_child(&parent_id, &child_id);
            proof {
                broadcast use group_handles;

                let shorter = children@.take(i as int);
                let longer = children@.take(i + 1);
                assert(longer =~= shorter.push(child_id));
                assert((old(self)@.children_of(parent_id) + shorter).push(child_id) =~= old(
                    self,
                )@.children_of(parent_id) + longer);
                assert(self@ =~= old(self)@.adopted(parent_id, longer));
            }
            i += 1;
        }
        proof {
            assert(children@.take(i as int) =~= children@);
        }
        Ok(self.remove_node(node_id))
    }

    /// Removes the node at `node_id` and leaves its children in the arena,
    /// each without a parent. The node comes back without links. Fails,
    /// and changes nothing, if the handle is refused.
    pub fn remove_node_orphan_children(&mut self, node_id: NodeId) -> (r: Result<
        Node<T>,
        NodeIdError,
    >)
        requires
            old(self)@.wf(),
            old(self)@.in_range(node_id),
        ensures
            final(self)@.wf(),
            match old(self)@.refusal(node_id) {
                Some(e) => r == Err::<Node<T>, NodeIdError>(e) && *final(self) == *old(self),
                None => {
                    &&& r is Ok
                    &&& r.unwrap()@ == blank(old(self)@.data_of(node_id))
                    &&& final(self)@ == old(self)@.removed_orphan(node_id)
                    &&& final(self)@.refusal(node_id) == Some(NodeIdError::NodeIdNoLongerValid)
                },
            },
    {
        let (is_valid, error) = self.is_valid_node_id(&node_id);
        if !is_valid {
            return Err(error.unwrap());
        }
        proof {
            lemma_removed_orphan_wf(old(self)@, node_id);
            lemma_not_own_child(old(self)@, node_id);
            assert(old(self)@.node_linked(node_id));
        }
        let children = self.arena.children_of(&node_id);
        let mut i: usize = 0;
        proof {
            assert(self@ =~= old(self)@.reparented(children@.take(0), None));
        }
        while i < children.len()
            invariant
                i <= children@.len(),
                children@ == old(self)@.children_of(node_id),
                forall|x: NodeId| #[trigger] children@.contains(x) ==> old(self)@.contains(x),
                self@ == old(self)@.reparented(children@.take(i as int), None),
            decreases children@.len() - i,
        {
            let child_id = children[i];
            proof {
                assert(children@.contains(child_id));
            }
            self.clear_parent(&child_id);
            proof {
                broadcast use group_handles;

                let shorter = children@.take(i as int);
                let longer = children@.take(i + 1);
                assert(longer =~= shorter.push(child_id));
                assert(self@ =~= old(self)@.reparented(longer, None));
            }
            i += 1;
        }
        proof {
            assert(children@.take(i as int) =~= children@);
        }
        Ok(self.remove_node(node_id))
    }

    /// The handle of the root, if there is one.
    pub fn root_node_id(&self) -> (root: Option<&NodeId>)
        ensures
            match root {
                Some(r) => self@.root == Some(*r),
                None => self@.root is None,
            },
    {
        self.arena.root()
    }

    /// How many slots were ever allocated.
    pub fn slot_count(&self) -> (n: usize)
        ensures
            n == self@.slots,
    {
        self.arena.slot_count()
    }

    /// How many slots are vacant.
    pub fn free_count(&self) -> (n: usize)
        ensures
            n == self@.free.len(),
    {
        self.arena.free_count()
    }

    /// How many nodes the tree can hold before its storage has to grow:
    /// at least as many as it has slots.
    pub fn node_capacity(&self) -> (capacity: usize)
        ensures
            capacity >= self@.slots,
    {
        self.arena.node_capacity()
    }

    /// How many vacant slots the tree can record before its free list has
    /// to grow: at least as many as are vacant.
    pub fn swap_capacity(&self) -> (capacity: usize)
        ensures
            capacity >= self@.free.len(),
    {
        self.arena.swap_capacity()
    }

    /// Makes the node at `child_id` the last child of the node at
    /// `parent_id`, whatever its links were.
    pub(crate) fn set_as_parent_and_child(&mut self, parent_id: &NodeId, child_id: &NodeId)
        requires
            old(self)@.contains(*parent_id),
            old(self)@.contains(*child_id),
        ensures
            final(self)@ == old(self)@.attach(*parent_id, *child_id),
    {
        self.arena.push_child(parent_id, *child_id);
        self.arena.set_parent(child_id, Some(*parent_id));
    }

    /// Stores the payload of `new_node` as a node without links and
    /// returns its handle.
    pub(crate) fn insert_new_node(&mut self, new_node: Node<T>) -> (id: NodeId)
        requires
            old(self)@.storage_wf(),
        ensures
            id == old(self)@.next_id(),
            final(self)@ == old(self)@.place(blank(new_node@.data)),
    {
        self.arena.insert(new_node)
    }

    /// Takes the node at `node_id` out of the arena and out of the child
    /// list of its parent, and returns it without links.
    pub(crate) fn remove_node(&mut self, node_id: NodeId) -> (node: Node<T>)
        requires
            old(self)@.contains(node_id),
            old(self)@.parent_of(node_id) matches Some(q) ==> old(self)@.contains(q) && q
                != node_id,
        ensures
            node@ == blank(old(self)@.data_of(node_id)),
            final(self)@ == match old(self)@.parent_of(node_id) {
                Some(q) => old(self)@.vacate(node_id).unlist(q, node_id),
                None => old(self)@.vacate(node_id),
            },
    {
        let node = self.remove_node_dirty(node_id);
        if let Some(parent_id) = node.parent {
            self.arena.unlist_child(&parent_id, &node_id);
        }
        Node::new(node.data)
    }

    /// Takes the node at `node_id` out of the arena, with the links it has.
    pub(crate) fn remove_node_dirty(&mut self, node_id: NodeId) -> (node: Node<T>)
        requires
            old(self)@.contains(node_id),
        ensures
            node@ == old(self)@.nodes[node_id],
            final(self)@ == old(self)@.vacate(node_id),
    {
        self.arena.take(node_id)
    }

    /// Decides whether `node_id` names a live node of this tree, and says
    /// why not if it does not.
    pub(crate) fn is_valid_node_id(&self, node_id: &NodeId) -> (r: (bool, Option<NodeIdError>))
        requires
            self@.in_range(*node_id),
        ensures
            r.0 == self@.contains(*node_id),
            r.0 == (self@.refusal(*node_id) is None),
            r.1 == self@.refusal(*node_id),
    {
        self.arena.is_valid_node_id(node_id)
    }

    /// Whether the live node at `node_id` has a parent.
    pub(crate) fn node_has_parent(&self, node_id: &NodeId) -> (r: bool)
        requires
            self@.contains(*node_id),
        ensures
            r == (self@.parent_of(*node_id) is Some),
    {
        self.arena.get_unsafe(node_id).parent().is_some()
    }

    /// The node at `node_id` names no parent.
    pub(crate) fn clear_parent(&mut self, node_id: &NodeId)
        requires
            old(self)@.contains(*node_id),
        ensures
            final(self)@ == old(self)@.with_parent(*node_id, None),
    {
        self.arena.set_parent(node_id, None);
    }
}

} // verus!
