//! The tree: one arena, one root, and the operations that relink nodes.

use crate::ancestry::lemma_not_own_child;
use crate::ancestry::lemma_path_child;
use crate::ancestry::lemma_rank;
use crate::moves::lemma_root_change_wf;
use crate::handles::group_handles;
use crate::arena::CoreTree;
use crate::behaviors::InsertBehavior;
use crate::behaviors::MoveBehavior;
use crate::behaviors::RemoveBehavior;
use crate::behaviors::SwapBehavior;
use crate::ancestry::lemma_below_rank;
use crate::ancestry::lemma_not_below_itself;
use crate::handles::exchanged;
use crate::handles::lemma_renamed_as_edit;
use crate::handles::other;
use crate::handles::other_link;
use crate::handles::renamed;
use crate::handles::remove_all;
use crate::swaps::lemma_swapped_children_wf;
use crate::swaps::lemma_swapped_leave_wf;
use crate::swaps::lemma_swapped_take_wf;
use crate::error::NodeIdError;
use crate::inserts::blank;
use crate::inserts::lemma_inserted_root_wf;
use crate::inserts::lemma_inserted_under_wf;
use crate::model::TreeView;
use crate::moves::lemma_detached_wf;
use crate::moves::lemma_moved_to_parent_wf;
use crate::moves::lemma_moved_to_root_wf;
use crate::node::Node;
use crate::node::NodeView;
use crate::node_id::NodeId;
use crate::removals::lemma_dropped_wf;
use crate::handles::lemma_push_contains;
use crate::orders::lemma_post_order_covers;
use crate::removals::lemma_removed_lift_wf;
use crate::removals::lemma_removed_orphan_wf;
use vstd::prelude::*;

verus! {

/// A `Node` as a `VecTree` stores it.
pub type VecNode<T> = Node<T>;

/// Collects the settings for a `VecTree` before it is built.
pub struct VecTreeBuilder<T> {
    pub root: Option<VecNode<T>>,
    pub node_capacity: usize,
    pub swap_capacity: usize,
}

impl<T> VecTreeBuilder<T> {
    /// A builder without a root and without reserved space.
    pub fn new() -> (builder: VecTreeBuilder<T>)
        ensures
            builder.root is None,
            builder.node_capacity == 0,
            builder.swap_capacity == 0,
    {
        VecTreeBuilder { root: None, node_capacity: 0, swap_capacity: 0 }
    }

    /// Sets the node whose payload becomes the root of the tree.
    pub fn with_root(self, root: VecNode<T>) -> (builder: VecTreeBuilder<T>)
        ensures
            builder.root == Some(root),
            builder.node_capacity == self.node_capacity,
            builder.swap_capacity == self.swap_capacity,
    {
        let mut builder = self;
        builder.root = Some(root);
        builder
    }

    /// Sets how many nodes the tree reserves room for.
    pub fn with_node_capacity(self, node_capacity: usize) -> (builder: VecTreeBuilder<T>)
        ensures
            builder.root == self.root,
            builder.node_capacity == node_capacity,
            builder.swap_capacity == self.swap_capacity,
    {
        let mut builder = self;
        builder.node_capacity = node_capacity;
        builder
    }

    /// Sets how many vacant slots the tree reserves room for.
    pub fn with_swap_capacity(self, swap_capacity: usize) -> (builder: VecTreeBuilder<T>)
        ensures
            builder.root == self.root,
            builder.node_capacity == self.node_capacity,
            builder.swap_capacity == swap_capacity,
    {
        let mut builder = self;
        builder.swap_capacity = swap_capacity;
        builder
    }

    /// Builds the tree: empty, or holding the payload of the root that was
    /// set as its only node.
    pub fn build(self) -> (tree: VecTree<T>)
        ensures
            tree@.wf(),
            tree@.free.len() == 0,
            match self.root {
                Some(node) => {
                    &&& tree@.slots == 1
                    &&& tree@.root == Some(NodeId::of(tree@.tag, 0))
                    &&& tree@.nodes == Map::<NodeId, NodeView<T>>::empty().insert(
                        NodeId::of(tree@.tag, 0),
                        blank(node@.data),
                    )
                },
                None => {
                    &&& tree@.slots == 0
                    &&& tree@.root is None
                    &&& tree@.nodes == Map::<NodeId, NodeView<T>>::empty()
                },
            },
    {
        VecTree { core_tree: CoreTree::new(self.root, self.node_capacity, self.swap_capacity) }
    }
}

/// A tree of nodes that are addressed by handles.
pub struct VecTree<T> {
    pub(crate) core_tree: CoreTree<T>,
}

impl<T> View for VecTree<T> {
    type V = TreeView<T>;

    open(crate) spec fn view(&self) -> TreeView<T> {
        self.core_tree@
    }
}

impl<T> VecTree<T> {
    /// An empty tree.
    pub fn new() -> (tree: VecTree<T>)
        ensures
            tree@.wf(),
            tree@.slots == 0,
            tree@.free.len() == 0,
            tree@.root is None,
            tree@.nodes == Map::<NodeId, NodeView<T>>::empty(),
    {
        VecTreeBuilder::new().build()
    }

    /// Inserts the payload of `node` as a new node: as the root, or as the
    /// last child of a node. Fails, and changes nothing, if the handle of
    /// that node is refused.
    pub fn insert(&mut self, node: VecNode<T>, behavior: InsertBehavior) -> (r: Result<
        NodeId,
        NodeIdError,
    >)
        requires
            old(self)@.wf(),
            behavior matches InsertBehavior::UnderNode(p) ==> old(self)@.in_range(*p),
        ensures
            final(self)@.wf(),
            match behavior {
                InsertBehavior::AsRoot => {
                    &&& r == Ok::<NodeId, NodeIdError>(old(self)@.next_id())
                    &&& final(self)@ == old(self)@.inserted_root(node@.data)
                },
                InsertBehavior::UnderNode(p) => match old(self)@.refusal(*p) {
                    Some(e) => r == Err::<NodeId, NodeIdError>(e) && *final(self) == *old(self),
                    None => {
                        &&& r == Ok::<NodeId, NodeIdError>(old(self)@.next_id())
                        &&& final(self)@ == old(self)@.inserted_under(*p, node@.data)
                    },
                },
            },
    {
        match behavior {
            InsertBehavior::UnderNode(parent_id) => {
                match self.core_tree.validate_node_id(parent_id) {
                    Ok(()) => self.insert_with_parent(node, parent_id),
                    Err(e) => Err(e),
                }
            },
            InsertBehavior::AsRoot => Ok(self.set_root(node)),
        }
    }

    /// The node at `node_id`.
    pub fn get(&self, node_id: &NodeId) -> (r: Result<&VecNode<T>, NodeIdError>)
        requires
            self@.in_range(*node_id),
        ensures
            match r {
                Ok(node) => self@.refusal(*node_id) is None && node@ == self@.nodes[*node_id],
                Err(e) => self@.refusal(*node_id) == Some(e),
            },
    {
        self.core_tree.get(node_id)
    }

    /// The node at `node_id`, for writing its payload.
    pub fn get_mut(&mut self, node_id: &NodeId) -> (r: Result<&mut VecNode<T>, NodeIdError>)
        requires
            old(self)@.in_range(*node_id),
        ensures
            match r {
                Ok(node) => {
                    &&& old(self)@.refusal(*node_id) is None
                    &&& node@ == old(self)@.nodes[*node_id]
                    &&& final(self)@ == (TreeView {
                        nodes: old(self)@.nodes.insert(*node_id, final(node)@),
                        ..old(self)@
                    })
                },
                Err(e) => old(self)@.refusal(*node_id) == Some(e) && *final(self) == *old(self),
            },
    {
        self.core_tree.get_mut(node_id)
    }

    /// The handle of the root, if there is one.
    pub fn root_node_id(&self) -> (root: Option<&NodeId>)
        ensures
            match root {
                Some(r) => self@.root == Some(*r),
                None => self@.root is None,
            },
    {
        self.core_tree.root()
    }

    /// Whether `node_id`, if it carries the tag of this tree, names a slot
    /// that was allocated. A handle that this tree issued always does.
    pub fn in_range(&self, node_id: &NodeId) -> (r: bool)
        ensures
            r == self@.in_range(*node_id),
    {
        self.core_tree.in_range(node_id)
    }

    /// How many slots were ever allocated.
    pub fn slot_count(&self) -> (n: usize)
        ensures
            n == self@.slots,
    {
        self.core_tree.slot_count()
    }

    /// How many slots are vacant.
    pub fn free_count(&self) -> (n: usize)
        ensures
            n == self@.free.len(),
    {
        self.core_tree.free_count()
    }

    /// How many nodes the tree can hold before its storage has to grow:
    /// at least as many as it has slots.
    pub fn node_capacity(&self) -> (capacity: usize)
        ensures
            capacity >= self@.slots,
    {
        self.core_tree.node_capacity()
    }

    /// How many vacant slots the tree can record before its free list has
    /// to grow: at least as many as are vacant.
    pub fn swap_capacity(&self) -> (capacity: usize)
        ensures
            capacity >= self@.free.len(),
    {
        self.core_tree.swap_capacity()
    }

    /// Stores the payload of `new_root` as the root. The root that was
    /// becomes its only child.
    pub(crate) fn set_root(&mut self, new_root: VecNode<T>) -> (id: NodeId)
        requires
            old(self)@.wf(),
        ensures
            final(self)@.wf(),
            id == old(self)@.next_id(),
            final(self)@ == old(self)@.inserted_root(new_root@.data),
    {
        let current_root = self.core_tree.root;
        let new_root_id = self.core_tree.insert(new_root);
        self.core_tree.set_root_id(Some(new_root_id));
        if let Some(current_root_node_id) = current_root {
            proof {
                lemma_inserted_root_wf(old(self)@, new_root@.data);
            }
            self.set_as_parent_and_child(&new_root_id, &current_root_node_id);
        }
        proof {
            lemma_inserted_root_wf(old(self)@, new_root@.data);
        }
        new_root_id
    }

    /// Stores the payload of `child` as the last child of the live node at
    /// `parent_id`.
    pub(crate) fn insert_with_parent(&mut self, child: VecNode<T>, parent_id: &NodeId) -> (r: Result<
        NodeId,
        NodeIdError,
    >)
        requires
            old(self)@.wf(),
            old(self)@.contains(*parent_id),
        ensures
            final(self)@.wf(),
            r == Ok::<NodeId, NodeIdError>(old(self)@.next_id()),
            final(self)@ == old(self)@.inserted_under(*parent_id, child@.data),
    {
        let new_child_id = self.core_tree.insert(child);
        proof {
            lemma_inserted_under_wf(old(self)@, *parent_id, child@.data);
        }
        self.set_as_parent_and_child(parent_id, &new_child_id);
        Ok(new_child_id)
    }

    /// Removes the node at `node_id`; see `RemoveBehavior` for what becomes
    /// of its children. The node comes back without links. Fails, and
    /// changes nothing, if the handle is refused. Afterwards the handle is
    /// refused as no longer valid, until its slot is reused.
    pub fn remove(&mut self, node_id: NodeId, behavior: RemoveBehavior) -> (r: Result<
        VecNode<T>,
        NodeIdError,
    >)
        requires
            old(self)@.wf(),
            old(self)@.in_range(node_id),
        ensures
            final(self)@.wf(),
            match old(self)@.refusal(node_id) {
                Some(e) => r == Err::<VecNode<T>, NodeIdError>(e) && *final(self) == *old(self),
                None => {
                    &&& r is Ok
                    &&& r.unwrap()@ == blank(old(self)@.data_of(node_id))
                    &&& final(self)@.refusal(node_id) == Some(NodeIdError::NodeIdNoLongerValid)
                    &&& match behavior {
                        RemoveBehavior::DropChildren => final(self)@ == old(self)@.dropped(
                            node_id,
                        ),
                        RemoveBehavior::LiftChildren => final(self)@ == old(self)@.removed_lift(
                            node_id,
                        ),
                        RemoveBehavior::OrphanChildren => final(self)@ == old(
                            self,
                        )@.removed_orphan(node_id),
                    }
                },
            },
    {
        match self.core_tree.validate_node_id(&node_id) {
            Ok(()) => {},
            Err(e) => {
                return Err(e);
            },
        }
        proof {
            lemma_removed_lift_wf(old(self)@, node_id);
            lemma_removed_orphan_wf(old(self)@, node_id);
            lemma_dropped_wf(old(self)@, node_id);
            lemma_not_below_itself(old(self)@, node_id);
        }
        match behavior {
            RemoveBehavior::DropChildren => self.remove_node_drop_children(node_id),
            RemoveBehavior::LiftChildren => self.remove_node_lift_children(node_id),
            RemoveBehavior::OrphanChildren => self.remove_node_orphan_children(node_id),
        }
    }

    /// Removes the live node at `node_id` and all its descendants. The
    /// node comes back without links.
    pub(crate) fn remove_node_drop_children(&mut self, node_id: NodeId) -> (r: Result<
        VecNode<T>,
        NodeIdError,
    >)
        requires
            old(self)@.wf(),
            old(self)@.contains(node_id),
        ensures
            final(self)@.wf(),
            r is Ok,
            r.unwrap()@ == blank(old(self)@.data_of(node_id)),
            final(self)@ == old(self)@.dropped(node_id),
    {
        let ghost v = old(self)@;
        let ghost n = node_id;
        let ids = self.post_order_ids_of(&node_id);
        proof {
            lemma_post_order_covers(v, n);
            lemma_not_own_child(v, n);
            lemma_rank(v);
            assert(v.node_linked(n));
            assert(ids@.len() > 0);
            assert(ids@.last() == n);
            assert(ids@.take(0) =~= Seq::empty());
            assert(v.nodes.remove_keys(ids@.take(0).to_set()) =~= v.nodes);
            assert(v.free + ids@.take(0) =~= v.free);
        }
        let last: usize = ids.len() - 1;
        let mut i: usize = 0;
        while i < last
            invariant
                last == ids@.len() - 1,
                v.wf(),
                v.contains(n),
                ids@ == v.post_order(n),
                ids@.no_duplicates(),
                ids@.len() > 0,
                ids@.last() == n,
                forall|y: NodeId| #[trigger]
                    ids@.contains(y) <==> v.contains(y) && v.in_subtree(y, n),
                i < ids@.len(),
                self@ == (TreeView {
                    nodes: v.nodes.remove_keys(ids@.take(i as int).to_set()),
                    free: v.free + ids@.take(i as int),
                    ..v
                }),
            decreases ids@.len() - i,
        {
            let next = ids[i];
            proof {
                assert(ids@.contains(next));
                assert(!ids@.take(i as int).to_set().contains(next)) by {
                    if ids@.take(i as int).contains(next) {
                        let k = choose|k: int|
                            0 <= k < ids@.take(i as int).len() && ids@.take(i as int)[k] == next;
                        assert(ids@[k] == ids@[i as int]);
                    }
                }
                assert(ids@[ids@.len() - 1] == n);
                assert(next != n);
                if let Some(root) = v.root {
                    assert(v.contains(root));
                }
            }
            let _ = self.core_tree.take(next);
            proof {
                let shorter = ids@.take(i as int);
                let longer = ids@.take(i + 1);
                assert(longer =~= shorter.push(next));
                assert(longer.to_set() =~= shorter.to_set().insert(next)) by {
                    assert forall|y: NodeId|
                        longer.to_set().contains(y) <==> shorter.to_set().insert(next).contains(
                            y,
                        ) by {
                        lemma_push_contains(shorter, next, y);
                    }
                }
                assert(self@.nodes =~= v.nodes.remove_keys(longer.to_set()));
                assert(self@.free =~= v.free + longer);
            }
            i += 1;
        }
        proof {
            let before = ids@.take(i as int);
            assert(ids@ =~= before.push(n));
            assert(!before.contains(n)) by {
                if before.contains(n) {
                    let k = choose|k: int| 0 <= k < before.len() && before[k] == n;
                    assert(ids@[k] == ids@[i as int]);
                }
            }
            assert(self@.contains(n));
            if let Some(q) = v.parent_of(n) {
                lemma_not_below_itself(v, n);
                assert(!v.in_subtree(q, n)) by {
                    if v.in_subtree(q, n) {
                        lemma_below_rank(v, v.rank(), q, n);
                    }
                }
                assert(!before.contains(q)) by {
                    if before.contains(q) {
                        let k = choose|k: int| 0 <= k < before.len() && before[k] == q;
                        assert(ids@[k] == q);
                        assert(ids@.contains(q));
                    }
                }
                assert(self@.contains(q));
            }
        }
        let ghost before_last = self@;
        let node = self.remove_node_internal(node_id);
        proof {
            broadcast use group_handles;

            let w = v.dropped(n);
            let before = ids@.take(i as int);
            lemma_dropped_wf(v, n);
            assert(self@.free =~= w.free);
            assert forall|x: NodeId| self@.nodes.dom().contains(x) <==> w.nodes.dom().contains(
                x,
            ) by {
                lemma_push_contains(before, n, x);
                if w.nodes.dom().contains(x) {
                    assert(w.contains(x));
                }
                if v.contains(x) && !v.in_subtree(x, n) {
                    assert(w.contains(x));
                    assert(!ids@.contains(x));
                }
            }
            assert(self@.nodes.dom() =~= w.nodes.dom());
            assert forall|x: NodeId| w.nodes.dom().contains(x) implies #[trigger] self@.nodes[x]
                == w.nodes[x] by {
                assert(w.contains(x));
                assert(before_last.contains(x));
            }
            assert(self@.nodes =~= w.nodes);
            assert(self@ =~= w);
        }
        Ok(node)
    }

    /// Removes the live node at `node_id`. Its children become the last
    /// children of its parent; if it has none, they stay in the arena
    /// without a parent. The node comes back without links.
    pub(crate) fn remove_node_lift_children(&mut self, node_id: NodeId) -> (r: Result<
        VecNode<T>,
        NodeIdError,
    >)
        requires
            old(self)@.wf(),
            old(self)@.contains(node_id),
        ensures
            final(self)@.wf(),
            r is Ok,
            r.unwrap()@ == blank(old(self)@.data_of(node_id)),
            final(self)@ == old(self)@.removed_lift(node_id),
    {
        proof {
            lemma_removed_lift_wf(old(self)@, node_id);
            lemma_not_own_child(old(self)@, node_id);
            assert(old(self)@.node_linked(node_id));
        }
        match self.core_tree.parent_of(&node_id) {
            Some(parent_id) => {
                let children = self.core_tree.children_of(&node_id);
                let mut i: usize = 0;
                while i < children.len()
                    invariant
                        i <= children@.len(),
                        children@ == old(self)@.children_of(node_id),
                        old(self)@.wf(),
                        old(self)@.contains(node_id),
                        old(self)@.contains(parent_id),
                        old(self)@.parent_of(node_id) == Some(parent_id),
                        self@ == old(self)@.adopted(parent_id, children@.take(i as int)),
                    decreases children@.len() - i,
                {
                    let child_id = children[i];
                    proof {
                        assert(old(self)@.node_linked(node_id));
                        assert(children@.contains(child_id));
                        assert(old(self)@.contains(child_id));
                    }
                    self.set_as_parent_and_child(&parent_id, &child_id);
                    proof {
                        broadcast use group_handles;

                        let shorter = children@.take(i as int);
                        let longer = children@.take(i + 1);
                        assert(longer =~= shorter.push(child_id));
                        assert((old(self)@.children_of(parent_id) + shorter).push(child_id)
                            =~= old(self)@.children_of(parent_id) + longer);
                        assert(self@ =~= old(self)@.adopted(parent_id, longer));
                    }
                    i += 1;
                }
                proof {
                    assert(children@.take(i as int) =~= children@);
                }
            },
            None => {
                self.clear_parent_of_children(&node_id);
            },
        }
        Ok(self.remove_node_internal(node_id))
    }

    /// Removes the live node at `node_id` and leaves its children in the
    /// arena, each without a parent. The node comes back without links.
    pub fn remove_node_orphan_children(&mut self, node_id: NodeId) -> (r: Result<
        VecNode<T>,
        NodeIdError,
    >)
        requires
            old(self)@.wf(),
            old(self)@.contains(node_id),
        ensures
            final(self)@.wf(),
            r is Ok,
            r.unwrap()@ == blank(old(self)@.data_of(node_id)),
            final(self)@ == old(self)@.removed_orphan(node_id),
    {
        proof {
            lemma_removed_orphan_wf(old(self)@, node_id);
            lemma_not_own_child(old(self)@, node_id);
            assert(old(self)@.node_linked(node_id));
        }
        self.clear_parent_of_children(&node_id);
        Ok(self.remove_node_internal(node_id))
    }

    /// Moves the node at `node_id`, with its subtree, to the root or under
    /// another node. Fails, and changes nothing, if a handle is refused;
    /// the moved node's handle is checked first.
    pub fn move_node(&mut self, node_id: &NodeId, behavior: MoveBehavior) -> (r: Result<
        (),
        NodeIdError,
    >)
        requires
            old(self)@.wf(),
            old(self)@.in_range(*node_id),
            behavior matches MoveBehavior::ToParent(p) ==> old(self)@.in_range(*p),
        ensures
            final(self)@.wf(),
            match old(self)@.refusal(*node_id) {
                Some(e) => r == Err::<(), NodeIdError>(e) && *final(self) == *old(self),
                None => match behavior {
                    MoveBehavior::ToRoot => r == Ok::<(), NodeIdError>(()) && final(self)@ == old(
                        self,
                    )@.moved_to_root(*node_id),
                    MoveBehavior::ToParent(p) => match old(self)@.refusal(*p) {
                        Some(e) => r == Err::<(), NodeIdError>(e) && *final(self) == *old(self),
                        None => r == Ok::<(), NodeIdError>(()) && final(self)@ == old(
                            self,
                        )@.moved_to_parent(*node_id, *p),
                    },
                },
            },
    {
        match self.core_tree.validate_node_id(node_id) {
            Ok(()) => {},
            Err(e) => {
                return Err(e);
            },
        }
        match behavior {
            MoveBehavior::ToRoot => self.move_node_to_root(node_id),
            MoveBehavior::ToParent(parent_id) => {
                match self.core_tree.validate_node_id(parent_id) {
                    Ok(()) => self.move_node_to_parent(node_id, parent_id),
                    Err(e) => Err(e),
                }
            },
        }
    }

    /// Moves the live node at `node_id`, with its subtree, to the end of
    /// the child list of the live node at `parent_id`.
    pub(crate) fn move_node_to_parent(&mut self, node_id: &NodeId, parent_id: &NodeId) -> (r: Result<
        (),
        NodeIdError,
    >)
        requires
            old(self)@.wf(),
            old(self)@.contains(*node_id),
            old(self)@.contains(*parent_id),
        ensures
            final(self)@.wf(),
            r == Ok::<(), NodeIdError>(()),
            final(self)@ == old(self)@.moved_to_parent(*node_id, *parent_id),
    {
        proof {
            lemma_moved_to_parent_wf(old(self)@, *node_id, *parent_id);
        }
        if *node_id == *parent_id {
            return Ok(());
        }
        let pivot = match self.find_subtree_root_between_ids(parent_id, node_id) {
            Some(id) => Some(*id),
            None => None,
        };
        if let Some(subtree_root_id) = pivot {
            proof {
                lemma_path_child(old(self)@, *parent_id, *node_id);
                assert(old(self)@.node_linked(*node_id));
            }
            let root = self.core_tree.root;
            if root == Some(*node_id) {
                self.detach_from_parent(node_id, &subtree_root_id);
                self.clear_parent(&subtree_root_id);
                self.core_tree.set_root_id(Some(subtree_root_id));
                self.set_as_parent_and_child(parent_id, node_id);
            } else {
                if let Some(old_parent) = self.core_tree.parent_of(node_id) {
                    self.detach_from_parent(&old_parent, node_id);
                    self.set_as_parent_and_child(&old_parent, &subtree_root_id);
                } else {
                    self.clear_parent(&subtree_root_id);
                }
                self.detach_from_parent(node_id, &subtree_root_id);
                self.set_as_parent_and_child(parent_id, node_id);
            }
            assert(self@ =~= old(self)@.moved_down(*node_id, *parent_id, subtree_root_id));
        } else {
            proof {
                assert(old(self)@.node_linked(*node_id));
            }
            if self.core_tree.root == Some(*node_id) {
                let top = self.top_ancestor(parent_id);
                self.core_tree.set_root_id(Some(top));
            }
            if let Some(old_parent) = self.core_tree.parent_of(node_id) {
                self.detach_from_parent(&old_parent, node_id);
            }
            self.set_as_parent_and_child(parent_id, node_id);
            assert(self@ =~= old(self)@.moved_across(*node_id, *parent_id));
        }
        Ok(())
    }

    /// Makes the live node at `node_id` the root, with its subtree. The
    /// root that was, if it is another node, becomes its last child.
    pub fn move_node_to_root(&mut self, node_id: &NodeId) -> (r: Result<(), NodeIdError>)
        requires
            old(self)@.wf(),
            old(self)@.contains(*node_id),
        ensures
            final(self)@.wf(),
            r == Ok::<(), NodeIdError>(()),
            final(self)@ == old(self)@.moved_to_root(*node_id),
    {
        let old_root = self.core_tree.root;
        proof {
            lemma_moved_to_root_wf(old(self)@, *node_id);
            lemma_detached_wf(old(self)@, *node_id);
            assert(old(self)@.node_linked(*node_id));
        }
        if let Some(parent_id) = self.core_tree.parent_of(node_id) {
            self.detach_from_parent(&parent_id, node_id);
        }
        self.clear_parent(node_id);
        self.core_tree.set_root_id(Some(*node_id));
        proof {
            let top = old(self)@.detached(*node_id).with_root(Some(*node_id));
            assert(self@ =~= top);
            lemma_root_change_wf(old(self)@.detached(*node_id), Some(*node_id));
        }
        if let Some(old_root) = old_root {
            if !(old_root == *node_id) {
                return self.move_node_to_parent(&old_root, node_id);
            }
        }
        Ok(())
    }

    /// Swaps the nodes at `first_id` and `second_id`; see `SwapBehavior`
    /// for what becomes of their children. Fails, and changes nothing, if
    /// a handle is refused; the first handle is checked first.
    pub fn swap_nodes(&mut self, first_id: &NodeId, second_id: &NodeId, behavior: SwapBehavior) -> (r:
        Result<(), NodeIdError>)
        requires
            old(self)@.wf(),
            old(self)@.in_range(*first_id),
            old(self)@.in_range(*second_id),
        ensures
            final(self)@.wf(),
            match old(self)@.refusal(*first_id) {
                Some(e) => r == Err::<(), NodeIdError>(e) && *final(self) == *old(self),
                None => match old(self)@.refusal(*second_id) {
                    Some(e) => r == Err::<(), NodeIdError>(e) && *final(self) == *old(self),
                    None => r == Ok::<(), NodeIdError>(()) && final(self)@ == match behavior {
                        SwapBehavior::TakeChildren => old(self)@.swapped_take(
                            *first_id,
                            *second_id,
                        ),
                        SwapBehavior::LeaveChildren => old(self)@.swapped_leave(
                            *first_id,
                            *second_id,
                        ),
                        SwapBehavior::ChildrenOnly => old(self)@.swapped_children(
                            *first_id,
                            *second_id,
                        ),
                    },
                },
            },
    {
        match self.core_tree.validate_node_id(first_id) {
            Ok(()) => {},
            Err(e) => {
                return Err(e);
            },
        }
        match self.core_tree.validate_node_id(second_id) {
            Ok(()) => {},
            Err(e) => {
                return Err(e);
            },
        }
        match behavior {
            SwapBehavior::TakeChildren => self.swap_nodes_take_children(first_id, second_id),
            SwapBehavior::LeaveChildren => self.swap_nodes_leave_children(first_id, second_id),
            SwapBehavior::ChildrenOnly => self.swap_nodes_children_only(first_id, second_id),
        }
    }

    /// Which of two live nodes is the descendant and which the ancestor,
    /// in this order, if one is an ancestor of the other.
    pub(crate) fn lower_and_upper(&self, first_id: &NodeId, second_id: &NodeId) -> (r: Option<
        (NodeId, NodeId),
    >)
        requires
            self@.wf(),
            self@.contains(*first_id),
            self@.contains(*second_id),
        ensures
            r == if self@.below(*first_id, *second_id) {
                Some((*first_id, *second_id))
            } else if self@.below(*second_id, *first_id) {
                Some((*second_id, *first_id))
            } else {
                None
            },
    {
        if self.find_subtree_root_between_ids(first_id, second_id).is_some() {
            Some((*first_id, *second_id))
        } else if self.find_subtree_root_between_ids(second_id, first_id).is_some() {
            Some((*second_id, *first_id))
        } else {
            None
        }
    }

    /// Lets the live nodes at `first_id` and `second_id` trade places,
    /// each with its subtree.
    pub(crate) fn swap_nodes_take_children(&mut self, first_id: &NodeId, second_id: &NodeId) -> (r:
        Result<(), NodeIdError>)
        requires
            old(self)@.wf(),
            old(self)@.contains(*first_id),
            old(self)@.contains(*second_id),
        ensures
            final(self)@.wf(),
            r == Ok::<(), NodeIdError>(()),
            final(self)@ == old(self)@.swapped_take(*first_id, *second_id),
    {
        proof {
            broadcast use group_handles;

            lemma_swapped_take_wf(old(self)@, *first_id, *second_id);
            lemma_not_below_itself(old(self)@, *first_id);
            assert(old(self)@.node_linked(*first_id));
            assert(old(self)@.node_linked(*second_id));
        }
        if let Some((lower_id, upper_id)) = self.lower_and_upper(first_id, second_id) {
            let upper_parent_id = self.core_tree.parent_of(&upper_id);
            let lower_parent_id = self.core_tree.parent_of(&lower_id).unwrap();
            proof {
                lemma_below_rank(old(self)@, old(self)@.rank(), lower_id, upper_id);
                lemma_rank(old(self)@);
                assert(old(self)@.contains(upper_id));
                assert(old(self)@.contains(lower_id));
            }
            self.set_parent(&lower_id, upper_parent_id);
            self.detach_from_parent(&lower_parent_id, &lower_id);
            if let Some(upper_parent) = upper_parent_id {
                proof {
                    assert(old(self)@.node_linked(upper_parent));
                    if lower_parent_id == upper_parent {
                        assert(old(self)@.contains(upper_parent));
                    }
                }
                self.core_tree.replace_child(&upper_parent, &upper_id, lower_id);
            } else if self.core_tree.root == Some(upper_id) {
                self.core_tree.set_root_id(Some(lower_id));
            }
            self.set_parent(&upper_id, Some(lower_id));
            self.core_tree.push_child(&lower_id, upper_id);
            assert(self@ =~= old(self)@.swapped_down(lower_id, upper_id));
        } else {
            let first_parent_id = self.core_tree.parent_of(first_id);
            let second_parent_id = self.core_tree.parent_of(second_id);
            if first_parent_id == second_parent_id {
                if let Some(parent_id) = first_parent_id {
                    self.core_tree.exchange_children(&parent_id, first_id, second_id);
                    proof {
                        if *first_id == *second_id {
                            let s = old(self)@.children_of(parent_id);
                            s.index_of_first_ensures(*first_id);
                            assert(exchanged(s, *first_id, *second_id) =~= s);
                            assert(self@ =~= old(self)@);
                        }
                    }
                }
            } else {
                self.set_parent(first_id, second_parent_id);
                self.set_parent(second_id, first_parent_id);
                if let Some(parent_id) = first_parent_id {
                    self.core_tree.replace_child(&parent_id, first_id, *second_id);
                }
                if let Some(parent_id) = second_parent_id {
                    self.core_tree.replace_child(&parent_id, second_id, *first_id);
                }
                if self.core_tree.root == Some(*first_id) {
                    self.core_tree.set_root_id(Some(*second_id));
                } else if self.core_tree.root == Some(*second_id) {
                    self.core_tree.set_root_id(Some(*first_id));
                }
                assert(self@ =~= old(self)@.traded(*first_id, *second_id));
            }
        }
        Ok(())
    }

    /// Lets the live nodes at `first_id` and `second_id` trade places and
    /// leave their children behind: each gets the parent, the place among
    /// its children and the children of the other.
    pub(crate) fn swap_nodes_leave_children(&mut self, first_id: &NodeId, second_id: &NodeId) -> (r:
        Result<(), NodeIdError>)
        requires
            old(self)@.wf(),
            old(self)@.contains(*first_id),
            old(self)@.contains(*second_id),
        ensures
            final(self)@.wf(),
            r == Ok::<(), NodeIdError>(()),
            final(self)@ == old(self)@.swapped_leave(*first_id, *second_id),
    {
        let ghost v = old(self)@;
        let ghost a = *first_id;
        let ghost b = *second_id;
        proof {
            broadcast use group_handles;

            lemma_swapped_leave_wf(v, a, b);
            lemma_not_own_child(v, a);
            lemma_not_own_child(v, b);
            assert(v.node_linked(a));
            assert(v.node_linked(b));
        }
        self.set_parent_of_children(first_id, Some(*second_id));
        self.set_parent_of_children(second_id, Some(*first_id));
        let first_children = self.core_tree.children_of(first_id);
        let second_children = self.core_tree.children_of(second_id);
        self.core_tree.set_children(first_id, second_children);
        self.core_tree.set_children(second_id, first_children);
        let first_parent = self.core_tree.parent_of(first_id);
        let second_parent = self.core_tree.parent_of(second_id);
        proof {
            broadcast use group_handles;

            if let Some(q) = v.parent_of(a) {
                assert(v.node_linked(q));
            }
            if let Some(q) = v.parent_of(b) {
                assert(v.node_linked(q));
            }
            assert(first_parent == other_link(a, b, v.parent_of(a)));
            assert(second_parent == other_link(a, b, v.parent_of(b)));
        }
        let ghost mid = self@;
        proof {
            broadcast use group_handles;

            assert forall|x: NodeId| #[trigger] v.contains(x) implies mid.contains(x)
                && mid.data_of(x) == v.data_of(x) && mid.children_of(x) == v.children_of(
                other(a, b, x),
            ) && mid.parent_of(x) == (if x == a || x == b {
                other_link(a, b, v.parent_of(x))
            } else {
                other_link(a, b, v.parent_of(other(a, b, x)))
            }) by {
                assert(v.node_linked(x));
            }
        }
        match (first_parent, second_parent) {
            (Some(first_parent_id), Some(second_parent_id)) => {
                if first_parent_id == second_parent_id {
                    self.core_tree.exchange_children(&first_parent_id, first_id, second_id);
                } else {
                    self.core_tree.replace_child(&first_parent_id, first_id, *second_id);
                    self.core_tree.replace_child(&second_parent_id, second_id, *first_id);
                }
                self.set_parent(first_id, Some(second_parent_id));
                self.set_parent(second_id, Some(first_parent_id));
            },
            (Some(first_parent_id), None) => {
                self.core_tree.replace_child(&first_parent_id, first_id, *second_id);
                self.set_parent(first_id, None);
                self.set_parent(second_id, Some(first_parent_id));
                if self.core_tree.root == Some(*second_id) {
                    self.core_tree.set_root_id(Some(*first_id));
                }
            },
            (None, Some(second_parent_id)) => {
                self.core_tree.replace_child(&second_parent_id, second_id, *first_id);
                self.set_parent(first_id, Some(second_parent_id));
                self.set_parent(second_id, None);
                if self.core_tree.root == Some(*first_id) {
                    self.core_tree.set_root_id(Some(*second_id));
                }
            },
            (None, None) => {
                if self.core_tree.root == Some(*first_id) {
                    self.core_tree.set_root_id(Some(*second_id));
                } else if self.core_tree.root == Some(*second_id) {
                    self.core_tree.set_root_id(Some(*first_id));
                }
            },
        }
        proof {
            broadcast use group_handles;

            let w = v.swapped_leave(a, b);
            if let Some(root) = v.root {
                assert(v.contains(root));
            }
            assert(self@.root == w.root);
            assert(self@.nodes.dom() =~= w.nodes.dom());
            assert forall|x: NodeId| w.nodes.dom().contains(x) implies #[trigger] self@.nodes[x]
                == w.nodes[x] by {
                assert(w.contains(x));
                assert(v.contains(x));
                assert(v.node_linked(x));
                let ox = other(a, b, x);
                assert(v.contains(ox));
                assert(v.node_linked(ox));
                let s = v.children_of(ox);
                assert(mid.children_of(x) == s);
                if a == b {
                    s.index_of_first_ensures(a);
                    assert(renamed(s, a, b) =~= s);
                    assert(exchanged(s, a, b) =~= s);
                } else {
                    lemma_renamed_as_edit(s, a, b);
                }
                if s.contains(a) {
                    assert(v.parent_of(a) == Some(ox));
                    assert(mid.parent_of(a) == Some(x));
                }
                if s.contains(b) {
                    assert(v.parent_of(b) == Some(ox));
                    assert(mid.parent_of(b) == Some(x));
                }
                if first_parent == Some(x) {
                    assert(s.contains(a));
                }
                if second_parent == Some(x) {
                    assert(s.contains(b));
                }
                assert(self@.data_of(x) == w.data_of(x));
                assert(self@.parent_of(x) == w.parent_of(x));
                assert(self@.children_of(x) =~= w.children_of(x));
                assert(self@.nodes[x] =~= w.nodes[x]);
            }
            assert(self@.nodes =~= w.nodes);
            assert(self@ =~= w);
        }
        Ok(())
    }

    /// Lets the live nodes at `first_id` and `second_id` exchange their
    /// children and stay where they are.
    pub(crate) fn swap_nodes_children_only(&mut self, first_id: &NodeId, second_id: &NodeId) -> (r:
        Result<(), NodeIdError>)
        requires
            old(self)@.wf(),
            old(self)@.contains(*first_id),
            old(self)@.contains(*second_id),
        ensures
            final(self)@.wf(),
            r == Ok::<(), NodeIdError>(()),
            final(self)@ == old(self)@.swapped_children(*first_id, *second_id),
    {
        proof {
            broadcast use group_handles;

            lemma_swapped_children_wf(old(self)@, *first_id, *second_id);
            lemma_not_below_itself(old(self)@, *first_id);
            assert(old(self)@.node_linked(*first_id));
            assert(old(self)@.node_linked(*second_id));
        }
        if *first_id == *second_id {
            return Ok(());
        }
        let first_children = self.core_tree.children_of(first_id);
        let second_children = self.core_tree.children_of(second_id);
        if let Some((lower_id, upper_id)) = self.lower_and_upper(first_id, second_id) {
            let lower_parent = self.core_tree.parent_of(&lower_id).unwrap();
            let (upper_all, lower_children) = if upper_id == *first_id {
                (first_children, second_children)
            } else {
                (second_children, first_children)
            };
            let mut upper_children = upper_all;
            proof {
                assert(old(self)@.contains(upper_id));
                assert(old(self)@.contains(lower_id));
                assert(old(self)@.node_linked(lower_id));
                assert(old(self)@.node_linked(upper_id));
            }
            remove_all(&mut upper_children, &lower_id);
            self.detach_from_parent(&lower_parent, &lower_id);
            self.set_parent_of_all(&upper_children, Some(lower_id));
            self.set_parent_of_all(&lower_children, Some(upper_id));
            self.core_tree.set_children(&upper_id, lower_children);
            self.core_tree.set_children(&lower_id, upper_children);
            self.set_as_parent_and_child(&upper_id, &lower_id);
        } else {
            self.set_parent_of_all(&first_children, Some(*second_id));
            self.set_parent_of_all(&second_children, Some(*first_id));
            self.core_tree.set_children(first_id, second_children);
            self.core_tree.set_children(second_id, first_children);
        }
        Ok(())
    }

    /// The child of `upper_id` through which the way from the live node
    /// at `lower_id` up to `upper_id` passes, if `upper_id` is a proper
    /// ancestor of `lower_id`.
    pub fn find_subtree_root_between_ids<'f>(
        &'f self,
        lower_id: &'f NodeId,
        upper_id: &'f NodeId,
    ) -> (r: Option<&'f NodeId>)
        requires
            self@.wf(),
            self@.contains(*lower_id),
        ensures
            match r {
                Some(s) => self@.path_child(*lower_id, *upper_id) == Some(*s),
                None => self@.path_child(*lower_id, *upper_id) is None,
            },
    {
        let mut current: &NodeId = lower_id;
        loop
            invariant
                self@.wf(),
                self@.contains(*current),
                self@.path_child(*current, *upper_id) == self@.path_child(*lower_id, *upper_id),
            decreases (self@.rank())(*current),
        {
            proof {
                lemma_rank(self@);
                assert(self@.node_linked(*current));
            }
            match self.core_tree.get_unsafe(current).parent() {
                Some(parent) => {
                    if *parent == *upper_id {
                        return Some(current);
                    }
                    current = parent;
                },
                None => {
                    return None;
                },
            }
        }
    }

    /// The node without a parent at which the way up from the live node at
    /// `node_id` ends.
    pub(crate) fn top_ancestor(&self, node_id: &NodeId) -> (top: NodeId)
        requires
            self@.wf(),
            self@.contains(*node_id),
        ensures
            top == self@.top_of(*node_id),
    {
        let mut current: NodeId = *node_id;
        loop
            invariant
                self@.wf(),
                self@.contains(current),
                self@.top_of(current) == self@.top_of(*node_id),
            decreases (self@.rank())(current),
        {
            proof {
                lemma_rank(self@);
                assert(self@.node_linked(current));
            }
            match self.core_tree.parent_of(&current) {
                Some(parent) => {
                    current = parent;
                },
                None => {
                    return current;
                },
            }
        }
    }

    /// Takes the node at `node_id` out of the arena and out of the child
    /// list of its parent, and returns it without links. The links of its
    /// children are the caller's business.
    pub(crate) fn remove_node_internal(&mut self, node_id: NodeId) -> (node: VecNode<T>)
        requires
            old(self)@.contains(node_id),
            old(self)@.parent_of(node_id) matches Some(q) ==> old(self)@.contains(q) && q
                != node_id,
        ensures
            node@ == blank(old(self)@.data_of(node_id)),
            final(self)@ == match old(self)@.parent_of(node_id) {
                Some(q) => old(self)@.vacate(node_id).unlist(q, node_id),
                None => old(self)@.vacate(node_id),
            },
    {
        let node = self.core_tree.take(node_id);
        if let Some(parent_id) = node.parent {
            self.core_tree.unlist_child(&parent_id, &node_id);
        }
        Node::new(node.data)
    }

    /// The node at `node_id` names no parent.
    pub(crate) fn clear_parent(&mut self, node_id: &NodeId)
        requires
            old(self)@.contains(*node_id),
        ensures
            final(self)@ == old(self)@.with_parent(*node_id, None),
    {
        self.set_parent(node_id, None);
    }

    /// The node at `node_id` names `new_parent` as its parent.
    pub(crate) fn set_parent(&mut self, node_id: &NodeId, new_parent: Option<NodeId>)
        requires
            old(self)@.contains(*node_id),
        ensures
            final(self)@ == old(self)@.with_parent(*node_id, new_parent),
    {
        self.core_tree.set_parent(node_id, new_parent);
    }

    /// No child of the node at `node_id` names a parent.
    pub(crate) fn clear_parent_of_children(&mut self, node_id: &NodeId)
        requires
            old(self)@.contains(*node_id),
            forall|x: NodeId| #[trigger]
                old(self)@.children_of(*node_id).contains(x) ==> old(self)@.contains(x),
        ensures
            final(self)@ == old(self)@.reparented(old(self)@.children_of(*node_id), None),
    {
        self.set_parent_of_children(node_id, None);
    }

    /// Every child of the node at `node_id` names `new_parent` as its
    /// parent.
    pub(crate) fn set_parent_of_children(&mut self, node_id: &NodeId, new_parent: Option<NodeId>)
        requires
            old(self)@.contains(*node_id),
            forall|x: NodeId| #[trigger]
                old(self)@.children_of(*node_id).contains(x) ==> old(self)@.contains(x),
        ensures
            final(self)@ == old(self)@.reparented(old(self)@.children_of(*node_id), new_parent),
    {
        let children = self.core_tree.children_of(node_id);
        self.set_parent_of_all(&children, new_parent);
    }

    /// Every node listed in `ids` names `new_parent` as its parent.
    pub(crate) fn set_parent_of_all(&mut self, ids: &Vec<NodeId>, new_parent: Option<NodeId>)
        requires
            forall|x: NodeId| #[trigger] ids@.contains(x) ==> old(self)@.contains(x),
        ensures
            final(self)@ == old(self)@.reparented(ids@, new_parent),
    {
        let mut i: usize = 0;
        proof {
            assert(self@ =~= old(self)@.reparented(ids@.take(0), new_parent));
        }
        while i < ids.len()
            invariant
                i <= ids@.len(),
                forall|x: NodeId| #[trigger] ids@.contains(x) ==> old(self)@.contains(x),
                self@ == old(self)@.reparented(ids@.take(i as int), new_parent),
            decreases ids@.len() - i,
        {
            let child_id = ids[i];
            proof {
                assert(ids@.contains(child_id));
            }
            self.set_parent(&child_id, new_parent);
            proof {
                broadcast use group_handles;

                let shorter = ids@.take(i as int);
                let longer = ids@.take(i + 1);
                assert(longer =~= shorter.push(child_id));
                assert(self@ =~= old(self)@.reparented(longer, new_parent));
            }
            i += 1;
        }
        proof {
            assert(ids@.take(i as int) =~= ids@);
        }
    }

    /// The node at `parent_id` no longer lists `node_id` as a child.
    pub(crate) fn detach_from_parent(&mut self, parent_id: &NodeId, node_id: &NodeId)
        requires
            old(self)@.contains(*parent_id),
        ensures
            final(self)@ == old(self)@.unlist(*parent_id, *node_id),
    {
        self.core_tree.unlist_child(parent_id, node_id);
    }

    /// Makes the node at `child_id` the last child of the node at
    /// `parent_id`, whatever its links were.
    pub(crate) fn set_as_parent_and_child(&mut self, parent_id: &NodeId, child_id: &NodeId)
        requires
            old(self)@.contains(*parent_id),
            old(self)@.contains(*child_id),
        ensures
            final(self)@ == old(self)@.attach(*parent_id, *child_id),
    {
        self.core_tree.push_child(parent_id, *child_id);
        self.core_tree.set_parent(child_id, Some(*parent_id));
    }
}

} // verus!
