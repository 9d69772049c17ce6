//! The walks through a tree: upwards along the parent links, and across
//! the children of one node.

use crate::ancestry::lemma_below_rank;
use crate::ancestry::lemma_not_below_itself;
use crate::ancestry::lemma_rank;
use crate::handles::lemma_add_contains;
use crate::error::NodeIdError;
use crate::model::TreeView;
use crate::node::Node;
use crate::node_id::NodeId;
use crate::orders::lemma_next_level;
use crate::orders::lemma_room_of_child;
use crate::vec_tree::VecNode;
use crate::vec_tree::VecTree;
use vstd::prelude::*;

verus! {

impl<T> TreeView<T> {
    /// The ancestors of `x`, from its parent up to the node without a
    /// parent.
    pub open spec fn ancestors_of(self, x: NodeId) -> Seq<NodeId>
        decreases (self.rank())(x),
        when self.acyclic() && self.contains(x)
    {
        match self.parent_of(x) {
            Some(p) => if self.contains(p) {
                seq![p] + self.ancestors_of(p)
            } else {
                Seq::empty()
            },
            None => Seq::empty(),
        }
    }

    /// `nodes` are the live nodes that `ids` name, in the same order.
    pub open spec fn are_nodes_at(self, nodes: Seq<&Node<T>>, ids: Seq<NodeId>) -> bool {
        &&& nodes.len() == ids.len()
        &&& forall|i: int|
            0 <= i < ids.len() ==> self.contains(ids[i]) && (#[trigger] nodes[i])@
                == self.nodes[ids[i]]
    }
}

/// The ancestors of a live node are the nodes that it stands below, each
/// listed once, and the last of them is the node without a parent that
/// the way up ends at.
pub proof fn lemma_ancestors_are_above<T>(v: TreeView<T>, x: NodeId)
    requires
        v.wf(),
        v.contains(x),
    ensures
        v.ancestors_of(x).no_duplicates(),
        forall|a: NodeId| #[trigger] v.ancestors_of(x).contains(a) <==> v.below(x, a),
        v.ancestors_of(x).len() > 0 ==> v.ancestors_of(x).last() == v.top_of(x),
        v.ancestors_of(x).len() == 0 <==> v.parent_of(x) is None,
    decreases (v.rank())(x),
{
    lemma_rank(v);
    assert(v.node_linked(x));
    match v.parent_of(x) {
        Some(p) => {
            lemma_ancestors_are_above(v, p);
            let above = v.ancestors_of(p);
            assert(seq![p][0] == p);
            assert forall|a: NodeId| #[trigger] v.ancestors_of(x).contains(a) <==> v.below(
                x,
                a,
            ) by {
                lemma_add_contains(seq![p], above, a);
                assert(seq![p].contains(a) <==> a == p);
                if a != p && v.below(p, a) {
                    lemma_below_rank(v, v.rank(), p, a);
                }
            }
            assert forall|i: int, j: int|
                0 <= i < seq![p].len() && 0 <= j < above.len() implies seq![p][i] != above[j] by {
                assert(above.contains(above[j]));
                lemma_not_below_itself(v, p);
            }
            vstd::seq_lib::lemma_no_dup_in_concat(seq![p], above);
            assert(v.top_of(x) == v.top_of(p));
            if above.len() > 0 {
                assert((seq![p] + above).last() == above.last());
            } else {
                assert(seq![p] + above =~= seq![p]);
                assert(v.node_linked(p));
                assert(v.top_of(p) == p);
            }
        },
        None => {},
    }
}

impl<T> VecTree<T> {
    /// The nodes that `ids` name, which are all live.
    pub(crate) fn nodes_at(&self, ids: &Vec<NodeId>) -> (nodes: Vec<&VecNode<T>>)
        requires
            forall|i: int| 0 <= i < ids@.len() ==> self@.contains(#[trigger] ids@[i]),
        ensures
            self@.are_nodes_at(nodes@, ids@),
    {
        let mut nodes: Vec<&VecNode<T>> = Vec::new();
        let mut i: usize = 0;
        while i < ids.len()
            invariant
                i <= ids@.len(),
                forall|k: int| 0 <= k < ids@.len() ==> self@.contains(#[trigger] ids@[k]),
                nodes@.len() == i,
                forall|k: int|
                    0 <= k < i ==> (#[trigger] nodes@[k])@ == self@.nodes[ids@[k]],
            decreases ids@.len() - i,
        {
            nodes.push(self.core_tree.get_unsafe(&ids[i]));
            i += 1;
        }
        nodes
    }

    /// The handles of the ancestors of the node at `node_id`, from its
    /// parent up to the node without a parent. Fails if the handle is
    /// refused.
    pub fn ancestor_ids(&self, node_id: &NodeId) -> (r: Result<Vec<NodeId>, NodeIdError>)
        requires
            self@.wf(),
            self@.in_range(*node_id),
        ensures
            match r {
                Ok(ids) => self@.refusal(*node_id) is None && ids@ == self@.ancestors_of(
                    *node_id,
                ),
                Err(e) => self@.refusal(*node_id) == Some(e),
            },
    {
        let (is_valid, error) = self.core_tree.is_valid_node_id(node_id);
        if !is_valid {
            return Err(error.unwrap());
        }
        Ok(self.ancestor_ids_of(node_id))
    }

    /// The handles of the ancestors of the live node at `node_id`.
    pub(crate) fn ancestor_ids_of(&self, node_id: &NodeId) -> (ids: Vec<NodeId>)
        requires
            self@.wf(),
            self@.contains(*node_id),
        ensures
            ids@ == self@.ancestors_of(*node_id),
            forall|i: int| 0 <= i < ids@.len() ==> self@.contains(#[trigger] ids@[i]),
    {
        let mut ids: Vec<NodeId> = Vec::new();
        let mut current: NodeId = *node_id;
        loop
            invariant
                self@.wf(),
                self@.contains(current),
                self@.ancestors_of(*node_id) == ids@ + self@.ancestors_of(current),
                forall|i: int| 0 <= i < ids@.len() ==> self@.contains(#[trigger] ids@[i]),
            decreases (self@.rank())(current),
        {
            proof {
                lemma_rank(self@);
                assert(self@.node_linked(current));
            }
            match self.core_tree.parent_of(&current) {
                Some(parent) => {
                    proof {
                        assert(ids@.push(parent) + self@.ancestors_of(parent) =~= ids@ + (
                        seq![parent] + self@.ancestors_of(parent)));
                    }
                    ids.push(parent);
                    current = parent;
                },
                None => {
                    proof {
                        assert(ids@ + Seq::<NodeId>::empty() =~= ids@);
                    }
                    return ids;
                },
            }
        }
    }

    /// The ancestors of the node at `node_id`, from its parent up to the
    /// node without a parent. Fails if the handle is refused.
    pub fn ancestors(&self, node_id: &NodeId) -> (r: Result<Vec<&VecNode<T>>, NodeIdError>)
        requires
            self@.wf(),
            self@.in_range(*node_id),
        ensures
            match r {
                Ok(nodes) => self@.refusal(*node_id) is None && self@.are_nodes_at(
                    nodes@,
                    self@.ancestors_of(*node_id),
                ),
                Err(e) => self@.refusal(*node_id) == Some(e),
            },
    {
        let (is_valid, error) = self.core_tree.is_valid_node_id(node_id);
        if !is_valid {
            return Err(error.unwrap());
        }
        let ids = self.ancestor_ids_of(node_id);
        Ok(self.nodes_at(&ids))
    }

    /// The handles of the children of the node at `node_id`, in order.
    /// Fails if the handle is refused.
    pub fn children_ids(&self, node_id: &NodeId) -> (r: Result<Vec<NodeId>, NodeIdError>)
        requires
            self@.in_range(*node_id),
        ensures
            match r {
                Ok(ids) => self@.refusal(*node_id) is None && ids@ == self@.children_of(
                    *node_id,
                ),
                Err(e) => self@.refusal(*node_id) == Some(e),
            },
    {
        let (is_valid, error) = self.core_tree.is_valid_node_id(node_id);
        if !is_valid {
            return Err(error.unwrap());
        }
        Ok(self.core_tree.children_of(node_id))
    }

    /// The children of the node at `node_id`, in order. Fails if the
    /// handle is refused.
    pub fn children(&self, node_id: &NodeId) -> (r: Result<Vec<&VecNode<T>>, NodeIdError>)
        requires
            self@.wf(),
            self@.in_range(*node_id),
        ensures
            match r {
                Ok(nodes) => self@.refusal(*node_id) is None && self@.are_nodes_at(
                    nodes@,
                    self@.children_of(*node_id),
                ),
                Err(e) => self@.refusal(*node_id) == Some(e),
            },
    {
        let (is_valid, error) = self.core_tree.is_valid_node_id(node_id);
        if !is_valid {
            return Err(error.unwrap());
        }
        let ids = self.core_tree.children_of(node_id);
        proof {
            assert(self@.node_linked(*node_id));
            assert forall|i: int| 0 <= i < ids@.len() implies self@.contains(
                #[trigger] ids@[i],
            ) by {
                assert(self@.children_of(*node_id).contains(ids@[i]));
            }
        }
        Ok(self.nodes_at(&ids))
    }

    /// The handles of the subtree under the node at `node_id`, in
    /// pre-order. Fails if the handle is refused.
    pub fn traverse_pre_order_ids(&self, node_id: &NodeId) -> (r: Result<Vec<NodeId>, NodeIdError>)
        requires
            self@.wf(),
            self@.in_range(*node_id),
        ensures
            match r {
                Ok(ids) => self@.refusal(*node_id) is None && ids@ == self@.pre_order(*node_id),
                Err(e) => self@.refusal(*node_id) == Some(e),
            },
    {
        let (is_valid, error) = self.core_tree.is_valid_node_id(node_id);
        if !is_valid {
            return Err(error.unwrap());
        }
        Ok(self.pre_order_ids_of(node_id))
    }

    /// The nodes of the subtree under the node at `node_id`, in pre-order.
    /// Fails if the handle is refused.
    pub fn traverse_pre_order(&self, node_id: &NodeId) -> (r: Result<
        Vec<&VecNode<T>>,
        NodeIdError,
    >)
        requires
            self@.wf(),
            self@.in_range(*node_id),
        ensures
            match r {
                Ok(nodes) => self@.refusal(*node_id) is None && self@.are_nodes_at(
                    nodes@,
                    self@.pre_order(*node_id),
                ),
                Err(e) => self@.refusal(*node_id) == Some(e),
            },
    {
        let (is_valid, error) = self.core_tree.is_valid_node_id(node_id);
        if !is_valid {
            return Err(error.unwrap());
        }
        let ids = self.pre_order_ids_of(node_id);
        Ok(self.nodes_at(&ids))
    }

    /// The handles of the subtree under the live node at `node_id`, in
    /// pre-order.
    pub(crate) fn pre_order_ids_of(&self, node_id: &NodeId) -> (ids: Vec<NodeId>)
        requires
            self@.wf(),
            self@.contains(*node_id),
        ensures
            ids@ == self@.pre_order(*node_id),
            forall|i: int| 0 <= i < ids@.len() ==> self@.contains(#[trigger] ids@[i]),
    {
        let mut ids: Vec<NodeId> = Vec::new();
        let mut stack: Vec<NodeId> = Vec::new();
        stack.push(*node_id);
        proof {
            assert(stack@.drop_last() =~= Seq::empty());
            assert(stack@.last() == *node_id);
            assert(self@.pre_order_of_stack(Seq::empty()) =~= Seq::empty());
            assert(self@.pre_order_of_stack(stack@) =~= self@.pre_order(*node_id));
            assert(ids@ + self@.pre_order_of_stack(stack@) =~= self@.pre_order(*node_id));
        }
        while stack.len() > 0
            invariant
                self@.wf(),
                forall|i: int| 0 <= i < stack@.len() ==> self@.contains(#[trigger] stack@[i]),
                forall|i: int| 0 <= i < ids@.len() ==> self@.contains(#[trigger] ids@[i]),
                ids@ + self@.pre_order_of_stack(stack@) == self@.pre_order(*node_id),
            decreases self@.pre_order_of_stack(stack@).len(),
        {
            let ghost before = stack@;
            let ghost seen = ids@;
            let top = stack.pop().unwrap();
            let ghost rest = stack@;
            proof {
                assert(before[before.len() - 1] == top);
                assert(rest =~= before.drop_last());
                assert forall|i: int| 0 <= i < rest.len() implies self@.contains(
                    #[trigger] rest[i],
                ) by {
                    assert(rest[i] == before[i]);
                }
                assert(self@.contains(top));
            }
            ids.push(top);
            let children = self.core_tree.children_of(&top);
            let mut j: usize = children.len();
            proof {
                assert(self@.pre_order_from(top, j as nat) =~= Seq::empty());
                assert(self@.pre_order_of_stack(rest) =~= self@.pre_order_from(top, j as nat)
                    + self@.pre_order_of_stack(rest));
            }
            while j > 0
                invariant
                    self@.wf(),
                    self@.contains(top),
                    children@ == self@.children_of(top),
                    j <= children@.len(),
                    forall|i: int| 0 <= i < stack@.len() ==> self@.contains(#[trigger] stack@[i]),
                    self@.pre_order_of_stack(stack@) == self@.pre_order_from(top, j as nat)
                        + self@.pre_order_of_stack(rest),
                decreases j,
            {
                j -= 1;
                let ghost under = stack@;
                proof {
                    lemma_room_of_child(self@, top, j as int);
                }
                stack.push(children[j]);
                proof {
                    assert(stack@.drop_last() =~= under);
                    assert(self@.pre_order_of_stack(stack@) =~= self@.pre_order(
                        children@[j as int],
                    ) + (self@.pre_order_from(top, (j + 1) as nat) + self@.pre_order_of_stack(
                        rest,
                    )));
                }
            }
            proof {
                assert(self@.pre_order_of_stack(before) == self@.pre_order(top)
                    + self@.pre_order_of_stack(rest));
                assert(seen.push(top) + (self@.pre_order_from(top, 0)
                    + self@.pre_order_of_stack(rest)) =~= seen + ((seq![top]
                    + self@.pre_order_from(top, 0)) + self@.pre_order_of_stack(rest)));
            }
        }
        proof {
            assert(ids@ + Seq::<NodeId>::empty() =~= ids@);
        }
        ids
    }

    /// The handles of the subtree under the node at `node_id`, in
    /// post-order. Fails if the handle is refused.
    pub fn traverse_post_order_ids(&self, node_id: &NodeId) -> (r: Result<
        Vec<NodeId>,
        NodeIdError,
    >)
        requires
            self@.wf(),
            self@.in_range(*node_id),
        ensures
            match r {
                Ok(ids) => self@.refusal(*node_id) is None && ids@ == self@.post_order(*node_id),
                Err(e) => self@.refusal(*node_id) == Some(e),
            },
    {
        let (is_valid, error) = self.core_tree.is_valid_node_id(node_id);
        if !is_valid {
            return Err(error.unwrap());
        }
        Ok(self.post_order_ids_of(node_id))
    }

    /// The nodes of the subtree under the node at `node_id`, in
    /// post-order. Fails if the handle is refused.
    pub fn traverse_post_order(&self, node_id: &NodeId) -> (r: Result<
        Vec<&VecNode<T>>,
        NodeIdError,
    >)
        requires
            self@.wf(),
            self@.in_range(*node_id),
        ensures
            match r {
                Ok(nodes) => self@.refusal(*node_id) is None && self@.are_nodes_at(
                    nodes@,
                    self@.post_order(*node_id),
                ),
                Err(e) => self@.refusal(*node_id) == Some(e),
            },
    {
        let (is_valid, error) = self.core_tree.is_valid_node_id(node_id);
        if !is_valid {
            return Err(error.unwrap());
        }
        let ids = self.post_order_ids_of(node_id);
        Ok(self.nodes_at(&ids))
    }

    /// The handles of the subtree under the live node at `node_id`, in
    /// post-order.
    pub(crate) fn post_order_ids_of(&self, node_id: &NodeId) -> (ids: Vec<NodeId>)
        requires
            self@.wf(),
            self@.contains(*node_id),
        ensures
            ids@ == self@.post_order(*node_id),
            forall|i: int| 0 <= i < ids@.len() ==> self@.contains(#[trigger] ids@[i]),
    {
        let mut backwards: Vec<NodeId> = Vec::new();
        let mut stack: Vec<NodeId> = Vec::new();
        stack.push(*node_id);
        proof {
            assert(stack@.drop_last() =~= Seq::empty());
            assert(stack@.last() == *node_id);
            assert(self@.post_order_of_stack(Seq::empty()) =~= Seq::empty());
            assert(self@.post_order_of_stack(stack@) =~= self@.post_order(*node_id));
            assert(backwards@.reverse() =~= Seq::empty());
            assert(self@.post_order_of_stack(stack@) + backwards@.reverse()
                =~= self@.post_order(*node_id));
        }
        while stack.len() > 0
            invariant
                self@.wf(),
                forall|i: int| 0 <= i < stack@.len() ==> self@.contains(#[trigger] stack@[i]),
                forall|i: int|
                    0 <= i < backwards@.len() ==> self@.contains(#[trigger] backwards@[i]),
                self@.post_order_of_stack(stack@) + backwards@.reverse() == self@.post_order(
                    *node_id,
                ),
            decreases self@.post_order_of_stack(stack@).len(),
        {
            let ghost before = stack@;
            let ghost seen = backwards@;
            let top = stack.pop().unwrap();
            let ghost rest = stack@;
            proof {
                assert(before[before.len() - 1] == top);
                assert(rest =~= before.drop_last());
                assert forall|i: int| 0 <= i < rest.len() implies self@.contains(
                    #[trigger] rest[i],
                ) by {
                    assert(rest[i] == before[i]);
                }
                assert(self@.contains(top));
            }
            backwards.push(top);
            let children = self.core_tree.children_of(&top);
            let mut j: usize = 0;
            proof {
                assert(seen.push(top).reverse() =~= seq![top] + seen.reverse());
                assert(self@.post_order_of_stack(rest) + self@.post_order_upto(top, 0) =~= self@.post_order_of_stack(
                    rest,
                ));
            }
            while j < children.len()
                invariant
                    self@.wf(),
                    self@.contains(top),
                    children@ == self@.children_of(top),
                    j <= children@.len(),
                    forall|i: int| 0 <= i < stack@.len() ==> self@.contains(#[trigger] stack@[i]),
                    self@.post_order_of_stack(stack@) == self@.post_order_of_stack(rest)
                        + self@.post_order_upto(top, j as nat),
                decreases children@.len() - j,
            {
                let ghost under = stack@;
                proof {
                    lemma_room_of_child(self@, top, j as int);
                }
                stack.push(children[j]);
                j += 1;
                proof {
                    assert(stack@.drop_last() =~= under);
                    assert(self@.post_order_of_stack(stack@) =~= self@.post_order_of_stack(rest)
                        + (self@.post_order_upto(top, (j - 1) as nat) + self@.post_order(
                        children@[j - 1],
                    )));
                }
            }
            proof {
                assert(self@.post_order_of_stack(before) == self@.post_order_of_stack(rest)
                    + self@.post_order(top));
                assert(self@.post_order_of_stack(stack@) + backwards@.reverse() =~= (
                self@.post_order_of_stack(rest) + (self@.post_order_upto(
                    top,
                    children@.len() as nat,
                ) + seq![top])) + seen.reverse());
            }
        }
        proof {
            assert(Seq::<NodeId>::empty() + backwards@.reverse() =~= backwards@.reverse());
        }
        let mut ids: Vec<NodeId> = Vec::new();
        let mut k: usize = backwards.len();
        while k > 0
            invariant
                k <= backwards@.len(),
                ids@.len() == backwards@.len() - k,
                forall|i: int| 0 <= i < ids@.len() ==> #[trigger] ids@[i] == backwards@[
                    backwards@.len() - 1 - i
                ],
            decreases k,
        {
            k -= 1;
            ids.push(backwards[k]);
        }
        proof {
            assert(ids@ =~= backwards@.reverse());
        }
        ids
    }

    /// The handles of the subtree under the node at `node_id`, in level
    /// order. Fails if the handle is refused.
    pub fn traverse_level_order_ids(&self, node_id: &NodeId) -> (r: Result<
        Vec<NodeId>,
        NodeIdError,
    >)
        requires
            self@.wf(),
            self@.in_range(*node_id),
        ensures
            match r {
                Ok(ids) => self@.refusal(*node_id) is None && ids@ == self@.level_order(
                    *node_id,
                ),
                Err(e) => self@.refusal(*node_id) == Some(e),
            },
    {
        let (is_valid, error) = self.core_tree.is_valid_node_id(node_id);
        if !is_valid {
            return Err(error.unwrap());
        }
        Ok(self.level_order_ids_of(node_id))
    }

    /// The nodes of the subtree under the node at `node_id`, in level
    /// order. Fails if the handle is refused.
    pub fn traverse_level_order(&self, node_id: &NodeId) -> (r: Result<
        Vec<&VecNode<T>>,
        NodeIdError,
    >)
        requires
            self@.wf(),
            self@.in_range(*node_id),
        ensures
            match r {
                Ok(nodes) => self@.refusal(*node_id) is None && self@.are_nodes_at(
                    nodes@,
                    self@.level_order(*node_id),
                ),
                Err(e) => self@.refusal(*node_id) == Some(e),
            },
    {
        let (is_valid, error) = self.core_tree.is_valid_node_id(node_id);
        if !is_valid {
            return Err(error.unwrap());
        }
        let ids = self.level_order_ids_of(node_id);
        Ok(self.nodes_at(&ids))
    }

    /// The handles of the subtree under the live node at `node_id`, in
    /// level order.
    pub(crate) fn level_order_ids_of(&self, node_id: &NodeId) -> (ids: Vec<NodeId>)
        requires
            self@.wf(),
            self@.contains(*node_id),
        ensures
            ids@ == self@.level_order(*node_id),
            forall|i: int| 0 <= i < ids@.len() ==> self@.contains(#[trigger] ids@[i]),
    {
        let mut ids: Vec<NodeId> = Vec::new();
        let mut level: Vec<NodeId> = Vec::new();
        level.push(*node_id);
        proof {
            assert(level@ =~= seq![*node_id]);
            assert(ids@ + self@.levels_from(level@) =~= self@.level_order(*node_id));
        }
        while level.len() > 0
            invariant
                self@.wf(),
                forall|i: int| 0 <= i < level@.len() ==> self@.contains(#[trigger] level@[i]),
                forall|i: int| 0 <= i < ids@.len() ==> self@.contains(#[trigger] ids@[i]),
                ids@ + self@.levels_from(level@) == self@.level_order(*node_id),
            decreases self@.level_room(level@),
        {
            let ghost seen = ids@;
            let mut next: Vec<NodeId> = Vec::new();
            let mut i: usize = 0;
            proof {
                assert(level@.take(0) =~= Seq::empty());
                assert(seen + level@.take(0) =~= seen);
            }
            while i < level.len()
                invariant
                    i <= level@.len(),
                    forall|k: int| 0 <= k < level@.len() ==> self@.contains(#[trigger] level@[k]),
                    forall|k: int| 0 <= k < ids@.len() ==> self@.contains(#[trigger] ids@[k]),
                    ids@ == seen + level@.take(i as int),
                    next@ == self@.children_of_all(level@.take(i as int)),
                decreases level@.len() - i,
            {
                ids.push(level[i]);
                let mut kids = self.core_tree.children_of(&level[i]);
                next.append(&mut kids);
                proof {
                    let longer = level@.take(i + 1);
                    assert(longer.drop_last() =~= level@.take(i as int));
                    assert(longer.last() == level@[i as int]);
                    assert(ids@ =~= seen + longer);
                }
                i += 1;
            }
            proof {
                assert(level@.take(i as int) =~= level@);
                lemma_next_level(self@, level@);
                assert(ids@ + self@.levels_from(next@) =~= seen + (level@ + self@.levels_from(
                    self@.children_of_all(level@),
                )));
            }
            level = next;
        }
        proof {
            assert(ids@ + Seq::<NodeId>::empty() =~= ids@);
        }
        ids
    }
}

} // verus!
