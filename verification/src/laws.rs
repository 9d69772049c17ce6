//! What holds of every well-formed arena, and what the operations keep.

use crate::ancestry::lemma_below_rank;
use crate::ancestry::lemma_not_below_itself;
use crate::ancestry::lemma_not_own_child;
use crate::ancestry::lemma_path_child;
use crate::ancestry::lemma_same_storage;
use crate::ancestry::lemma_top_of;
use crate::error::NodeIdError;
use crate::ancestry::lemma_rank;
use crate::handles::group_handles;
use crate::handles::lemma_without_add;
use crate::handles::lemma_without_len;
use crate::handles::without;
use crate::inserts::lemma_inserted_root_wf;
use crate::inserts::lemma_inserted_under_wf;
use crate::inserts::lemma_next_id_fresh;
use crate::moves::lemma_moved_to_root_wf;
use crate::removals::lemma_dropped_wf;
use crate::swaps::lemma_reordered_wf;
use crate::swaps::lemma_swapped_leave_wf;
use crate::swaps::lemma_swapped_take_wf;
use crate::handles::other;
use crate::handles::renamed;
use crate::handles::replaced;
use crate::model::TreeView;
use crate::moves::lemma_detached_wf;
use crate::moves::lemma_moved_to_parent_wf;
use crate::moves::lemma_root_change_wf;
use crate::node_id::NodeId;
use crate::removals::lemma_removed_lift_wf;
use crate::removals::lemma_removed_orphan_wf;
use crate::swaps::lemma_swapped_children_wf;
use vstd::prelude::*;

verus! {

impl<T> TreeView<T> {
    /// The arena holds one tree: every live node is the root or one of its
    /// descendants, and without a root there is no live node.
    pub open spec fn rooted(self) -> bool {
        match self.root {
            Some(r) => forall|x: NodeId| #[trigger] self.contains(x) ==> self.in_subtree(x, r),
            None => forall|x: NodeId| !#[trigger] self.contains(x),
        }
    }

    /// The root is the only live node without a parent.
    pub open spec fn only_root_lacks_parent(self) -> bool {
        match self.root {
            Some(r) => forall|x: NodeId| #[trigger]
                self.contains(x) && x != r ==> self.parent_of(x) is Some,
            None => forall|x: NodeId| !#[trigger] self.contains(x),
        }
    }
}

/// A live node lists another as its child exactly if the other names it as
/// its parent.
pub proof fn lemma_links_mirror<T>(v: TreeView<T>, p: NodeId, c: NodeId)
    requires
        v.wf(),
        v.contains(p),
        v.contains(c),
    ensures
        v.children_of(p).contains(c) <==> v.parent_of(c) == Some(p),
{
    assert(v.node_linked(p));
    assert(v.node_linked(c));
}

/// The root has no parent, and every live node of a rooted arena is
/// reached from the root: the arena holds one tree exactly if its root is
/// the only live node without a parent.
pub proof fn lemma_single_root<T>(v: TreeView<T>)
    requires
        v.wf(),
    ensures
        v.root matches Some(r) ==> v.contains(r) && v.parent_of(r) is None,
        v.rooted() <==> v.only_root_lacks_parent(),
{
    if let Some(r) = v.root {
        if v.rooted() {
            assert forall|x: NodeId| #[trigger] v.contains(x) && x != r implies v.parent_of(
                x,
            ) is Some by {
                assert(v.in_subtree(x, r));
            }
        }
        if v.only_root_lacks_parent() {
            assert forall|x: NodeId| #[trigger] v.contains(x) implies v.in_subtree(x, r) by {
                lemma_top_of(v, x);
                let t = v.top_of(x);
                assert(v.contains(t));
            }
        }
    }
}

/// Writing the payload of a live node changes no link: the arena stays
/// well formed, and rooted if it was.
pub proof fn lemma_payload_change<T>(v: TreeView<T>, id: NodeId, data: T)
    requires
        v.wf(),
        v.contains(id),
    ensures
        v.with_data(id, data).wf(),
        v.rooted() ==> v.with_data(id, data).rooted(),
{
    let w = v.with_data(id, data);
    let r = v.rank();
    assert(w.nodes.dom() =~= v.nodes.dom());
    lemma_same_storage(v, w);
    assert forall|c: NodeId| #[trigger] w.contains(c) implies w.node_linked(c) by {
        assert(v.contains(c));
        assert(v.node_linked(c));
    }
    assert(w.ranked_by(r)) by {
        assert forall|c: NodeId| #[trigger] w.contains(c) && w.parent_of(c) is Some implies r(
            w.parent_of(c).unwrap(),
        ) < r(c) by {
            assert(v.contains(c));
        }
    }
    if let Some(root) = v.root {
        assert(v.contains(root));
    }
    lemma_single_root(v);
    lemma_single_root(w);
    if v.rooted() {
        assert(w.only_root_lacks_parent()) by {
            assert forall|x: NodeId| #[trigger] w.contains(x) && Some(x)
                != w.root implies w.parent_of(x) is Some by {
                assert(v.contains(x));
            }
        }
    }
}

/// A handle of another arena is refused as invalid for this one.
pub proof fn lemma_foreign_handle_refused<T>(v: TreeView<T>, id: NodeId)
    requires
        v.wf(),
        id.tag() != v.tag,
    ensures
        v.refusal(id) == Some(NodeIdError::InvalidNodeIdForTree),
        !v.contains(id),
{
    if v.contains(id) {
        assert(id.tag() == v.tag);
    }
}

/// After a removal, in whichever mode, the handle of the removed node is
/// refused as no longer valid.
pub proof fn lemma_removed_handle_is_stale<T>(v: TreeView<T>, n: NodeId)
    requires
        v.wf(),
        v.contains(n),
    ensures
        v.removed_orphan(n).refusal(n) == Some(NodeIdError::NodeIdNoLongerValid),
        v.removed_lift(n).refusal(n) == Some(NodeIdError::NodeIdNoLongerValid),
        v.dropped(n).refusal(n) == Some(NodeIdError::NodeIdNoLongerValid),
{
    lemma_removed_orphan_wf(v, n);
    lemma_removed_lift_wf(v, n);
    assert(v.subtree(n).contains(n));
    assert(!v.removed_orphan(n).contains(n));
    assert(!v.removed_lift(n).contains(n));
}

/// After two nodes exchanged their children, no live node is its own
/// child or its own descendant.
pub proof fn lemma_children_swap_has_no_cycle<T>(v: TreeView<T>, a: NodeId, b: NodeId, x: NodeId)
    requires
        v.wf(),
        v.contains(a),
        v.contains(b),
        v.swapped_children(a, b).contains(x),
    ensures
        !v.swapped_children(a, b).children_of(x).contains(x),
        !v.swapped_children(a, b).below(x, x),
{
    lemma_swapped_children_wf(v, a, b);
    lemma_not_own_child(v.swapped_children(a, b), x);
    lemma_not_below_itself(v.swapped_children(a, b), x);
}

/// A tree that was just built is rooted: it is empty, or its only node is
/// the root.
pub proof fn lemma_built_rooted<T>(v: TreeView<T>, root: NodeId)
    requires
        v.wf(),
        v.nodes.dom() == Set::<NodeId>::empty() && v.root is None || v.nodes.dom()
            == Set::<NodeId>::empty().insert(root) && v.root == Some(root),
    ensures
        v.rooted(),
{
    lemma_single_root(v);
    assert(v.only_root_lacks_parent());
}

/// Inserting a node, as the root or under a live node, keeps a rooted
/// arena rooted.
pub proof fn lemma_insert_keeps_rooted<T>(v: TreeView<T>, p: NodeId, data: T)
    requires
        v.wf(),
        v.has_room(),
        v.rooted(),
    ensures
        v.inserted_root(data).rooted(),
        v.contains(p) ==> v.inserted_under(p, data).rooted(),
{
    broadcast use group_handles;

    lemma_single_root(v);
    lemma_next_id_fresh(v);
    let h = v.next_id();
    let top = v.inserted_root(data);
    lemma_inserted_root_wf(v, data);
    assert(top.only_root_lacks_parent()) by {
        assert forall|x: NodeId| #[trigger] top.contains(x) && x != h implies top.parent_of(
            x,
        ) is Some by {
            assert(v.contains(x));
        }
    }
    lemma_single_root(top);
    if v.contains(p) {
        let w = v.inserted_under(p, data);
        lemma_inserted_under_wf(v, p, data);
        assert(w.only_root_lacks_parent()) by {
            assert(v.root is Some);
            assert forall|x: NodeId| #[trigger] w.contains(x) && Some(x)
                != w.root implies w.parent_of(x) is Some by {
                if x != h {
                    assert(v.contains(x));
                }
            }
        }
        lemma_single_root(w);
    }
}

/// Removing a node keeps a rooted arena rooted if none of its children is
/// left without a parent: always when they are dropped, when they are
/// lifted unless the node has children but no parent, and when they are
/// orphaned only if there are none.
pub proof fn lemma_remove_keeps_rooted<T>(v: TreeView<T>, n: NodeId)
    requires
        v.wf(),
        v.contains(n),
        v.rooted(),
    ensures
        v.dropped(n).rooted(),
        v.parent_of(n) is Some || v.children_of(n).len() == 0 ==> v.removed_lift(n).rooted(),
        v.children_of(n).len() == 0 ==> v.removed_orphan(n).rooted(),
{
    broadcast use group_handles;

    lemma_single_root(v);
    assert(v.node_linked(n));
    let r = v.root.unwrap();
    assert(v.contains(r));
    assert(v.node_linked(r));
    let dropped = v.dropped(n);
    lemma_dropped_wf(v, n);
    assert(dropped.only_root_lacks_parent()) by {
        let u = v.unlinked(n);
        assert forall|x: NodeId| #[trigger] dropped.contains(x) implies v.contains(x)
            && !v.in_subtree(x, n) && dropped.nodes[x] == u.nodes[x] by {
            assert(u.nodes.dom().contains(x));
            assert(!v.subtree(n).contains(x));
        }
        if n == r {
            assert forall|x: NodeId| !#[trigger] dropped.contains(x) by {
                if dropped.contains(x) {
                    assert(v.contains(x));
                }
            }
        } else {
            assert forall|x: NodeId| #[trigger] dropped.contains(x) && x != r implies dropped.parent_of(
                x,
            ) is Some by {
                assert(v.contains(x));
            }
        }
    }
    lemma_single_root(dropped);
    if v.children_of(n).len() == 0 {
        let w = v.removed_orphan(n);
        lemma_removed_orphan_wf(v, n);
        assert forall|x: NodeId| #[trigger] v.contains(x) implies !v.below(x, n) by {
            if v.below(x, n) {
                lemma_path_child(v, x, n);
                let s = v.path_child(x, n).unwrap();
                assert(v.node_linked(s));
                assert(v.children_of(n).contains(s));
            }
        }
        assert(w.only_root_lacks_parent()) by {
            if n == r {
                assert forall|x: NodeId| !#[trigger] w.contains(x) by {
                    if w.contains(x) {
                        assert(v.contains(x));
                        assert(v.in_subtree(x, r));
                    }
                }
            } else {
                assert forall|x: NodeId| #[trigger] w.contains(x) && x != r implies w.parent_of(
                    x,
                ) is Some by {
                    assert(v.contains(x));
                }
            }
        }
        lemma_single_root(w);
        assert(v.removed_lift(n).rooted()) by {
            if let Some(q) = v.parent_of(n) {
                assert(v.adopted(q, v.children_of(n)).vacate(n).unlist(q, n) =~= w);
            }
        }
    } else if let Some(q) = v.parent_of(n) {
        let w = v.removed_lift(n);
        lemma_removed_lift_wf(v, n);
        assert(w.only_root_lacks_parent()) by {
            assert forall|x: NodeId| #[trigger] w.contains(x) && x != r implies w.parent_of(
                x,
            ) is Some by {
                assert(v.contains(x));
            }
        }
        lemma_single_root(w);
    }
}

/// Moving a node, under a live node or to the root, keeps a rooted arena
/// rooted.
pub proof fn lemma_move_keeps_rooted<T>(v: TreeView<T>, n: NodeId, p: NodeId)
    requires
        v.wf(),
        v.contains(n),
        v.rooted(),
    ensures
        v.contains(p) ==> v.moved_to_parent(n, p).rooted(),
        v.moved_to_root(n).rooted(),
{
    broadcast use group_handles;

    lemma_single_root(v);
    assert(v.node_linked(n));
    let r = v.root.unwrap();
    if v.contains(p) {
        let w = v.moved_to_parent(n, p);
        lemma_moved_to_parent_wf(v, n, p);
        assert(v.in_subtree(p, r));
        assert(w.only_root_lacks_parent()) by {
            if n != p {
                if v.below(p, n) {
                    lemma_path_child(v, p, n);
                    let s = v.path_child(p, n).unwrap();
                    assert forall|x: NodeId| #[trigger] w.contains(x) && Some(x)
                        != w.root implies w.parent_of(x) is Some by {
                        assert(v.contains(x));
                    }
                } else {
                    assert forall|x: NodeId| #[trigger] w.contains(x) && Some(x)
                        != w.root implies w.parent_of(x) is Some by {
                        assert(v.contains(x));
                    }
                }
            }
        }
        lemma_single_root(w);
    }
    let w = v.moved_to_root(n);
    lemma_moved_to_root_wf(v, n);
    lemma_detached_wf(v, n);
    let top = v.detached(n).with_root(Some(n));
    lemma_root_change_wf(v.detached(n), Some(n));
    assert(w.only_root_lacks_parent()) by {
        if r != n {
            assert(top.contains(n));
            assert(top.path_child(n, r) is None);
            assert(w == top.moved_across(r, n));
            assert(top.nodes.dom() =~= v.nodes.dom());
            assert forall|x: NodeId| #[trigger] w.contains(x) && x != n implies w.parent_of(
                x,
            ) is Some by {
                assert(v.contains(x));
                assert(top.contains(x));
            }
        } else {
            assert forall|x: NodeId| #[trigger] w.contains(x) && x != n implies w.parent_of(
                x,
            ) is Some by {
                assert(v.contains(x));
            }
        }
    }
    lemma_single_root(w);
}

/// Swapping two nodes, in whichever mode, keeps a rooted arena rooted.
pub proof fn lemma_swap_keeps_rooted<T>(v: TreeView<T>, a: NodeId, b: NodeId)
    requires
        v.wf(),
        v.contains(a),
        v.contains(b),
        v.rooted(),
    ensures
        v.swapped_take(a, b).rooted(),
        v.swapped_leave(a, b).rooted(),
        v.swapped_children(a, b).rooted(),
{
    lemma_take_keeps_rooted(v, a, b);
    lemma_leave_keeps_rooted(v, a, b);
    lemma_children_only_keeps_rooted(v, a, b);
}

/// Swapping two nodes with their subtrees keeps a rooted arena rooted.
pub proof fn lemma_take_keeps_rooted<T>(v: TreeView<T>, a: NodeId, b: NodeId)
    requires
        v.wf(),
        v.contains(a),
        v.contains(b),
        v.rooted(),
    ensures
        v.swapped_take(a, b).rooted(),
{
    broadcast use group_handles;

    lemma_single_root(v);
    let r = v.root.unwrap();
    let w = v.swapped_take(a, b);
    lemma_swapped_take_wf(v, a, b);
    assert(v.node_linked(a));
    assert(v.node_linked(b));
    assert(v.in_subtree(a, r));
    assert(v.in_subtree(b, r));
    assert(w.only_root_lacks_parent()) by {
        assert forall|x: NodeId| #[trigger] w.contains(x) && Some(x) != w.root implies w.parent_of(
            x,
        ) is Some by {
            assert(v.contains(x));
        }
    }
    lemma_single_root(w);
}

/// Swapping two nodes without their children keeps a rooted arena rooted.
pub proof fn lemma_leave_keeps_rooted<T>(v: TreeView<T>, a: NodeId, b: NodeId)
    requires
        v.wf(),
        v.contains(a),
        v.contains(b),
        v.rooted(),
    ensures
        v.swapped_leave(a, b).rooted(),
{
    lemma_single_root(v);
    let w = v.swapped_leave(a, b);
    lemma_swapped_leave_wf(v, a, b);
    assert(w.only_root_lacks_parent()) by {
        assert forall|x: NodeId| #[trigger] w.contains(x) && Some(x) != w.root implies w.parent_of(
            x,
        ) is Some by {
            assert(v.contains(other(a, b, x)));
        }
    }
    lemma_single_root(w);
}

/// Letting two nodes exchange their children keeps a rooted arena rooted.
pub proof fn lemma_children_only_keeps_rooted<T>(v: TreeView<T>, a: NodeId, b: NodeId)
    requires
        v.wf(),
        v.contains(a),
        v.contains(b),
        v.rooted(),
    ensures
        v.swapped_children(a, b).rooted(),
{
    broadcast use group_handles;

    lemma_single_root(v);
    let w = v.swapped_children(a, b);
    lemma_swapped_children_wf(v, a, b);
    assert(v.node_linked(a));
    assert(v.node_linked(b));
    assert(w.only_root_lacks_parent()) by {
        assert forall|x: NodeId| #[trigger] w.contains(x) && Some(x) != w.root implies w.parent_of(
            x,
        ) is Some by {
            assert(v.contains(x));
        }
    }
    lemma_single_root(w);
}

/// Putting the children of a node in another order keeps a rooted arena
/// rooted.
pub proof fn lemma_reorder_keeps_rooted<T>(v: TreeView<T>, q: NodeId, children: Seq<NodeId>)
    requires
        v.wf(),
        v.contains(q),
        v.rooted(),
        children.to_multiset() == v.children_of(q).to_multiset(),
    ensures
        v.with_children(q, children).rooted(),
{
    lemma_single_root(v);
    let w = v.with_children(q, children);
    lemma_reordered_wf(v, q, children);
    assert(w.only_root_lacks_parent()) by {
        assert forall|x: NodeId| #[trigger] w.contains(x) && Some(x) != w.root implies w.parent_of(
            x,
        ) is Some by {
            assert(v.contains(x));
        }
    }
    lemma_single_root(w);
}

/// Moving and swapping change links only: the same nodes are live
/// afterwards, each with the payload it had.
pub proof fn lemma_relinking_keeps_payloads<T>(v: TreeView<T>, a: NodeId, b: NodeId, x: NodeId)
    requires
        v.wf(),
        v.contains(a),
        v.contains(b),
        v.contains(x),
    ensures
        v.moved_to_parent(a, b).contains(x) && v.moved_to_parent(a, b).data_of(x) == v.data_of(x),
        v.moved_to_root(a).contains(x) && v.moved_to_root(a).data_of(x) == v.data_of(x),
        v.swapped_take(a, b).contains(x) && v.swapped_take(a, b).data_of(x) == v.data_of(x),
        v.swapped_leave(a, b).contains(x) && v.swapped_leave(a, b).data_of(x) == v.data_of(x),
        v.swapped_children(a, b).contains(x) && v.swapped_children(a, b).data_of(x) == v.data_of(
            x,
        ),
{
    lemma_moved_to_parent_wf(v, a, b);
    lemma_moved_to_root_wf(v, a);
    lemma_swapped_take_wf(v, a, b);
    lemma_swapped_leave_wf(v, a, b);
    lemma_swapped_children_wf(v, a, b);
    assert(v.node_linked(a));
    assert(v.node_linked(b));
    assert(v.moved_to_parent(a, b).nodes.dom().contains(x));
    assert(v.moved_to_root(a).nodes.dom().contains(x));
    assert(v.swapped_take(a, b).nodes.dom().contains(x));
    assert(v.swapped_leave(a, b).nodes.dom().contains(x));
    assert(v.swapped_children(a, b).nodes.dom().contains(x));
    let top = v.detached(a).with_root(Some(a));
    if let Some(r) = v.root {
        if r != a {
            lemma_detached_wf(v, a);
            lemma_root_change_wf(v.detached(a), Some(a));
            assert(top.contains(a));
            assert(top.path_child(a, r) is None);
            assert(v.contains(r));
        }
    }
}

/// After a node moved under another, it is the last child of that node
/// and names it as its parent, and the child lists of all nodes but its
/// old and its new parent, and of itself if it moved downwards, are as
/// they were.
pub proof fn lemma_moved_node_hangs_last<T>(v: TreeView<T>, n: NodeId, p: NodeId, x: NodeId)
    requires
        v.wf(),
        v.contains(n),
        v.contains(p),
        v.contains(x),
        n != p,
    ensures
        v.moved_to_parent(n, p).parent_of(n) == Some(p),
        v.moved_to_parent(n, p).children_of(p) == without(v.children_of(p), n).push(n),
        x != p && x != n && Some(x) != v.parent_of(n) ==> v.moved_to_parent(n, p).children_of(x)
            == v.children_of(x),
        !v.below(p, n) && x != n ==> v.moved_to_parent(n, p).parent_of(x) == v.parent_of(x),
{
    broadcast use group_handles;

    let w = v.moved_to_parent(n, p);
    assert(v.node_linked(n));
    assert(v.node_linked(p));
    lemma_not_below_itself(v, n);
    if v.below(p, n) {
        lemma_path_child(v, p, n);
        lemma_below_rank(v, v.rank(), p, n);
        lemma_rank(v);
        let s = v.path_child(p, n).unwrap();
        assert(v.node_linked(s));
        if let Some(q) = v.parent_of(n) {
            assert(v.node_linked(q));
        }
        if v.children_of(p).contains(n) {
            assert(v.parent_of(n) == Some(p));
        }
        lemma_without_len(v.children_of(p), n);
        assert(w.children_of(p) =~= without(v.children_of(p), n).push(n));
    } else {
        if v.children_of(p).contains(n) {
            assert(v.parent_of(n) == Some(p));
        }
        lemma_without_len(v.children_of(p), n);
        assert(w.children_of(p) =~= without(v.children_of(p), n).push(n));
    }
}

/// After a removal that keeps the children, the node is gone from the
/// child list of its parent, its payload is the one that comes back, and
/// its children name the parent of the removed node if they were lifted to
/// one, and no parent otherwise.
pub proof fn lemma_removed_node_is_unlinked<T>(v: TreeView<T>, n: NodeId, c: NodeId)
    requires
        v.wf(),
        v.contains(n),
        v.children_of(n).contains(c),
    ensures
        v.removed_orphan(n).contains(c) && v.removed_orphan(n).parent_of(c) is None,
        v.removed_lift(n).contains(c) && v.removed_lift(n).parent_of(c) == v.parent_of(n),
        v.parent_of(n) matches Some(q) ==> {
            &&& v.removed_orphan(n).children_of(q) == without(v.children_of(q), n)
            &&& v.removed_lift(n).children_of(q) == without(v.children_of(q), n) + v.children_of(
                n,
            )
        },
{
    broadcast use group_handles;

    assert(v.node_linked(n));
    assert(v.node_linked(c));
    lemma_not_own_child(v, n);
    lemma_rank(v);
    if let Some(q) = v.parent_of(n) {
        assert(v.node_linked(q));
        let kept = without(v.children_of(q), n);
        let lifted = v.children_of(n);
        assert(!lifted.contains(n));
        lemma_without_add(v.children_of(q), lifted, n);
        lemma_without_len(lifted, n);
        assert(v.removed_lift(n).children_of(q) =~= kept + lifted);
        assert(v.removed_orphan(n).children_of(q) =~= kept);
    }
}

/// After a node took the place of one of its ancestors, it hangs where
/// the ancestor hung, the ancestor is its last child, and the ancestor
/// lists it no more.
pub proof fn lemma_swapped_down_links<T>(v: TreeView<T>, l: NodeId, u: NodeId)
    requires
        v.wf(),
        v.contains(l),
        v.contains(u),
        v.below(l, u),
    ensures
        v.swapped_take(l, u) == v.swapped_down(l, u),
        v.swapped_take(u, l) == v.swapped_down(l, u),
        v.swapped_down(l, u).parent_of(l) == v.parent_of(u),
        v.swapped_down(l, u).parent_of(u) == Some(l),
        v.swapped_down(l, u).children_of(l) == v.children_of(l).push(u),
        v.swapped_down(l, u).children_of(u) == without(v.children_of(u), l),
        v.parent_of(u) matches Some(q) ==> v.swapped_down(l, u).children_of(q) == replaced(
            v.children_of(q),
            u,
            l,
        ),
        v.root == Some(u) ==> v.swapped_down(l, u).root == Some(l),
{
    broadcast use group_handles;

    lemma_rank(v);
    lemma_not_below_itself(v, l);
    lemma_not_below_itself(v, u);
    lemma_below_rank(v, v.rank(), l, u);
    if v.below(u, l) {
        lemma_below_rank(v, v.rank(), u, l);
    }
    assert(v.node_linked(l));
    assert(v.node_linked(u));
    let lp = v.parent_of(l).unwrap();
    assert(v.node_linked(lp));
    lemma_without_len(v.children_of(u), l);
    if let Some(q) = v.parent_of(u) {
        assert(v.node_linked(q));
        if v.children_of(q).contains(l) {
            assert(v.parent_of(l) == Some(q));
        }
    }
    let w = v.swapped_down(l, u);
    assert(w.children_of(l) =~= v.children_of(l).push(u));
    assert(w.children_of(u) =~= without(v.children_of(u), l));
}

/// After two nodes exchanged their children, each lists what the other
/// listed, but that a descendant among them stays with its ancestor as the
/// last child, and every child names the node that lists it.
pub proof fn lemma_swapped_children_links<T>(v: TreeView<T>, a: NodeId, b: NodeId)
    requires
        v.wf(),
        v.contains(a),
        v.contains(b),
        a != b,
    ensures
        !v.below(a, b) && !v.below(b, a) ==> v.swapped_children(a, b).children_of(a)
            == v.children_of(b) && v.swapped_children(a, b).children_of(b) == v.children_of(a),
        v.below(a, b) ==> v.swapped_children(a, b).children_of(b) == v.children_of(a).push(a)
            && v.swapped_children(a, b).children_of(a) == without(v.children_of(b), a),
        v.swapped_children(a, b).parent_of(a) == v.parent_of(a) || v.swapped_children(
            a,
            b,
        ).parent_of(a) == Some(b),
{
    broadcast use group_handles;

    lemma_rank(v);
    lemma_not_below_itself(v, a);
    lemma_not_below_itself(v, b);
    lemma_not_own_child(v, a);
    lemma_not_own_child(v, b);
    assert(v.node_linked(a));
    assert(v.node_linked(b));
    if v.below(a, b) {
        lemma_below_rank(v, v.rank(), a, b);
        if v.below(b, a) {
            lemma_below_rank(v, v.rank(), b, a);
        }
        let w = v.swapped_children_down(a, b);
        assert(w.children_of(b) =~= v.children_of(a).push(a));
        assert(w.children_of(a) =~= without(v.children_of(b), a));
    } else if v.below(b, a) {
        lemma_below_rank(v, v.rank(), b, a);
    } else {
        let w = v.swapped_children_across(a, b);
        assert(w.children_of(a) =~= v.children_of(b));
        assert(w.children_of(b) =~= v.children_of(a));
    }
}

/// Swapping two nodes without their children twice gives the arena that
/// was.
pub proof fn lemma_leave_swap_twice<T>(v: TreeView<T>, a: NodeId, b: NodeId)
    requires
        v.wf(),
        v.contains(a),
        v.contains(b),
    ensures
        v.swapped_leave(a, b).swapped_leave(a, b) == v,
{
    let w = v.swapped_leave(a, b);
    let back = w.swapped_leave(a, b);
    assert(w.nodes.dom() =~= v.nodes.dom());
    assert(back.nodes.dom() =~= v.nodes.dom());
    assert forall|x: NodeId| v.nodes.dom().contains(x) implies #[trigger] back.nodes[x]
        == v.nodes[x] by {
        let ox = other(a, b, x);
        assert(other(a, b, ox) == x);
        assert(v.contains(x));
        assert(w.contains(ox));
        assert(renamed(renamed(v.children_of(x), a, b), a, b) =~= v.children_of(x));
        assert(back.nodes[x].children =~= v.nodes[x].children);
        assert(back.nodes[x] =~= v.nodes[x]);
    }
    assert(back.nodes =~= v.nodes);
    assert(back =~= v);
}

} // verus!
