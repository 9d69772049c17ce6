//! What removing a node does to an arena, and why the result is well
//! formed.

use crate::handles::group_handles;
use crate::handles::lemma_add_contains;
use crate::orders::lemma_post_order_covers;
use crate::model::TreeView;
use crate::node::NodeView;
use crate::node_id::NodeId;
use vstd::prelude::*;

verus! {

impl<T> TreeView<T> {
    /// Every node listed in `cs` names `parent` as its parent.
    pub open spec fn reparented(self, cs: Seq<NodeId>, parent: Option<NodeId>) -> TreeView<T> {
        TreeView {
            nodes: Map::new(
                |x: NodeId| self.contains(x),
                |x: NodeId|
                    if cs.contains(x) {
                        NodeView { parent, ..self.nodes[x] }
                    } else {
                        self.nodes[x]
                    },
            ),
            ..self
        }
    }

    /// The nodes listed in `cs` become the last children of `q`, in order.
    pub open spec fn adopted(self, q: NodeId, cs: Seq<NodeId>) -> TreeView<T> {
        self.with_children(q, self.children_of(q) + cs).reparented(cs, Some(q))
    }

    /// The node at `n` leaves the arena. Its children stay, each without a
    /// parent.
    pub open spec fn removed_orphan(self, n: NodeId) -> TreeView<T> {
        let gone = self.reparented(self.children_of(n), None).vacate(n);
        match self.parent_of(n) {
            Some(q) => gone.unlist(q, n),
            None => gone,
        }
    }

    /// The live nodes that are `n` or descendants of `n`.
    pub open spec fn subtree(self, n: NodeId) -> Set<NodeId> {
        Set::new(|x: NodeId| self.contains(x) && self.in_subtree(x, n))
    }

    /// The arena without `n` and without the descendants of `n`: they are
    /// gone from the live nodes and from the child list of the parent of
    /// `n`, the root is gone if it was among them, and their slots follow
    /// the slots that were vacant already, in post-order.
    pub open spec fn dropped(self, n: NodeId) -> TreeView<T> {
        TreeView {
            nodes: self.unlinked(n).nodes.remove_keys(self.subtree(n)),
            free: self.free + self.post_order(n),
            root: if self.root == Some(n) {
                None
            } else {
                self.root
            },
            ..self
        }
    }

    /// The node at `n` leaves the arena. Its children become the last
    /// children of its parent; if it has none, they stay without a parent.
    pub open spec fn removed_lift(self, n: NodeId) -> TreeView<T> {
        match self.parent_of(n) {
            Some(q) => self.adopted(q, self.children_of(n)).vacate(n).unlist(q, n),
            None => self.removed_orphan(n),
        }
    }
}

/// Vacating a live slot keeps the storage well formed.
pub proof fn lemma_vacate_storage<T>(v: TreeView<T>, w: TreeView<T>, n: NodeId)
    requires
        v.storage_wf(),
        v.contains(n),
        w.tag == v.tag,
        w.slots == v.slots,
        w.free == v.free.push(n),
        w.nodes.dom() == v.nodes.dom().remove(n),
    ensures
        w.storage_wf(),
{
    assert forall|id: NodeId| #[trigger] w.contains(id) implies id.tag() == w.tag && id.slot()
        < w.slots by {
        assert(v.contains(id));
    }
    assert forall|k: int| 0 <= k < w.free.len() implies (#[trigger] w.free[k]).tag() == w.tag
        && w.free[k].slot() < w.slots && !w.contains(w.free[k]) by {
        if k < v.free.len() {
            assert(w.free[k] == v.free[k]);
            assert(!v.contains(v.free[k]));
        }
    }
    assert(w.free.no_duplicates()) by {
        assert forall|i: int, j: int| 0 <= i < w.free.len() && 0 <= j < w.free.len() && i
            != j implies w.free[i] != w.free[j] by {
            if i < v.free.len() {
                assert(!v.contains(v.free[i]));
            }
            if j < v.free.len() {
                assert(!v.contains(v.free[j]));
            }
        }
    }
    assert forall|id: NodeId| id.tag() == w.tag && id.slot() < w.slots implies #[trigger]
        w.contains(id) || w.free.contains(id) by {
        assert(w.free[v.free.len() as int] == n);
        if id != n {
            assert(v.contains(id) || v.free.contains(id));
            if !v.contains(id) {
                let k = choose|k: int| 0 <= k < v.free.len() && v.free[k] == id;
                assert(w.free[k] == id);
            }
        }
    }
}

/// Removing a node with all its descendants keeps the arena well formed.
pub proof fn lemma_dropped_wf<T>(v: TreeView<T>, n: NodeId)
    requires
        v.wf(),
        v.contains(n),
    ensures
        v.dropped(n).wf(),
        forall|x: NodeId| #[trigger]
            v.dropped(n).contains(x) <==> v.contains(x) && !v.in_subtree(x, n),
{
    broadcast use group_handles;

    let w = v.dropped(n);
    let r = v.rank();
    let u = v.unlinked(n);
    let gone = v.post_order(n);
    lemma_post_order_covers(v, n);
    assert(u.nodes.dom() =~= v.nodes.dom());
    assert(v.node_linked(n));
    assert forall|x: NodeId| #[trigger] w.contains(x) implies v.contains(x) && !v.in_subtree(x, n)
        && w.nodes[x] == u.nodes[x] by {
        assert(u.contains(x));
        assert(!v.subtree(n).contains(x));
    }
    assert forall|x: NodeId| v.contains(x) && !v.in_subtree(x, n) implies #[trigger] w.contains(
        x,
    ) by {
        assert(u.contains(x));
        assert(!v.subtree(n).contains(x));
    }
    assert forall|x: NodeId| w.free.contains(x) <==> v.free.contains(x) || gone.contains(x) by {
        lemma_add_contains(v.free, gone, x);
    }
    assert(w.free.no_duplicates()) by {
        assert forall|i: int, j: int| 0 <= i < v.free.len() && 0 <= j < gone.len() implies v.free[i]
            != gone[j] by {
            assert(gone.contains(gone[j]));
            assert(!v.contains(v.free[i]));
        }
        vstd::seq_lib::lemma_no_dup_in_concat(v.free, gone);
    }
    assert(w.storage_wf()) by {
        assert forall|k: int| 0 <= k < w.free.len() implies (#[trigger] w.free[k]).tag() == w.tag
            && w.free[k].slot() < w.slots && !w.contains(w.free[k]) by {
            let x = w.free[k];
            assert(w.free.contains(x));
            if v.free.contains(x) {
                let j = choose|j: int| 0 <= j < v.free.len() && v.free[j] == x;
                assert(!v.contains(v.free[j]));
            } else {
                assert(gone.contains(x));
                assert(v.contains(x));
            }
        }
        assert forall|id: NodeId| id.tag() == w.tag && id.slot() < w.slots implies #[trigger]
            w.contains(id) || w.free.contains(id) by {
            assert(v.contains(id) || v.free.contains(id));
            lemma_add_contains(v.free, gone, id);
            if v.contains(id) && !w.contains(id) {
                assert(gone.contains(id));
            }
        }
        assert forall|id: NodeId| #[trigger] w.contains(id) implies id.tag() == w.tag
            && id.slot() < w.slots by {
            assert(v.contains(id));
        }
    }
    assert forall|c: NodeId| #[trigger] w.contains(c) implies w.node_linked(c) by {
        assert(v.contains(c));
        assert(v.node_linked(c));
        if let Some(p) = v.parent_of(c) {
            assert(v.contains(p));
            assert(v.node_linked(p));
            assert(w.contains(p));
        }
        assert forall|x: NodeId| #[trigger] w.children_of(c).contains(x) implies w.contains(x)
            && w.parent_of(x) == Some(c) by {
            assert(v.children_of(c).contains(x));
            assert(v.contains(x));
            assert(v.node_linked(x));
        }
    }
    assert(w.ranked_by(r)) by {
        assert forall|c: NodeId| #[trigger] w.contains(c) && w.parent_of(c) is Some implies r(
            w.parent_of(c).unwrap(),
        ) < r(c) by {
            assert(v.contains(c));
        }
    }
    if let Some(root) = v.root {
        assert(v.contains(root));
        assert(v.node_linked(root));
    }
}

/// Removing a node and leaving its children without a parent keeps the
/// arena well formed.
pub proof fn lemma_removed_orphan_wf<T>(v: TreeView<T>, n: NodeId)
    requires
        v.wf(),
        v.contains(n),
    ensures
        v.removed_orphan(n).wf(),
        v.removed_orphan(n).nodes.dom() == v.nodes.dom().remove(n),
{
    broadcast use group_handles;

    let w = v.removed_orphan(n);
    let r = v.rank();
    assert(v.node_linked(n));
    assert(w.nodes.dom() =~= v.nodes.dom().remove(n));
    lemma_vacate_storage(v, w, n);
    assert forall|c: NodeId| #[trigger] w.contains(c) implies w.node_linked(c) by {
        assert(v.contains(c));
        assert(v.node_linked(c));
    }
    assert(w.ranked_by(r)) by {
        assert forall|c: NodeId| #[trigger] w.contains(c) && w.parent_of(c) is Some implies r(
            w.parent_of(c).unwrap(),
        ) < r(c) by {
            assert(v.contains(c));
        }
    }
    if let Some(root) = v.root {
        assert(v.contains(root));
    }
}

/// Removing a node and handing its children to its parent keeps the arena
/// well formed.
pub proof fn lemma_removed_lift_wf<T>(v: TreeView<T>, n: NodeId)
    requires
        v.wf(),
        v.contains(n),
    ensures
        v.removed_lift(n).wf(),
        v.removed_lift(n).nodes.dom() == v.nodes.dom().remove(n),
{
    broadcast use group_handles;

    if let Some(q) = v.parent_of(n) {
        let w = v.removed_lift(n);
        let r = v.rank();
        let cs = v.children_of(n);
        assert(v.node_linked(n));
        assert(v.node_linked(q));
        assert(w.nodes.dom() =~= v.nodes.dom().remove(n));
        lemma_vacate_storage(v, w, n);
        let merged = v.children_of(q) + cs;
        assert forall|x: NodeId| merged.contains(x) <==> (v.children_of(q).contains(x)
            || cs.contains(x)) by {
            if merged.contains(x) {
                let i = choose|i: int| 0 <= i < merged.len() && merged[i] == x;
                if i < v.children_of(q).len() {
                    assert(v.children_of(q)[i] == x);
                } else {
                    assert(cs[i - v.children_of(q).len()] == x);
                }
            }
            if v.children_of(q).contains(x) {
                let i = choose|i: int| 0 <= i < v.children_of(q).len() && v.children_of(q)[i] == x;
                assert(merged[i] == x);
            }
            if cs.contains(x) {
                let i = choose|i: int| 0 <= i < cs.len() && cs[i] == x;
                assert(merged[v.children_of(q).len() + i] == x);
            }
        }
        assert(merged.no_duplicates()) by {
            assert forall|i: int, j: int| 0 <= i < merged.len() && 0 <= j < merged.len() && i
                != j implies merged[i] != merged[j] by {
                let k = v.children_of(q).len();
                if i < k {
                    assert(v.children_of(q).contains(merged[i]));
                } else {
                    assert(cs.contains(cs[i - k]));
                }
                if j < k {
                    assert(v.children_of(q).contains(merged[j]));
                } else {
                    assert(cs.contains(cs[j - k]));
                }
            }
        }
        assert forall|c: NodeId| #[trigger] w.contains(c) implies w.node_linked(c) by {
            assert(v.contains(c));
            assert(v.node_linked(c));
        }
        assert(w.ranked_by(r)) by {
            assert forall|c: NodeId| #[trigger] w.contains(c) && w.parent_of(c) is Some implies r(
                w.parent_of(c).unwrap(),
            ) < r(c) by {
                assert(v.contains(c));
                assert(v.contains(n));
            }
        }
        if let Some(root) = v.root {
            assert(v.contains(root));
        }
    } else {
        lemma_removed_orphan_wf(v, n);
    }
}

} // verus!
