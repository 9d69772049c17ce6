//! What inserting a node does to an arena, and why the result is well
//! formed.

use crate::handles::group_handles;
use crate::model::TreeView;
use crate::node::NodeView;
use crate::node_id::NodeId;
use vstd::prelude::*;

verus! {

/// A node that carries `data` and is linked to nothing.
pub open spec fn blank<T>(data: T) -> NodeView<T> {
    NodeView { data, parent: None, children: Seq::empty() }
}

impl<T> TreeView<T> {
    /// A node with `data` is stored and becomes the last child of `p`.
    pub open spec fn inserted_under(self, p: NodeId, data: T) -> TreeView<T> {
        self.place(blank(data)).attach(p, self.next_id())
    }

    /// A node with `data` is stored and becomes the root. The root that
    /// was, if there was one, becomes its only child.
    pub open spec fn inserted_root(self, data: T) -> TreeView<T> {
        let top = self.place(blank(data)).with_root(Some(self.next_id()));
        match self.root {
            Some(r) => top.attach(self.next_id(), r),
            None => top,
        }
    }
}

/// The handle that the next insertion issues names no live node, and no
/// live node is linked to it.
pub proof fn lemma_next_id_fresh<T>(v: TreeView<T>)
    requires
        v.wf(),
        v.has_room(),
    ensures
        !v.contains(v.next_id()),
        v.next_id().tag() == v.tag,
        forall|c: NodeId| #[trigger]
            v.contains(c) ==> v.parent_of(c) != Some(v.next_id()) && !v.children_of(c).contains(
                v.next_id(),
            ),
{
    let h = v.next_id();
    if v.free.len() > 0 {
        assert(v.free[v.free.len() - 1] == h);
    } else {
        if v.contains(h) {
            assert(h.slot() < v.slots);
        }
    }
    assert forall|c: NodeId| #[trigger] v.contains(c) implies v.parent_of(c) != Some(h)
        && !v.children_of(c).contains(h) by {
        assert(v.node_linked(c));
    }
}

/// Storing a node keeps the storage well formed.
pub proof fn lemma_place_storage<T>(v: TreeView<T>, node: NodeView<T>)
    requires
        v.storage_wf(),
        v.has_room(),
    ensures
        v.place(node).storage_wf(),
        v.place(node).nodes.dom() == v.nodes.dom().insert(v.next_id()),
{
    let w = v.place(node);
    let h = v.next_id();
    assert(w.nodes.dom() =~= v.nodes.dom().insert(h));
    if v.free.len() > 0 {
        let last = v.free.len() - 1;
        assert(v.free[last] == h);
        assert forall|id: NodeId| #[trigger] w.contains(id) implies id.tag() == w.tag
            && id.slot() < w.slots by {
            if id != h {
                assert(v.contains(id));
            }
        }
        assert forall|k: int| 0 <= k < w.free.len() implies (#[trigger] w.free[k]).tag() == w.tag
            && w.free[k].slot() < w.slots && !w.contains(w.free[k]) by {
            assert(w.free[k] == v.free[k]);
            assert(!v.contains(v.free[k]));
        }
        assert forall|id: NodeId| id.tag() == w.tag && id.slot() < w.slots implies #[trigger]
            w.contains(id) || w.free.contains(id) by {
            if id != h {
                assert(v.contains(id) || v.free.contains(id));
                if !v.contains(id) {
                    let k = choose|k: int| 0 <= k < v.free.len() && v.free[k] == id;
                    assert(w.free[k] == id);
                }
            }
        }
    } else {
        assert forall|id: NodeId| #[trigger] w.contains(id) implies id.tag() == w.tag
            && id.slot() < w.slots by {
            if id != h {
                assert(v.contains(id));
            }
        }
        assert forall|id: NodeId| id.tag() == w.tag && id.slot() < w.slots implies #[trigger]
            w.contains(id) || w.free.contains(id) by {
            if id != h {
                assert(v.contains(id) || v.free.contains(id));
            }
        }
    }
}

/// Inserting under a live node keeps the arena well formed.
pub proof fn lemma_inserted_under_wf<T>(v: TreeView<T>, p: NodeId, data: T)
    requires
        v.wf(),
        v.has_room(),
        v.contains(p),
    ensures
        v.inserted_under(p, data).wf(),
        v.inserted_under(p, data).nodes.dom() == v.nodes.dom().insert(v.next_id()),
{
    broadcast use group_handles;

    let h = v.next_id();
    let placed = v.place(blank(data));
    let w = v.inserted_under(p, data);
    lemma_next_id_fresh(v);
    lemma_place_storage(v, blank(data));
    assert(w.nodes.dom() =~= placed.nodes.dom());
    assert(w.storage_wf()) by {
        assert forall|id: NodeId| #[trigger] w.contains(id) implies id.tag() == w.tag
            && id.slot() < w.slots by {
            assert(placed.contains(id));
        }
        assert forall|k: int| 0 <= k < w.free.len() implies !w.contains(#[trigger] w.free[k]) by {
            assert(!placed.contains(placed.free[k]));
        }
        assert forall|id: NodeId| id.tag() == w.tag && id.slot() < w.slots implies #[trigger]
            w.contains(id) || w.free.contains(id) by {
            assert(placed.contains(id) || placed.free.contains(id));
        }
    }
    let r = v.rank();
    let rank = |x: NodeId|
        if x == h {
            (r(p) + 1) as nat
        } else {
            r(x)
        };
    assert(v.node_linked(p));
    assert forall|c: NodeId| #[trigger] w.contains(c) implies w.node_linked(c) by {
        if c != h {
            assert(v.contains(c));
            assert(v.node_linked(c));
        }
    }
    assert(w.ranked_by(rank)) by {
        assert forall|c: NodeId| #[trigger] w.contains(c) && w.parent_of(c) is Some implies rank(
            w.parent_of(c).unwrap(),
        ) < rank(c) by {
            if c != h {
                assert(v.contains(c));
                assert(v.node_linked(c));
            }
        }
    }
    if let Some(root) = v.root {
        assert(v.contains(root));
    }
}

/// Inserting a new root keeps the arena well formed.
pub proof fn lemma_inserted_root_wf<T>(v: TreeView<T>, data: T)
    requires
        v.wf(),
        v.has_room(),
    ensures
        v.inserted_root(data).wf(),
        v.inserted_root(data).nodes.dom() == v.nodes.dom().insert(v.next_id()),
        v.inserted_root(data).root == Some(v.next_id()),
{
    broadcast use group_handles;

    let h = v.next_id();
    let placed = v.place(blank(data));
    let w = v.inserted_root(data);
    lemma_next_id_fresh(v);
    lemma_place_storage(v, blank(data));
    if let Some(root) = v.root {
        assert(v.contains(root));
        assert(v.node_linked(root));
    }
    assert(w.nodes.dom() =~= placed.nodes.dom());
    assert(w.storage_wf()) by {
        assert forall|id: NodeId| #[trigger] w.contains(id) implies id.tag() == w.tag
            && id.slot() < w.slots by {
            assert(placed.contains(id));
        }
        assert forall|k: int| 0 <= k < w.free.len() implies !w.contains(#[trigger] w.free[k]) by {
            assert(!placed.contains(placed.free[k]));
        }
        assert forall|id: NodeId| id.tag() == w.tag && id.slot() < w.slots implies #[trigger]
            w.contains(id) || w.free.contains(id) by {
            assert(placed.contains(id) || placed.free.contains(id));
        }
    }
    let r = v.rank();
    let rank = |x: NodeId|
        if x == h {
            0nat
        } else {
            (r(x) + 1) as nat
        };
    assert forall|c: NodeId| #[trigger] w.contains(c) implies w.node_linked(c) by {
        if c != h {
            assert(v.contains(c));
            assert(v.node_linked(c));
        } else {
            assert(Seq::<NodeId>::empty().push(v.root.unwrap()).no_duplicates());
        }
    }
    assert(w.ranked_by(rank)) by {
        assert forall|c: NodeId| #[trigger] w.contains(c) && w.parent_of(c) is Some implies rank(
            w.parent_of(c).unwrap(),
        ) < rank(c) by {
            if c != h {
                assert(v.contains(c));
                assert(v.node_linked(c));
            }
        }
    }
}

} // verus!
