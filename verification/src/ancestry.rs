//! Facts about the ancestor relation of a well-formed arena.

use crate::model::TreeView;
use crate::node_id::NodeId;
use vstd::prelude::*;

verus! {

/// Relinking live nodes leaves the storage as it was.
pub proof fn lemma_same_storage<T>(v: TreeView<T>, w: TreeView<T>)
    requires
        v.storage_wf(),
        w.tag == v.tag,
        w.slots == v.slots,
        w.free == v.free,
        w.nodes.dom() == v.nodes.dom(),
    ensures
        w.storage_wf(),
{
    assert forall|id: NodeId| #[trigger] w.contains(id) implies id.tag() == w.tag && id.slot()
        < w.slots by {
        assert(v.contains(id));
    }
    assert forall|k: int| 0 <= k < w.free.len() implies !w.contains(#[trigger] w.free[k]) by {
        assert(!v.contains(v.free[k]));
    }
    assert forall|id: NodeId| id.tag() == w.tag && id.slot() < w.slots implies #[trigger]
        w.contains(id) || w.free.contains(id) by {
        assert(v.contains(id) || v.free.contains(id));
    }
}

/// In an arena without cycles the chosen ranking is a ranking.
pub proof fn lemma_rank<T>(v: TreeView<T>)
    requires
        v.acyclic(),
    ensures
        v.ranked_by(v.rank()),
{
}

/// Every ranking puts an ancestor strictly before its descendants.
pub proof fn lemma_below_rank<T>(
    v: TreeView<T>,
    rank: spec_fn(NodeId) -> nat,
    x: NodeId,
    a: NodeId,
)
    requires
        v.wf(),
        v.ranked_by(rank),
        v.contains(x),
        v.below(x, a),
    ensures
        rank(a) < rank(x),
        v.contains(a),
    decreases (v.rank())(x),
{
    let p = v.parent_of(x).unwrap();
    assert(v.node_linked(x));
    if p != a {
        lemma_below_rank(v, rank, p, a);
    }
}

/// No node is its own parent or its own child.
pub proof fn lemma_not_own_child<T>(v: TreeView<T>, x: NodeId)
    requires
        v.wf(),
        v.contains(x),
    ensures
        v.parent_of(x) != Some(x),
        !v.children_of(x).contains(x),
{
    lemma_rank(v);
    assert(v.node_linked(x));
}

/// No node is its own ancestor.
pub proof fn lemma_not_below_itself<T>(v: TreeView<T>, x: NodeId)
    requires
        v.wf(),
        v.contains(x),
    ensures
        !v.below(x, x),
{
    if v.below(x, x) {
        lemma_below_rank(v, v.rank(), x, x);
    }
}

/// The child of `a` on the way up from `x` is a child of `a`, and `x`
/// lies in the subtree under it.
pub proof fn lemma_path_child<T>(v: TreeView<T>, x: NodeId, a: NodeId)
    requires
        v.wf(),
        v.contains(x),
        v.below(x, a),
    ensures
        v.contains(v.path_child(x, a).unwrap()),
        v.parent_of(v.path_child(x, a).unwrap()) == Some(a),
        v.in_subtree(x, v.path_child(x, a).unwrap()),
    decreases (v.rank())(x),
{
    let p = v.parent_of(x).unwrap();
    assert(v.node_linked(x));
    if p != a {
        lemma_path_child(v, p, a);
    }
}

/// The way up from `x` ends at a live node without a parent, and `x` lies
/// in the subtree of that node.
pub proof fn lemma_top_of<T>(v: TreeView<T>, x: NodeId)
    requires
        v.wf(),
        v.contains(x),
    ensures
        v.contains(v.top_of(x)),
        v.parent_of(v.top_of(x)) is None,
        v.in_subtree(x, v.top_of(x)),
    decreases (v.rank())(x),
{
    assert(v.node_linked(x));
    if let Some(p) = v.parent_of(x) {
        lemma_top_of(v, p);
        let t = v.top_of(p);
        if p != t {
        }
    }
}

} // verus!
