//! What swapping two nodes does to an arena, and why the result is well
//! formed.

use crate::ancestry::lemma_below_rank;
use crate::ancestry::lemma_not_below_itself;
use crate::ancestry::lemma_same_storage;
use crate::handles::exchanged;
use crate::handles::group_handles;
use crate::handles::lemma_renamed;
use crate::handles::lemma_same_entries;
use crate::handles::other;
use crate::handles::other_link;
use crate::handles::renamed;
use crate::handles::without;
use crate::node::NodeView;
use crate::handles::lemma_exchanged;
use crate::handles::replaced;
use crate::model::TreeView;
use crate::node_id::NodeId;
use vstd::prelude::*;

verus! {

impl<T> TreeView<T> {
    /// `l` takes the place of its ancestor `u`: it stands where `u` stood
    /// in the child list of the parent of `u`, or is the root if `u` was.
    /// `u` becomes the last child of `l`. Both keep their other children.
    pub open spec fn swapped_down(self, l: NodeId, u: NodeId) -> TreeView<T> {
        let cut = self.with_parent(l, self.parent_of(u)).unlist(self.parent_of(l).unwrap(), l);
        let placed = match self.parent_of(u) {
            Some(q) => cut.with_children(q, replaced(cut.children_of(q), u, l)),
            None => if self.root == Some(u) {
                cut.with_root(Some(l))
            } else {
                cut
            },
        };
        placed.attach(l, u)
    }

    /// `a` and `b`, neither an ancestor of the other and with different
    /// parents, trade places: each stands where the other stood in the
    /// child list of the other's parent. One that had no parent leaves
    /// the other without one, and hands it the root if it was the root.
    pub open spec fn traded(self, a: NodeId, b: NodeId) -> TreeView<T> {
        let turned = self.with_parent(a, self.parent_of(b)).with_parent(b, self.parent_of(a));
        let first = match self.parent_of(a) {
            Some(q) => turned.with_children(q, replaced(turned.children_of(q), a, b)),
            None => turned,
        };
        let second = match self.parent_of(b) {
            Some(q) => first.with_children(q, replaced(first.children_of(q), b, a)),
            None => first,
        };
        if self.root == Some(a) {
            second.with_root(Some(b))
        } else if self.root == Some(b) {
            second.with_root(Some(a))
        } else {
            second
        }
    }

    /// `a` and `b` exchange their names: each stands where the other stood,
    /// under the other's parent and over the other's children, and keeps
    /// its own payload. If one of them was the root, the other is.
    pub open spec fn swapped_leave(self, a: NodeId, b: NodeId) -> TreeView<T> {
        TreeView {
            nodes: Map::new(
                |x: NodeId| self.contains(x),
                |x: NodeId|
                    NodeView {
                        data: self.nodes[x].data,
                        parent: other_link(a, b, self.nodes[other(a, b, x)].parent),
                        children: renamed(self.nodes[other(a, b, x)].children, a, b),
                    },
            ),
            root: other_link(a, b, self.root),
            ..self
        }
    }

    /// `a` and `b`, neither an ancestor of the other, stay where they are
    /// and exchange their child lists.
    pub open spec fn swapped_children_across(self, a: NodeId, b: NodeId) -> TreeView<T> {
        self.reparented(self.children_of(a), Some(b)).reparented(
            self.children_of(b),
            Some(a),
        ).with_children(a, self.children_of(b)).with_children(b, self.children_of(a))
    }

    /// `u` and its descendant `l` stay where they are and exchange their
    /// children: `u` gets the children of `l`, and `l` as its last child;
    /// `l` gets the children that `u` had, but for itself.
    pub open spec fn swapped_children_down(self, l: NodeId, u: NodeId) -> TreeView<T> {
        let given = without(self.children_of(u), l);
        self.unlist(self.parent_of(l).unwrap(), l).reparented(given, Some(l)).reparented(
            self.children_of(l),
            Some(u),
        ).with_children(u, self.children_of(l)).with_children(l, given).attach(u, l)
    }

    /// `a` and `b` stay where they are and exchange their children. One
    /// that is a descendant of the other stays among the children of the
    /// other.
    pub open spec fn swapped_children(self, a: NodeId, b: NodeId) -> TreeView<T> {
        if a == b {
            self
        } else if self.below(a, b) {
            self.swapped_children_down(a, b)
        } else if self.below(b, a) {
            self.swapped_children_down(b, a)
        } else {
            self.swapped_children_across(a, b)
        }
    }

    /// `a` and `b` trade places and take their subtrees along. One that is
    /// an ancestor of the other becomes its last child. Two children of
    /// one node exchange their places in its child list. Two nodes without
    /// a parent stay as they are.
    pub open spec fn swapped_take(self, a: NodeId, b: NodeId) -> TreeView<T> {
        if a == b {
            self
        } else if self.below(a, b) {
            self.swapped_down(a, b)
        } else if self.below(b, a) {
            self.swapped_down(b, a)
        } else if self.parent_of(a) == self.parent_of(b) {
            match self.parent_of(a) {
                Some(q) => self.with_children(q, exchanged(self.children_of(q), a, b)),
                None => self,
            }
        } else {
            self.traded(a, b)
        }
    }
}

/// Letting a node take the place of one of its ancestors keeps the arena
/// well formed.
pub proof fn lemma_swapped_down_wf<T>(v: TreeView<T>, l: NodeId, u: NodeId)
    requires
        v.wf(),
        v.contains(l),
        v.contains(u),
        v.below(l, u),
    ensures
        v.swapped_down(l, u).wf(),
        v.swapped_down(l, u).nodes.dom() == v.nodes.dom(),
{
    broadcast use group_handles;

    let w = v.swapped_down(l, u);
    let r = v.rank();
    let shift = r(l) + 1;
    let rank = |x: NodeId|
        if v.in_subtree(x, u) && !v.in_subtree(x, l) {
            (r(x) + shift) as nat
        } else {
            r(x)
        };
    assert(v.node_linked(l));
    assert(v.node_linked(u));
    let lp = v.parent_of(l).unwrap();
    assert(v.node_linked(lp));
    lemma_not_below_itself(v, l);
    lemma_not_below_itself(v, u);
    lemma_below_rank(v, r, l, u);
    if v.below(u, l) {
        lemma_below_rank(v, r, u, l);
    }
    if let Some(q) = v.parent_of(u) {
        assert(v.node_linked(q));
        if v.in_subtree(q, u) {
            lemma_below_rank(v, r, q, u);
        }
        if v.in_subtree(q, l) {
            lemma_below_rank(v, r, q, l);
        }
        if v.children_of(q).contains(l) {
            assert(v.parent_of(l) == Some(q));
        }
    }
    let cut = v.with_parent(l, v.parent_of(u)).unlist(lp, l);
    assert(cut.nodes.dom() =~= v.nodes.dom());
    assert(w.nodes.dom() =~= v.nodes.dom());
    assert forall|c: NodeId| #[trigger] w.contains(c) implies w.node_linked(c) by {
        assert(v.contains(c));
        assert(v.node_linked(c));
    }
    assert(w.ranked_by(rank)) by {
        assert forall|c: NodeId| #[trigger] w.contains(c) && w.parent_of(c) is Some implies rank(
            w.parent_of(c).unwrap(),
        ) < rank(c) by {
            assert(v.contains(c));
            assert(v.node_linked(c));
        }
    }
    lemma_same_storage(v, w);
}

/// Exchanging the places of two children of one node keeps the arena well
/// formed.
pub proof fn lemma_exchanged_wf<T>(v: TreeView<T>, q: NodeId, a: NodeId, b: NodeId)
    requires
        v.wf(),
        v.contains(q),
    ensures
        v.with_children(q, exchanged(v.children_of(q), a, b)).wf(),
        v.with_children(q, exchanged(v.children_of(q), a, b)).nodes.dom() == v.nodes.dom(),
{
    broadcast use group_handles;

    let w = v.with_children(q, exchanged(v.children_of(q), a, b));
    let r = v.rank();
    assert(v.node_linked(q));
    assert(w.nodes.dom() =~= v.nodes.dom());
    lemma_exchanged(v.children_of(q), a, b);
    assert forall|c: NodeId| #[trigger] w.contains(c) implies w.node_linked(c) by {
        assert(v.contains(c));
        assert(v.node_linked(c));
        if v.parent_of(c) == Some(q) {
            assert(v.children_of(q).contains(c));
            assert(w.children_of(q).contains(c));
        }
        if c == q {
            assert forall|x: NodeId| #[trigger] w.children_of(c).contains(x) implies w.contains(x)
                && w.parent_of(x) == Some(c) by {
                assert(v.children_of(q).contains(x));
            }
        }
    }
    assert(w.ranked_by(r)) by {
        assert forall|c: NodeId| #[trigger] w.contains(c) && w.parent_of(c) is Some implies r(
            w.parent_of(c).unwrap(),
        ) < r(c) by {
            assert(v.contains(c));
        }
    }
    lemma_same_storage(v, w);
}

/// Putting the children of a node in another order keeps the arena well
/// formed.
pub proof fn lemma_reordered_wf<T>(v: TreeView<T>, q: NodeId, children: Seq<NodeId>)
    requires
        v.wf(),
        v.contains(q),
        children.to_multiset() == v.children_of(q).to_multiset(),
    ensures
        v.with_children(q, children).wf(),
        v.with_children(q, children).nodes.dom() == v.nodes.dom(),
{
    let w = v.with_children(q, children);
    let r = v.rank();
    assert(v.node_linked(q));
    assert(w.nodes.dom() =~= v.nodes.dom());
    lemma_same_entries(v.children_of(q), children);
    assert forall|c: NodeId| #[trigger] w.contains(c) implies w.node_linked(c) by {
        assert(v.contains(c));
        assert(v.node_linked(c));
        if v.parent_of(c) == Some(q) {
            assert(v.children_of(q).contains(c));
            assert(w.children_of(q).contains(c));
        }
        if c == q {
            assert forall|x: NodeId| #[trigger] w.children_of(c).contains(x) implies w.contains(x)
                && w.parent_of(x) == Some(c) by {
                assert(v.children_of(q).contains(x));
            }
        }
    }
    assert(w.ranked_by(r)) by {
        assert forall|c: NodeId| #[trigger] w.contains(c) && w.parent_of(c) is Some implies r(
            w.parent_of(c).unwrap(),
        ) < r(c) by {
            assert(v.contains(c));
        }
    }
    lemma_same_storage(v, w);
}

/// Letting two unrelated nodes with different parents trade places keeps
/// the arena well formed.
pub proof fn lemma_traded_wf<T>(v: TreeView<T>, a: NodeId, b: NodeId)
    requires
        v.wf(),
        v.contains(a),
        v.contains(b),
        a != b,
        !v.below(a, b),
        !v.below(b, a),
        v.parent_of(a) != v.parent_of(b),
    ensures
        v.traded(a, b).wf(),
        v.traded(a, b).nodes.dom() == v.nodes.dom(),
{
    broadcast use group_handles;

    let w = v.traded(a, b);
    let r = v.rank();
    let shift_a: nat = match v.parent_of(b) {
        Some(q) => r(q) + 1,
        None => 0,
    };
    let shift_b: nat = match v.parent_of(a) {
        Some(q) => r(q) + 1,
        None => 0,
    };
    let rank = |x: NodeId|
        if v.in_subtree(x, a) {
            (r(x) + shift_a) as nat
        } else if v.in_subtree(x, b) {
            (r(x) + shift_b) as nat
        } else {
            r(x)
        };
    assert(v.node_linked(a));
    assert(v.node_linked(b));
    lemma_not_below_itself(v, a);
    lemma_not_below_itself(v, b);
    if let Some(q) = v.parent_of(a) {
        assert(v.node_linked(q));
        if v.in_subtree(q, a) {
            lemma_below_rank(v, r, q, a);
        }
        if v.children_of(q).contains(b) {
            assert(v.parent_of(b) == Some(q));
        }
    }
    if let Some(q) = v.parent_of(b) {
        assert(v.node_linked(q));
        if v.in_subtree(q, b) {
            lemma_below_rank(v, r, q, b);
        }
        if v.children_of(q).contains(a) {
            assert(v.parent_of(a) == Some(q));
        }
    }
    let turned = v.with_parent(a, v.parent_of(b)).with_parent(b, v.parent_of(a));
    let first = match v.parent_of(a) {
        Some(q) => turned.with_children(q, replaced(turned.children_of(q), a, b)),
        None => turned,
    };
    assert(turned.nodes.dom() =~= v.nodes.dom());
    assert(first.nodes.dom() =~= v.nodes.dom());
    assert(w.nodes.dom() =~= v.nodes.dom());
    assert forall|c: NodeId| #[trigger] w.contains(c) implies w.node_linked(c) by {
        assert(v.contains(c));
        assert(v.node_linked(c));
    }
    assert(w.ranked_by(rank)) by {
        assert forall|c: NodeId| #[trigger] w.contains(c) && w.parent_of(c) is Some implies rank(
            w.parent_of(c).unwrap(),
        ) < rank(c) by {
            assert(v.contains(c));
            assert(v.node_linked(c));
        }
    }
    lemma_same_storage(v, w);
}

/// Letting two nodes exchange their names keeps the arena well formed.
pub proof fn lemma_swapped_leave_wf<T>(v: TreeView<T>, a: NodeId, b: NodeId)
    requires
        v.wf(),
        v.contains(a),
        v.contains(b),
    ensures
        v.swapped_leave(a, b).wf(),
        v.swapped_leave(a, b).nodes.dom() == v.nodes.dom(),
{
    let w = v.swapped_leave(a, b);
    let r = v.rank();
    let rank = |x: NodeId| r(other(a, b, x));
    assert(w.nodes.dom() =~= v.nodes.dom());
    assert forall|c: NodeId| #[trigger] w.contains(c) implies w.node_linked(c) by {
        let oc = other(a, b, c);
        assert(v.contains(oc));
        assert(v.node_linked(oc));
        lemma_renamed(v.children_of(oc), a, b);
        if let Some(p) = v.parent_of(oc) {
            let np = other(a, b, p);
            assert(w.parent_of(c) == Some(np));
            lemma_renamed(v.children_of(p), a, b);
            assert(other(a, b, np) == p);
            assert(w.children_of(np) == renamed(v.children_of(p), a, b));
            assert(w.children_of(np).contains(c));
        }
        assert forall|x: NodeId| #[trigger] w.children_of(c).contains(x) implies w.contains(x)
            && w.parent_of(x) == Some(c) by {
            let ox = other(a, b, x);
            assert(v.children_of(oc).contains(ox));
            assert(v.contains(ox));
        }
    }
    assert(w.ranked_by(rank)) by {
        assert forall|c: NodeId| #[trigger] w.contains(c) && w.parent_of(c) is Some implies rank(
            w.parent_of(c).unwrap(),
        ) < rank(c) by {
            let oc = other(a, b, c);
            assert(v.contains(oc));
            assert(v.node_linked(oc));
        }
    }
    lemma_same_storage(v, w);
    if let Some(root) = v.root {
        assert(v.contains(root));
    }
}

/// Letting two unrelated nodes exchange their children keeps the arena
/// well formed.
pub proof fn lemma_swapped_children_across_wf<T>(v: TreeView<T>, a: NodeId, b: NodeId)
    requires
        v.wf(),
        v.contains(a),
        v.contains(b),
        a != b,
        !v.below(a, b),
        !v.below(b, a),
    ensures
        v.swapped_children_across(a, b).wf(),
        v.swapped_children_across(a, b).nodes.dom() == v.nodes.dom(),
{
    broadcast use group_handles;

    let w = v.swapped_children_across(a, b);
    let r = v.rank();
    let shift_a = r(b) + 1;
    let shift_b = r(a) + 1;
    let rank = |x: NodeId|
        if v.below(x, a) {
            (r(x) + shift_a) as nat
        } else if v.below(x, b) {
            (r(x) + shift_b) as nat
        } else {
            r(x)
        };
    assert(v.node_linked(a));
    assert(v.node_linked(b));
    lemma_not_below_itself(v, a);
    lemma_not_below_itself(v, b);
    assert(w.nodes.dom() =~= v.nodes.dom());
    assert forall|c: NodeId| #[trigger] w.contains(c) implies w.node_linked(c) by {
        assert(v.contains(c));
        assert(v.node_linked(c));
    }
    assert(w.ranked_by(rank)) by {
        assert forall|c: NodeId| #[trigger] w.contains(c) && w.parent_of(c) is Some implies rank(
            w.parent_of(c).unwrap(),
        ) < rank(c) by {
            assert(v.contains(c));
            assert(v.node_linked(c));
        }
    }
    lemma_same_storage(v, w);
    if let Some(root) = v.root {
        assert(v.contains(root));
        assert(v.node_linked(root));
    }
}

/// Letting a node and one of its descendants exchange their children
/// keeps the arena well formed.
pub proof fn lemma_swapped_children_down_wf<T>(v: TreeView<T>, l: NodeId, u: NodeId)
    requires
        v.wf(),
        v.contains(l),
        v.contains(u),
        v.below(l, u),
    ensures
        v.swapped_children_down(l, u).wf(),
        v.swapped_children_down(l, u).nodes.dom() == v.nodes.dom(),
{
    broadcast use group_handles;

    let w = v.swapped_children_down(l, u);
    let r = v.rank();
    let shift = r(l) + 1;
    let rank = |x: NodeId|
        if v.below(x, u) && !v.in_subtree(x, l) {
            (r(x) + shift) as nat
        } else {
            r(x)
        };
    assert(v.node_linked(l));
    assert(v.node_linked(u));
    let lp = v.parent_of(l).unwrap();
    assert(v.node_linked(lp));
    lemma_not_below_itself(v, l);
    lemma_not_below_itself(v, u);
    lemma_below_rank(v, r, l, u);
    if v.below(u, l) {
        lemma_below_rank(v, r, u, l);
    }
    assert(w.nodes.dom() =~= v.nodes.dom());
    assert forall|c: NodeId| #[trigger] w.contains(c) implies w.node_linked(c) by {
        assert(v.contains(c));
        assert(v.node_linked(c));
    }
    assert(w.ranked_by(rank)) by {
        assert forall|c: NodeId| #[trigger] w.contains(c) && w.parent_of(c) is Some implies rank(
            w.parent_of(c).unwrap(),
        ) < rank(c) by {
            assert(v.contains(c));
            assert(v.node_linked(c));
        }
    }
    lemma_same_storage(v, w);
    if let Some(root) = v.root {
        assert(v.contains(root));
        assert(v.node_linked(root));
    }
}

/// Letting two nodes exchange their children keeps the arena well formed.
pub proof fn lemma_swapped_children_wf<T>(v: TreeView<T>, a: NodeId, b: NodeId)
    requires
        v.wf(),
        v.contains(a),
        v.contains(b),
    ensures
        v.swapped_children(a, b).wf(),
        v.swapped_children(a, b).nodes.dom() == v.nodes.dom(),
{
    if a == b {
    } else if v.below(a, b) {
        lemma_swapped_children_down_wf(v, a, b);
    } else if v.below(b, a) {
        lemma_swapped_children_down_wf(v, b, a);
    } else {
        lemma_swapped_children_across_wf(v, a, b);
    }
}

/// Swapping two nodes with their subtrees keeps the arena well formed.
pub proof fn lemma_swapped_take_wf<T>(v: TreeView<T>, a: NodeId, b: NodeId)
    requires
        v.wf(),
        v.contains(a),
        v.contains(b),
    ensures
        v.swapped_take(a, b).wf(),
        v.swapped_take(a, b).nodes.dom() == v.nodes.dom(),
{
    if a == b {
    } else if v.below(a, b) {
        lemma_swapped_down_wf(v, a, b);
    } else if v.below(b, a) {
        lemma_swapped_down_wf(v, b, a);
    } else if v.parent_of(a) == v.parent_of(b) {
        if let Some(q) = v.parent_of(a) {
            assert(v.node_linked(a));
            lemma_exchanged_wf(v, q, a, b);
        }
    } else {
        lemma_traded_wf(v, a, b);
    }
}

} // verus!
