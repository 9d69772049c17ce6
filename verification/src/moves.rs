//! What relocating a subtree does to an arena, and why the result is well
//! formed.

use crate::ancestry::lemma_below_rank;
use crate::ancestry::lemma_not_below_itself;
use crate::ancestry::lemma_path_child;
use crate::ancestry::lemma_same_storage;
use crate::ancestry::lemma_top_of;
use crate::handles::group_handles;
use crate::model::TreeView;
use crate::node_id::NodeId;
use vstd::prelude::*;

verus! {

impl<T> TreeView<T> {
    /// The parent of `n`, if it has one, no longer lists `n` as a child.
    pub open spec fn unlinked(self, n: NodeId) -> TreeView<T> {
        match self.parent_of(n) {
            Some(q) => self.unlist(q, n),
            None => self,
        }
    }

    /// `n` hangs nowhere: its parent, if it had one, no longer lists it,
    /// and it names no parent.
    pub open spec fn detached(self, n: NodeId) -> TreeView<T> {
        self.unlinked(n).with_parent(n, None)
    }

    /// `n` moves to the end of the child list of its own descendant `p`.
    /// Its child `s`, under which `p` stands, takes the place that `n` had:
    /// it becomes the last child of the parent of `n`, or a node without a
    /// parent if `n` had none, and the root if `n` was the root.
    pub open spec fn moved_down(self, n: NodeId, p: NodeId, s: NodeId) -> TreeView<T> {
        let lifted = match self.parent_of(n) {
            Some(q) => self.unlist(q, n).attach(q, s),
            None => {
                let cut = self.with_parent(s, None);
                if self.root == Some(n) {
                    cut.with_root(Some(s))
                } else {
                    cut
                }
            },
        };
        lifted.unlist(n, s).attach(p, n)
    }

    /// `n` becomes the last child of `p` and takes its subtree along.
    /// Moving a node under itself changes nothing. Moving it under one of
    /// its descendants lets the child that leads to the descendant take its
    /// place first.
    pub open spec fn moved_to_parent(self, n: NodeId, p: NodeId) -> TreeView<T> {
        if n == p {
            self
        } else {
            match self.path_child(p, n) {
                Some(s) => self.moved_down(n, p, s),
                None => self.moved_across(n, p),
            }
        }
    }

    /// `n` becomes the root, and the root that was, if it is another node,
    /// becomes the last child of `n`.
    pub open spec fn moved_to_root(self, n: NodeId) -> TreeView<T> {
        let top = self.detached(n).with_root(Some(n));
        match self.root {
            Some(r) => if r == n {
                top
            } else {
                top.moved_to_parent(r, n)
            },
            None => top,
        }
    }

    /// `n` moves from where it hangs to the end of the child list of `p`,
    /// which is neither `n` nor one of its descendants. If `n` was the
    /// root, the node at the top of the tree that `p` stands in is the root
    /// afterwards.
    pub open spec fn moved_across(self, n: NodeId, p: NodeId) -> TreeView<T> {
        let moved = self.unlinked(n).attach(p, n);
        if self.root == Some(n) {
            moved.with_root(Some(self.top_of(p)))
        } else {
            moved
        }
    }
}

/// Hanging a subtree under a node outside of it keeps the arena well formed.
pub proof fn lemma_moved_across_wf<T>(v: TreeView<T>, n: NodeId, p: NodeId)
    requires
        v.wf(),
        v.contains(n),
        v.contains(p),
        !v.in_subtree(p, n),
    ensures
        v.moved_across(n, p).wf(),
        v.moved_across(n, p).nodes.dom() == v.nodes.dom(),
{
    broadcast use group_handles;

    let w = v.moved_across(n, p);
    let r = v.rank();
    let shift = r(p) + 1;
    let rank = |x: NodeId|
        if v.in_subtree(x, n) {
            (r(x) + shift) as nat
        } else {
            r(x)
        };
    assert(v.node_linked(n));
    assert(v.node_linked(p));
    lemma_top_of(v, p);
    let u = v.unlinked(n);
    assert(u.nodes.dom() =~= v.nodes.dom());
    assert(w.nodes.dom() =~= v.nodes.dom());
    assert forall|c: NodeId| #[trigger] w.contains(c) implies w.node_linked(c) by {
        assert(v.contains(c));
        assert(v.node_linked(c));
    }
    assert(w.ranked_by(rank)) by {
        assert forall|c: NodeId| #[trigger] w.contains(c) && w.parent_of(c) is Some implies rank(
            w.parent_of(c).unwrap(),
        ) < rank(c) by {
            assert(v.contains(c));
            assert(v.node_linked(c));
        }
    }
    lemma_same_storage(v, w);
}

/// Cutting a node loose from its parent keeps the arena well formed.
pub proof fn lemma_detached_wf<T>(v: TreeView<T>, n: NodeId)
    requires
        v.wf(),
        v.contains(n),
    ensures
        v.detached(n).wf(),
        v.detached(n).nodes.dom() == v.nodes.dom(),
{
    broadcast use group_handles;

    let w = v.detached(n);
    let r = v.rank();
    assert(v.node_linked(n));
    let u = v.unlinked(n);
    assert(u.nodes.dom() =~= v.nodes.dom());
    assert(w.nodes.dom() =~= v.nodes.dom());
    assert forall|c: NodeId| #[trigger] w.contains(c) implies w.node_linked(c) by {
        assert(v.contains(c));
        assert(v.node_linked(c));
    }
    assert(w.ranked_by(r)) by {
        assert forall|c: NodeId| #[trigger] w.contains(c) && w.parent_of(c) is Some implies r(
            w.parent_of(c).unwrap(),
        ) < r(c) by {
            assert(v.contains(c));
        }
    }
    lemma_same_storage(v, w);
}

/// Hanging a node under one of its descendants, after the child that leads
/// there took its place, keeps the arena well formed.
pub proof fn lemma_moved_down_wf<T>(v: TreeView<T>, n: NodeId, p: NodeId)
    requires
        v.wf(),
        v.contains(n),
        v.contains(p),
        v.below(p, n),
    ensures
        v.moved_down(n, p, v.path_child(p, n).unwrap()).wf(),
        v.moved_down(n, p, v.path_child(p, n).unwrap()).nodes.dom() == v.nodes.dom(),
{
    broadcast use group_handles;

    let s = v.path_child(p, n).unwrap();
    let w = v.moved_down(n, p, s);
    let r = v.rank();
    lemma_path_child(v, p, n);
    let shift = r(p) + 1;
    let rank = |x: NodeId|
        if v.in_subtree(x, n) && !v.in_subtree(x, s) {
            (r(x) + shift) as nat
        } else {
            r(x)
        };
    assert(v.node_linked(n));
    assert(v.node_linked(p));
    assert(v.node_linked(s));
    lemma_not_below_itself(v, n);
    lemma_not_below_itself(v, s);
    if v.below(n, s) {
        lemma_below_rank(v, r, n, s);
    }
    assert(!v.in_subtree(n, s));
    let lifted = match v.parent_of(n) {
        Some(q) => v.unlist(q, n).attach(q, s),
        None => {
            let cut = v.with_parent(s, None);
            if v.root == Some(n) {
                cut.with_root(Some(s))
            } else {
                cut
            }
        },
    };
    assert(lifted.nodes.dom() =~= v.nodes.dom());
    assert(w.nodes.dom() =~= v.nodes.dom());
    if let Some(q) = v.parent_of(n) {
        assert(v.node_linked(q));
        if v.in_subtree(q, n) {
            lemma_below_rank(v, r, q, n);
        }
        if v.in_subtree(q, s) {
            lemma_below_rank(v, r, q, s);
        }
    }
    assert forall|c: NodeId| #[trigger] w.contains(c) implies w.node_linked(c) by {
        assert(v.contains(c));
        assert(v.node_linked(c));
    }
    assert(w.ranked_by(rank)) by {
        assert forall|c: NodeId| #[trigger] w.contains(c) && w.parent_of(c) is Some implies rank(
            w.parent_of(c).unwrap(),
        ) < rank(c) by {
            assert(v.contains(c));
            assert(v.node_linked(c));
        }
    }
    lemma_same_storage(v, w);
}

/// Moving a node under another keeps the arena well formed.
pub proof fn lemma_moved_to_parent_wf<T>(v: TreeView<T>, n: NodeId, p: NodeId)
    requires
        v.wf(),
        v.contains(n),
        v.contains(p),
    ensures
        v.moved_to_parent(n, p).wf(),
        v.moved_to_parent(n, p).nodes.dom() == v.nodes.dom(),
{
    if n != p {
        if v.below(p, n) {
            lemma_moved_down_wf(v, n, p);
        } else {
            lemma_moved_across_wf(v, n, p);
        }
    }
}

/// Designating a live node without a parent as the root, or no node at
/// all, keeps the arena well formed.
pub proof fn lemma_root_change_wf<T>(v: TreeView<T>, root: Option<NodeId>)
    requires
        v.wf(),
        root matches Some(r) ==> v.contains(r) && v.parent_of(r) is None,
    ensures
        v.with_root(root).wf(),
{
    let w = v.with_root(root);
    lemma_same_storage(v, w);
    assert forall|c: NodeId| #[trigger] w.contains(c) implies w.node_linked(c) by {
        assert(v.contains(c));
        assert(v.node_linked(c));
    }
    assert(w.ranked_by(v.rank())) by {
        assert forall|c: NodeId| #[trigger] w.contains(c) && w.parent_of(c) is Some implies (
        v.rank())(w.parent_of(c).unwrap()) < (v.rank())(c) by {
            assert(v.contains(c));
        }
    }
}

/// Making a node the root keeps the arena well formed.
pub proof fn lemma_moved_to_root_wf<T>(v: TreeView<T>, n: NodeId)
    requires
        v.wf(),
        v.contains(n),
    ensures
        v.moved_to_root(n).wf(),
        v.moved_to_root(n).nodes.dom() == v.nodes.dom(),
        v.moved_to_root(n).root == Some(n),
{
    lemma_detached_wf(v, n);
    let top = v.detached(n).with_root(Some(n));
    lemma_root_change_wf(v.detached(n), Some(n));
    if let Some(r) = v.root {
        if r != n {
            assert(top.contains(n));
            assert(top.path_child(n, r) is None);
            lemma_moved_to_parent_wf(top, r, n);
        }
    }
}

} // verus!
