//! The orders in which a subtree can be walked from its top downwards.

use crate::ancestry::lemma_below_rank;
use crate::ancestry::lemma_not_below_itself;
use crate::ancestry::lemma_path_child;
use crate::ancestry::lemma_rank;
use crate::handles::lemma_add_contains;
use crate::handles::lemma_push_contains;
use crate::handles::lemma_push_no_duplicates;
use crate::model::TreeView;
use crate::node_id::NodeId;
use vstd::prelude::*;

verus! {

impl<T> TreeView<T> {
    /// A number above the rank of every live node in the first `k` slots.
    pub open spec fn rank_cap(self, k: nat) -> nat
        decreases k,
    {
        if k == 0 {
            0
        } else {
            let id = NodeId::of(self.tag, (k - 1) as nat);
            let under = self.rank_cap((k - 1) as nat);
            if self.contains(id) && (self.rank())(id) >= under {
                (self.rank())(id) + 1
            } else {
                under
            }
        }
    }

    /// How far the rank of `x` is from the cap: a number that shrinks from
    /// every parent to its child.
    pub open spec fn room(self, x: NodeId) -> nat {
        (self.rank_cap(self.slots) - (self.rank())(x)) as nat
    }

    /// The subtree under `x` in pre-order: `x`, then the subtrees under its
    /// children, in the order of the children.
    pub open spec fn pre_order(self, x: NodeId) -> Seq<NodeId>
        decreases self.room(x), self.children_of(x).len() + 1,
        when self.wf() && self.contains(x)
    {
        seq![x] + self.pre_order_from(x, 0)
    }

    /// The subtrees under the children of `x` from the `i`-th on, each in
    /// pre-order.
    pub open spec fn pre_order_from(self, x: NodeId, i: nat) -> Seq<NodeId>
        decreases self.room(x), self.children_of(x).len() - i,
        when self.wf() && self.contains(x)
    {
        if i >= self.children_of(x).len() {
            Seq::empty()
        } else {
            proof {
                lemma_room_of_child(self, x, i as int);
            }
            self.pre_order(self.children_of(x)[i as int]) + self.pre_order_from(x, i + 1)
        }
    }

    /// The subtree under `x` in post-order: the subtrees under its
    /// children, in the order of the children, then `x`.
    pub open spec fn post_order(self, x: NodeId) -> Seq<NodeId>
        decreases self.room(x), self.children_of(x).len() + 1,
        when self.wf() && self.contains(x)
    {
        self.post_order_upto(x, self.children_of(x).len()) + seq![x]
    }

    /// The subtrees under the first `j` children of `x`, each in
    /// post-order.
    pub open spec fn post_order_upto(self, x: NodeId, j: nat) -> Seq<NodeId>
        decreases self.room(x), j,
        when self.wf() && self.contains(x) && j <= self.children_of(x).len()
    {
        if j == 0 {
            Seq::empty()
        } else {
            proof {
                lemma_room_of_child(self, x, j - 1);
            }
            self.post_order_upto(x, (j - 1) as nat) + self.post_order(
                self.children_of(x)[j - 1],
            )
        }
    }

    /// What is still to come of a pre-order walk that keeps the tops of the
    /// subtrees to visit on `stack`, the next one last.
    pub open spec fn pre_order_of_stack(self, stack: Seq<NodeId>) -> Seq<NodeId>
        decreases stack.len(),
    {
        if stack.len() == 0 {
            Seq::empty()
        } else {
            self.pre_order(stack.last()) + self.pre_order_of_stack(stack.drop_last())
        }
    }

    /// The subtrees under the nodes of `stack`, each in post-order, in the
    /// order of `stack`.
    pub open spec fn post_order_of_stack(self, stack: Seq<NodeId>) -> Seq<NodeId>
        decreases stack.len(),
    {
        if stack.len() == 0 {
            Seq::empty()
        } else {
            self.post_order_of_stack(stack.drop_last()) + self.post_order(stack.last())
        }
    }

    /// The children of the nodes in `level`, in the order of the nodes and
    /// of their children.
    pub open spec fn children_of_all(self, level: Seq<NodeId>) -> Seq<NodeId>
        decreases level.len(),
    {
        if level.len() == 0 {
            Seq::empty()
        } else {
            self.children_of_all(level.drop_last()) + self.children_of(level.last())
        }
    }

    /// One more than the largest room of a node in `level`; 0 for none.
    pub open spec fn level_room(self, level: Seq<NodeId>) -> nat
        decreases level.len(),
    {
        if level.len() == 0 {
            0
        } else {
            let rest = self.level_room(level.drop_last());
            if self.room(level.last()) + 1 > rest {
                self.room(level.last()) + 1
            } else {
                rest
            }
        }
    }

    /// `level`, then the children of its nodes, then their children, and
    /// so on down to the last generation.
    pub open spec fn levels_from(self, level: Seq<NodeId>) -> Seq<NodeId>
        decreases self.level_room(level),
        when self.wf() && forall|i: int| 0 <= i < level.len() ==> self.contains(#[trigger] level[i])
    {
        if level.len() == 0 {
            Seq::empty()
        } else {
            proof {
                lemma_next_level(self, level);
            }
            level + self.levels_from(self.children_of_all(level))
        }
    }

    /// No node of `level` stands in the subtree under another.
    pub open spec fn apart(self, level: Seq<NodeId>) -> bool {
        forall|i: int, j: int|
            0 <= i < level.len() && 0 <= j < level.len() && i != j ==> !self.in_subtree(
                #[trigger] level[i],
                #[trigger] level[j],
            )
    }

    /// `y` stands in the subtree under a node of `level`.
    pub open spec fn under_level(self, level: Seq<NodeId>, y: NodeId) -> bool {
        exists|k: int| 0 <= k < level.len() && self.in_subtree(y, #[trigger] level[k])
    }

    /// The subtree under `x` in level order: `x`, its children, their
    /// children, and so on, each generation in the order of the one before.
    pub open spec fn level_order(self, x: NodeId) -> Seq<NodeId> {
        self.levels_from(seq![x])
    }
}

/// The cap lies above the rank of every live node in the slots it covers.
pub proof fn lemma_rank_cap<T>(v: TreeView<T>, k: nat, x: NodeId)
    requires
        v.storage_wf(),
        v.contains(x),
        x.slot() < k,
        k <= v.slots,
    ensures
        (v.rank())(x) < v.rank_cap(k),
    decreases k,
{
    if x.slot() < k - 1 {
        lemma_rank_cap(v, (k - 1) as nat, x);
    } else {
        assert(x == NodeId::of(v.tag, (k - 1) as nat));
    }
}

/// A child has less room than its parent.
pub proof fn lemma_room_of_child<T>(v: TreeView<T>, x: NodeId, i: int)
    requires
        v.wf(),
        v.contains(x),
        0 <= i < v.children_of(x).len(),
    ensures
        v.contains(v.children_of(x)[i]),
        v.room(v.children_of(x)[i]) < v.room(x),
{
    let c = v.children_of(x)[i];
    assert(v.node_linked(x));
    assert(v.children_of(x).contains(c));
    lemma_rank(v);
    assert(v.contains(c));
    lemma_rank_cap(v, v.slots, c);
    lemma_rank_cap(v, v.slots, x);
}

/// The children of the nodes of a level are live and have less room than
/// the level.
pub proof fn lemma_next_level<T>(v: TreeView<T>, level: Seq<NodeId>)
    requires
        v.wf(),
        forall|i: int| 0 <= i < level.len() ==> v.contains(#[trigger] level[i]),
    ensures
        forall|i: int|
            0 <= i < v.children_of_all(level).len() ==> v.contains(
                #[trigger] v.children_of_all(level)[i],
            ),
        level.len() > 0 ==> v.level_room(v.children_of_all(level)) < v.level_room(level),
        level.len() == 0 ==> v.children_of_all(level).len() == 0,
    decreases level.len(),
{
    if level.len() > 0 {
        let rest = level.drop_last();
        let x = level.last();
        assert(rest.len() == level.len() - 1);
        assert forall|i: int| 0 <= i < rest.len() implies v.contains(#[trigger] rest[i]) by {
            assert(rest[i] == level[i]);
        }
        lemma_next_level(v, rest);
        assert(level[level.len() - 1] == x);
        assert(v.contains(x));
        let before = v.children_of_all(rest);
        let own = v.children_of(x);
        let next = before + own;
        assert forall|i: int| 0 <= i < next.len() implies v.contains(#[trigger] next[i]) by {
            if i >= before.len() {
                lemma_room_of_child(v, x, i - before.len());
            }
        }
        lemma_level_room_of_children(v, x, own.len());
        assert(own.take(own.len() as int) =~= own);
        lemma_level_room_add(v, before, own);
        if rest.len() == 0 {
            assert(before.len() == 0);
        }
    }
}

/// The first `j` children of a node have less room than the node.
pub proof fn lemma_level_room_of_children<T>(v: TreeView<T>, x: NodeId, j: nat)
    requires
        v.wf(),
        v.contains(x),
        j <= v.children_of(x).len(),
    ensures
        v.level_room(v.children_of(x).take(j as int)) <= v.room(x),
    decreases j,
{
    let cs = v.children_of(x).take(j as int);
    if j > 0 {
        lemma_level_room_of_children(v, x, (j - 1) as nat);
        assert(cs.drop_last() =~= v.children_of(x).take(j - 1));
        assert(cs.last() == v.children_of(x)[j - 1]);
        lemma_room_of_child(v, x, j - 1);
    }
    assert(v.children_of(x).take(v.children_of(x).len() as int) =~= v.children_of(x));
}

/// The room of two levels put together is the larger of their rooms.
pub proof fn lemma_level_room_add<T>(v: TreeView<T>, a: Seq<NodeId>, b: Seq<NodeId>)
    ensures
        v.level_room(a + b) == if v.level_room(a) > v.level_room(b) {
            v.level_room(a)
        } else {
            v.level_room(b)
        },
    decreases b.len(),
{
    if b.len() == 0 {
        assert(a + b =~= a);
    } else {
        lemma_level_room_add(v, a, b.drop_last());
        assert((a + b).drop_last() =~= a + b.drop_last());
        assert((a + b).last() == b.last());
    }
}

/// From a node in the subtree under a child of `x`, the way up to `x`
/// passes through that child.
pub proof fn lemma_way_through_child<T>(v: TreeView<T>, y: NodeId, c: NodeId, x: NodeId)
    requires
        v.wf(),
        v.contains(y),
        v.contains(c),
        v.parent_of(c) == Some(x),
        v.in_subtree(y, c),
    ensures
        v.path_child(y, x) == Some(c),
    decreases (v.rank())(y),
{
    lemma_rank(v);
    assert(v.node_linked(y));
    assert(v.node_linked(c));
    if y != c {
        let p = v.parent_of(y).unwrap();
        lemma_below_rank(v, v.rank(), y, c);
        if p != c {
            lemma_below_rank(v, v.rank(), p, c);
        }
        lemma_way_through_child(v, p, c, x);
    }
}

/// The subtrees under the first `j` children of `x`, each in post-order,
/// hold every node whose way up to `x` passes through one of these
/// children, and hold it once.
pub proof fn lemma_post_order_upto_covers<T>(v: TreeView<T>, x: NodeId, j: nat)
    requires
        v.wf(),
        v.contains(x),
        j <= v.children_of(x).len(),
    ensures
        v.post_order_upto(x, j).no_duplicates(),
        forall|y: NodeId| #[trigger]
            v.post_order_upto(x, j).contains(y) <==> v.contains(y) && v.below(y, x)
                && v.children_of(x).take(j as int).contains(v.path_child(y, x).unwrap()),
    decreases v.room(x), j,
{
    let children = v.children_of(x);
    assert(v.node_linked(x));
    if j > 0 {
        let c = children[j - 1];
        let before = v.post_order_upto(x, (j - 1) as nat);
        let under = v.post_order(c);
        assert(children.contains(c));
        lemma_room_of_child(v, x, j - 1);
        lemma_post_order_upto_covers(v, x, (j - 1) as nat);
        lemma_post_order_covers(v, c);
        assert(children.take(j as int) =~= children.take(j - 1).push(c));
        assert forall|y: NodeId| #[trigger]
            (before + under).contains(y) <==> v.contains(y) && v.below(y, x) && children.take(
                j as int,
            ).contains(v.path_child(y, x).unwrap()) by {
            lemma_add_contains(before, under, y);
            lemma_push_contains(children.take(j - 1), c, v.path_child(y, x).unwrap());
            if v.contains(y) && v.in_subtree(y, c) {
                lemma_way_through_child(v, y, c, x);
            }
            if v.contains(y) && v.below(y, x) {
                lemma_path_child(v, y, x);
            }
        }
        assert forall|a: int, b: int| 0 <= a < before.len() && 0 <= b < under.len() implies before[a]
            != under[b] by {
            assert(before.contains(before[a]));
            assert(under.contains(under[b]));
            if before[a] == under[b] {
                lemma_way_through_child(v, under[b], c, x);
                let taken = children.take(j - 1);
                let at = choose|at: int| 0 <= at < taken.len() && taken[at] == c;
                assert(children[at] == children[j - 1]);
            }
        }
        vstd::seq_lib::lemma_no_dup_in_concat(before, under);
    } else {
        assert(children.take(0).len() == 0);
    }
}

/// The subtree under `x` in post-order holds every node of the subtree,
/// and holds it once.
pub proof fn lemma_post_order_covers<T>(v: TreeView<T>, x: NodeId)
    requires
        v.wf(),
        v.contains(x),
    ensures
        v.post_order(x).no_duplicates(),
        forall|y: NodeId| #[trigger]
            v.post_order(x).contains(y) <==> v.contains(y) && v.in_subtree(y, x),
    decreases v.room(x), v.children_of(x).len() + 1,
{
    let children = v.children_of(x);
    let under = v.post_order_upto(x, children.len());
    lemma_post_order_upto_covers(v, x, children.len());
    lemma_not_below_itself(v, x);
    assert(children.take(children.len() as int) =~= children);
    assert(v.node_linked(x));
    assert forall|y: NodeId| #[trigger]
        v.post_order(x).contains(y) <==> v.contains(y) && v.in_subtree(y, x) by {
        lemma_push_contains(under, x, y);
        assert(under + seq![x] =~= under.push(x));
        if v.contains(y) && v.below(y, x) {
            lemma_path_child(v, y, x);
            let s = v.path_child(y, x).unwrap();
            assert(v.node_linked(s));
        }
    }
    assert(under + seq![x] =~= under.push(x));
    lemma_push_no_duplicates(under, x);
}

/// The subtrees under the children of `x` from the `i`-th on, each in
/// pre-order, hold every node whose way up to `x` passes through one of
/// these children, and hold it once.
pub proof fn lemma_pre_order_from_covers<T>(v: TreeView<T>, x: NodeId, i: nat)
    requires
        v.wf(),
        v.contains(x),
        i <= v.children_of(x).len(),
    ensures
        v.pre_order_from(x, i).no_duplicates(),
        forall|y: NodeId| #[trigger]
            v.pre_order_from(x, i).contains(y) <==> v.contains(y) && v.below(y, x)
                && v.children_of(x).skip(i as int).contains(v.path_child(y, x).unwrap()),
    decreases v.room(x), v.children_of(x).len() - i,
{
    let children = v.children_of(x);
    assert(v.node_linked(x));
    if i < children.len() {
        let c = children[i as int];
        let under = v.pre_order(c);
        let after = v.pre_order_from(x, i + 1);
        assert(children.contains(c));
        lemma_room_of_child(v, x, i as int);
        lemma_pre_order_from_covers(v, x, i + 1);
        lemma_pre_order_covers(v, c);
        let rest = children.skip(i as int + 1);
        assert(children.skip(i as int) =~= seq![c] + rest);
        assert forall|y: NodeId| #[trigger]
            (under + after).contains(y) <==> v.contains(y) && v.below(y, x) && children.skip(
                i as int,
            ).contains(v.path_child(y, x).unwrap()) by {
            lemma_add_contains(under, after, y);
            lemma_add_contains(seq![c], rest, v.path_child(y, x).unwrap());
            assert(seq![c].contains(v.path_child(y, x).unwrap()) <==> v.path_child(y, x).unwrap()
                == c) by {
                assert(seq![c][0] == c);
            }
            if v.contains(y) && v.in_subtree(y, c) {
                lemma_way_through_child(v, y, c, x);
            }
            if v.contains(y) && v.below(y, x) {
                lemma_path_child(v, y, x);
            }
        }
        assert forall|a: int, b: int| 0 <= a < under.len() && 0 <= b < after.len() implies under[a]
            != after[b] by {
            assert(under.contains(under[a]));
            assert(after.contains(after[b]));
            if under[a] == after[b] {
                lemma_way_through_child(v, under[a], c, x);
                let at = choose|at: int| 0 <= at < rest.len() && rest[at] == c;
                assert(children[i + 1 + at] == children[i as int]);
            }
        }
        vstd::seq_lib::lemma_no_dup_in_concat(under, after);
    } else {
        assert(children.skip(i as int).len() == 0);
    }
}

/// The subtree under `x` in pre-order holds every node of the subtree,
/// and holds it once.
pub proof fn lemma_pre_order_covers<T>(v: TreeView<T>, x: NodeId)
    requires
        v.wf(),
        v.contains(x),
    ensures
        v.pre_order(x).no_duplicates(),
        forall|y: NodeId| #[trigger]
            v.pre_order(x).contains(y) <==> v.contains(y) && v.in_subtree(y, x),
    decreases v.room(x), v.children_of(x).len() + 1,
{
    let children = v.children_of(x);
    let under = v.pre_order_from(x, 0);
    lemma_pre_order_from_covers(v, x, 0);
    lemma_not_below_itself(v, x);
    assert(children.skip(0) =~= children);
    assert(v.node_linked(x));
    assert forall|y: NodeId| #[trigger]
        v.pre_order(x).contains(y) <==> v.contains(y) && v.in_subtree(y, x) by {
        lemma_add_contains(seq![x], under, y);
        assert(seq![x].contains(y) <==> y == x) by {
            assert(seq![x][0] == x);
        }
        if v.contains(y) && v.below(y, x) {
            lemma_path_child(v, y, x);
            let s = v.path_child(y, x).unwrap();
            assert(v.node_linked(s));
        }
    }
    assert forall|a: int, b: int| 0 <= a < seq![x].len() && 0 <= b < under.len() implies seq![x][a]
        != under[b] by {
        assert(under.contains(under[b]));
    }
    vstd::seq_lib::lemma_no_dup_in_concat(seq![x], under);
}

/// The next level holds the live nodes whose parent is in the level, each
/// once, and no node of it stands under another.
pub proof fn lemma_next_level_apart<T>(v: TreeView<T>, level: Seq<NodeId>)
    requires
        v.wf(),
        forall|i: int| 0 <= i < level.len() ==> v.contains(#[trigger] level[i]),
        v.apart(level),
    ensures
        forall|c: NodeId| #[trigger]
            v.children_of_all(level).contains(c) <==> v.contains(c) && v.parent_of(c) is Some
                && level.contains(v.parent_of(c).unwrap()),
        v.children_of_all(level).no_duplicates(),
        v.apart(v.children_of_all(level)),
    decreases level.len(),
{
    let next = v.children_of_all(level);
    if level.len() > 0 {
        let rest = level.drop_last();
        let x = level.last();
        assert(level[level.len() - 1] == x);
        assert forall|i: int| 0 <= i < rest.len() implies v.contains(#[trigger] rest[i]) by {
            assert(rest[i] == level[i]);
        }
        assert(v.apart(rest)) by {
            assert forall|i: int, j: int|
                0 <= i < rest.len() && 0 <= j < rest.len() && i != j implies !v.in_subtree(
                #[trigger] rest[i],
                #[trigger] rest[j],
            ) by {
                assert(rest[i] == level[i] && rest[j] == level[j]);
            }
        }
        lemma_next_level_apart(v, rest);
        let before = v.children_of_all(rest);
        let own = v.children_of(x);
        assert(v.node_linked(x));
        assert(level =~= rest.push(x));
        assert forall|c: NodeId| #[trigger]
            next.contains(c) <==> v.contains(c) && v.parent_of(c) is Some && level.contains(
                v.parent_of(c).unwrap(),
            ) by {
            lemma_add_contains(before, own, c);
            if v.contains(c) {
                assert(v.node_linked(c));
                if let Some(p) = v.parent_of(c) {
                    lemma_push_contains(rest, x, p);
                }
            }
        }
        assert(!rest.contains(x)) by {
            if rest.contains(x) {
                let k = choose|k: int| 0 <= k < rest.len() && rest[k] == x;
                assert(level[k] == level[level.len() - 1]);
                assert(v.in_subtree(level[k], level[level.len() - 1]));
            }
        }
        assert forall|a: int, b: int| 0 <= a < before.len() && 0 <= b < own.len() implies before[a]
            != own[b] by {
            assert(before.contains(before[a]));
            assert(own.contains(own[b]));
        }
        vstd::seq_lib::lemma_no_dup_in_concat(before, own);
    }
    assert forall|i: int, j: int|
        0 <= i < next.len() && 0 <= j < next.len() && i != j implies !v.in_subtree(
        #[trigger] next[i],
        #[trigger] next[j],
    ) by {
        let c = next[i];
        let d = next[j];
        assert(next.contains(c));
        assert(next.contains(d));
        assert(c != d);
        if v.below(c, d) {
            let p = v.parent_of(c).unwrap();
            let q = v.parent_of(d).unwrap();
            assert(v.node_linked(c));
            assert(v.in_subtree(p, d));
            lemma_way_through_child(v, p, d, q);
            lemma_not_below_itself(v, p);
            let a = choose|a: int| 0 <= a < level.len() && level[a] == p;
            let b = choose|b: int| 0 <= b < level.len() && level[b] == q;
            assert(v.in_subtree(level[a], level[b]));
        }
    }
}

/// Level by level from a level whose nodes stand apart, every node under
/// a node of the level is visited, and visited once.
pub proof fn lemma_levels_from_covers<T>(v: TreeView<T>, level: Seq<NodeId>)
    requires
        v.wf(),
        forall|i: int| 0 <= i < level.len() ==> v.contains(#[trigger] level[i]),
        v.apart(level),
    ensures
        v.levels_from(level).no_duplicates(),
        forall|y: NodeId| #[trigger]
            v.levels_from(level).contains(y) <==> v.contains(y) && v.under_level(level, y),
    decreases v.level_room(level),
{
    if level.len() > 0 {
        let next = v.children_of_all(level);
        let below = v.levels_from(next);
        lemma_next_level(v, level);
        lemma_next_level_apart(v, level);
        lemma_levels_from_covers(v, next);
        assert(level.no_duplicates()) by {
            assert forall|i: int, j: int|
                0 <= i < level.len() && 0 <= j < level.len() && i != j implies level[i]
                != level[j] by {
                assert(!v.in_subtree(level[i], level[j]));
            }
        }
        assert forall|y: NodeId| v.contains(y) && v.under_level(next, y) implies v.under_level(
            level,
            y,
        ) && !level.contains(y) by {
            let m = choose|m: int| 0 <= m < next.len() && v.in_subtree(y, #[trigger] next[m]);
            let c = next[m];
            assert(next.contains(c));
            let p = v.parent_of(c).unwrap();
            lemma_way_through_child(v, y, c, p);
            let k = choose|k: int| 0 <= k < level.len() && level[k] == p;
            assert(v.in_subtree(y, level[k]));
            if level.contains(y) {
                let i = choose|i: int| 0 <= i < level.len() && level[i] == y;
                lemma_not_below_itself(v, y);
                assert(v.in_subtree(level[i], level[k]));
            }
        }
        assert forall|y: NodeId| #[trigger]
            v.levels_from(level).contains(y) <==> v.contains(y) && v.under_level(level, y) by {
            lemma_add_contains(level, below, y);
            if level.contains(y) {
                let i = choose|i: int| 0 <= i < level.len() && level[i] == y;
                assert(v.in_subtree(y, level[i]));
            }
            if v.contains(y) && v.under_level(level, y) && !level.contains(y) {
                let k = choose|k: int| 0 <= k < level.len() && v.in_subtree(y, #[trigger] level[k]);
                assert(level.contains(level[k]));
                lemma_path_child(v, y, level[k]);
                let c = v.path_child(y, level[k]).unwrap();
                assert(next.contains(c));
                let m = choose|m: int| 0 <= m < next.len() && next[m] == c;
                assert(v.in_subtree(y, next[m]));
            }
        }
        assert forall|a: int, b: int| 0 <= a < level.len() && 0 <= b < below.len() implies level[a]
            != below[b] by {
            assert(below.contains(below[b]));
            assert(level.contains(level[a]));
        }
        vstd::seq_lib::lemma_no_dup_in_concat(level, below);
    }
}

/// The subtree under `x` in level order holds every node of the subtree,
/// and holds it once.
pub proof fn lemma_level_order_covers<T>(v: TreeView<T>, x: NodeId)
    requires
        v.wf(),
        v.contains(x),
    ensures
        v.level_order(x).no_duplicates(),
        forall|y: NodeId| #[trigger]
            v.level_order(x).contains(y) <==> v.contains(y) && v.in_subtree(y, x),
{
    let level = seq![x];
    assert(level[0] == x);
    lemma_levels_from_covers(v, level);
    assert forall|y: NodeId| #[trigger]
        v.level_order(x).contains(y) <==> v.contains(y) && v.in_subtree(y, x) by {
        if v.in_subtree(y, x) {
            assert(v.in_subtree(y, level[0]));
        }
    }
}

} // verus!
