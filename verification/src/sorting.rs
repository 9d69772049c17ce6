//! Putting the children of a node in the order that a caller asks for.

use crate::error::NodeIdError;
use crate::handles::lemma_same_entries;
use crate::handles::swap_entries;
use crate::node_id::NodeId;
use crate::swaps::lemma_reordered_wf;
use crate::vec_tree::VecNode;
use crate::vec_tree::VecTree;
use std::cmp::Ordering;
use vstd::std_specs::cmp::OrdSpec;
use vstd::prelude::*;

verus! {

impl<T> VecTree<T> {
    /// The node that the live handle `id` names, as it is stored.
    pub open(crate) spec fn node_at(&self, id: NodeId) -> VecNode<T> {
        self.core_tree.node_at(id)
    }

    /// As far as `compare` can say, the node at `a` may stand in front of
    /// the node at `b`: it can call `a` no greater than `b`, or `b` greater
    /// than `a`.
    pub open spec fn in_order<F: Fn(&VecNode<T>, &VecNode<T>) -> Ordering>(
        &self,
        compare: F,
        a: NodeId,
        b: NodeId,
    ) -> bool {
        ||| call_ensures(compare, (&self.node_at(a), &self.node_at(b)), Ordering::Less)
        ||| call_ensures(compare, (&self.node_at(a), &self.node_at(b)), Ordering::Equal)
        ||| call_ensures(compare, (&self.node_at(b), &self.node_at(a)), Ordering::Greater)
    }

    /// Puts the children of the node at `node_id` in the order that
    /// `compare` asks for: a child moves in front of the one before it as
    /// long as `compare` calls that one greater, so that in the end every
    /// child and the one after it are in order. Fails, and changes
    /// nothing, if the handle is refused.
    pub fn sort_children_by<F>(&mut self, node_id: &NodeId, compare: F) -> (r: Result<
        (),
        NodeIdError,
    >) where F: Fn(&VecNode<T>, &VecNode<T>) -> Ordering
        requires
            old(self)@.wf(),
            old(self)@.in_range(*node_id),
            forall|a: NodeId, b: NodeId|
                old(self)@.contains(*node_id) && old(self)@.children_of(*node_id).contains(a)
                    && old(self)@.children_of(*node_id).contains(b) ==> call_requires(
                    compare,
                    (&old(self).node_at(a), &old(self).node_at(b)),
                ),
        ensures
            final(self)@.wf(),
            match old(self)@.refusal(*node_id) {
                Some(e) => r == Err::<(), NodeIdError>(e) && *final(self) == *old(self),
                None => {
                    &&& r == Ok::<(), NodeIdError>(())
                    &&& final(self)@ == old(self)@.with_children(
                        *node_id,
                        final(self)@.children_of(*node_id),
                    )
                    &&& final(self)@.children_of(*node_id).to_multiset() == old(
                        self,
                    )@.children_of(*node_id).to_multiset()
                    &&& forall|k: int|
                        0 <= k && k + 1 < final(self)@.children_of(*node_id).len() ==> old(
                            self,
                        ).in_order(
                            compare,
                            #[trigger] final(self)@.children_of(*node_id)[k],
                            final(self)@.children_of(*node_id)[k + 1],
                        )
                },
            },
    {
        match self.core_tree.validate_node_id(node_id) {
            Ok(()) => {},
            Err(e) => {
                return Err(e);
            },
        }
        let mut children = self.core_tree.children_of(node_id);
        let count = children.len();
        let ghost listed = children@;
        proof {
            assert(self@.node_linked(*node_id));
            assert forall|k: int| 0 <= k < children@.len() implies listed.contains(
                #[trigger] children@[k],
            ) by {}
        }
        let mut i: usize = 1;
        while i < count
            invariant
                self == old(self),
                self@.wf(),
                self@.contains(*node_id),
                listed == self@.children_of(*node_id),
                children@.len() == count,
                children@.to_multiset() == listed.to_multiset(),
                forall|k: int| 0 <= k < children@.len() ==> listed.contains(#[trigger] children@[k]),
                forall|a: NodeId, b: NodeId|
                    listed.contains(a) && listed.contains(b) ==> call_requires(
                        compare,
                        (&self.node_at(a), &self.node_at(b)),
                    ),
                0 < i,
                forall|k: int|
                    0 <= k && k + 1 < i && k + 1 < count ==> self.in_order(
                        compare,
                        #[trigger] children@[k],
                        children@[k + 1],
                    ),
            decreases count - i,
        {
            let mut j: usize = i;
            let mut moving = true;
            while j > 0 && moving
                invariant
                    self == old(self),
                    self@.wf(),
                    self@.contains(*node_id),
                    listed == self@.children_of(*node_id),
                    j <= i,
                    i < count,
                    children@.len() == count,
                    children@.to_multiset() == listed.to_multiset(),
                    forall|k: int|
                        0 <= k < children@.len() ==> listed.contains(#[trigger] children@[k]),
                    forall|a: NodeId, b: NodeId|
                        listed.contains(a) && listed.contains(b) ==> call_requires(
                            compare,
                            (&self.node_at(a), &self.node_at(b)),
                        ),
                    forall|k: int|
                        0 <= k && k + 1 <= i && k + 1 != j ==> self.in_order(
                            compare,
                            #[trigger] children@[k],
                            children@[k + 1],
                        ),
                    0 < j && j < i ==> self.in_order(compare, children@[j - 1], children@[j + 1]),
                    !moving ==> forall|k: int|
                        0 <= k && k + 1 == j ==> self.in_order(
                            compare,
                            #[trigger] children@[k],
                            children@[k + 1],
                        ),
                decreases
                        j,
                        (if moving {
                            1int
                        } else {
                            0int
                        }),
            {
                let before = children[j - 1];
                let after = children[j];
                proof {
                    assert(self@.node_linked(*node_id));
                    assert(listed.contains(before));
                    assert(listed.contains(after));
                }
                let first = self.core_tree.get_unsafe(&before);
                let second = self.core_tree.get_unsafe(&after);
                proof {
                    assert(*first == self.node_at(before));
                    assert(*second == self.node_at(after));
                    assert(call_requires(
                        compare,
                        (&self.node_at(before), &self.node_at(after)),
                    ));
                }
                let order = compare(first, second);
                match order {
                    Ordering::Greater => {
                        swap_entries(&mut children, j - 1, j);
                        j -= 1;
                    },
                    _ => {
                        moving = false;
                    },
                }
            }
            i += 1;
        }
        proof {
            lemma_reordered_wf(self@, *node_id, children@);
        }
        self.core_tree.set_children(node_id, children);
        Ok(())
    }

    /// Puts the children of the node at `node_id` in the order of their
    /// payloads, as `sort_children_by` does with the comparison of the
    /// payload type. Fails, and changes nothing, if the handle is refused.
    pub fn sort_children_by_data(&mut self, node_id: &NodeId) -> (r: Result<
        (),
        NodeIdError,
    >) where T: Ord
        requires
            old(self)@.wf(),
            old(self)@.in_range(*node_id),
        ensures
            final(self)@.wf(),
            match old(self)@.refusal(*node_id) {
                Some(e) => r == Err::<(), NodeIdError>(e) && *final(self) == *old(self),
                None => {
                    &&& r == Ok::<(), NodeIdError>(())
                    &&& final(self)@ == old(self)@.with_children(
                        *node_id,
                        final(self)@.children_of(*node_id),
                    )
                    &&& final(self)@.children_of(*node_id).to_multiset() == old(
                        self,
                    )@.children_of(*node_id).to_multiset()
                    &&& T::obeys_cmp_spec() ==> forall|k: int|
                        0 <= k && k + 1 < final(self)@.children_of(*node_id).len() ==> {
                            let first = old(self)@.data_of(
                                #[trigger] final(self)@.children_of(*node_id)[k],
                            );
                            let second = old(self)@.data_of(
                                final(self)@.children_of(*node_id)[k + 1],
                            );
                            first.cmp_spec(&second) != Ordering::Greater || second.cmp_spec(
                                &first,
                            ) == Ordering::Greater
                        }
                },
            },
    {
        let by_data = |a: &VecNode<T>, b: &VecNode<T>| -> (order: Ordering)
            ensures
                T::obeys_cmp_spec() ==> order == a@.data.cmp_spec(&b@.data),
            {
                a.data().cmp(b.data())
            };
        let sorted = self.sort_children_by(node_id, by_data);
        proof {
            if old(self)@.contains(*node_id) && T::obeys_cmp_spec() {
                let children = self@.children_of(*node_id);
                assert(old(self)@.node_linked(*node_id));
                lemma_same_entries(children, old(self)@.children_of(*node_id));
                assert forall|k: int| 0 <= k && k + 1 < children.len() implies {
                    let first = old(self)@.data_of(#[trigger] children[k]);
                    let second = old(self)@.data_of(children[k + 1]);
                    first.cmp_spec(&second) != Ordering::Greater || second.cmp_spec(&first)
                        == Ordering::Greater
                } by {
                    assert(old(self).in_order(by_data, children[k], children[k + 1]));
                    assert(children.contains(children[k]));
                    assert(children.contains(children[k + 1]));
                    assert(old(self)@.contains(children[k]));
                    assert(old(self)@.contains(children[k + 1]));
                }
            }
        }
        sorted
    }

    /// As far as the keys that `key` can give say, the node at `a` may stand
    /// in front of the node at `b`: a key of `a` is no greater than a key
    /// of `b`, or a key of `b` is greater than a key of `a`.
    pub open spec fn keys_in_order<B: Ord, F: Fn(&VecNode<T>) -> B>(
        &self,
        key: F,
        a: NodeId,
        b: NodeId,
    ) -> bool {
        exists|first: B, second: B|
            call_ensures(key, (&self.node_at(a),), first) && call_ensures(
                key,
                (&self.node_at(b),),
                second,
            ) && (first.cmp_spec(&second) != Ordering::Greater || second.cmp_spec(&first)
                == Ordering::Greater)
    }

    /// Puts the children of the node at `node_id` in the order of the keys
    /// that `key` gives for them, as `sort_children_by` does with the
    /// comparison of the key type. Fails, and changes nothing, if the
    /// handle is refused.
    pub fn sort_children_by_key<B, F>(&mut self, node_id: &NodeId, key: F) -> (r: Result<
        (),
        NodeIdError,
    >) where B: Ord, F: Fn(&VecNode<T>) -> B
        requires
            old(self)@.wf(),
            old(self)@.in_range(*node_id),
            forall|a: NodeId|
                old(self)@.contains(*node_id) && old(self)@.children_of(*node_id).contains(a)
                    ==> call_requires(key, (&old(self).node_at(a),)),
        ensures
            final(self)@.wf(),
            match old(self)@.refusal(*node_id) {
                Some(e) => r == Err::<(), NodeIdError>(e) && *final(self) == *old(self),
                None => {
                    &&& r == Ok::<(), NodeIdError>(())
                    &&& final(self)@ == old(self)@.with_children(
                        *node_id,
                        final(self)@.children_of(*node_id),
                    )
                    &&& final(self)@.children_of(*node_id).to_multiset() == old(
                        self,
                    )@.children_of(*node_id).to_multiset()
                    &&& B::obeys_cmp_spec() ==> forall|k: int|
                        0 <= k && k + 1 < final(self)@.children_of(*node_id).len() ==> old(
                            self,
                        ).keys_in_order(
                            key,
                            #[trigger] final(self)@.children_of(*node_id)[k],
                            final(self)@.children_of(*node_id)[k + 1],
                        )
                },
            },
    {
        let key_of = &key;
        let by_key = |a: &VecNode<T>, b: &VecNode<T>| -> (order: Ordering)
            requires
                call_requires(key_of, (a,)),
                call_requires(key_of, (b,)),
            ensures
                exists|first: B, second: B|
                    call_ensures(key_of, (a,), first) && call_ensures(key_of, (b,), second) && (
                    B::obeys_cmp_spec() ==> order == first.cmp_spec(&second)),
            {
                let first = key_of(a);
                let second = key_of(b);
                let order = first.cmp(&second);
                proof {
                    assert(call_ensures(key_of, (a,), first) && call_ensures(
                        key_of,
                        (b,),
                        second,
                    ) && (B::obeys_cmp_spec() ==> order == first.cmp_spec(&second)));
                }
                order
            };
        let sorted = self.sort_children_by(node_id, by_key);
        proof {
            if old(self)@.contains(*node_id) && B::obeys_cmp_spec() {
                let children = self@.children_of(*node_id);
                assert forall|k: int| 0 <= k && k + 1 < children.len() implies old(
                    self,
                ).keys_in_order(key, #[trigger] children[k], children[k + 1]) by {
                    assert(old(self).in_order(by_key, children[k], children[k + 1]));
                }
            }
        }
        sorted
    }
}

} // verus!
