//! A payload together with its links to the rest of the tree.

use crate::node_id::NodeId;
use vstd::prelude::*;

verus! {

/// The mathematical content of a node: its payload, the handle of its
/// parent, and the handles of its children in order.
#[verifier::ext_equal]
pub struct NodeView<T> {
    pub data: T,
    pub parent: Option<NodeId>,
    pub children: Seq<NodeId>,
}

/// A node of a tree. A node outside of any tree has no links.
pub struct Node<T> {
    pub(crate) data: T,
    pub(crate) parent: Option<NodeId>,
    pub(crate) children: Vec<NodeId>,
}

impl<T> View for Node<T> {
    type V = NodeView<T>;

    open(crate) spec fn view(&self) -> NodeView<T> {
        NodeView { data: self.data, parent: self.parent, children: self.children@ }
    }
}

impl<T> Node<T> {
    /// Makes a node that carries `data` and is linked to nothing.
    pub fn new(data: T) -> (node: Node<T>)
        ensures
            node@ == (NodeView { data, parent: None, children: Seq::empty() }),
    {
        Node { data, parent: None, children: Vec::new() }
    }

    /// The payload.
    pub fn data(&self) -> (data: &T)
        ensures
            *data == self@.data,
    {
        &self.data
    }

    /// The payload, for writing. The links stay as they are.
    pub fn data_mut(&mut self) -> (data: &mut T)
        ensures
            *data == old(self)@.data,
            final(self)@ == (NodeView { data: *final(data), ..old(self)@ }),
    {
        &mut self.data
    }

    /// Replaces the payload and returns the one that was there.
    pub fn replace_data(&mut self, data: T) -> (previous: T)
        ensures
            previous == old(self)@.data,
            final(self)@ == (NodeView { data, ..old(self)@ }),
    {
        let mut data = data;
        std::mem::swap(&mut self.data, &mut data);
        data
    }

    /// The handle of the parent, if the node has one.
    pub fn parent(&self) -> (parent: Option<&NodeId>)
        ensures
            match parent {
                Some(p) => self@.parent == Some(*p),
                None => self@.parent is None,
            },
    {
        self.parent.as_ref()
    }

    /// The handles of the children, in order.
    pub fn children(&self) -> (children: &Vec<NodeId>)
        ensures
            children@ == self@.children,
    {
        &self.children
    }
}

} // verus!
