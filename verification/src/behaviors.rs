//! The modes of the operations that come in several kinds.

use crate::node_id::NodeId;
use vstd::prelude::*;

verus! {

/// Where an inserted node goes.
pub enum InsertBehavior<'a> {
    /// The node becomes the root; the root that was becomes its child.
    AsRoot,
    /// The node becomes the last child of the given node.
    UnderNode(&'a NodeId),
}

/// What becomes of the children of a removed node.
#[derive(Clone, Copy, Debug, PartialEq, Eq, Structural)]
pub enum RemoveBehavior {
    /// They leave the tree too, with all their descendants.
    DropChildren,
    /// They become children of the parent of the removed node; if it had
    /// none, they are left without a parent.
    LiftChildren,
    /// They stay in the arena, each without a parent.
    OrphanChildren,
}

/// Where a moved node goes.
pub enum MoveBehavior<'a> {
    /// The node becomes the root; the root that was becomes its child.
    ToRoot,
    /// The node becomes the last child of the given node.
    ToParent(&'a NodeId),
}

/// What a swap of two nodes does with their children.
#[derive(Clone, Copy, Debug, PartialEq, Eq, Structural)]
pub enum SwapBehavior {
    /// Each node takes its children along to its new place.
    TakeChildren,
    /// The children stay where they are and get the other node as parent.
    LeaveChildren,
    /// The nodes stay where they are and exchange their children.
    ChildrenOnly,
}

} // verus!
