//! Handles: an owner tag plus a slot index.

use snowflake::ProcessUniqueId;
use vstd::prelude::*;
use vstd::std_specs::cmp::PartialEqSpecImpl;

verus! {

/// `snowflake::ProcessUniqueId`, the value that binds a handle to the arena
/// that issued it. It is declared so that it can stand in fields and
/// signatures; proofs see nothing inside it.
#[verifier::external_type_specification]
#[verifier::external_body]
pub struct ExProcessUniqueId(ProcessUniqueId);

/// Draws a fresh owner tag from `snowflake::ProcessUniqueId::new`.
///
/// Nothing is claimed about the value: it depends on how many tags the
/// process has handed out before. The outside function aborts once a thread
/// has exhausted every tag the process can still give.
#[verifier::external_body]
pub(crate) fn fresh_tag() -> ProcessUniqueId {
    ProcessUniqueId::new()
}

/// Compares two owner tags with `ProcessUniqueId`'s derived `==`, which
/// compares both of its fields; the result is claimed to agree with
/// equality of the two values.
#[verifier::external_body]
pub(crate) fn same_tag(a: &ProcessUniqueId, b: &ProcessUniqueId) -> (r: bool)
    ensures
        r == (*a == *b),
{
    a == b
}

/// An opaque reference to a node. Whether it denotes a live node can only be
/// decided against the arena it is used with.
#[derive(Clone, Copy, Debug, Hash)]
pub struct NodeId {
    pub(crate) tree_id: ProcessUniqueId,
    pub(crate) index: usize,
}

impl PartialEq for NodeId {
    fn eq(&self, other: &NodeId) -> (r: bool) {
        same_tag(&self.tree_id, &other.tree_id) && self.index == other.index
    }
}

impl Eq for NodeId {}

impl PartialEqSpecImpl for NodeId {
    open spec fn obeys_eq_spec() -> bool {
        true
    }

    open spec fn eq_spec(&self, other: &NodeId) -> bool {
        *self == *other
    }
}

impl NodeId {
    /// The owner tag of the arena that issued this handle.
    pub open(crate) spec fn tag(&self) -> ProcessUniqueId {
        self.tree_id
    }

    /// The slot this handle names.
    pub open(crate) spec fn slot(&self) -> nat {
        self.index as nat
    }

    /// The handle that an arena tagged `tag` issues for slot `slot`.
    pub open(crate) spec fn of(tag: ProcessUniqueId, slot: nat) -> NodeId {
        NodeId { tree_id: tag, index: slot as usize }
    }
}

} // verus!
