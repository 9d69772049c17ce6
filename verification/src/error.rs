//! The ways a handle can fail validation.

use vstd::prelude::*;

verus! {

/// Why an arena refused a handle.
#[derive(Clone, Copy, Debug, PartialEq, Eq, Structural)]
pub enum NodeIdError {
    /// The handle was issued by another arena.
    InvalidNodeIdForTree,
    /// The handle was issued by this arena, but the node it named is gone.
    NodeIdNoLongerValid,
}

} // verus!
