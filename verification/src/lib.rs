//! An arena-backed tree whose nodes are addressed by validated handles.

pub mod ancestry;
mod arena;
pub mod behaviors;
pub mod error;
pub mod handles;
pub mod inserts;
pub mod laws;
pub mod model;
pub mod moves;
pub mod node;
pub mod node_id;
pub mod orders;
pub mod removals;
pub mod sorting;
pub mod swaps;
pub mod tree;
pub mod vec_tree;
pub mod walks;

pub use crate::error::NodeIdError;
pub use crate::node::Node;
pub use crate::node_id::NodeId;
pub use crate::behaviors::InsertBehavior;
pub use crate::behaviors::MoveBehavior;
pub use crate::behaviors::RemoveBehavior;
pub use crate::behaviors::SwapBehavior;
pub use crate::vec_tree::VecNode;
pub use crate::vec_tree::VecTree;
pub use crate::vec_tree::VecTreeBuilder;
pub use crate::tree::Tree;
pub use crate::tree::TreeBuilder;
