//! The types that a user of the tree needs.

pub use crate::auto_id::AutomatedId;
pub use crate::error::Error;
pub use crate::node::{Node, Nodes};
pub use crate::render::NodeLabel;
pub use crate::tree::{NodeRemovalStrategy, SubTree, TraversalStrategy, Tree};
use vstd::prelude::*;

verus! {

/// The result of an operation that can fail with an [`Error`].
pub type Result<T> = core::result::Result<T, Error>;

} // verus!
