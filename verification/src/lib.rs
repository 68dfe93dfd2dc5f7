//! A generic, ordered tree: values keyed by identifiers, with parent and
//! child links kept as identifiers, structural queries, subtree extraction
//! and merging, three traversal orders and two removal policies.
//!
//! A [`tree::Tree`] owns its nodes. A [`node::Node`] is a plain value: a
//! copy of a node that was taken from a tree is changed on its own, and
//! [`tree::Tree::update_node`] puts it back.
//!
//! The contracts speak of trees as sequences of node views. [`model`] says
//! what the operations compute on them, and what the invariant of a tree
//! is. [`keeping`] proves that the operations keep that invariant, [`reach`]
//! proves what subtrees and traversals hold, and [`record`] proves that a
//! tree that was written and read back is the same tree.
//!
//! Identifiers are compared with `==` and copied with `clone`. The
//! contracts ask of their type what [`node::id_like`] says: that `==`
//! decides equality and that a clone equals the value it was made from, as
//! with the integer types. Values are only copied:
//! [`node::clone_is_copy`] is asked of their type where they are.

pub mod auto_id;
pub mod error;
pub mod keeping;
pub mod model;
pub mod node;
pub mod prelude;
pub mod reach;
pub mod record;
pub mod render;
pub mod tree;
