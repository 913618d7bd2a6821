//! An in-memory, mutable, ownership-rooted hierarchy of labeled nodes.
//!
//! The tree supports lookup, pre-order traversal, insertion, removal, and
//! cycle-safe relocation. Every operation carries a contract over the
//! mathematical model in [`model`], and the structural laws of the model
//! are stated and proved in [`laws`].

pub mod laws;
pub mod model;
pub mod tree;

pub use tree::TreeNode;
