//! An ordered-key container built on a B-tree: insertion with node splitting
//! keeps every leaf at the same depth.
pub mod locator;
pub mod node;
pub mod tree;

pub use locator::binary_search;
pub use node::BNode;
pub use tree::{BTree, BTreeError};
