//! Sparse Merkle trees: the tree itself, the byte layout of its nodes, and the
//! adapters that keep its nodes in columns of a store.
pub mod codec;
pub mod store;
pub mod tree;
