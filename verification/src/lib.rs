//! State and mempool core of a layer-2 rollup node.
//!
//! - [`fee`]: what pending work pays, how entries rank, and the queue that hands out
//!   the entry to take next.
//! - [`transaction`]: the write transaction over the store: blocks inserted, attached
//!   and detached, with the block tree, the account tree and the index kept in step.
//! - [`smt`]: the sparse Merkle tree, the byte layout of its nodes, and the adapters
//!   that keep the nodes in columns.
//! - [`kv`]: tables of byte keys and byte values in columns.
//! - [`keys`], [`types`], [`hash`], [`bytes`], [`rank`], [`error`]: what the others share.
pub mod bytes;
pub mod error;
pub mod fee;
pub mod hash;
pub mod keys;
pub mod kv;
pub mod rank;
pub mod smt;
pub mod transaction;
pub mod types;
