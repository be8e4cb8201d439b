//! What can go wrong.
use vstd::prelude::*;

verus! {

/// Why an argument payload was not understood.
#[derive(Clone, Copy, Debug, PartialEq, Eq)]
pub enum DecodeKind {
    /// Fewer bytes than the fixed part of the Polyjuice arguments.
    InvalidPolyjuiceArgs,
    /// Bytes that are not the serialized form of the expected arguments.
    Malformed,
}

/// What a tree could not do.
#[derive(Clone, Copy, Debug, PartialEq, Eq)]
pub enum SmtFailure {
    /// The store refused the write of a node.
    Insert,
    /// The store refused the removal of a node.
    Delete,
    /// The tree library gave up an update.
    Update,
    /// The tree library gave up a lookup.
    Read,
}

#[derive(Clone, Copy, Debug, PartialEq, Eq)]
pub enum Error {
    /// A key that must be present is missing, or its value is malformed.
    StoreCorruption,
    /// A key read for update changed before the commit.
    TxConflict,
    /// A transaction's argument payload could not be parsed.
    DecodeError(DecodeKind),
    /// The backend of a transaction is not known.
    UnknownBackend,
    /// A tree failed.
    SmtError(SmtFailure),
    /// The queue already holds work of this sender under this nonce, which the new work
    /// does not rank above. The hash is that of the item in the queue.
    DuplicateNonce([u8; 32]),
}

} // verus!
