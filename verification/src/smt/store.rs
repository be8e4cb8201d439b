//! Adapters that keep the nodes of a tree in two columns of a store: one for the
//! branches, one for the leaves.
use vstd::prelude::*;
use crate::bytes::to_array32;
use crate::error::{Error, SmtFailure};
use crate::hash::Byte32;
use crate::keys::{
    block_smt_root_key, meta_block_smt_root_key, Col, COLUMN_BLOCK_SMT_BRANCH,
    COLUMN_BLOCK_SMT_LEAF, COLUMN_META,
};
use crate::kv::{
    hash_at, required_hash_at, seen_hash, seen_required_hash, KVStore, Table,
};
use crate::smt::codec::{
    branch_key_bytes, branch_key_to_vec, branch_node_bytes, branch_node_ok, branch_node_to_vec,
    slice_to_branch_node, BranchKey, BranchNode,
};
use crate::transaction::StoreTransaction;

verus! {

/// What a read of the branch at `key` gives: nothing where the column has no such key,
/// an error where the bytes under it are the bytes of no branch, else the branch.
pub open spec fn branch_read(
    t: Table,
    col: Col,
    key: BranchKey,
    r: Result<Option<BranchNode>, Error>,
) -> bool {
    let at = (col, branch_key_bytes(key));
    match r {
        Ok(None) => !t.contains_key(at),
        Ok(Some(node)) => t.contains_key(at) && branch_node_bytes(node) == t[at],
        Err(e) => t.contains_key(at) && !branch_node_ok(t[at]) && e == Error::StoreCorruption,
    }
}

/// What a write gives: the table with the value under the key, or, where the store
/// refused, the table as it was and an error.
pub open spec fn written(
    before: Table,
    after: Table,
    at: (Col, Seq<u8>),
    value: Seq<u8>,
    r: Result<(), Error>,
) -> bool {
    match r {
        Ok(_) => after == before.insert(at, value),
        Err(e) => after == before && e == Error::SmtError(SmtFailure::Insert),
    }
}

/// What a removal gives: the table without the key, or, where the store refused, the
/// table as it was and an error.
pub open spec fn removed(before: Table, after: Table, at: (Col, Seq<u8>), r: Result<(), Error>) -> bool {
    match r {
        Ok(_) => after == before.remove(at),
        Err(e) => after == before && e == Error::SmtError(SmtFailure::Delete),
    }
}

fn read_branch<DB: KVStore>(db: &DB, col: Col, key: &BranchKey) -> (r: Result<
    Option<BranchNode>,
    Error,
>)
    ensures
        branch_read(db.table(), col, *key, r),
{
    match db.get(col, branch_key_to_vec(key).as_slice()) {
        Some(slice) => match slice_to_branch_node(slice.as_slice()) {
            Ok(node) => Ok(Some(node)),
            Err(e) => Err(e),
        },
        None => Ok(None),
    }
}

fn read_leaf<DB: KVStore>(db: &DB, col: Col, key: &Byte32) -> (r: Result<Option<Byte32>, Error>)
    ensures
        seen_hash(r) == hash_at(db.table(), col, key@),
{
    match db.get(col, key) {
        Some(slice) => {
            if 32 == slice.len() {
                Ok(Some(to_array32(slice.as_slice())))
            } else {
                Err(Error::StoreCorruption)
            }
        },
        None => Ok(None),
    }
}

fn write_node<DB: KVStore>(db: &mut DB, col: Col, key: &[u8], value: &[u8]) -> (r: Result<
    (),
    Error,
>)
    ensures
        written(old(db).table(), final(db).table(), (col, key@), value@, r),
{
    match db.insert_raw(col, key, value) {
        Ok(_) => Ok(()),
        Err(_) => Err(Error::SmtError(SmtFailure::Insert)),
    }
}

fn remove_node<DB: KVStore>(db: &mut DB, col: Col, key: &[u8]) -> (r: Result<(), Error>)
    ensures
        removed(old(db).table(), final(db).table(), (col, key@), r),
{
    match db.delete(col, key) {
        Ok(_) => Ok(()),
        Err(_) => Err(Error::SmtError(SmtFailure::Delete)),
    }
}

/// The root of the block tree as a store records it. A store that does not record one,
/// or records anything but 32 bytes, is corrupted.
pub fn block_smt_root<DB: KVStore>(db: &DB) -> (r: Result<Byte32, Error>)
    ensures
        seen_required_hash(r) == required_hash_at(
            db.table(),
            COLUMN_META,
            block_smt_root_key(),
        ),
{
    match db.get(COLUMN_META, meta_block_smt_root_key().as_slice()) {
        None => Err(Error::StoreCorruption),
        Some(v) => {
            if v.len() != 32 {
                Err(Error::StoreCorruption)
            } else {
                Ok(to_array32(v.as_slice()))
            }
        },
    }
}

/// The block tree's nodes in a store of its own.
pub struct SMTBlockStore<DB: KVStore>(DB);

impl<DB: KVStore> SMTBlockStore<DB> {
    /// The store underneath.
    pub closed spec fn inner(&self) -> DB {
        self.0
    }

    pub fn new(store: DB) -> (r: Self)
        ensures
            r.inner() == store,
    {
        SMTBlockStore(store)
    }

    pub fn inner_store(&self) -> (r: &DB)
        ensures
            *r == self.inner(),
    {
        &self.0
    }

    pub fn get_branch(&self, branch_key: &BranchKey) -> (r: Result<Option<BranchNode>, Error>)
        ensures
            branch_read(self.inner().table(), COLUMN_BLOCK_SMT_BRANCH, *branch_key, r),
    {
        read_branch(&self.0, COLUMN_BLOCK_SMT_BRANCH, branch_key)
    }

    pub fn get_leaf(&self, leaf_key: &Byte32) -> (r: Result<Option<Byte32>, Error>)
        ensures
            seen_hash(r) == hash_at(self.inner().table(), COLUMN_BLOCK_SMT_LEAF, leaf_key@),
    {
        read_leaf(&self.0, COLUMN_BLOCK_SMT_LEAF, leaf_key)
    }

    pub fn insert_branch(&mut self, branch_key: BranchKey, branch: BranchNode) -> (r: Result<
        (),
        Error,
    >)
        ensures
            written(
                old(self).inner().table(),
                final(self).inner().table(),
                (COLUMN_BLOCK_SMT_BRANCH, branch_key_bytes(branch_key)),
                branch_node_bytes(branch),
                r,
            ),
    {
        write_node(
            &mut self.0,
            COLUMN_BLOCK_SMT_BRANCH,
            branch_key_to_vec(&branch_key).as_slice(),
            branch_node_to_vec(&branch).as_slice(),
        )
    }

    pub fn insert_leaf(&mut self, leaf_key: Byte32, leaf: Byte32) -> (r: Result<(), Error>)
        ensures
            written(
                old(self).inner().table(),
                final(self).inner().table(),
                (COLUMN_BLOCK_SMT_LEAF, leaf_key@),
                leaf@,
                r,
            ),
    {
        write_node(&mut self.0, COLUMN_BLOCK_SMT_LEAF, &leaf_key, &leaf)
    }

    pub fn remove_branch(&mut self, branch_key: &BranchKey) -> (r: Result<(), Error>)
        ensures
            removed(
                old(self).inner().table(),
                final(self).inner().table(),
                (COLUMN_BLOCK_SMT_BRANCH, branch_key_bytes(*branch_key)),
                r,
            ),
    {
        remove_node(&mut self.0, COLUMN_BLOCK_SMT_BRANCH, branch_key_to_vec(branch_key).as_slice())
    }

    pub fn remove_leaf(&mut self, leaf_key: &Byte32) -> (r: Result<(), Error>)
        ensures
            removed(
                old(self).inner().table(),
                final(self).inner().table(),
                (COLUMN_BLOCK_SMT_LEAF, leaf_key@),
                r,
            ),
    {
        remove_node(&mut self.0, COLUMN_BLOCK_SMT_LEAF, leaf_key)
    }
}

/// The nodes of a tree in two columns of a transaction. The adapter names the columns;
/// each call is handed the transaction it works on.
#[derive(PartialEq, Eq, Clone, Copy, Debug, Structural)]
pub struct SMTStoreTransaction {
    pub leaf_col: Col,
    pub branch_col: Col,
}

impl SMTStoreTransaction {
    pub fn new(leaf_col: Col, branch_col: Col) -> (r: Self)
        ensures
            r.leaf_col == leaf_col,
            r.branch_col == branch_col,
    {
        SMTStoreTransaction { leaf_col, branch_col }
    }

    pub fn get_branch(&self, store: &StoreTransaction, branch_key: &BranchKey) -> (r: Result<
        Option<BranchNode>,
        Error,
    >)
        ensures
            branch_read(store.table(), self.branch_col, *branch_key, r),
    {
        read_branch(store, self.branch_col, branch_key)
    }

    pub fn get_leaf(&self, store: &StoreTransaction, leaf_key: &Byte32) -> (r: Result<
        Option<Byte32>,
        Error,
    >)
        ensures
            seen_hash(r) == hash_at(store.table(), self.leaf_col, leaf_key@),
    {
        read_leaf(store, self.leaf_col, leaf_key)
    }

    pub fn insert_branch(
        &self,
        store: &mut StoreTransaction,
        branch_key: BranchKey,
        branch: BranchNode,
    ) -> (r: Result<(), Error>)
        ensures
            r is Ok,
            final(store).table() == old(store).table().insert(
                (self.branch_col, branch_key_bytes(branch_key)),
                branch_node_bytes(branch),
            ),
            final(store).only_table_differs(*old(store)),
    {
        store.insert_raw(
            self.branch_col,
            branch_key_to_vec(&branch_key).as_slice(),
            branch_node_to_vec(&branch).as_slice(),
        )
    }

    pub fn insert_leaf(&self, store: &mut StoreTransaction, leaf_key: Byte32, leaf: Byte32) -> (r:
        Result<(), Error>)
        ensures
            r is Ok,
            final(store).table() == old(store).table().insert((self.leaf_col, leaf_key@), leaf@),
            final(store).only_table_differs(*old(store)),
    {
        store.insert_raw(self.leaf_col, &leaf_key, &leaf)
    }

    pub fn remove_branch(&self, store: &mut StoreTransaction, branch_key: &BranchKey) -> (r: Result<
        (),
        Error,
    >)
        ensures
            r is Ok,
            final(store).table() == old(store).table().remove(
                (self.branch_col, branch_key_bytes(*branch_key)),
            ),
            final(store).only_table_differs(*old(store)),
    {
        store.delete(self.branch_col, branch_key_to_vec(branch_key).as_slice())
    }

    pub fn remove_leaf(&self, store: &mut StoreTransaction, leaf_key: &Byte32) -> (r: Result<
        (),
        Error,
    >)
        ensures
            r is Ok,
            final(store).table() == old(store).table().remove((self.leaf_col, leaf_key@)),
            final(store).only_table_differs(*old(store)),
    {
        store.delete(self.leaf_col, leaf_key)
    }
}

} // verus!
