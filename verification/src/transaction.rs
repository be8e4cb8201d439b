//! A write transaction over the store: blocks inserted, attached to the main chain and
//! detached from it, with the block tree, the account tree and the index kept in step.
use vstd::prelude::*;
use crate::bytes::{le_bytes, read_le, to_array32, write_le, zero32};
use crate::error::{Error, SmtFailure};
use crate::bytes::{append_bytes, bytes_eq, is_zero32};
use crate::hash::{zero_hash, Byte32};
use crate::keys::{
    account_smt_count_key, account_smt_root_key, block_smt_root_key, meta_account_smt_count_key,
    meta_account_smt_root_key, meta_block_smt_root_key, meta_tip_block_hash_key,
    meta_tip_global_state_key, tip_block_hash_key, tip_global_state_key, Col, COLUMN_BLOCK,
    COLUMN_DATA, COLUMN_INDEX, COLUMN_META, COLUMN_SCRIPT, COLUMN_SYNC_BLOCK_HEADER_INFO,
    COLUMN_TRANSACTION, COLUMN_TRANSACTION_INFO, COLUMN_TRANSACTION_RECEIPT,
};
use crate::keys::{build_transaction_key, transaction_key};
use crate::kv::{
    changes_between, hash_at, iterated, pairs, required_hash_at, seen_hash, seen_required_hash,
    value_at, Changes, IteratorMode, KVStore, KvTable, Table,
};
use crate::keys::{
    COLUMN_ACCOUNT_SMT_BRANCH, COLUMN_ACCOUNT_SMT_LEAF, COLUMN_BLOCK_SMT_BRANCH,
    COLUMN_BLOCK_SMT_LEAF,
};
use crate::smt::codec::{branch_key_bytes, branch_node_bytes, BranchKey, BranchNode};
use crate::smt::store::SMTStoreTransaction;
use crate::smt::tree::{
    leaf_or_zero, leaves_after, merkle_root, no_leaves, parent_path, path_above, tree_branch,
    tree_branches, tree_get, tree_leaves, tree_new, tree_root, tree_sound, tree_update, Tree,
};
use crate::types::{number_key, number_to_key, L2Block, L2Transaction};

verus! {

/// What a store shows of its tip: what it holds under the tip's key in the meta
/// column, where `insert_tip_hash` writes it; what it holds under the tip's key in the
/// index, where `attach_block` and `detach_block` write it; and the engine's stamp of
/// the last write to either, which no two writes share.
pub type TipSeen = (Option<Seq<u8>>, Option<Seq<u8>>, u64);

/// What a store that holds `t`, stamped `stamp`, shows of its tip.
pub open spec fn tip_of(t: Table, stamp: u64) -> TipSeen {
    (
        value_at(t, COLUMN_META, tip_block_hash_key()),
        value_at(t, COLUMN_INDEX, tip_block_hash_key()),
        stamp,
    )
}

/// A point-in-time view of a store: its table, and the engine's stamp of the last write
/// to the tip.
pub struct StoreTransactionSnapshot {
    table: KvTable,
    stamp: u64,
}

impl StoreTransactionSnapshot {
    /// What the snapshot holds.
    pub closed spec fn table(&self) -> Table {
        self.table@
    }

    /// The engine's stamp of the last write to the tip in the store that the snapshot
    /// shows.
    pub closed spec fn stamp(&self) -> u64 {
        self.stamp
    }

    /// What the snapshot shows of the tip.
    pub open spec fn tip(&self) -> TipSeen {
        tip_of(self.table(), self.stamp())
    }

    /// A view of the store as `table` holds it, the tip last written at `stamp`.
    pub fn new(table: KvTable, stamp: u64) -> (r: StoreTransactionSnapshot)
        ensures
            r.table() == table@,
            r.stamp() == stamp,
    {
        StoreTransactionSnapshot { table, stamp }
    }

    /// Goes through a column of the snapshot: its keys that `mode` comes by, each with
    /// its value, in the order of the keys as byte strings.
    pub fn get_iter(&self, col: Col, mode: IteratorMode) -> (r: Vec<(Vec<u8>, Vec<u8>)>)
        ensures
            iterated(self.table(), col, mode, pairs(r@)),
    {
        self.table.iter(col, mode)
    }

    /// The value under `key` in `col`, if the snapshot has one.
    pub fn get(&self, col: Col, key: &[u8]) -> (r: Option<Vec<u8>>)
        ensures
            r is Some <==> self.table().contains_key((col, key@)),
            r matches Some(v) ==> v@ == self.table()[(col, key@)],
    {
        self.table.get(col, key)
    }
}

/// The table of a store on which nothing has happened yet: both tree roots are zero
/// and no account is counted.
pub open spec fn fresh_table() -> Table {
    Table::empty().insert((COLUMN_META, block_smt_root_key()), zero32()).insert(
        (COLUMN_META, account_smt_root_key()),
        zero32(),
    ).insert((COLUMN_META, account_smt_count_key()), le_bytes(0, 4))
}

/// How a commit ends. A transaction that read the tip for update saw `lock`; the store
/// shows `now` of its tip when the transaction commits. The commit is refused where
/// the two differ: the tip has been written in between.
pub open spec fn commit_outcome(lock: Option<TipSeen>, now: TipSeen) -> Result<(), Error> {
    match lock {
        Some(seen) => if seen == now {
            Ok(())
        } else {
            Err(Error::TxConflict)
        },
        None => Ok(()),
    }
}

/// The leaves that a leaf column holds: each of its keys with its value.
pub open spec fn column_leaves(t: Table, col: Col) -> Map<Seq<u8>, Seq<u8>> {
    Map::new(|key: Seq<u8>| t.contains_key((col, key)), |key: Seq<u8>| t[(col, key)])
}

/// Whether a column holds leaves only: keys of 32 bytes with values of 32 bytes that
/// are not all zero.
pub open spec fn leaves_only(t: Table, col: Col) -> bool {
    forall|key: Seq<u8>| #[trigger]
        t.contains_key((col, key)) ==> key.len() == 32 && t[(col, key)].len() == 32 && t[(
            col,
            key,
        )] != zero32()
}

/// Whether the root recorded under `root_key` is the root of the leaves in `leaf_col`.
pub open spec fn root_recorded(t: Table, leaf_col: Col, root_key: Seq<u8>) -> bool {
    t.contains_key((COLUMN_META, root_key)) && t[(COLUMN_META, root_key)] == merkle_root(
        column_leaves(t, leaf_col),
    )
}

/// Whether a table is one that a transaction can be opened on: its two leaf columns
/// hold leaves only, and the two recorded roots are the roots of those leaves.
pub open spec fn opens(t: Table) -> bool {
    &&& leaves_only(t, COLUMN_BLOCK_SMT_LEAF)
    &&& leaves_only(t, COLUMN_ACCOUNT_SMT_LEAF)
    &&& root_recorded(t, COLUMN_BLOCK_SMT_LEAF, block_smt_root_key())
    &&& root_recorded(t, COLUMN_ACCOUNT_SMT_LEAF, account_smt_root_key())
}

/// The leaves of the first `n` of `rows`.
spec fn first_leaves(rows: Seq<(Seq<u8>, Seq<u8>)>, n: nat) -> Map<Seq<u8>, Seq<u8>>
    decreases n,
{
    if n == 0 {
        Map::empty()
    } else {
        first_leaves(rows, (n - 1) as nat).insert(rows[n - 1].0, rows[n - 1].1)
    }
}

proof fn lemma_first_leaves(rows: Seq<(Seq<u8>, Seq<u8>)>, n: nat, key: Seq<u8>)
    requires
        n <= rows.len(),
    ensures
        first_leaves(rows, n).contains_key(key) <==> exists|i: int|
            0 <= i < n && (#[trigger] rows[i]).0 == key,
        first_leaves(rows, n).contains_key(key) ==> exists|i: int|
            0 <= i < n && (#[trigger] rows[i]).0 == key && rows[i].1 == first_leaves(rows, n)[key],
    decreases n,
{
    if n > 0 {
        lemma_first_leaves(rows, (n - 1) as nat, key);
        if rows[n - 1].0 == key {
            assert(rows[n - 1].0 == key && rows[n - 1].1 == first_leaves(rows, n)[key]);
        } else if first_leaves(rows, n).contains_key(key) {
            let i = choose|i: int|
                0 <= i < n - 1 && (#[trigger] rows[i]).0 == key && rows[i].1 == first_leaves(
                    rows,
                    (n - 1) as nat,
                )[key];
            assert(rows[i].0 == key && rows[i].1 == first_leaves(rows, n)[key]);
        }
    }
}

fn same_bytes(a: &Option<Vec<u8>>, b: &Option<Vec<u8>>) -> (r: bool)
    ensures
        r == (seen_bytes(*a) == seen_bytes(*b)),
{
    match (a, b) {
        (None, None) => true,
        (Some(a), Some(b)) => bytes_eq(a.as_slice(), b.as_slice()),
        _ => false,
    }
}

/// A transaction opens on the table of a fresh store, the root of the empty tree being
/// zero.
pub proof fn lemma_fresh_table_opens()
    ensures
        merkle_root(no_leaves()) == zero32() ==> opens(fresh_table()),
{
    let t = fresh_table();
    assert(column_leaves(t, COLUMN_BLOCK_SMT_LEAF) =~= no_leaves());
    assert(column_leaves(t, COLUMN_ACCOUNT_SMT_LEAF) =~= no_leaves());
}

/// A write transaction: a table, the block tree and the account tree in memory, and
/// what the transaction saw of the tip when it read it for update.
pub struct StoreTransaction {
    kv: KvTable,
    block_smt: Tree,
    account_smt: Tree,
    stamp: u64,
    locked: bool,
    seen_meta: Option<Vec<u8>>,
    seen_index: Option<Vec<u8>>,
    seen_stamp: u64,
}

/// Bytes that were read, or not, as a sequence.
pub open spec fn seen_bytes(v: Option<Vec<u8>>) -> Option<Seq<u8>> {
    match v {
        Some(v) => Some(v@),
        None => None,
    }
}

impl StoreTransaction {
    #[verifier::type_invariant]
    spec fn trees_sound(&self) -> bool {
        tree_sound(self.block_smt) && tree_sound(self.account_smt)
    }

    /// What the transaction's table holds.
    pub closed spec fn table(&self) -> Table {
        self.kv@
    }

    /// The leaves of the block tree: the hash of each attached block under its key.
    pub closed spec fn block_leaves(&self) -> Map<Seq<u8>, Seq<u8>> {
        tree_leaves(self.block_smt)
    }

    /// The leaves of the account tree.
    pub closed spec fn account_leaves(&self) -> Map<Seq<u8>, Seq<u8>> {
        tree_leaves(self.account_smt)
    }

    /// The branches of the block tree.
    pub closed spec fn block_branches(&self) -> Map<(u8, Seq<u8>), BranchNode> {
        tree_branches(self.block_smt)
    }

    /// The branches of the account tree.
    pub closed spec fn account_branches(&self) -> Map<(u8, Seq<u8>), BranchNode> {
        tree_branches(self.account_smt)
    }

    /// Whether the block tree is the same as in `other`.
    pub open spec fn same_block_tree(&self, other: StoreTransaction) -> bool {
        self.block_leaves() == other.block_leaves() && self.block_branches()
            == other.block_branches()
    }

    /// Whether the account tree is the same as in `other`.
    pub open spec fn same_account_tree(&self, other: StoreTransaction) -> bool {
        self.account_leaves() == other.account_leaves() && self.account_branches()
            == other.account_branches()
    }

    /// Whether this transaction differs from `other` in its table at most: the trees,
    /// the stamp and what was seen of the tip are the same.
    pub open spec fn only_table_differs(&self, other: StoreTransaction) -> bool {
        self.same_block_tree(other) && self.same_account_tree(other) && self.tip_lock()
            == other.tip_lock() && self.stamp() == other.stamp()
    }

    /// The engine's stamp of the last write to the tip in the store that the
    /// transaction was opened on.
    pub closed spec fn stamp(&self) -> u64 {
        self.stamp
    }

    /// What the transaction saw of the tip when it read the tip for update; `None`
    /// where it has not done so.
    pub closed spec fn tip_lock(&self) -> Option<TipSeen> {
        if self.locked {
            Some((seen_bytes(self.seen_meta), seen_bytes(self.seen_index), self.seen_stamp))
        } else {
            None
        }
    }

    /// A transaction on a store on which nothing has happened yet.
    pub fn new() -> (r: StoreTransaction)
        ensures
            r.table() == fresh_table(),
            r.block_leaves() == no_leaves(),
            r.account_leaves() == no_leaves(),
            r.tip_lock() is None,
            r.stamp() == 0,
            merkle_root(no_leaves()) == zero32(),
            opens(r.table()),
    {
        let mut kv = KvTable::new();
        let zero = zero_hash();
        kv.insert(COLUMN_META, meta_block_smt_root_key().as_slice(), &zero);
        kv.insert(COLUMN_META, meta_account_smt_root_key().as_slice(), &zero);
        kv.insert(COLUMN_META, meta_account_smt_count_key().as_slice(), write_le(0, 4).as_slice());
        let r = StoreTransaction {
            kv,
            block_smt: tree_new(),
            account_smt: tree_new(),
            stamp: 0,
            locked: false,
            seen_meta: None,
            seen_index: None,
            seen_stamp: 0,
        };
        proof {
            lemma_fresh_table_opens();
        }
        r
    }

    /// The tree that holds the leaves of a leaf column, where the column holds leaves
    /// only.
    fn replay(table: &KvTable, col: Col) -> (r: Option<Tree>)
        ensures
            r is Some <==> leaves_only(table@, col),
            r matches Some(tree) ==> tree_sound(tree) && tree_leaves(tree) == column_leaves(
                table@,
                col,
            ),
    {
        let rows = table.iter(col, IteratorMode::Start);
        let ghost all = pairs(rows@);
        let mut tree = tree_new();
        let mut i: usize = 0;
        while i < rows.len()
            invariant
                i <= rows.len(),
                all == pairs(rows@),
                iterated(table@, col, IteratorMode::Start, all),
                tree_sound(tree),
                tree_leaves(tree) == first_leaves(all, i as nat),
                forall|k: int|
                    0 <= k < i ==> (#[trigger] all[k]).0.len() == 32 && all[k].1.len() == 32
                        && all[k].1 != zero32(),
            decreases rows.len() - i,
        {
            let ghost row = all[i as int];
            assert(table@.contains_key((col, row.0)) && table@[(col, row.0)] == row.1);
            if rows[i].0.len() != 32 || rows[i].1.len() != 32 {
                return None;
            }
            let key = to_array32(rows[i].0.as_slice());
            let value = to_array32(rows[i].1.as_slice());
            if is_zero32(&value) {
                return None;
            }
            let _ = tree_update(&mut tree, &key, &value);
            i += 1;
        }
        proof {
            assert forall|key: Seq<u8>| #[trigger]
                table@.contains_key((col, key)) implies key.len() == 32 && table@[(col, key)].len()
                == 32 && table@[(col, key)] != zero32() by {
                assert(crate::kv::listed(all, key));
                let k = choose|k: int| 0 <= k < all.len() && (#[trigger] all[k]).0 == key;
                assert(all[k].0.len() == 32);
            }
            assert forall|key: Seq<u8>|
                first_leaves(all, all.len()).contains_key(key) <==> column_leaves(
                    table@,
                    col,
                ).contains_key(key) by {
                lemma_first_leaves(all, all.len(), key);
                if table@.contains_key((col, key)) {
                    assert(crate::kv::listed(all, key));
                }
            }
            assert forall|key: Seq<u8>|
                first_leaves(all, all.len()).contains_key(key) implies first_leaves(
                all,
                all.len(),
            )[key] == column_leaves(table@, col)[key] by {
                lemma_first_leaves(all, all.len(), key);
            }
            assert(first_leaves(all, all.len()) =~= column_leaves(table@, col));
        }
        Some(tree)
    }

    /// Whether the table records `root` under `root_key`.
    fn records(table: &KvTable, root_key: &[u8], root: &Byte32) -> (r: bool)
        ensures
            r == (table@.contains_key((COLUMN_META, root_key@)) && table@[(
                COLUMN_META,
                root_key@,
            )] == root@),
    {
        match table.get(COLUMN_META, root_key) {
            Some(recorded) => bytes_eq(recorded.as_slice(), root),
            None => false,
        }
    }

    /// A transaction on a store that holds `table`, the tip last written at `stamp`. The
    /// two trees are grown from the leaves in their leaf columns. A table with anything
    /// but leaves there, or whose recorded roots are not the roots of those leaves, is
    /// corrupted.
    pub fn open(table: KvTable, stamp: u64) -> (r: Result<StoreTransaction, Error>)
        ensures
            r is Ok <==> opens(table@),
            r matches Ok(store) ==> store.table() == table@ && store.block_leaves()
                == column_leaves(table@, COLUMN_BLOCK_SMT_LEAF) && store.account_leaves()
                == column_leaves(table@, COLUMN_ACCOUNT_SMT_LEAF) && store.tip_lock() is None
                && store.stamp() == stamp,
            r matches Err(e) ==> e == Error::StoreCorruption,
    {
        let block_smt = match StoreTransaction::replay(&table, COLUMN_BLOCK_SMT_LEAF) {
            Some(tree) => tree,
            None => {
                return Err(Error::StoreCorruption);
            },
        };
        let account_smt = match StoreTransaction::replay(&table, COLUMN_ACCOUNT_SMT_LEAF) {
            Some(tree) => tree,
            None => {
                return Err(Error::StoreCorruption);
            },
        };
        let block_root = tree_root(&block_smt);
        let account_root = tree_root(&account_smt);
        if !StoreTransaction::records(&table, meta_block_smt_root_key().as_slice(), &block_root)
            || !StoreTransaction::records(
            &table,
            meta_account_smt_root_key().as_slice(),
            &account_root,
        ) {
            return Err(Error::StoreCorruption);
        }
        Ok(
            StoreTransaction {
                kv: table,
                block_smt,
                account_smt,
                stamp,
                locked: false,
                seen_meta: None,
                seen_index: None,
                seen_stamp: 0,
            },
        )
    }

    /// Reads a value.
    pub fn get(&self, col: Col, key: &[u8]) -> (r: Option<Vec<u8>>)
        ensures
            r is Some <==> self.table().contains_key((col, key@)),
            r matches Some(v) ==> v@ == self.table()[(col, key@)],
    {
        self.kv.get(col, key)
    }

    /// Goes through a column: its keys that `mode` comes by, each with its value, in the
    /// order of the keys as byte strings.
    pub fn get_iter(&self, col: Col, mode: IteratorMode) -> (r: Vec<(Vec<u8>, Vec<u8>)>)
        ensures
            iterated(self.table(), col, mode, pairs(r@)),
    {
        self.kv.iter(col, mode)
    }

    /// Writes a value. The table in memory refuses no write.
    pub fn insert_raw(&mut self, col: Col, key: &[u8], value: &[u8]) -> (r: Result<(), Error>)
        ensures
            r is Ok,
            final(self).table() == old(self).table().insert((col, key@), value@),
            final(self).only_table_differs(*old(self)),
    {
        proof {
            use_type_invariant(&*self);
        }
        let mut kv = KvTable::new();
        std::mem::swap(&mut kv, &mut self.kv);
        kv.insert(col, key, value);
        self.kv = kv;
        Ok(())
    }

    /// Removes a key. The table in memory refuses no write.
    pub fn delete(&mut self, col: Col, key: &[u8]) -> (r: Result<(), Error>)
        ensures
            r is Ok,
            final(self).table() == old(self).table().remove((col, key@)),
            final(self).only_table_differs(*old(self)),
    {
        proof {
            use_type_invariant(&*self);
        }
        let mut kv = KvTable::new();
        std::mem::swap(&mut kv, &mut self.kv);
        kv.remove(col, key);
        self.kv = kv;
        Ok(())
    }

    /// A view of the table as it is now, which later writes do not change, with the
    /// stamp of the store that the transaction was opened on.
    pub fn get_snapshot(&self) -> (r: StoreTransactionSnapshot)
        ensures
            r.table() == self.table(),
            r.stamp() == self.stamp(),
    {
        StoreTransactionSnapshot { table: self.kv.snapshot(), stamp: self.stamp }
    }

    /// The writes of this transaction: what turns the table that `since` holds, the
    /// store as the transaction found it, into the transaction's table. A commit hands
    /// these to the engine, and nothing else.
    pub fn changes_since(&self, since: &StoreTransactionSnapshot) -> (r: Changes)
        ensures
            changes_between(self.table(), since.table(), r.puts@, r.deletes@),
    {
        self.kv.changes_since(&since.table)
    }

    /// Reads a 32-byte value.
    fn get_hash(&self, col: Col, key: &[u8]) -> (r: Result<Option<Byte32>, Error>)
        ensures
            seen_hash(r) == hash_at(self.table(), col, key@),
    {
        match self.kv.get(col, key) {
            None => Ok(None),
            Some(v) => {
                if v.len() != 32 {
                    Err(Error::StoreCorruption)
                } else {
                    Ok(Some(to_array32(v.as_slice())))
                }
            },
        }
    }

    /// Reads a 32-byte value that has to be there.
    fn get_required_hash(&self, col: Col, key: &[u8]) -> (r: Result<Byte32, Error>)
        ensures
            seen_required_hash(r) == required_hash_at(self.table(), col, key@),
    {
        match self.kv.get(col, key) {
            None => Err(Error::StoreCorruption),
            Some(v) => {
                if v.len() != 32 {
                    Err(Error::StoreCorruption)
                } else {
                    Ok(to_array32(v.as_slice()))
                }
            },
        }
    }

    /// Reads the tip for update: gives the tip that the snapshot holds in the meta
    /// column, and notes what the snapshot shows of the tip, so that the commit can tell
    /// whether the tip was written since.
    pub fn get_update_for_tip_hash(&mut self, snapshot: &StoreTransactionSnapshot) -> (r: Result<
        Option<Byte32>,
        Error,
    >)
        ensures
            seen_hash(r) == hash_at(snapshot.table(), COLUMN_META, tip_block_hash_key()),
            final(self).tip_lock() == Some(snapshot.tip()),
            final(self).table() == old(self).table(),
            final(self).stamp() == old(self).stamp(),
            final(self).same_block_tree(*old(self)),
            final(self).same_account_tree(*old(self)),
    {
        proof {
            use_type_invariant(&*self);
        }
        let key = meta_tip_block_hash_key();
        let seen = snapshot.get(COLUMN_META, key.as_slice());
        let r = match &seen {
            None => Ok(None),
            Some(v) => {
                if v.len() != 32 {
                    Err(Error::StoreCorruption)
                } else {
                    Ok(Some(to_array32(v.as_slice())))
                }
            },
        };
        self.locked = true;
        self.seen_meta = seen;
        self.seen_index = snapshot.get(COLUMN_INDEX, key.as_slice());
        self.seen_stamp = snapshot.stamp;
        r
    }

    /// Decides the commit against `committed`, the store as it is now: refused with a
    /// conflict where the transaction read the tip for update and the store no longer
    /// shows of its tip what the transaction saw: another value under the tip's key in
    /// the meta column or in the index, or another stamp.
    pub fn commit(&self, committed: &StoreTransactionSnapshot) -> (r: Result<(), Error>)
        ensures
            r == commit_outcome(self.tip_lock(), committed.tip()),
    {
        if !self.locked {
            return Ok(());
        }
        let key = meta_tip_block_hash_key();
        let meta = committed.get(COLUMN_META, key.as_slice());
        let index = committed.get(COLUMN_INDEX, key.as_slice());
        if same_bytes(&self.seen_meta, &meta) && same_bytes(&self.seen_index, &index)
            && self.seen_stamp == committed.stamp {
            Ok(())
        } else {
            Err(Error::TxConflict)
        }
    }

    /// The recorded root of the block tree.
    pub fn get_block_smt_root(&self) -> (r: Result<Byte32, Error>)
        ensures
            seen_required_hash(r) == required_hash_at(
                self.table(),
                COLUMN_META,
                block_smt_root_key(),
            ),
    {
        crate::smt::store::block_smt_root(self)
    }

    /// Records the root of the block tree.
    pub fn set_block_smt_root(&mut self, root: Byte32) -> (r: Result<(), Error>)
        ensures
            r is Ok,
            final(self).table() == old(self).table().insert(
                (COLUMN_META, block_smt_root_key()),
                root@,
            ),
            final(self).only_table_differs(*old(self)),
    {
        self.insert_raw(COLUMN_META, meta_block_smt_root_key().as_slice(), &root)
    }

    /// The recorded root of the account tree.
    pub fn get_account_smt_root(&self) -> (r: Result<Byte32, Error>)
        ensures
            seen_required_hash(r) == required_hash_at(
                self.table(),
                COLUMN_META,
                account_smt_root_key(),
            ),
    {
        self.get_required_hash(COLUMN_META, meta_account_smt_root_key().as_slice())
    }

    /// Records the root of the account tree.
    pub fn set_account_smt_root(&mut self, root: Byte32) -> (r: Result<(), Error>)
        ensures
            r is Ok,
            final(self).table() == old(self).table().insert(
                (COLUMN_META, account_smt_root_key()),
                root@,
            ),
            final(self).only_table_differs(*old(self)),
    {
        self.insert_raw(COLUMN_META, meta_account_smt_root_key().as_slice(), &root)
    }

    /// Records `hash` as the tip block's hash.
    pub fn insert_tip_hash(&mut self, hash: &Byte32) -> (r: Result<(), Error>)
        ensures
            r is Ok,
            final(self).table() == old(self).table().insert(
                (COLUMN_META, tip_block_hash_key()),
                hash@,
            ),
            final(self).only_table_differs(*old(self)),
    {
        self.insert_raw(COLUMN_META, meta_tip_block_hash_key().as_slice(), hash)
    }

    /// Records the global state that belongs to the tip.
    pub fn set_tip_global_state(&mut self, global_state: &[u8]) -> (r: Result<(), Error>)
        ensures
            r is Ok,
            final(self).table() == old(self).table().insert(
                (COLUMN_META, tip_global_state_key()),
                global_state@,
            ),
            final(self).only_table_differs(*old(self)),
    {
        self.insert_raw(COLUMN_META, meta_tip_global_state_key().as_slice(), global_state)
    }

    /// The serialized block stored under `block_hash`, if it was inserted.
    pub fn get_block(&self, block_hash: &Byte32) -> (r: Result<Option<Vec<u8>>, Error>)
        ensures
            r is Ok,
            r->Ok_0 is Some <==> self.table().contains_key((COLUMN_BLOCK, block_hash@)),
            r->Ok_0 matches Some(b) ==> b@ == self.table()[(COLUMN_BLOCK, block_hash@)],
    {
        Ok(self.kv.get(COLUMN_BLOCK, block_hash))
    }

    /// The hash of the main chain's block `number`, if that number is attached.
    pub fn get_block_hash_by_number(&self, number: u64) -> (r: Result<Option<Byte32>, Error>)
        ensures
            seen_hash(r) == hash_at(self.table(), COLUMN_INDEX, number_key(number)),
    {
        self.get_hash(COLUMN_INDEX, number_to_key(number).as_slice())
    }

    /// The value of the account tree under `key`: zero where the key was never set, or
    /// was set to zero, or the tree's root is zero.
    pub fn get_raw(&self, key: &Byte32) -> (r: Result<Byte32, Error>)
        ensures
            r is Ok,
            r->Ok_0@ == leaf_or_zero(self.account_leaves(), key@),
    {
        proof {
            use_type_invariant(self);
        }
        match tree_get(&self.account_smt, key) {
            Some(v) => Ok(v),
            None => Err(Error::SmtError(SmtFailure::Read)),
        }
    }

    /// Puts `value` under `key` in the account tree; zero removes the key. The nodes that
    /// changed are written to the account tree's columns. The recorded root stays as it
    /// is until the caller records the new one.
    pub fn update_raw(&mut self, key: Byte32, value: Byte32) -> (r: Result<(), Error>)
        ensures
            r is Ok,
            final(self).account_leaves() == leaves_after(old(self).account_leaves(), key@, value@),
            final(self).table() == with_tree_path(
                old(self).table(),
                COLUMN_ACCOUNT_SMT_LEAF,
                COLUMN_ACCOUNT_SMT_BRANCH,
                final(self).account_branches(),
                key@,
                value@,
            ),
            final(self).same_block_tree(*old(self)),
            final(self).tip_lock() == old(self).tip_lock(),
            final(self).stamp() == old(self).stamp(),
    {
        proof {
            use_type_invariant(&*self);
        }
        let mut tree = tree_new();
        std::mem::swap(&mut tree, &mut self.account_smt);
        let done = tree_update(&mut tree, &key, &value);
        self.write_tree_path(&tree, COLUMN_ACCOUNT_SMT_LEAF, COLUMN_ACCOUNT_SMT_BRANCH, &key, &value);
        proof {
            use_type_invariant(&*self);
        }
        self.account_smt = tree;
        if done {
            Ok(())
        } else {
            Err(Error::SmtError(SmtFailure::Update))
        }
    }

    /// The root of the account tree as the updates so far have left it.
    pub fn calculate_root(&self) -> (r: Result<Byte32, Error>)
        ensures
            r is Ok,
            r->Ok_0@ == merkle_root(self.account_leaves()),
    {
        proof {
            use_type_invariant(self);
        }
        Ok(tree_root(&self.account_smt))
    }

    /// The number of accounts, as recorded.
    pub fn get_account_count(&self) -> (r: Result<u32, Error>)
        ensures
            match r {
                Ok(n) => self.table().contains_key((COLUMN_META, account_smt_count_key()))
                    && self.table()[(COLUMN_META, account_smt_count_key())] == le_bytes(
                    n as nat,
                    4,
                ),
                Err(e) => e == Error::StoreCorruption && !(self.table().contains_key(
                    (COLUMN_META, account_smt_count_key()),
                ) && self.table()[(COLUMN_META, account_smt_count_key())].len() == 4),
            },
    {
        match self.kv.get(COLUMN_META, meta_account_smt_count_key().as_slice()) {
            None => Err(Error::StoreCorruption),
            Some(v) => {
                if v.len() != 4 {
                    Err(Error::StoreCorruption)
                } else {
                    let n = read_le(v.as_slice(), 0, 4);
                    proof {
                        crate::bytes::lemma_pow256_values();
                        assert(v@.subrange(0, 4) =~= v@);
                        crate::bytes::lemma_le_bytes_of_value(v@);
                    }
                    Ok(n as u32)
                }
            },
        }
    }

    /// Records the number of accounts, in four bytes, least significant first.
    pub fn set_account_count(&mut self, count: u32) -> (r: Result<(), Error>)
        ensures
            r is Ok,
            final(self).table() == old(self).table().insert(
                (COLUMN_META, account_smt_count_key()),
                le_bytes(count as nat, 4),
            ),
            final(self).only_table_differs(*old(self)),
    {
        let bytes = write_le(count as u128, 4);
        self.insert_raw(COLUMN_META, meta_account_smt_count_key().as_slice(), bytes.as_slice())
    }

    /// Stores a script under its hash.
    pub fn insert_script(&mut self, script_hash: Byte32, script: &[u8])
        ensures
            final(self).table() == old(self).table().insert(
                (COLUMN_SCRIPT, script_hash@),
                script@,
            ),
            final(self).only_table_differs(*old(self)),
    {
        let _ = self.insert_raw(COLUMN_SCRIPT, &script_hash, script);
    }

    /// The script stored under `script_hash`, if there is one.
    pub fn get_script(&self, script_hash: &Byte32) -> (r: Option<Vec<u8>>)
        ensures
            r is Some <==> self.table().contains_key((COLUMN_SCRIPT, script_hash@)),
            r matches Some(v) ==> v@ == self.table()[(COLUMN_SCRIPT, script_hash@)],
    {
        self.kv.get(COLUMN_SCRIPT, script_hash)
    }

    /// Stores a blob under its hash.
    pub fn insert_data(&mut self, data_hash: Byte32, code: &[u8])
        ensures
            final(self).table() == old(self).table().insert((COLUMN_DATA, data_hash@), code@),
            final(self).only_table_differs(*old(self)),
    {
        let _ = self.insert_raw(COLUMN_DATA, &data_hash, code);
    }

    /// The blob stored under `data_hash`, if there is one.
    pub fn get_data(&self, data_hash: &Byte32) -> (r: Option<Vec<u8>>)
        ensures
            r is Some <==> self.table().contains_key((COLUMN_DATA, data_hash@)),
            r matches Some(v) ==> v@ == self.table()[(COLUMN_DATA, data_hash@)],
    {
        self.kv.get(COLUMN_DATA, data_hash)
    }
}

impl KVStore for StoreTransaction {
    open spec fn table(&self) -> Table {
        StoreTransaction::table(self)
    }

    fn get(&self, col: Col, key: &[u8]) -> (r: Option<Vec<u8>>) {
        StoreTransaction::get(self, col, key)
    }

    /// The table in memory refuses no write.
    fn insert_raw(&mut self, col: Col, key: &[u8], value: &[u8]) -> (r: Result<(), Error>)
        ensures
            r is Ok,
            StoreTransaction::table(final(self)) == StoreTransaction::table(old(self)).insert(
                (col, key@),
                value@,
            ),
            final(self).only_table_differs(*old(self)),
    {
        StoreTransaction::insert_raw(self, col, key, value)
    }

    /// The table in memory refuses no write.
    fn delete(&mut self, col: Col, key: &[u8]) -> (r: Result<(), Error>)
        ensures
            r is Ok,
            StoreTransaction::table(final(self)) == StoreTransaction::table(old(self)).remove(
                (col, key@),
            ),
            final(self).only_table_differs(*old(self)),
    {
        StoreTransaction::delete(self, col, key)
    }
}

/// `t` with a leaf of a tree written to its column: a zero value removes the key.
pub open spec fn with_tree_leaf(t: Table, leaf_col: Col, key: Seq<u8>, value: Seq<u8>) -> Table {
    if value == zero32() {
        t.remove((leaf_col, key))
    } else {
        t.insert((leaf_col, key), value)
    }
}

/// `t` with the branches of the first `n` heights above the leaf `key` written to their
/// column as the tree holds them: a branch that the tree does not hold is removed.
pub open spec fn with_tree_branches(
    t: Table,
    branch_col: Col,
    branches: Map<(u8, Seq<u8>), BranchNode>,
    key: Seq<u8>,
    n: nat,
) -> Table
    decreases n,
{
    if n == 0 {
        t
    } else {
        let height = (n - 1) as u8;
        let path = path_above(key, height);
        let at = (branch_col, seq![height] + path);
        let below = with_tree_branches(t, branch_col, branches, key, (n - 1) as nat);
        if branches.contains_key((height, path)) {
            below.insert(at, branch_node_bytes(branches[(height, path)]))
        } else {
            below.remove(at)
        }
    }
}

/// `t` after a tree whose branches are now `branches` put `value` under `key`: the leaf
/// in the tree's leaf column, and the branch at each of the 256 heights above it in the
/// tree's branch column.
pub open spec fn with_tree_path(
    t: Table,
    leaf_col: Col,
    branch_col: Col,
    branches: Map<(u8, Seq<u8>), BranchNode>,
    key: Seq<u8>,
    value: Seq<u8>,
) -> Table {
    with_tree_branches(with_tree_leaf(t, leaf_col, key, value), branch_col, branches, key, 256)
}

/// What the index holds of a transaction: its composite key, then its block's number.
pub open spec fn transaction_info(block_hash: Seq<u8>, index: u32, number: u64) -> Seq<u8> {
    transaction_key(block_hash, index) + number_key(number)
}

/// `t` with the first `n` transactions of a block and their receipts, each under its
/// composite key.
pub open spec fn with_block_rows(
    t: Table,
    block_hash: Seq<u8>,
    txs: Seq<L2Transaction>,
    receipts: Seq<Vec<u8>>,
    n: nat,
) -> Table
    decreases n,
{
    if n == 0 {
        t
    } else {
        let i = (n - 1) as int;
        let key = transaction_key(block_hash, i as u32);
        with_block_rows(t, block_hash, txs, receipts, i as nat).insert(
            (COLUMN_TRANSACTION, key),
            txs[i].bytes@,
        ).insert((COLUMN_TRANSACTION_RECEIPT, key), receipts[i]@)
    }
}

/// `t` after a block was inserted: the block and its header info under the block's hash,
/// and each transaction with its receipt under its composite key.
pub open spec fn inserted_table(
    t: Table,
    block: L2Block,
    header_info: Seq<u8>,
    receipts: Seq<Vec<u8>>,
) -> Table {
    with_block_rows(
        t.insert((COLUMN_BLOCK, block.hash_spec()), block.bytes@).insert(
            (COLUMN_SYNC_BLOCK_HEADER_INFO, block.hash_spec()),
            header_info,
        ),
        block.hash_spec(),
        block.transactions@,
        receipts,
        block.transactions@.len(),
    )
}

/// The hashes of transactions, in their order.
pub open spec fn tx_hashes(txs: Seq<L2Transaction>) -> Seq<Seq<u8>> {
    Seq::new(txs.len(), |i: int| txs[i].hash_spec())
}

/// `t` with the first `n` transactions of a block indexed by their hashes `hashes`.
pub open spec fn with_tx_infos(
    t: Table,
    block_hash: Seq<u8>,
    number: u64,
    hashes: Seq<Seq<u8>>,
    n: nat,
) -> Table
    decreases n,
{
    if n == 0 {
        t
    } else {
        let i = (n - 1) as int;
        with_tx_infos(t, block_hash, number, hashes, i as nat).insert(
            (COLUMN_TRANSACTION_INFO, hashes[i]),
            transaction_info(block_hash, i as u32, number),
        )
    }
}

/// `t` without the index rows of the first `n` of the transaction hashes `hashes`.
pub open spec fn without_tx_infos(t: Table, hashes: Seq<Seq<u8>>, n: nat) -> Table
    decreases n,
{
    if n == 0 {
        t
    } else {
        let i = (n - 1) as int;
        without_tx_infos(t, hashes, i as nat).remove((COLUMN_TRANSACTION_INFO, hashes[i]))
    }
}

/// `t` after the block `number` with the hash `block_hash` and the transactions `hashes`
/// was attached, the block tree's branches became `branches` and its root `root`: the
/// transactions indexed, the block indexed by number and by hash, the block's leaf and
/// the branches above it written, the root recorded and the block made the tip in the
/// index.
pub open spec fn attached_table(
    t: Table,
    number: u64,
    block_hash: Seq<u8>,
    hashes: Seq<Seq<u8>>,
    branches: Map<(u8, Seq<u8>), BranchNode>,
    root: Seq<u8>,
) -> Table {
    with_tree_path(
        with_tx_infos(t, block_hash, number, hashes, hashes.len()).insert(
            (COLUMN_INDEX, number_key(number)),
            block_hash,
        ).insert((COLUMN_INDEX, block_hash), number_key(number)),
        COLUMN_BLOCK_SMT_LEAF,
        COLUMN_BLOCK_SMT_BRANCH,
        branches,
        crate::types::smt_key_of(number),
        block_hash,
    ).insert((COLUMN_META, block_smt_root_key()), root).insert(
        (COLUMN_INDEX, tip_block_hash_key()),
        block_hash,
    )
}

/// The hash of the block below block `number` on the main chain, which a detach makes
/// the tip. The first block has none below it.
pub open spec fn parent_hash(t: Table, number: u64) -> Result<Seq<u8>, Error> {
    if number == 0 {
        Err(Error::StoreCorruption)
    } else {
        required_hash_at(t, COLUMN_INDEX, number_key((number - 1) as u64))
    }
}

/// `t` after the block `number` with the hash `block_hash` and the transactions `hashes`
/// was detached, the block tree's branches became `branches` and its root `root`, and
/// the block `parent` became the tip in the index.
pub open spec fn detached_table(
    t: Table,
    number: u64,
    block_hash: Seq<u8>,
    hashes: Seq<Seq<u8>>,
    branches: Map<(u8, Seq<u8>), BranchNode>,
    root: Seq<u8>,
    parent: Seq<u8>,
) -> Table {
    with_tree_path(
        without_tx_infos(t, hashes, hashes.len()).remove((COLUMN_INDEX, number_key(number))).remove(
            (COLUMN_INDEX, block_hash),
        ),
        COLUMN_BLOCK_SMT_LEAF,
        COLUMN_BLOCK_SMT_BRANCH,
        branches,
        crate::types::smt_key_of(number),
        zero32(),
    ).insert((COLUMN_META, block_smt_root_key()), root).insert(
        (COLUMN_INDEX, tip_block_hash_key()),
        parent,
    )
}

impl StoreTransaction {
    /// Writes the leaf under `key` and the branches above it, as `tree` holds them, to
    /// the two columns of that tree.
    fn write_tree_path(
        &mut self,
        tree: &Tree,
        leaf_col: Col,
        branch_col: Col,
        key: &Byte32,
        value: &Byte32,
    )
        ensures
            final(self).table() == with_tree_path(
                old(self).table(),
                leaf_col,
                branch_col,
                tree_branches(*tree),
                key@,
                value@,
            ),
            final(self).only_table_differs(*old(self)),
    {
        let adapter = SMTStoreTransaction::new(leaf_col, branch_col);
        if is_zero32(value) {
            let _ = adapter.remove_leaf(self, key);
        } else {
            let _ = adapter.insert_leaf(self, *key, *value);
        }
        let ghost base = self.table();
        let mut h: usize = 0;
        while h < 256
            invariant
                h <= 256,
                adapter.branch_col == branch_col,
                self.table() == with_tree_branches(
                    base,
                    branch_col,
                    tree_branches(*tree),
                    key@,
                    h as nat,
                ),
                self.only_table_differs(*old(self)),
            decreases 256 - h,
        {
            let height = h as u8;
            let path = parent_path(key, height);
            let at = BranchKey { height, node_key: path };
            assert(branch_key_bytes(at) =~= seq![height] + path_above(key@, height));
            match tree_branch(tree, height, &path) {
                Some(node) => {
                    let _ = adapter.insert_branch(self, at, node);
                },
                None => {
                    let _ = adapter.remove_branch(self, &at);
                },
            }
            h += 1;
        }
    }

    /// Puts `value` under `key` in the block tree, writes the nodes that changed to the
    /// block tree's columns, and returns the tree's new root.
    fn update_block_tree(&mut self, key: &Byte32, value: &Byte32) -> (r: Result<Byte32, Error>)
        ensures
            r is Ok,
            final(self).block_leaves() == leaves_after(old(self).block_leaves(), key@, value@),
            r->Ok_0@ == merkle_root(final(self).block_leaves()),
            merkle_root(final(self).block_leaves()).len() == 32,
            final(self).table() == with_tree_path(
                old(self).table(),
                COLUMN_BLOCK_SMT_LEAF,
                COLUMN_BLOCK_SMT_BRANCH,
                final(self).block_branches(),
                key@,
                value@,
            ),
            final(self).same_account_tree(*old(self)),
            final(self).tip_lock() == old(self).tip_lock(),
            final(self).stamp() == old(self).stamp(),
    {
        proof {
            use_type_invariant(&*self);
        }
        let mut tree = tree_new();
        std::mem::swap(&mut tree, &mut self.block_smt);
        let done = tree_update(&mut tree, key, value);
        let root = tree_root(&tree);
        self.write_tree_path(&tree, COLUMN_BLOCK_SMT_LEAF, COLUMN_BLOCK_SMT_BRANCH, key, value);
        proof {
            use_type_invariant(&*self);
        }
        self.block_smt = tree;
        if done {
            Ok(root)
        } else {
            Err(Error::SmtError(SmtFailure::Update))
        }
    }

    /// Makes a block known: stores it, its header info, and each of its transactions with
    /// that transaction's receipt. The main chain and the block tree stay as they are.
    pub fn insert_block(
        &mut self,
        block: L2Block,
        header_info: &[u8],
        tx_receipts: Vec<Vec<u8>>,
    ) -> (r: Result<(), Error>)
        requires
            block.transactions@.len() == tx_receipts@.len(),
            block.transactions@.len() <= u32::MAX,
        ensures
            r is Ok,
            final(self).table() == inserted_table(
                old(self).table(),
                block,
                header_info@,
                tx_receipts@,
            ),
            final(self).only_table_differs(*old(self)),
    {
        let block_hash = block.hash();
        self.insert_raw(COLUMN_BLOCK, &block_hash, block.bytes.as_slice())?;
        self.insert_raw(COLUMN_SYNC_BLOCK_HEADER_INFO, &block_hash, header_info)?;
        let ghost base = self.table();
        let mut index: usize = 0;
        while index < block.transactions.len()
            invariant
                index <= block.transactions@.len(),
                block.transactions@.len() == tx_receipts@.len(),
                block.transactions@.len() <= u32::MAX,
                block_hash@ == block.hash_spec(),
                self.table() == with_block_rows(
                    base,
                    block.hash_spec(),
                    block.transactions@,
                    tx_receipts@,
                    index as nat,
                ),
                self.only_table_differs(*old(self)),
            decreases block.transactions@.len() - index,
        {
            let key = build_transaction_key(block_hash, index as u32);
            self.insert_raw(
                COLUMN_TRANSACTION,
                key.as_slice(),
                block.transactions[index].bytes.as_slice(),
            )?;
            self.insert_raw(
                COLUMN_TRANSACTION_RECEIPT,
                key.as_slice(),
                tx_receipts[index].as_slice(),
            )?;
            index += 1;
        }
        Ok(())
    }

    /// Attaches a block to the main chain: indexes its transactions, indexes it by number
    /// and by hash, puts its hash into the block tree under its key, records the tree's
    /// new root, and makes it the tip in the index.
    pub fn attach_block(&mut self, block: L2Block) -> (r: Result<(), Error>)
        requires
            block.transactions@.len() <= u32::MAX,
        ensures
            r is Ok,
            final(self).block_leaves() == leaves_after(
                old(self).block_leaves(),
                block.smt_key_spec(),
                block.hash_spec(),
            ),
            block.hash_spec().len() == 32,
            merkle_root(final(self).block_leaves()).len() == 32,
            final(self).table() == attached_table(
                old(self).table(),
                block.number,
                block.hash_spec(),
                tx_hashes(block.transactions@),
                final(self).block_branches(),
                merkle_root(final(self).block_leaves()),
            ),
            final(self).same_account_tree(*old(self)),
            final(self).tip_lock() == old(self).tip_lock(),
            final(self).stamp() == old(self).stamp(),
    {
        let block_hash = block.hash();
        let number = number_to_key(block.number);
        let mut index: usize = 0;
        while index < block.transactions.len()
            invariant
                index <= block.transactions@.len(),
                block.transactions@.len() <= u32::MAX,
                block_hash@ == block.hash_spec(),
                number@ == number_key(block.number),
                self.table() == with_tx_infos(
                    old(self).table(),
                    block.hash_spec(),
                    block.number,
                    tx_hashes(block.transactions@),
                    index as nat,
                ),
                self.only_table_differs(*old(self)),
            decreases block.transactions@.len() - index,
        {
            let mut info = build_transaction_key(block_hash, index as u32);
            append_bytes(&mut info, number.as_slice());
            let tx_hash = block.transactions[index].hash();
            self.insert_raw(COLUMN_TRANSACTION_INFO, &tx_hash, info.as_slice())?;
            index += 1;
        }
        self.insert_raw(COLUMN_INDEX, number.as_slice(), &block_hash)?;
        self.insert_raw(COLUMN_INDEX, &block_hash, number.as_slice())?;
        let smt_key = block.smt_key();
        let root = self.update_block_tree(&smt_key, &block_hash)?;
        self.set_block_smt_root(root)?;
        self.insert_raw(COLUMN_INDEX, meta_tip_block_hash_key().as_slice(), &block_hash)?;
        Ok(())
    }

    /// Detaches a block from the main chain: removes what `attach_block` indexed, takes
    /// the block out of the block tree, records the tree's new root, and makes the block
    /// below it the tip. Where the index does not hold the block below, nothing changes.
    pub fn detach_block(&mut self, block: &L2Block) -> (r: Result<(), Error>)
        ensures
            match parent_hash(old(self).table(), block.number) {
                Ok(parent) => r is Ok && final(self).block_leaves() == leaves_after(
                    old(self).block_leaves(),
                    block.smt_key_spec(),
                    zero32(),
                ) && merkle_root(final(self).block_leaves()).len() == 32 && final(self).table()
                    == detached_table(
                    old(self).table(),
                    block.number,
                    block.hash_spec(),
                    tx_hashes(block.transactions@),
                    final(self).block_branches(),
                    merkle_root(final(self).block_leaves()),
                    parent,
                ),
                Err(e) => r is Err && r->Err_0 == e && final(self).same_block_tree(*old(self))
                    && final(self).table() == old(self).table(),
            },
            block.hash_spec().len() == 32,
            final(self).same_account_tree(*old(self)),
            final(self).tip_lock() == old(self).tip_lock(),
            final(self).stamp() == old(self).stamp(),
    {
        let block_hash = block.hash();
        if block.number == 0 {
            return Err(Error::StoreCorruption);
        }
        let parent = match self.get_required_hash(
            COLUMN_INDEX,
            number_to_key(block.number - 1).as_slice(),
        ) {
            Ok(h) => h,
            Err(e) => {
                return Err(e);
            },
        };
        let number = number_to_key(block.number);
        let mut index: usize = 0;
        while index < block.transactions.len()
            invariant
                index <= block.transactions@.len(),
                self.table() == without_tx_infos(
                    old(self).table(),
                    tx_hashes(block.transactions@),
                    index as nat,
                ),
                self.only_table_differs(*old(self)),
            decreases block.transactions@.len() - index,
        {
            let tx_hash = block.transactions[index].hash();
            self.delete(COLUMN_TRANSACTION_INFO, &tx_hash)?;
            index += 1;
        }
        self.delete(COLUMN_INDEX, number.as_slice())?;
        self.delete(COLUMN_INDEX, &block_hash)?;
        let smt_key = block.smt_key();
        let zero = zero_hash();
        let root = self.update_block_tree(&smt_key, &zero)?;
        self.set_block_smt_root(root)?;
        self.insert_raw(COLUMN_INDEX, meta_tip_block_hash_key().as_slice(), &parent)?;
        Ok(())
    }
}

/// Whether one of the first `n` of `hashes` is `h`.
pub open spec fn among(hashes: Seq<Seq<u8>>, n: nat, h: Seq<u8>) -> bool {
    exists|i: int| 0 <= i < n && #[trigger] hashes[i] == h
}

proof fn lemma_with_tx_infos(
    t: Table,
    block_hash: Seq<u8>,
    number: u64,
    hashes: Seq<Seq<u8>>,
    n: nat,
    k: (Col, Seq<u8>),
)
    requires
        n <= hashes.len(),
    ensures
        k.0 == COLUMN_TRANSACTION_INFO && among(hashes, n, k.1) ==> with_tx_infos(
            t,
            block_hash,
            number,
            hashes,
            n,
        ).contains_key(k),
        !(k.0 == COLUMN_TRANSACTION_INFO && among(hashes, n, k.1)) ==> (with_tx_infos(
            t,
            block_hash,
            number,
            hashes,
            n,
        ).contains_key(k) <==> t.contains_key(k)) && with_tx_infos(
            t,
            block_hash,
            number,
            hashes,
            n,
        )[k] == t[k],
    decreases n,
{
    if n > 0 {
        let i = (n - 1) as int;
        lemma_with_tx_infos(t, block_hash, number, hashes, i as nat, k);
        if k.0 == COLUMN_TRANSACTION_INFO && among(hashes, n, k.1) {
            let j = choose|j: int| 0 <= j < n && #[trigger] hashes[j] == k.1;
            if j < i {
                assert(among(hashes, i as nat, k.1));
            }
        } else if k.0 == COLUMN_TRANSACTION_INFO {
            assert(hashes[i] != k.1);
            if among(hashes, i as nat, k.1) {
                let j = choose|j: int| 0 <= j < i && #[trigger] hashes[j] == k.1;
                assert(among(hashes, n, k.1));
            }
        }
    }
}

proof fn lemma_without_tx_infos(t: Table, hashes: Seq<Seq<u8>>, n: nat, k: (Col, Seq<u8>))
    requires
        n <= hashes.len(),
    ensures
        without_tx_infos(t, hashes, n).contains_key(k) <==> t.contains_key(k) && !(k.0
            == COLUMN_TRANSACTION_INFO && among(hashes, n, k.1)),
        without_tx_infos(t, hashes, n).contains_key(k) ==> without_tx_infos(t, hashes, n)[k]
            == t[k],
    decreases n,
{
    if n > 0 {
        let i = (n - 1) as int;
        lemma_without_tx_infos(t, hashes, i as nat, k);
        if k.0 == COLUMN_TRANSACTION_INFO && among(hashes, n, k.1) {
            let j = choose|j: int| 0 <= j < n && #[trigger] hashes[j] == k.1;
            if j < i {
                assert(among(hashes, i as nat, k.1));
            }
        } else if k.0 == COLUMN_TRANSACTION_INFO {
            assert(hashes[i] != k.1);
            if among(hashes, i as nat, k.1) {
                let j = choose|j: int| 0 <= j < i && #[trigger] hashes[j] == k.1;
                assert(among(hashes, n, k.1));
            }
        }
    }
}

/// Whether no later one of `hashes` is the same as the one at `i`.
pub open spec fn last_of_its_hash(hashes: Seq<Seq<u8>>, i: int) -> bool {
    forall|j: int| i < j < hashes.len() ==> #[trigger] hashes[j] != hashes[i]
}

proof fn lemma_tx_info_value(
    t: Table,
    block_hash: Seq<u8>,
    number: u64,
    hashes: Seq<Seq<u8>>,
    n: nat,
    i: int,
)
    requires
        0 <= i < n <= hashes.len(),
        forall|j: int| i < j < n ==> #[trigger] hashes[j] != hashes[i],
    ensures
        with_tx_infos(t, block_hash, number, hashes, n).contains_key(
            (COLUMN_TRANSACTION_INFO, hashes[i]),
        ),
        with_tx_infos(t, block_hash, number, hashes, n)[(COLUMN_TRANSACTION_INFO, hashes[i])]
            == transaction_info(block_hash, i as u32, number),
    decreases n,
{
    if i < n - 1 {
        assert(hashes[n - 1] != hashes[i]);
        lemma_tx_info_value(t, block_hash, number, hashes, (n - 1) as nat, i);
    }
}

/// What a table holds after a block was attached: the block's hash under its number,
/// its number under its hash, its hash as the tip, the root as recorded, and each
/// transaction's place under the transaction's hash; of transactions with one hash the
/// last one's place.
pub proof fn lemma_attached_table(
    t: Table,
    number: u64,
    block_hash: Seq<u8>,
    hashes: Seq<Seq<u8>>,
    branches: Map<(u8, Seq<u8>), BranchNode>,
    root: Seq<u8>,
)
    requires
        block_hash.len() == 32,
    ensures
        ({
            let a = attached_table(t, number, block_hash, hashes, branches, root);
            &&& a.contains_key((COLUMN_INDEX, number_key(number)))
            &&& a[(COLUMN_INDEX, number_key(number))] == block_hash
            &&& a.contains_key((COLUMN_INDEX, block_hash))
            &&& a[(COLUMN_INDEX, block_hash)] == number_key(number)
            &&& a.contains_key((COLUMN_INDEX, tip_block_hash_key()))
            &&& a[(COLUMN_INDEX, tip_block_hash_key())] == block_hash
            &&& a.contains_key((COLUMN_META, block_smt_root_key()))
            &&& a[(COLUMN_META, block_smt_root_key())] == root
            &&& forall|i: int|
                0 <= i < hashes.len() && last_of_its_hash(hashes, i) ==> a.contains_key(
                    (COLUMN_TRANSACTION_INFO, #[trigger] hashes[i]),
                ) && a[(COLUMN_TRANSACTION_INFO, hashes[i])] == transaction_info(
                    block_hash,
                    i as u32,
                    number,
                )
        }),
{
    let a = attached_table(t, number, block_hash, hashes, branches, root);
    let infos = with_tx_infos(t, block_hash, number, hashes, hashes.len());
    let indexed = infos.insert((COLUMN_INDEX, number_key(number)), block_hash).insert(
        (COLUMN_INDEX, block_hash),
        number_key(number),
    );
    let key = crate::types::smt_key_of(number);
    crate::types::lemma_number_key_injective(number, number);
    lemma_with_tree_path(
        indexed,
        COLUMN_BLOCK_SMT_LEAF,
        COLUMN_BLOCK_SMT_BRANCH,
        branches,
        key,
        block_hash,
        (COLUMN_INDEX, number_key(number)),
    );
    lemma_with_tree_path(
        indexed,
        COLUMN_BLOCK_SMT_LEAF,
        COLUMN_BLOCK_SMT_BRANCH,
        branches,
        key,
        block_hash,
        (COLUMN_INDEX, block_hash),
    );
    assert forall|i: int| 0 <= i < hashes.len() && last_of_its_hash(hashes, i) implies a.contains_key(
        (COLUMN_TRANSACTION_INFO, #[trigger] hashes[i]),
    ) && a[(COLUMN_TRANSACTION_INFO, hashes[i])] == transaction_info(
        block_hash,
        i as u32,
        number,
    ) by {
        lemma_tx_info_value(t, block_hash, number, hashes, hashes.len(), i);
        lemma_with_tree_path(
            indexed,
            COLUMN_BLOCK_SMT_LEAF,
            COLUMN_BLOCK_SMT_BRANCH,
            branches,
            key,
            block_hash,
            (COLUMN_TRANSACTION_INFO, hashes[i]),
        );
    }
}

/// What a table holds after a block was detached: nothing under the block's number,
/// under its hash and under the hashes of its transactions, the block below it as the
/// tip, and the root as recorded.
pub proof fn lemma_detached_table(
    t: Table,
    number: u64,
    block_hash: Seq<u8>,
    hashes: Seq<Seq<u8>>,
    branches: Map<(u8, Seq<u8>), BranchNode>,
    root: Seq<u8>,
    parent: Seq<u8>,
)
    requires
        block_hash.len() == 32,
    ensures
        ({
            let d = detached_table(t, number, block_hash, hashes, branches, root, parent);
            &&& !d.contains_key((COLUMN_INDEX, number_key(number)))
            &&& !d.contains_key((COLUMN_INDEX, block_hash))
            &&& d.contains_key((COLUMN_INDEX, tip_block_hash_key()))
            &&& d[(COLUMN_INDEX, tip_block_hash_key())] == parent
            &&& d.contains_key((COLUMN_META, block_smt_root_key()))
            &&& d[(COLUMN_META, block_smt_root_key())] == root
            &&& forall|i: int|
                0 <= i < hashes.len() ==> !d.contains_key(
                    (COLUMN_TRANSACTION_INFO, #[trigger] hashes[i]),
                )
        }),
{
    let d = detached_table(t, number, block_hash, hashes, branches, root, parent);
    let cleared = without_tx_infos(t, hashes, hashes.len()).remove(
        (COLUMN_INDEX, number_key(number)),
    ).remove((COLUMN_INDEX, block_hash));
    let key = crate::types::smt_key_of(number);
    crate::types::lemma_number_key_injective(number, number);
    lemma_with_tree_path(
        cleared,
        COLUMN_BLOCK_SMT_LEAF,
        COLUMN_BLOCK_SMT_BRANCH,
        branches,
        key,
        zero32(),
        (COLUMN_INDEX, number_key(number)),
    );
    lemma_with_tree_path(
        cleared,
        COLUMN_BLOCK_SMT_LEAF,
        COLUMN_BLOCK_SMT_BRANCH,
        branches,
        key,
        zero32(),
        (COLUMN_INDEX, block_hash),
    );
    assert forall|i: int| 0 <= i < hashes.len() implies !d.contains_key(
        (COLUMN_TRANSACTION_INFO, #[trigger] hashes[i]),
    ) by {
        lemma_without_tx_infos(t, hashes, hashes.len(), (COLUMN_TRANSACTION_INFO, hashes[i]));
        assert(among(hashes, hashes.len(), hashes[i]));
        lemma_with_tree_path(
            cleared,
            COLUMN_BLOCK_SMT_LEAF,
            COLUMN_BLOCK_SMT_BRANCH,
            branches,
            key,
            zero32(),
            (COLUMN_TRANSACTION_INFO, hashes[i]),
        );
    }
}

/// The composite key of the transaction at the place `i` of a block.
pub open spec fn key_at(block_hash: Seq<u8>, i: int) -> Seq<u8> {
    transaction_key(block_hash, i as u32)
}

proof fn lemma_block_rows(
    t: Table,
    block_hash: Seq<u8>,
    txs: Seq<L2Transaction>,
    receipts: Seq<Vec<u8>>,
    n: nat,
    k: (Col, Seq<u8>),
)
    requires
        n <= txs.len(),
        n <= receipts.len(),
        n <= u32::MAX,
    ensures
        k.0 != COLUMN_TRANSACTION && k.0 != COLUMN_TRANSACTION_RECEIPT ==> (with_block_rows(
            t,
            block_hash,
            txs,
            receipts,
            n,
        ).contains_key(k) <==> t.contains_key(k)) && with_block_rows(
            t,
            block_hash,
            txs,
            receipts,
            n,
        )[k] == t[k],
        forall|i: int|
            0 <= i < n && k == (COLUMN_TRANSACTION, #[trigger] key_at(block_hash, i))
                ==> with_block_rows(t, block_hash, txs, receipts, n).contains_key(k)
                && with_block_rows(t, block_hash, txs, receipts, n)[k] == txs[i].bytes@,
        forall|i: int|
            0 <= i < n && k == (COLUMN_TRANSACTION_RECEIPT, #[trigger] key_at(block_hash, i))
                ==> with_block_rows(t, block_hash, txs, receipts, n).contains_key(k)
                && with_block_rows(t, block_hash, txs, receipts, n)[k] == receipts[i]@,
    decreases n,
{
    if n > 0 {
        lemma_block_rows(t, block_hash, txs, receipts, (n - 1) as nat, k);
        let last = (n - 1) as int;
        assert forall|i: int| 0 <= i < n - 1 implies #[trigger] key_at(block_hash, i) != key_at(
            block_hash,
            last,
        ) by {
            lemma_index_key(block_hash, i as u32, last as u32);
        }
    }
}

proof fn lemma_index_key(block_hash: Seq<u8>, i: u32, j: u32)
    requires
        i != j,
    ensures
        transaction_key(block_hash, i) != transaction_key(block_hash, j),
{
    let a = transaction_key(block_hash, i);
    let b = transaction_key(block_hash, j);
    let n = block_hash.len() as int;
    if a == b {
        assert(a.subrange(n, n + 4) =~= crate::keys::be_bytes4(i));
        assert(b.subrange(n, n + 4) =~= crate::keys::be_bytes4(j));
        assert(crate::keys::be_value4(crate::keys::be_bytes4(i)) == i);
        assert(crate::keys::be_value4(crate::keys::be_bytes4(j)) == j);
    }
}

/// Whether `a` holds the transaction at the place `i` of a block, and its receipt,
/// under the composite key of that place.
pub open spec fn holds_row(
    a: Table,
    block_hash: Seq<u8>,
    txs: Seq<L2Transaction>,
    receipts: Seq<Vec<u8>>,
    i: int,
) -> bool {
    let key = key_at(block_hash, i);
    &&& a.contains_key((COLUMN_TRANSACTION, key))
    &&& a[(COLUMN_TRANSACTION, key)] == txs[i].bytes@
    &&& a.contains_key((COLUMN_TRANSACTION_RECEIPT, key))
    &&& a[(COLUMN_TRANSACTION_RECEIPT, key)] == receipts[i]@
}

/// What a table holds after a block was inserted: the block and its header info under
/// the block's hash, and each transaction and its receipt under the composite key of
/// its place.
pub proof fn lemma_inserted_table(
    t: Table,
    block: L2Block,
    header_info: Seq<u8>,
    receipts: Seq<Vec<u8>>,
)
    requires
        block.transactions@.len() == receipts.len(),
        block.transactions@.len() <= u32::MAX,
    ensures
        ({
            let a = inserted_table(t, block, header_info, receipts);
            let hash = block.hash_spec();
            &&& a.contains_key((COLUMN_BLOCK, hash))
            &&& a[(COLUMN_BLOCK, hash)] == block.bytes@
            &&& a.contains_key((COLUMN_SYNC_BLOCK_HEADER_INFO, hash))
            &&& a[(COLUMN_SYNC_BLOCK_HEADER_INFO, hash)] == header_info
            &&& forall|i: int|
                0 <= i < receipts.len() ==> #[trigger] holds_row(
                    a,
                    hash,
                    block.transactions@,
                    receipts,
                    i,
                )
        }),
{
    let hash = block.hash_spec();
    let a = inserted_table(t, block, header_info, receipts);
    let base = t.insert((COLUMN_BLOCK, hash), block.bytes@).insert(
        (COLUMN_SYNC_BLOCK_HEADER_INFO, hash),
        header_info,
    );
    let n = block.transactions@.len();
    lemma_block_rows(base, hash, block.transactions@, receipts, n, (COLUMN_BLOCK, hash));
    lemma_block_rows(
        base,
        hash,
        block.transactions@,
        receipts,
        n,
        (COLUMN_SYNC_BLOCK_HEADER_INFO, hash),
    );
    assert forall|i: int| 0 <= i < receipts.len() implies #[trigger] holds_row(
        a,
        hash,
        block.transactions@,
        receipts,
        i,
    ) by {
        let key = key_at(hash, i);
        lemma_block_rows(
            base,
            hash,
            block.transactions@,
            receipts,
            n,
            (COLUMN_TRANSACTION, key),
        );
        lemma_block_rows(
            base,
            hash,
            block.transactions@,
            receipts,
            n,
            (COLUMN_TRANSACTION_RECEIPT, key),
        );
    }
}

/// Whether two tables hold the same outside the two columns of the block tree.
pub open spec fn same_but_block_tree(a: Table, b: Table) -> bool {
    forall|k: (Col, Seq<u8>)|
        #![trigger a.contains_key(k)]
        k.0 != COLUMN_BLOCK_SMT_LEAF && k.0 != COLUMN_BLOCK_SMT_BRANCH ==> (a.contains_key(k)
            <==> b.contains_key(k)) && (a.contains_key(k) ==> a[k] == b[k])
}

proof fn lemma_with_tree_branches(
    t: Table,
    branch_col: Col,
    branches: Map<(u8, Seq<u8>), BranchNode>,
    key: Seq<u8>,
    n: nat,
    k: (Col, Seq<u8>),
)
    requires
        k.0 != branch_col,
    ensures
        with_tree_branches(t, branch_col, branches, key, n).contains_key(k) <==> t.contains_key(k),
        with_tree_branches(t, branch_col, branches, key, n)[k] == t[k],
    decreases n,
{
    if n > 0 {
        lemma_with_tree_branches(t, branch_col, branches, key, (n - 1) as nat, k);
    }
}

/// Writing a leaf and the branches above it changes nothing outside the two columns of
/// the tree.
pub proof fn lemma_with_tree_path(
    t: Table,
    leaf_col: Col,
    branch_col: Col,
    branches: Map<(u8, Seq<u8>), BranchNode>,
    key: Seq<u8>,
    value: Seq<u8>,
    k: (Col, Seq<u8>),
)
    requires
        k.0 != leaf_col,
        k.0 != branch_col,
    ensures
        with_tree_path(t, leaf_col, branch_col, branches, key, value).contains_key(k)
            <==> t.contains_key(k),
        with_tree_path(t, leaf_col, branch_col, branches, key, value)[k] == t[k],
{
    lemma_with_tree_branches(
        with_tree_leaf(t, leaf_col, key, value),
        branch_col,
        branches,
        key,
        256,
        k,
    );
}

/// Whether attaching or detaching the block `number` with the hash `block_hash` and
/// the transactions `hashes` writes under `k`: the index rows of the block's
/// transactions, of its number and of its hash, the tip in the index, the recorded root
/// of the block tree, and the two columns of the block tree.
pub open spec fn block_writes(
    number: u64,
    block_hash: Seq<u8>,
    hashes: Seq<Seq<u8>>,
    k: (Col, Seq<u8>),
) -> bool {
    ||| k.0 == COLUMN_TRANSACTION_INFO && among(hashes, hashes.len(), k.1)
    ||| k == (COLUMN_INDEX, number_key(number))
    ||| k == (COLUMN_INDEX, block_hash)
    ||| k == (COLUMN_INDEX, tip_block_hash_key())
    ||| k == (COLUMN_META, block_smt_root_key())
    ||| k.0 == COLUMN_BLOCK_SMT_LEAF
    ||| k.0 == COLUMN_BLOCK_SMT_BRANCH
}

/// Attaching a block leaves every row as it was that it does not write: blocks,
/// transactions, receipts, header infos, scripts, data, the account tree's columns, the
/// meta column but for the recorded root of the block tree, and the index rows of
/// other blocks.
pub proof fn lemma_attach_leaves_the_rest(
    t: Table,
    number: u64,
    block_hash: Seq<u8>,
    hashes: Seq<Seq<u8>>,
    branches: Map<(u8, Seq<u8>), BranchNode>,
    root: Seq<u8>,
    k: (Col, Seq<u8>),
)
    requires
        !block_writes(number, block_hash, hashes, k),
    ensures
        attached_table(t, number, block_hash, hashes, branches, root).contains_key(k)
            <==> t.contains_key(k),
        t.contains_key(k) ==> attached_table(t, number, block_hash, hashes, branches, root)[k]
            == t[k],
{
    let indexed = with_tx_infos(t, block_hash, number, hashes, hashes.len()).insert(
        (COLUMN_INDEX, number_key(number)),
        block_hash,
    ).insert((COLUMN_INDEX, block_hash), number_key(number));
    lemma_with_tx_infos(t, block_hash, number, hashes, hashes.len(), k);
    lemma_with_tree_path(
        indexed,
        COLUMN_BLOCK_SMT_LEAF,
        COLUMN_BLOCK_SMT_BRANCH,
        branches,
        crate::types::smt_key_of(number),
        block_hash,
        k,
    );
}

/// Detaching a block leaves every row as it was that it does not write: the block
/// stays known, with its transactions, receipts and header info.
pub proof fn lemma_detach_leaves_the_rest(
    t: Table,
    number: u64,
    block_hash: Seq<u8>,
    hashes: Seq<Seq<u8>>,
    branches: Map<(u8, Seq<u8>), BranchNode>,
    root: Seq<u8>,
    parent: Seq<u8>,
    k: (Col, Seq<u8>),
)
    requires
        !block_writes(number, block_hash, hashes, k),
    ensures
        detached_table(t, number, block_hash, hashes, branches, root, parent).contains_key(k)
            <==> t.contains_key(k),
        t.contains_key(k) ==> detached_table(
            t,
            number,
            block_hash,
            hashes,
            branches,
            root,
            parent,
        )[k] == t[k],
{
    let cleared = without_tx_infos(t, hashes, hashes.len()).remove(
        (COLUMN_INDEX, number_key(number)),
    ).remove((COLUMN_INDEX, block_hash));
    lemma_without_tx_infos(t, hashes, hashes.len(), k);
    lemma_with_tree_path(
        cleared,
        COLUMN_BLOCK_SMT_LEAF,
        COLUMN_BLOCK_SMT_BRANCH,
        branches,
        crate::types::smt_key_of(number),
        zero32(),
        k,
    );
}

/// Detaching undoes attaching. Take a table and block-tree leaves, and a block that is
/// new to them: the index holds neither its number nor its hash nor any of its
/// transactions, the tree holds nothing under its key, and the tip is the block below
/// it. Attach the block, then detach it, whatever branches the tree has after each
/// step. The leaves are the ones before, the index and the tip are as before, and the
/// recorded root is the root of those leaves; nothing else has changed outside the two
/// columns of the block tree.
pub proof fn lemma_detach_undoes_attach(
    t: Table,
    leaves: Map<Seq<u8>, Seq<u8>>,
    number: u64,
    block_hash: Seq<u8>,
    hashes: Seq<Seq<u8>>,
    attached_branches: Map<(u8, Seq<u8>), BranchNode>,
    detached_branches: Map<(u8, Seq<u8>), BranchNode>,
)
    requires
        block_hash.len() == 32,
        !t.contains_key((COLUMN_INDEX, number_key(number))),
        !t.contains_key((COLUMN_INDEX, block_hash)),
        forall|i: int|
            0 <= i < hashes.len() ==> !t.contains_key((COLUMN_TRANSACTION_INFO, #[trigger] hashes[i])),
        !leaves.contains_key(crate::types::smt_key_of(number)),
        parent_hash(t, number) is Ok,
        t.contains_key((COLUMN_INDEX, tip_block_hash_key())),
        t[(COLUMN_INDEX, tip_block_hash_key())] == parent_hash(t, number)->Ok_0,
    ensures
        ({
            let key = crate::types::smt_key_of(number);
            let grown = leaves_after(leaves, key, block_hash);
            let attached = attached_table(
                t,
                number,
                block_hash,
                hashes,
                attached_branches,
                merkle_root(grown),
            );
            let shrunk = leaves_after(grown, key, zero32());
            &&& parent_hash(attached, number) == parent_hash(t, number)
            &&& shrunk == leaves
            &&& same_but_block_tree(
                detached_table(
                    attached,
                    number,
                    block_hash,
                    hashes,
                    detached_branches,
                    merkle_root(shrunk),
                    parent_hash(t, number)->Ok_0,
                ),
                t.insert((COLUMN_META, block_smt_root_key()), merkle_root(leaves)),
            )
        }),
{
    let key = crate::types::smt_key_of(number);
    let grown = leaves_after(leaves, key, block_hash);
    let root = merkle_root(grown);
    let attached = attached_table(t, number, block_hash, hashes, attached_branches, root);
    let shrunk = leaves_after(grown, key, zero32());
    let parent = parent_hash(t, number)->Ok_0;
    let n = hashes.len();
    let below = (COLUMN_INDEX, number_key((number - 1) as u64));
    crate::types::lemma_number_key_injective(number, (number - 1) as u64);
    assert(shrunk =~= leaves);
    let indexed = with_tx_infos(t, block_hash, number, hashes, n).insert(
        (COLUMN_INDEX, number_key(number)),
        block_hash,
    ).insert((COLUMN_INDEX, block_hash), number_key(number));
    lemma_with_tx_infos(t, block_hash, number, hashes, n, below);
    lemma_with_tree_path(
        indexed,
        COLUMN_BLOCK_SMT_LEAF,
        COLUMN_BLOCK_SMT_BRANCH,
        attached_branches,
        key,
        block_hash,
        below,
    );
    assert(attached.contains_key(below) <==> t.contains_key(below));
    assert(attached[below] == t[below]);
    let cleared = without_tx_infos(attached, hashes, n).remove(
        (COLUMN_INDEX, number_key(number)),
    ).remove((COLUMN_INDEX, block_hash));
    let result = detached_table(
        attached,
        number,
        block_hash,
        hashes,
        detached_branches,
        merkle_root(shrunk),
        parent,
    );
    let want = t.insert((COLUMN_META, block_smt_root_key()), merkle_root(leaves));
    assert forall|k: (Col, Seq<u8>)|
        #![trigger result.contains_key(k)]
        k.0 != COLUMN_BLOCK_SMT_LEAF && k.0 != COLUMN_BLOCK_SMT_BRANCH implies (
        result.contains_key(k) <==> want.contains_key(k)) && (result.contains_key(k)
        ==> result[k] == want[k]) by {
        lemma_with_tx_infos(t, block_hash, number, hashes, n, k);
        lemma_with_tree_path(
            indexed,
            COLUMN_BLOCK_SMT_LEAF,
            COLUMN_BLOCK_SMT_BRANCH,
            attached_branches,
            key,
            block_hash,
            k,
        );
        lemma_without_tx_infos(attached, hashes, n, k);
        lemma_with_tree_path(
            cleared,
            COLUMN_BLOCK_SMT_LEAF,
            COLUMN_BLOCK_SMT_BRANCH,
            detached_branches,
            key,
            zero32(),
            k,
        );
        if k.0 == COLUMN_TRANSACTION_INFO && among(hashes, n, k.1) {
            let j = choose|j: int| 0 <= j < n && #[trigger] hashes[j] == k.1;
            assert(!t.contains_key((COLUMN_TRANSACTION_INFO, hashes[j])));
        }
    }
}

/// Whether a transaction that was opened on a store holding `found` and now holds
/// `left` has moved the tip: `left` holds another value than `found` under the tip's
/// key, in the meta column or in the index.
pub open spec fn tip_moved(found: Table, left: Table) -> bool {
    value_at(left, COLUMN_META, tip_block_hash_key()) != value_at(
        found,
        COLUMN_META,
        tip_block_hash_key(),
    ) || value_at(left, COLUMN_INDEX, tip_block_hash_key()) != value_at(
        found,
        COLUMN_INDEX,
        tip_block_hash_key(),
    )
}

/// The store, as its table and its stamp, after the first `n` of a run of transactions
/// have tried to commit, one after the other. All were opened on the store `found` and
/// read the tip for update there; transaction `i` holds the table `left[i]`. A commit
/// that is accepted puts the transaction's table in the place of the store's, and the
/// engine stamps it with `stamps[i]`; one that is refused leaves the store as it is.
pub open spec fn store_after(
    found: (Table, u64),
    left: Seq<Table>,
    stamps: Seq<u64>,
    n: nat,
) -> (Table, u64)
    decreases n,
{
    if n == 0 {
        found
    } else {
        let before = store_after(found, left, stamps, (n - 1) as nat);
        if commit_outcome(Some(tip_of(found.0, found.1)), tip_of(before.0, before.1)) is Ok {
            (left[n - 1], stamps[n - 1])
        } else {
            before
        }
    }
}

/// How the commit of transaction `i` of such a run ends.
pub open spec fn outcome_of(found: (Table, u64), left: Seq<Table>, stamps: Seq<u64>, i: int) -> Result<
    (),
    Error,
> {
    let before = store_after(found, left, stamps, i as nat);
    commit_outcome(Some(tip_of(found.0, found.1)), tip_of(before.0, before.1))
}

/// Of any number of transactions that read the tip for update on one store and each
/// moved the tip, one commits, in whatever order they come to commit. The first is
/// accepted. Every later one is refused with a conflict, and the store holds, after
/// each of them, the table that the first one left.
pub proof fn lemma_one_tip_commits(
    found: (Table, u64),
    left: Seq<Table>,
    stamps: Seq<u64>,
    i: int,
)
    requires
        left.len() == stamps.len(),
        0 <= i < left.len(),
        forall|k: int| 0 <= k < left.len() ==> tip_moved(found.0, #[trigger] left[k]),
    ensures
        outcome_of(found, left, stamps, 0) is Ok,
        i > 0 ==> outcome_of(found, left, stamps, i) is Err && outcome_of(
            found,
            left,
            stamps,
            i,
        )->Err_0 == Error::TxConflict,
        store_after(found, left, stamps, (i + 1) as nat) == (left[0], stamps[0]),
    decreases i,
{
    assert(tip_moved(found.0, left[0]));
    if i > 0 {
        lemma_one_tip_commits(found, left, stamps, i - 1);
    }
}

/// A block that is attached moves the tip, unless the index held it as the tip already.
pub proof fn lemma_attach_moves_tip(
    t: Table,
    number: u64,
    block_hash: Seq<u8>,
    hashes: Seq<Seq<u8>>,
    branches: Map<(u8, Seq<u8>), BranchNode>,
    root: Seq<u8>,
)
    requires
        value_at(t, COLUMN_INDEX, tip_block_hash_key()) != Some(block_hash),
    ensures
        tip_moved(t, attached_table(t, number, block_hash, hashes, branches, root)),
        value_at(
            attached_table(t, number, block_hash, hashes, branches, root),
            COLUMN_INDEX,
            tip_block_hash_key(),
        ) == Some(block_hash),
{
}

/// A block that is detached moves the tip, unless the index held the block below as the
/// tip already.
pub proof fn lemma_detach_moves_tip(
    t: Table,
    number: u64,
    block_hash: Seq<u8>,
    hashes: Seq<Seq<u8>>,
    branches: Map<(u8, Seq<u8>), BranchNode>,
    root: Seq<u8>,
    parent: Seq<u8>,
)
    requires
        value_at(t, COLUMN_INDEX, tip_block_hash_key()) != Some(parent),
    ensures
        tip_moved(t, detached_table(t, number, block_hash, hashes, branches, root, parent)),
{
}

/// A tip that is put under the tip's key in the meta column moves the tip, unless the
/// key held it already.
pub proof fn lemma_insert_tip_moves_tip(t: Table, hash: Seq<u8>)
    requires
        value_at(t, COLUMN_META, tip_block_hash_key()) != Some(hash),
    ensures
        tip_moved(t, t.insert((COLUMN_META, tip_block_hash_key()), hash)),
{
}

/// A store that shows another stamp than a transaction saw refuses the transaction,
/// whatever it holds: a tip that was written with the value it had, or moved away and
/// back, is a written tip.
pub proof fn lemma_stamp_conflicts(seen: TipSeen, now: TipSeen)
    requires
        seen.2 != now.2,
    ensures
        commit_outcome(Some(seen), now) is Err,
        commit_outcome(Some(seen), now)->Err_0 == Error::TxConflict,
{
}

} // verus!
