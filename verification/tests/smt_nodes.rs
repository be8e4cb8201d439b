use rollup_core::error::{Error, SmtFailure};
use rollup_core::keys::{
    COLUMN_ACCOUNT_SMT_BRANCH, COLUMN_ACCOUNT_SMT_LEAF, COLUMN_BLOCK_SMT_BRANCH,
    COLUMN_BLOCK_SMT_LEAF,
};
use rollup_core::kv::KvTable;
use rollup_core::smt::codec::{
    branch_key_to_vec, branch_node_to_vec, slice_to_branch_node, BranchKey, BranchNode,
    MergeValue,
};
use rollup_core::smt::store::{SMTBlockStore, SMTStoreTransaction};
use rollup_core::transaction::StoreTransaction;

fn key(height: u8) -> BranchKey {
    BranchKey { height, node_key: [height.wrapping_add(1); 32] }
}

fn nodes() -> Vec<BranchNode> {
    let v = MergeValue::Value([3u8; 32]);
    let z = MergeValue::Value([0u8; 32]);
    let m = MergeValue::MergeWithZero { base_node: [4u8; 32], zero_bits: [5u8; 32], zero_count: 6 };
    let m0 =
        MergeValue::MergeWithZero { base_node: [0u8; 32], zero_bits: [0u8; 32], zero_count: 0 };
    vec![
        BranchNode { left: v, right: v },
        BranchNode { left: v, right: m },
        BranchNode { left: m, right: z },
        BranchNode { left: m, right: m0 },
        BranchNode { left: z, right: z },
    ]
}

#[test]
fn branch_key_is_height_then_path() {
    let bytes = branch_key_to_vec(&key(7));
    assert_eq!(bytes.len(), 33);
    assert_eq!(bytes[0], 7);
    assert_eq!(&bytes[1..], &[8u8; 32][..]);
}

#[test]
fn branch_node_layout() {
    let node = BranchNode {
        left: MergeValue::Value([3u8; 32]),
        right: MergeValue::MergeWithZero {
            base_node: [4u8; 32],
            zero_bits: [5u8; 32],
            zero_count: 6,
        },
    };
    let bytes = branch_node_to_vec(&node);
    assert_eq!(bytes.len(), 132);
    assert_eq!(bytes[0], 0);
    assert_eq!(&bytes[1..33], &[3u8; 32][..]);
    assert_eq!(&bytes[33..66], &[0u8; 33][..]);
    assert_eq!(bytes[66], 1);
    assert_eq!(&bytes[67..99], &[4u8; 32][..]);
    assert_eq!(&bytes[99..131], &[5u8; 32][..]);
    assert_eq!(bytes[131], 6);
}

#[test]
fn branch_nodes_decode_to_themselves() {
    for node in nodes() {
        assert_eq!(slice_to_branch_node(&branch_node_to_vec(&node)), Ok(node));
    }
}

#[test]
fn corrupt_branch_nodes_are_refused() {
    let good = branch_node_to_vec(&nodes()[0]);
    assert_eq!(slice_to_branch_node(&good[..131]), Err(Error::StoreCorruption));
    assert_eq!(slice_to_branch_node(&[]), Err(Error::StoreCorruption));
    let mut longer = good.clone();
    longer.push(0);
    assert_eq!(slice_to_branch_node(&longer), Err(Error::StoreCorruption));
    let mut tag = good.clone();
    tag[0] = 2;
    assert_eq!(slice_to_branch_node(&tag), Err(Error::StoreCorruption));
    let mut right_tag = good.clone();
    right_tag[66] = 9;
    assert_eq!(slice_to_branch_node(&right_tag), Err(Error::StoreCorruption));
    let mut padding = good.clone();
    padding[40] = 1;
    assert_eq!(slice_to_branch_node(&padding), Err(Error::StoreCorruption));
    let mut count = good.clone();
    count[65] = 1;
    assert_eq!(slice_to_branch_node(&count), Err(Error::StoreCorruption));
}

#[test]
fn block_store_keeps_nodes_in_the_block_columns() {
    let mut store = SMTBlockStore::new(KvTable::new());
    let node = nodes()[1];
    assert_eq!(store.get_branch(&key(1)), Ok(None));
    assert_eq!(store.get_leaf(&[1u8; 32]), Ok(None));
    assert_eq!(store.insert_branch(key(1), node), Ok(()));
    assert_eq!(store.insert_leaf([1u8; 32], [2u8; 32]), Ok(()));
    assert_eq!(store.get_branch(&key(1)), Ok(Some(node)));
    assert_eq!(store.get_branch(&key(2)), Ok(None));
    assert_eq!(store.get_leaf(&[1u8; 32]), Ok(Some([2u8; 32])));
    assert_eq!(
        store.inner_store().get(COLUMN_BLOCK_SMT_BRANCH, &branch_key_to_vec(&key(1))),
        Some(branch_node_to_vec(&node))
    );
    assert_eq!(store.inner_store().get(COLUMN_BLOCK_SMT_LEAF, &[1u8; 32]), Some(vec![2u8; 32]));
    assert_eq!(store.remove_branch(&key(1)), Ok(()));
    assert_eq!(store.remove_leaf(&[1u8; 32]), Ok(()));
    assert_eq!(store.get_branch(&key(1)), Ok(None));
    assert_eq!(store.get_leaf(&[1u8; 32]), Ok(None));
}

#[test]
fn corrupted_rows_are_store_corruption() {
    let mut table = KvTable::new();
    table.insert(COLUMN_BLOCK_SMT_LEAF, &[1u8; 32], &[2u8; 31]);
    table.insert(COLUMN_BLOCK_SMT_LEAF, &[2u8; 32], &[]);
    table.insert(COLUMN_BLOCK_SMT_BRANCH, &branch_key_to_vec(&key(1)), &[0u8; 131]);
    let store = SMTBlockStore::new(table);
    assert_eq!(store.get_leaf(&[1u8; 32]), Err(Error::StoreCorruption));
    assert_eq!(store.get_leaf(&[2u8; 32]), Err(Error::StoreCorruption));
    assert_eq!(store.get_branch(&key(1)), Err(Error::StoreCorruption));
}

#[test]
fn transaction_adapter_uses_the_columns_it_names() {
    let adapter = SMTStoreTransaction::new(COLUMN_ACCOUNT_SMT_LEAF, COLUMN_ACCOUNT_SMT_BRANCH);
    assert_eq!(adapter.leaf_col, COLUMN_ACCOUNT_SMT_LEAF);
    assert_eq!(adapter.branch_col, COLUMN_ACCOUNT_SMT_BRANCH);
    let mut store = StoreTransaction::new();
    let node = nodes()[2];
    assert_eq!(adapter.get_branch(&store, &key(3)), Ok(None));
    assert_eq!(adapter.insert_branch(&mut store, key(3), node), Ok(()));
    assert_eq!(adapter.insert_leaf(&mut store, [1u8; 32], [9u8; 32]), Ok(()));
    assert_eq!(adapter.get_branch(&store, &key(3)), Ok(Some(node)));
    assert_eq!(adapter.get_leaf(&store, &[1u8; 32]), Ok(Some([9u8; 32])));
    assert_eq!(
        store.get(COLUMN_ACCOUNT_SMT_BRANCH, &branch_key_to_vec(&key(3))),
        Some(branch_node_to_vec(&node))
    );
    assert_eq!(store.get(COLUMN_BLOCK_SMT_BRANCH, &branch_key_to_vec(&key(3))), None);
    let block = SMTStoreTransaction::new(COLUMN_BLOCK_SMT_LEAF, COLUMN_BLOCK_SMT_BRANCH);
    assert_eq!(block.get_leaf(&store, &[1u8; 32]), Ok(None));
    assert_eq!(adapter.remove_branch(&mut store, &key(3)), Ok(()));
    assert_eq!(adapter.remove_leaf(&mut store, &[1u8; 32]), Ok(()));
    assert_eq!(adapter.get_branch(&store, &key(3)), Ok(None));
    assert_eq!(adapter.get_leaf(&store, &[1u8; 32]), Ok(None));
    store.insert_raw(COLUMN_ACCOUNT_SMT_LEAF, &[1u8; 32], b"short").unwrap();
    assert_eq!(adapter.get_leaf(&store, &[1u8; 32]), Err(Error::StoreCorruption));
}

/// A store that holds nothing and refuses every write.
struct ReadOnly;

impl rollup_core::kv::KVStore for ReadOnly {
    fn table(&self) -> rollup_core::kv::Table {
        unreachable!()
    }

    fn get(&self, _col: u8, _key: &[u8]) -> Option<Vec<u8>> {
        None
    }

    fn insert_raw(&mut self, _col: u8, _key: &[u8], _value: &[u8]) -> Result<(), Error> {
        Err(Error::TxConflict)
    }

    fn delete(&mut self, _col: u8, _key: &[u8]) -> Result<(), Error> {
        Err(Error::TxConflict)
    }
}

#[test]
fn refused_writes_are_tree_errors() {
    let mut store = SMTBlockStore::new(ReadOnly);
    assert_eq!(store.insert_branch(key(1), nodes()[0]), Err(Error::SmtError(SmtFailure::Insert)));
    assert_eq!(store.insert_leaf([1u8; 32], [2u8; 32]), Err(Error::SmtError(SmtFailure::Insert)));
    assert_eq!(store.remove_branch(&key(1)), Err(Error::SmtError(SmtFailure::Delete)));
    assert_eq!(store.remove_leaf(&[1u8; 32]), Err(Error::SmtError(SmtFailure::Delete)));
    assert_eq!(store.get_branch(&key(1)), Ok(None));
}
