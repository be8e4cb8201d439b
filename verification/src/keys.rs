//! The keyspaces of the store and the byte layout of the keys in them.
use vstd::prelude::*;
use crate::bytes::{copy_bytes, to_array32};
use crate::hash::Byte32;

verus! {

/// A column: one keyspace of the store.
pub type Col = u8;

pub const COLUMN_META: Col = 0;
pub const COLUMN_BLOCK: Col = 1;
pub const COLUMN_INDEX: Col = 2;
pub const COLUMN_TRANSACTION: Col = 3;
pub const COLUMN_TRANSACTION_INFO: Col = 4;
pub const COLUMN_TRANSACTION_RECEIPT: Col = 5;
pub const COLUMN_NUMBER_HASH: Col = 6;
pub const COLUMN_SYNC_BLOCK_HEADER_INFO: Col = 7;
pub const COLUMN_SCRIPT: Col = 8;
pub const COLUMN_DATA: Col = 9;
pub const COLUMN_ACCOUNT_SMT_BRANCH: Col = 10;
pub const COLUMN_ACCOUNT_SMT_LEAF: Col = 11;
pub const COLUMN_BLOCK_SMT_BRANCH: Col = 12;
pub const COLUMN_BLOCK_SMT_LEAF: Col = 13;

/// The key of the tip block's hash: the ASCII text `TIP_BLOCK_HASH`.
pub open spec fn tip_block_hash_key() -> Seq<u8> {
    seq![84u8, 73, 80, 95, 66, 76, 79, 67, 75, 95, 72, 65, 83, 72]
}

/// The key of the tip's global state: the ASCII text `TIP_GLOBAL_STATE`.
pub open spec fn tip_global_state_key() -> Seq<u8> {
    seq![84u8, 73, 80, 95, 71, 76, 79, 66, 65, 76, 95, 83, 84, 65, 84, 69]
}

/// The key of the block tree's root: the ASCII text `BLOCK_SMT_ROOT`.
pub open spec fn block_smt_root_key() -> Seq<u8> {
    seq![66u8, 76, 79, 67, 75, 95, 83, 77, 84, 95, 82, 79, 79, 84]
}

/// The key of the account tree's root: the ASCII text `ACCOUNT_SMT_ROOT`.
pub open spec fn account_smt_root_key() -> Seq<u8> {
    seq![65u8, 67, 67, 79, 85, 78, 84, 95, 83, 77, 84, 95, 82, 79, 79, 84]
}

/// The key of the account counter: the ASCII text `ACCOUNT_SMT_COUNT`.
pub open spec fn account_smt_count_key() -> Seq<u8> {
    seq![65u8, 67, 67, 79, 85, 78, 84, 95, 83, 77, 84, 95, 67, 79, 85, 78, 84]
}

pub fn meta_tip_block_hash_key() -> (r: Vec<u8>)
    ensures
        r@ == tip_block_hash_key(),
{
    let k: [u8; 14] = [84, 73, 80, 95, 66, 76, 79, 67, 75, 95, 72, 65, 83, 72];
    assert(k@ =~= tip_block_hash_key());
    copy_bytes(&k)
}

pub fn meta_tip_global_state_key() -> (r: Vec<u8>)
    ensures
        r@ == tip_global_state_key(),
{
    let k: [u8; 16] = [84, 73, 80, 95, 71, 76, 79, 66, 65, 76, 95, 83, 84, 65, 84, 69];
    assert(k@ =~= tip_global_state_key());
    copy_bytes(&k)
}

pub fn meta_block_smt_root_key() -> (r: Vec<u8>)
    ensures
        r@ == block_smt_root_key(),
{
    let k: [u8; 14] = [66, 76, 79, 67, 75, 95, 83, 77, 84, 95, 82, 79, 79, 84];
    assert(k@ =~= block_smt_root_key());
    copy_bytes(&k)
}

pub fn meta_account_smt_root_key() -> (r: Vec<u8>)
    ensures
        r@ == account_smt_root_key(),
{
    let k: [u8; 16] = [65, 67, 67, 79, 85, 78, 84, 95, 83, 77, 84, 95, 82, 79, 79, 84];
    assert(k@ =~= account_smt_root_key());
    copy_bytes(&k)
}

pub fn meta_account_smt_count_key() -> (r: Vec<u8>)
    ensures
        r@ == account_smt_count_key(),
{
    let k: [u8; 17] = [65, 67, 67, 79, 85, 78, 84, 95, 83, 77, 84, 95, 67, 79, 85, 78, 84];
    assert(k@ =~= account_smt_count_key());
    copy_bytes(&k)
}

/// The four bytes of `index`, most significant first.
pub open spec fn be_bytes4(index: u32) -> Seq<u8> {
    seq![
        (index / 0x100_0000) as u8,
        ((index / 0x1_0000) % 256) as u8,
        ((index / 0x100) % 256) as u8,
        (index % 256) as u8,
    ]
}

/// The number that four bytes hold, most significant first.
pub open spec fn be_value4(s: Seq<u8>) -> u32
    recommends
        s.len() == 4,
{
    (s[0] as int * 0x100_0000 + s[1] as int * 0x1_0000 + s[2] as int * 0x100 + s[3] as int) as u32
}

/// The composite key of the transaction at `index` in the block `block_hash`: the hash,
/// then the index in four bytes, most significant first.
pub open spec fn transaction_key(block_hash: Seq<u8>, index: u32) -> Seq<u8> {
    block_hash + be_bytes4(index)
}

/// The block hash and index that a 36-byte composite key holds.
pub open spec fn transaction_key_parts(key: Seq<u8>) -> (Seq<u8>, u32) {
    (key.subrange(0, 32), be_value4(key.subrange(32, 36)))
}

/// Builds the composite key of a transaction: 36 bytes.
pub fn build_transaction_key(block_hash: Byte32, index: u32) -> (key: Vec<u8>)
    ensures
        key@ == transaction_key(block_hash@, index),
        key@.len() == 36,
{
    let mut key = copy_bytes(&block_hash);
    key.push((index / 0x100_0000) as u8);
    key.push(((index / 0x1_0000) % 256) as u8);
    key.push(((index / 0x100) % 256) as u8);
    key.push((index % 256) as u8);
    assert(key@ =~= transaction_key(block_hash@, index));
    key
}

/// Takes a composite key apart. `None` for anything but 36 bytes.
pub fn decompose_transaction_key(key: &[u8]) -> (r: Option<(Byte32, u32)>)
    ensures
        r is Some <==> key@.len() == 36,
        r matches Some((h, i)) ==> (h@, i) == transaction_key_parts(key@),
{
    if key.len() != 36 {
        return None;
    }
    let h = to_array32(vstd::slice::slice_subrange(key, 0, 32));
    let index: u32 = (key[32] as u32) * 0x100_0000 + (key[33] as u32) * 0x1_0000 + (key[34] as u32)
        * 0x100 + (key[35] as u32);
    assert(key@.subrange(32, 36)[0] == key@[32]);
    assert(key@.subrange(32, 36)[1] == key@[33]);
    assert(key@.subrange(32, 36)[2] == key@[34]);
    assert(key@.subrange(32, 36)[3] == key@[35]);
    Some((h, index))
}

/// A composite key gives back the hash and the index it was built from.
pub proof fn lemma_transaction_key_decodable(block_hash: Seq<u8>, index: u32)
    requires
        block_hash.len() == 32,
    ensures
        transaction_key(block_hash, index).len() == 36,
        transaction_key_parts(transaction_key(block_hash, index)) == (block_hash, index),
{
    let key = transaction_key(block_hash, index);
    assert(key.subrange(0, 32) =~= block_hash);
    assert(key.subrange(32, 36) =~= be_bytes4(index));
}

/// Two composite keys are equal only if they were built from the same hash and index.
pub proof fn lemma_transaction_key_injective(h1: Seq<u8>, i1: u32, h2: Seq<u8>, i2: u32)
    requires
        h1.len() == 32,
        h2.len() == 32,
        transaction_key(h1, i1) == transaction_key(h2, i2),
    ensures
        h1 == h2,
        i1 == i2,
{
    lemma_transaction_key_decodable(h1, i1);
    lemma_transaction_key_decodable(h2, i2);
}

} // verus!
