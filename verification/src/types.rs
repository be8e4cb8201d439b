//! Blocks, transactions and withdrawals, as far as this library reads them.
use vstd::prelude::*;
use crate::bytes::{le_bytes, write_le};
use crate::hash::{digest, hash, Byte32};

verus! {

/// A layer-2 transaction.
#[derive(PartialEq, Eq, Clone, Debug)]
pub struct L2Transaction {
    /// The sender's account. Zero: the sender's account does not exist yet.
    pub from_id: u32,
    pub nonce: u32,
    /// The argument payload, which the backend interprets.
    pub args: Vec<u8>,
    pub signature: Vec<u8>,
    /// The serialized raw transaction: what the transaction's hash is taken of.
    pub raw: Vec<u8>,
    /// The serialized transaction.
    pub bytes: Vec<u8>,
}

impl L2Transaction {
    /// The transaction's hash: the digest of its raw part.
    pub open spec fn hash_spec(&self) -> Seq<u8> {
        digest(self.raw@)
    }

    /// The transaction's hash.
    pub fn hash(&self) -> (r: Byte32)
        ensures
            r@ == self.hash_spec(),
    {
        hash(self.raw.as_slice())
    }
}

/// A withdrawal request with what came along with it.
#[derive(PartialEq, Eq, Clone, Debug)]
pub struct WithdrawalRequestExtra {
    pub nonce: u32,
    /// The fee that the request pays to the block producer.
    pub fee: u128,
    /// The serialized raw request: what the request's hash is taken of.
    pub raw: Vec<u8>,
    /// The serialized request.
    pub bytes: Vec<u8>,
}

impl WithdrawalRequestExtra {
    /// The request's hash: the digest of its raw part.
    pub open spec fn hash_spec(&self) -> Seq<u8> {
        digest(self.raw@)
    }

    /// The request's hash.
    pub fn hash(&self) -> (r: Byte32)
        ensures
            r@ == self.hash_spec(),
    {
        hash(self.raw.as_slice())
    }
}

/// The eight bytes of a block number, least significant first: the number's key in the index.
pub open spec fn number_key(number: u64) -> Seq<u8> {
    le_bytes(number as nat, 8)
}

/// The key of block `number` in the block tree: the number's eight bytes, then zeros.
pub open spec fn smt_key_of(number: u64) -> Seq<u8> {
    number_key(number) + Seq::new(24, |i: int| 0u8)
}

/// The eight bytes of a block number, least significant first.
pub fn number_to_key(number: u64) -> (r: Vec<u8>)
    ensures
        r@ == number_key(number),
        r@.len() == 8,
{
    proof {
        crate::bytes::lemma_le_bytes_len(number as nat, 8);
    }
    write_le(number as u128, 8)
}

/// A layer-2 block.
#[derive(PartialEq, Eq, Clone, Debug)]
pub struct L2Block {
    pub number: u64,
    /// The serialized raw block: what the block's hash is taken of.
    pub raw: Vec<u8>,
    pub transactions: Vec<L2Transaction>,
    /// The serialized block.
    pub bytes: Vec<u8>,
}

impl L2Block {
    /// The block's hash: the digest of its raw part.
    pub open spec fn hash_spec(&self) -> Seq<u8> {
        digest(self.raw@)
    }

    /// The block's hash.
    pub fn hash(&self) -> (r: Byte32)
        ensures
            r@ == self.hash_spec(),
    {
        hash(self.raw.as_slice())
    }

    /// The block's key in the block tree.
    pub open spec fn smt_key_spec(&self) -> Seq<u8> {
        smt_key_of(self.number)
    }

    /// The block's key in the block tree.
    pub fn smt_key(&self) -> (r: Byte32)
        ensures
            r@ == self.smt_key_spec(),
    {
        let low = number_to_key(self.number);
        let mut r: [u8; 32] = [0u8; 32];
        let mut i: usize = 0;
        while i < 8
            invariant
                i <= 8,
                low@.len() == 8,
                forall|k: int| 0 <= k < i ==> r@[k] == low@[k],
                forall|k: int| i <= k < 32 ==> r@[k] == 0,
            decreases 8 - i,
        {
            r[i] = low[i];
            i += 1;
        }
        assert(r@ =~= self.smt_key_spec());
        r
    }
}

/// Distinct block numbers have distinct keys, in the index and in the block tree.
pub proof fn lemma_number_key_injective(a: u64, b: u64)
    ensures
        number_key(a).len() == 8,
        smt_key_of(a).len() == 32,
        number_key(a) == number_key(b) ==> a == b,
        smt_key_of(a) == smt_key_of(b) ==> a == b,
{
    crate::bytes::lemma_pow256_values();
    crate::bytes::lemma_le_bytes_len(a as nat, 8);
    crate::bytes::lemma_le_bytes_len(b as nat, 8);
    crate::bytes::lemma_le_value_of_bytes(a as nat, 8);
    crate::bytes::lemma_le_value_of_bytes(b as nat, 8);
    if smt_key_of(a) == smt_key_of(b) {
        assert(smt_key_of(a).subrange(0, 8) =~= number_key(a));
        assert(smt_key_of(b).subrange(0, 8) =~= number_key(b));
    }
}

} // verus!
