//! The byte layout of tree nodes in a store.
use vstd::prelude::*;
use vstd::slice::slice_subrange;
use crate::bytes::{append_bytes, is_zero32, to_array32, zero32};
use crate::error::Error;
use crate::hash::Byte32;

verus! {

/// Where a branch sits: its height, and the path from the root to it.
#[derive(PartialEq, Eq, Clone, Copy, Debug)]
pub struct BranchKey {
    pub height: u8,
    pub node_key: Byte32,
}

/// What a branch holds of one of its two subtrees.
#[derive(PartialEq, Eq, Clone, Copy, Debug)]
pub enum MergeValue {
    /// The subtree's hash.
    Value(Byte32),
    /// A subtree with a single non-empty side at each of `zero_count` levels.
    MergeWithZero { base_node: Byte32, zero_bits: Byte32, zero_count: u8 },
}

/// A branch: what it holds of its left and of its right subtree.
#[derive(PartialEq, Eq, Clone, Copy, Debug)]
pub struct BranchNode {
    pub left: MergeValue,
    pub right: MergeValue,
}

/// A branch key in 33 bytes: the height, then the path.
pub open spec fn branch_key_bytes(key: BranchKey) -> Seq<u8> {
    seq![key.height] + key.node_key@
}

/// One side of a branch in 66 bytes: a tag, two fields of 32 bytes and a count. A hash
/// has the tag 0, itself as the first field, and zeros after it.
pub open spec fn merge_value_bytes(v: MergeValue) -> Seq<u8> {
    match v {
        MergeValue::Value(h) => seq![0u8] + h@ + zero32() + seq![0u8],
        MergeValue::MergeWithZero { base_node, zero_bits, zero_count } => seq![1u8] + base_node@
            + zero_bits@ + seq![zero_count],
    }
}

/// A branch in 132 bytes: the left side, then the right.
pub open spec fn branch_node_bytes(node: BranchNode) -> Seq<u8> {
    merge_value_bytes(node.left) + merge_value_bytes(node.right)
}

/// Whether 66 bytes are one side of a branch.
pub open spec fn merge_value_ok(s: Seq<u8>) -> bool {
    s.len() == 66 && (s[0] == 1 || (s[0] == 0 && s.subrange(33, 65) == zero32() && s[65] == 0))
}

/// Whether bytes are a branch.
pub open spec fn branch_node_ok(s: Seq<u8>) -> bool {
    s.len() == 132 && merge_value_ok(s.subrange(0, 66)) && merge_value_ok(s.subrange(66, 132))
}

/// What decoding a branch gives: the branch whose bytes these are, or an error where
/// they are the bytes of none.
pub open spec fn decodes_to(s: Seq<u8>, r: Result<BranchNode, Error>) -> bool {
    match r {
        Ok(node) => branch_node_ok(s) && branch_node_bytes(node) == s,
        Err(e) => !branch_node_ok(s) && e == Error::StoreCorruption,
    }
}

pub fn branch_key_to_vec(key: &BranchKey) -> (r: Vec<u8>)
    ensures
        r@ == branch_key_bytes(*key),
        r@.len() == 33,
{
    let mut r: Vec<u8> = Vec::new();
    r.push(key.height);
    append_bytes(&mut r, &key.node_key);
    assert(r@ =~= branch_key_bytes(*key));
    r
}

fn append_merge_value(dst: &mut Vec<u8>, v: &MergeValue)
    ensures
        final(dst)@ == old(dst)@ + merge_value_bytes(*v),
        merge_value_bytes(*v).len() == 66,
        merge_value_ok(merge_value_bytes(*v)),
{
    match v {
        MergeValue::Value(h) => {
            let zero: [u8; 32] = [0u8; 32];
            assert(zero@ =~= zero32());
            dst.push(0);
            append_bytes(dst, h);
            append_bytes(dst, &zero);
            dst.push(0);
            assert(merge_value_bytes(*v).subrange(33, 65) =~= zero32());
        },
        MergeValue::MergeWithZero { base_node, zero_bits, zero_count } => {
            dst.push(1);
            append_bytes(dst, base_node);
            append_bytes(dst, zero_bits);
            dst.push(*zero_count);
        },
    }
    assert(dst@ =~= old(dst)@ + merge_value_bytes(*v));
}

pub fn branch_node_to_vec(node: &BranchNode) -> (r: Vec<u8>)
    ensures
        r@ == branch_node_bytes(*node),
        branch_node_ok(r@),
{
    let mut r: Vec<u8> = Vec::new();
    append_merge_value(&mut r, &node.left);
    append_merge_value(&mut r, &node.right);
    assert(r@ =~= branch_node_bytes(*node));
    assert(r@.subrange(0, 66) =~= merge_value_bytes(node.left));
    assert(r@.subrange(66, 132) =~= merge_value_bytes(node.right));
    r
}

fn slice_to_merge_value(s: &[u8]) -> (r: Option<MergeValue>)
    requires
        s@.len() == 66,
    ensures
        r is Some <==> merge_value_ok(s@),
        r matches Some(v) ==> merge_value_bytes(v) == s@,
{
    let a = to_array32(slice_subrange(s, 1, 33));
    let b = to_array32(slice_subrange(s, 33, 65));
    if s[0] == 1 {
        let v = MergeValue::MergeWithZero { base_node: a, zero_bits: b, zero_count: s[65] };
        assert(merge_value_bytes(v) =~= s@);
        Some(v)
    } else if s[0] == 0 && is_zero32(&b) && s[65] == 0 {
        let v = MergeValue::Value(a);
        assert(merge_value_bytes(v) =~= s@);
        Some(v)
    } else {
        None
    }
}

/// Decodes a branch. Bytes that are the bytes of no branch are store corruption.
pub fn slice_to_branch_node(s: &[u8]) -> (r: Result<BranchNode, Error>)
    ensures
        decodes_to(s@, r),
{
    if s.len() != 132 {
        return Err(Error::StoreCorruption);
    }
    let left = slice_to_merge_value(slice_subrange(s, 0, 66));
    let right = slice_to_merge_value(slice_subrange(s, 66, 132));
    match (left, right) {
        (Some(left), Some(right)) => {
            let node = BranchNode { left, right };
            assert(branch_node_bytes(node) =~= s@);
            Ok(node)
        },
        _ => Err(Error::StoreCorruption),
    }
}

/// Every branch has 132 bytes that decode, and two branches with the same bytes are
/// the same branch.
pub proof fn lemma_branch_node_bytes(a: BranchNode, b: BranchNode)
    ensures
        branch_node_ok(branch_node_bytes(a)),
        branch_node_bytes(a) == branch_node_bytes(b) ==> a == b,
{
    lemma_merge_value_bytes(a.left, b.left);
    lemma_merge_value_bytes(a.right, b.right);
    lemma_merge_value_bytes(b.right, b.right);
    let sa = branch_node_bytes(a);
    let sb = branch_node_bytes(b);
    assert(sa.subrange(0, 66) =~= merge_value_bytes(a.left));
    assert(sa.subrange(66, 132) =~= merge_value_bytes(a.right));
    assert(sb.subrange(0, 66) =~= merge_value_bytes(b.left));
    assert(sb.subrange(66, 132) =~= merge_value_bytes(b.right));
}

proof fn lemma_merge_value_bytes(a: MergeValue, b: MergeValue)
    ensures
        merge_value_ok(merge_value_bytes(a)),
        merge_value_bytes(a) == merge_value_bytes(b) ==> a == b,
{
    let sa = merge_value_bytes(a);
    let sb = merge_value_bytes(b);
    assert(sa.len() == 66);
    if let MergeValue::Value(h) = a {
        assert(sa.subrange(33, 65) =~= zero32());
    }
    if sa == sb {
        assert(sa[0] == sb[0]);
        lemma_fields(a);
        lemma_fields(b);
        match (a, b) {
            (MergeValue::Value(x), MergeValue::Value(y)) => {
                assert(x@ =~= y@);
                assert(x == y);
            },
            (
                MergeValue::MergeWithZero { base_node: x1, zero_bits: x2, zero_count: x3 },
                MergeValue::MergeWithZero { base_node: y1, zero_bits: y2, zero_count: y3 },
            ) => {
                assert(x1@ =~= y1@);
                assert(x2@ =~= y2@);
                assert(x1 == y1);
                assert(x2 == y2);
                assert(sa[65] == sb[65]);
            },
            _ => {},
        }
    }
}

proof fn lemma_fields(v: MergeValue)
    ensures
        v matches MergeValue::Value(h) ==> merge_value_bytes(v).subrange(1, 33) == h@,
        v matches MergeValue::MergeWithZero { base_node, zero_bits, zero_count }
            ==> merge_value_bytes(v).subrange(1, 33) == base_node@ && merge_value_bytes(
            v,
        ).subrange(33, 65) == zero_bits@ && merge_value_bytes(v)[65] == zero_count,
{
    match v {
        MergeValue::Value(h) => {
            assert(merge_value_bytes(v).subrange(1, 33) =~= h@);
        },
        MergeValue::MergeWithZero { base_node, zero_bits, zero_count } => {
            assert(merge_value_bytes(v).subrange(1, 33) =~= base_node@);
            assert(merge_value_bytes(v).subrange(33, 65) =~= zero_bits@);
        },
    }
}

} // verus!
