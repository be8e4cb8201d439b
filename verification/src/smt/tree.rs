//! The sparse Merkle tree, kept in memory by the `sparse_merkle_tree` crate.
use vstd::prelude::*;
use crate::bytes::zero32;
use crate::smt::codec::{BranchNode, MergeValue};

verus! {

#[verifier::external_type_specification]
#[verifier::external_body]
pub struct ExTreeHash(sparse_merkle_tree::H256);

#[verifier::external_type_specification]
#[verifier::external_body]
pub struct ExTreeHasher(sparse_merkle_tree::blake2b::Blake2bHasher);

#[verifier::external_type_specification]
#[verifier::external_body]
#[verifier::reject_recursive_types(V)]
pub struct ExTreeStore<V>(sparse_merkle_tree::default_store::DefaultStore<V>);

#[verifier::external_type_specification]
#[verifier::external_body]
#[verifier::reject_recursive_types(H)]
#[verifier::reject_recursive_types(V)]
#[verifier::reject_recursive_types(S)]
pub struct ExSparseMerkleTree<H, V, S>(sparse_merkle_tree::SparseMerkleTree<H, V, S>);

/// A tree of 32-byte values under 32-byte keys, with its nodes in memory.
pub type Tree = sparse_merkle_tree::SparseMerkleTree<
    sparse_merkle_tree::blake2b::Blake2bHasher,
    sparse_merkle_tree::H256,
    sparse_merkle_tree::default_store::DefaultStore<sparse_merkle_tree::H256>,
>;

/// The leaves that a tree holds: the value under each key that has one.
pub uninterp spec fn tree_leaves(tree: Tree) -> Map<Seq<u8>, Seq<u8>>;

/// Whether the tree is one that updates of the empty tree lead to: its branches and its
/// root are those that belong to its leaves.
pub uninterp spec fn tree_sound(tree: Tree) -> bool;

/// The branches that a tree holds: the node under each height and path that has one.
pub uninterp spec fn tree_branches(tree: Tree) -> Map<(u8, Seq<u8>), BranchNode>;

/// The root of the tree that holds exactly `leaves`.
pub uninterp spec fn merkle_root(leaves: Map<Seq<u8>, Seq<u8>>) -> Seq<u8>;

/// The leaves of the empty tree: none.
pub open spec fn no_leaves() -> Map<Seq<u8>, Seq<u8>> {
    Map::empty()
}

/// What a tree holds after `value` was put under `key`: a zero value removes the key.
pub open spec fn leaves_after(leaves: Map<Seq<u8>, Seq<u8>>, key: Seq<u8>, value: Seq<u8>) -> Map<
    Seq<u8>,
    Seq<u8>,
> {
    if value == zero32() {
        leaves.remove(key)
    } else {
        leaves.insert(key, value)
    }
}

/// `SparseMerkleTree::default`: the empty tree, with no leaf and the all-zero root.
#[verifier::external_body]
pub(crate) fn tree_new() -> (tree: Tree)
    ensures
        tree_sound(tree),
        tree_leaves(tree) == no_leaves(),
        merkle_root(tree_leaves(tree)) == zero32(),
{
    sparse_merkle_tree::SparseMerkleTree::default()
}

/// `SparseMerkleTree::update`: puts `value` under `key`, or removes `key` where `value` is
/// zero, and recomputes the branches from that leaf up to the root. The in-memory node
/// store refuses no read and no write, so the update does not fail; the result says so.
#[verifier::external_body]
pub(crate) fn tree_update(tree: &mut Tree, key: &[u8; 32], value: &[u8; 32]) -> (done: bool)
    requires
        tree_sound(*old(tree)),
    ensures
        done,
        tree_sound(*final(tree)),
        tree_leaves(*final(tree)) == leaves_after(tree_leaves(*old(tree)), key@, value@),
{
    tree.update((*key).into(), (*value).into()).is_ok()
}

/// `SparseMerkleTree::root`: the root that the last update left, which for a tree grown
/// from the empty one by updates depends on its leaves alone.
#[verifier::external_body]
pub(crate) fn tree_root(tree: &Tree) -> (root: [u8; 32])
    requires
        tree_sound(*tree),
    ensures
        root@ == merkle_root(tree_leaves(*tree)),
{
    (*tree.root()).into()
}

/// `SparseMerkleTree::get`: zero where the root is zero, else the value under `key`, or
/// zero where the key has none. The in-memory node store refuses no read.
#[verifier::external_body]
pub(crate) fn tree_get(tree: &Tree, key: &[u8; 32]) -> (value: Option<[u8; 32]>)
    requires
        tree_sound(*tree),
    ensures
        value is Some,
        value->0@ == leaf_or_zero(tree_leaves(*tree), key@),
{
    tree.get(&(*key).into()).ok().map(|v| v.into())
}

/// `DefaultStore::get_branch` on the tree's node store (`SparseMerkleTree::store`): the
/// branch under a height and a path, if the tree holds one. The in-memory node store
/// refuses no read.
#[verifier::external_body]
pub(crate) fn tree_branch(tree: &Tree, height: u8, path: &[u8; 32]) -> (node: Option<BranchNode>)
    ensures
        node is Some <==> tree_branches(*tree).contains_key((height, path@)),
        node matches Some(n) ==> n == tree_branches(*tree)[(height, path@)],
{
    let key = sparse_merkle_tree::BranchKey::new(height, (*path).into());
    let side = |m: sparse_merkle_tree::merge::MergeValue| match m {
        sparse_merkle_tree::merge::MergeValue::Value(v) => MergeValue::Value(v.into()),
        sparse_merkle_tree::merge::MergeValue::MergeWithZero { base_node, zero_bits, zero_count } => {
            MergeValue::MergeWithZero {
                base_node: base_node.into(),
                zero_bits: zero_bits.into(),
                zero_count,
            }
        },
    };
    sparse_merkle_tree::traits::StoreReadOps::get_branch(tree.store(), &key).ok().flatten().map(
        |n| BranchNode { left: side(n.left), right: side(n.right) },
    )
}

/// Two to the power `n`.
pub open spec fn two_to(n: nat) -> nat
    decreases n,
{
    if n == 0 {
        1
    } else {
        2 * two_to((n - 1) as nat)
    }
}

/// The path of the branch at `height` above the leaf `key`, as the tree library's
/// `H256::parent_path` gives it: the key's bits above `height`, with the bits up to
/// `height` cleared. Bit `b` of a key is bit `b % 8` of its byte `b / 8`. The branch at
/// height 255 is the root, whose path is zero.
pub open spec fn path_above(key: Seq<u8>, height: u8) -> Seq<u8> {
    let start = height + 1;
    Seq::new(
        32,
        |i: int|
            if height == 255 || i < start / 8 {
                0u8
            } else if i == start / 8 {
                (key[i] as int - (key[i] as int) % (two_to((start % 8) as nat) as int)) as u8
            } else {
                key[i]
            },
    )
}

/// The path of the branch at `height` above the leaf `key`, under which the tree keeps
/// that branch.
pub fn parent_path(key: &[u8; 32], height: u8) -> (path: [u8; 32])
    ensures
        path@ == path_above(key@, height),
{
    let mut path: [u8; 32] = [0u8; 32];
    if height == 255 {
        assert(path@ =~= path_above(key@, height));
        return path;
    }
    let start: u8 = height + 1;
    let first: usize = (start / 8) as usize;
    let low: u8 = start % 8;
    let step: u8 = if low == 0 {
        1
    } else if low == 1 {
        2
    } else if low == 2 {
        4
    } else if low == 3 {
        8
    } else if low == 4 {
        16
    } else if low == 5 {
        32
    } else if low == 6 {
        64
    } else {
        128
    };
    assert(step == two_to(low as nat)) by {
        reveal_with_fuel(two_to, 9);
    }
    path[first] = key[first] - key[first] % step;
    let mut i: usize = first + 1;
    while i < 32
        invariant
            first < i <= 32,
            first == (height + 1) / 8,
            height < 255,
            forall|k: int| 0 <= k < first ==> path@[k] == 0,
            path@[first as int] == (key@[first as int] as int - (key@[first as int] as int) % (
            two_to(((height + 1) % 8) as nat) as int)) as u8,
            forall|k: int| first < k < i ==> path@[k] == key@[k],
        decreases 32 - i,
    {
        path[i] = key[i];
        i += 1;
    }
    assert(path@ =~= path_above(key@, height));
    path
}

/// What a lookup of `key` gives in a tree that holds `leaves`.
pub open spec fn leaf_or_zero(leaves: Map<Seq<u8>, Seq<u8>>, key: Seq<u8>) -> Seq<u8> {
    if merkle_root(leaves) != zero32() && leaves.contains_key(key) {
        leaves[key]
    } else {
        zero32()
    }
}

/// The leaves after a run of updates, each a key with the value put under it.
pub open spec fn apply_updates(
    leaves: Map<Seq<u8>, Seq<u8>>,
    updates: Seq<(Seq<u8>, Seq<u8>)>,
) -> Map<Seq<u8>, Seq<u8>>
    decreases updates.len(),
{
    if updates.len() == 0 {
        leaves
    } else {
        let last = updates.last();
        leaves_after(apply_updates(leaves, updates.drop_last()), last.0, last.1)
    }
}

/// Whether `updates` sets each key of `m` to its value in `m`, in some order, and no other.
pub open spec fn enumerates(updates: Seq<(Seq<u8>, Seq<u8>)>, m: Map<Seq<u8>, Seq<u8>>) -> bool {
    &&& forall|i: int|
        0 <= i < updates.len() ==> m.contains_key(#[trigger] updates[i].0) && m[updates[i].0]
            == updates[i].1
    &&& forall|k: Seq<u8>| #[trigger] m.contains_key(k) ==> updated(updates, k)
}

/// Whether one of `updates` is of `key`.
pub open spec fn updated(updates: Seq<(Seq<u8>, Seq<u8>)>, key: Seq<u8>) -> bool {
    exists|i: int| 0 <= i < updates.len() && #[trigger] updates[i].0 == key
}

/// `leaves` with every key of `m` set to its value in `m`: a zero value removes the key.
pub open spec fn overlay(leaves: Map<Seq<u8>, Seq<u8>>, m: Map<Seq<u8>, Seq<u8>>) -> Map<
    Seq<u8>,
    Seq<u8>,
> {
    Map::new(
        |k: Seq<u8>|
            if m.contains_key(k) {
                m[k] != zero32()
            } else {
                leaves.contains_key(k)
            },
        |k: Seq<u8>|
            if m.contains_key(k) {
                m[k]
            } else {
                leaves[k]
            },
    )
}

proof fn lemma_apply_updates_overlay(
    leaves: Map<Seq<u8>, Seq<u8>>,
    m: Map<Seq<u8>, Seq<u8>>,
    updates: Seq<(Seq<u8>, Seq<u8>)>,
)
    requires
        forall|i: int|
            0 <= i < updates.len() ==> m.contains_key(#[trigger] updates[i].0) && m[updates[i].0]
                == updates[i].1,
    ensures
        apply_updates(leaves, updates) == overlay(
            leaves,
            m.restrict(Set::new(|k: Seq<u8>| updated(updates, k))),
        ),
    decreases updates.len(),
{
    let keys = Set::new(|k: Seq<u8>| updated(updates, k));
    if updates.len() == 0 {
        assert(apply_updates(leaves, updates) =~= overlay(leaves, m.restrict(keys)));
    } else {
        let head = updates.drop_last();
        let last = updates.last();
        let head_keys = Set::new(|k: Seq<u8>| updated(head, k));
        assert forall|i: int| 0 <= i < head.len() implies m.contains_key(#[trigger] head[i].0)
            && m[head[i].0] == head[i].1 by {
            assert(head[i] == updates[i]);
        }
        lemma_apply_updates_overlay(leaves, m, head);
        assert(updates[updates.len() - 1].0 == last.0);
        assert forall|k: Seq<u8>| keys.contains(k) <==> (head_keys.contains(k) || k == last.0) by {
            if updated(updates, k) {
                let i = choose|i: int| 0 <= i < updates.len() && #[trigger] updates[i].0 == k;
                if i < head.len() {
                    assert(head[i].0 == k);
                }
            }
            if updated(head, k) {
                let i = choose|i: int| 0 <= i < head.len() && #[trigger] head[i].0 == k;
                assert(updates[i].0 == k);
            }
        }
        assert(apply_updates(leaves, updates) =~= overlay(leaves, m.restrict(keys)));
    }
}

/// The leaves after a run of updates depend on the key-value map that the run applies
/// and not on its order: two runs that both set every key of `m` to its value in `m`
/// leave the same leaves, and so the same root.
pub proof fn lemma_update_order(
    leaves: Map<Seq<u8>, Seq<u8>>,
    m: Map<Seq<u8>, Seq<u8>>,
    first: Seq<(Seq<u8>, Seq<u8>)>,
    second: Seq<(Seq<u8>, Seq<u8>)>,
)
    requires
        enumerates(first, m),
        enumerates(second, m),
    ensures
        apply_updates(leaves, first) == overlay(leaves, m),
        apply_updates(leaves, first) == apply_updates(leaves, second),
        merkle_root(apply_updates(leaves, first)) == merkle_root(apply_updates(leaves, second)),
{
    lemma_apply_updates_overlay(leaves, m, first);
    lemma_apply_updates_overlay(leaves, m, second);
    assert(m.restrict(Set::new(|k: Seq<u8>| updated(first, k))) =~= m);
    assert(m.restrict(Set::new(|k: Seq<u8>| updated(second, k))) =~= m);
}

} // verus!
