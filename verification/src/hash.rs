//! 32-byte identifiers and the digest that produces them.
use vstd::prelude::*;

verus! {

/// A 32-byte identifier. All zeros stands for an empty leaf.
pub type Byte32 = [u8; 32];

/// The BLAKE2b digest of 32 bytes of `data` under the personalization `personal`,
/// with no key and no salt.
pub uninterp spec fn blake2b_256(personal: Seq<u8>, data: Seq<u8>) -> Seq<u8>;

/// The personalization under which this library hashes: the ASCII text `ckb-default-hash`.
pub open spec fn personalization() -> Seq<u8> {
    seq![99u8, 107, 98, 45, 100, 101, 102, 97, 117, 108, 116, 45, 104, 97, 115, 104]
}

/// The digest of `data` as this library computes it.
pub open spec fn digest(data: Seq<u8>) -> Seq<u8> {
    blake2b_256(personalization(), data)
}

/// Runs `blake2b_ref`: a builder for 32 output bytes (`Blake2bBuilder::new`), personalized
/// (`personal`), built, fed `data` once (`update`) and finished (`finalize`). The result is
/// the digest, a function of the two byte strings alone. The builder panics on a
/// personalization longer than 16 bytes, which `requires` leaves out.
#[verifier::external_body]
fn blake2b_personal(personal: &[u8], data: &[u8]) -> (r: [u8; 32])
    requires
        personal@.len() <= 16,
    ensures
        r@ == blake2b_256(personal@, data@),
{
    let mut out = [0u8; 32];
    let mut hasher = blake2b_ref::Blake2bBuilder::new(32).personal(personal).build();
    hasher.update(data);
    hasher.finalize(&mut out);
    out
}

/// The 32-byte digest of `data`.
pub fn hash(data: &[u8]) -> (r: Byte32)
    ensures
        r@ == digest(data@),
{
    let personal: [u8; 16] = [99, 107, 98, 45, 100, 101, 102, 97, 117, 108, 116, 45, 104, 97, 115, 104];
    assert(personal@ =~= personalization());
    blake2b_personal(&personal, data)
}

/// The all-zero identifier.
pub fn zero_hash() -> (r: Byte32)
    ensures
        r@ == crate::bytes::zero32(),
{
    let r: [u8; 32] = [0u8; 32];
    assert(r@ =~= crate::bytes::zero32());
    r
}

/// Whether two identifiers hold the same bytes.
pub fn hash_eq(a: &Byte32, b: &Byte32) -> (r: bool)
    ensures
        r == (a@ == b@),
{
    crate::bytes::bytes_eq(a, b)
}

} // verus!
