//! Leaf and node hashing of the distribution Merkle tree.
//!
//! A leaf is `SHA256(epoch as 64-bit LE || index truncated to 32-bit LE ||
//! 32-byte wallet public key || amount as 64-bit LE)`; a parent is
//! `SHA256(min(left, right) || max(left, right))` with byte-wise comparison,
//! so that hashing is order-independent and proofs need not record a
//! left/right direction. The layout must byte-exactly match the external
//! on-chain verifier.

use vstd::prelude::*;
use crate::order::bytes_le;
use crate::order::cmp_bytes_le;
use crate::order::lemma_bytes_le_antisymmetric;
use crate::order::lemma_bytes_le_total;
use vstd::bytes::spec_u32_to_le_bytes;
use vstd::bytes::spec_u64_to_le_bytes;
use vstd::bytes::u32_to_le_bytes;
use vstd::bytes::u64_to_le_bytes;
use sha2::Digest;

verus! {

/// Digest of the SHA-256 function; named here, computed by the sha2 crate.
pub uninterp spec fn sha256_of(data: Seq<u8>) -> Seq<u8>;

/// Relies on sha2::Sha256::digest: SHA-256 is a pure function of the input
/// bytes and always yields a 32-byte digest.
#[verifier::external_body]
fn sha256(data: &[u8]) -> (r: Vec<u8>)
    ensures
        r@ == sha256_of(data@),
        r@.len() == 32,
{
    sha2::Sha256::digest(data).to_vec()
}

/// Byte string hashed into a leaf: epoch, truncated index, public key, amount.
pub open spec fn leaf_bytes(epoch: u64, index: u64, pubkey: Seq<u8>, amount: u64) -> Seq<u8> {
    spec_u64_to_le_bytes(epoch) + spec_u32_to_le_bytes((index % 0x1_0000_0000) as u32) + pubkey
        + spec_u64_to_le_bytes(amount)
}

/// Hash of one leaf of an epoch's distribution tree.
pub open spec fn leaf_hash(epoch: u64, index: u64, pubkey: Seq<u8>, amount: u64) -> Seq<u8> {
    sha256_of(leaf_bytes(epoch, index, pubkey, amount))
}

/// Hash of a parent node: the two children are arranged in ascending
/// byte-wise order before hashing.
pub open spec fn parent_hash(l: Seq<u8>, r: Seq<u8>) -> Seq<u8> {
    if bytes_le(l, r) {
        sha256_of(l + r)
    } else {
        sha256_of(r + l)
    }
}

/// Arranging the children one way or the other hashes to the same parent.
pub proof fn lemma_parent_hash_symmetric(a: Seq<u8>, b: Seq<u8>)
    ensures
        parent_hash(a, b) == parent_hash(b, a),
{
    lemma_bytes_le_total(a, b);
    if bytes_le(a, b) && bytes_le(b, a) {
        lemma_bytes_le_antisymmetric(a, b);
    }
}

/// Appends the bytes of a slice to a vector.
pub fn append_bytes(dst: &mut Vec<u8>, src: &[u8])
    ensures
        final(dst)@ == old(dst)@ + src@,
{
    let n = src.len();
    let mut i: usize = 0;
    while i < n
        invariant
            i <= n,
            n == src@.len(),
            dst@ =~= old(dst)@ + src@.take(i as int),
        decreases n - i,
    {
        dst.push(src[i]);
        proof {
            assert(src@.take(i as int + 1) =~= src@.take(i as int).push(src@[i as int]));
        }
        i = i + 1;
    }
    proof {
        assert(src@.take(n as int) =~= src@);
    }
}

/// Computes the hash of one leaf from the epoch number, the leaf index, the
/// decoded 32-byte wallet public key and the claimable amount. The index is
/// truncated to 32 bits, a deliberate format match with the external verifier.
pub fn compute_leaf_hash(epoch: u64, index: u64, wallet_bytes: &[u8], amount: u64) -> (r: Vec<u8>)
    ensures
        r@ == leaf_hash(epoch, index, wallet_bytes@, amount),
        r@.len() == 32,
{
    let mut data: Vec<u8> = Vec::new();
    let mut part = u64_to_le_bytes(epoch);
    data.append(&mut part);
    let idx32: u32 = (index % 0x1_0000_0000u64) as u32;
    let mut part = u32_to_le_bytes(idx32);
    data.append(&mut part);
    append_bytes(&mut data, wallet_bytes);
    let mut part = u64_to_le_bytes(amount);
    data.append(&mut part);
    proof {
        assert(data@ =~= leaf_bytes(epoch, index, wallet_bytes@, amount));
    }
    sha256(data.as_slice())
}

/// Computes the hash of a parent node from its two children, arranging them
/// in ascending byte-wise order first.
pub fn compute_parent_hash(left: &Vec<u8>, right: &Vec<u8>) -> (r: Vec<u8>)
    ensures
        r@ == parent_hash(left@, right@),
        r@.len() == 32,
{
    let mut data: Vec<u8> = Vec::new();
    if cmp_bytes_le(left.as_slice(), right.as_slice()) {
        append_bytes(&mut data, left.as_slice());
        append_bytes(&mut data, right.as_slice());
        proof {
            assert(data@ =~= left@ + right@);
        }
    } else {
        append_bytes(&mut data, right.as_slice());
        append_bytes(&mut data, left.as_slice());
        proof {
            assert(data@ =~= right@ + left@);
        }
    }
    sha256(data.as_slice())
}

} // verus!
