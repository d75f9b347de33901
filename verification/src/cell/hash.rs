//! The content hash of a cell.
//!
//! A cell is hashed through its representation: two descriptor bytes, the
//! bits with a completion tag, and the depth and hash of each child.
use crate::cell::bits::{lemma_packs_unique, packs};
use sha2::{Digest, Sha256};
use vstd::prelude::*;

verus! {

/// A content hash: 32 bytes.
pub type TonHash = [u8; 32];

/// The greatest depth that is told apart: depths are written in two bytes.
pub const MAX_DEPTH: u16 = 0xffff;

/// The SHA-256 digest of `data`.
pub uninterp spec fn sha256(data: Seq<u8>) -> Seq<u8>;

/// `Sha256::digest` of the `sha2` crate: the digest of `data`, which
/// depends on `data` alone.
#[verifier::external_body]
pub(crate) fn sha256_digest(data: &Vec<u8>) -> (digest: TonHash)
    ensures
        digest@ == sha256(data@),
{
    Sha256::digest(data).into()
}

/// Whether two hashes are the same.
pub fn same_hash(a: &TonHash, b: &TonHash) -> (same: bool)
    ensures
        same == (a@ == b@),
{
    let mut i: usize = 0;
    while i < 32
        invariant
            i <= 32,
            forall|n: int| 0 <= n < i ==> a@[n] == b@[n],
        decreases 32 - i,
    {
        if a[i] != b[i] {
            return false;
        }
        i = i + 1;
    }
    assert(a@ =~= b@);
    true
}

/// `bits` packed eight to a byte, the last byte filled up with zero bits.
pub open spec fn packed(bits: Seq<bool>) -> Seq<u8> {
    choose|bytes: Seq<u8>| packs(bytes, bits)
}

/// Bytes that pack `bits` are the packing of `bits`.
pub proof fn lemma_packed(bytes: Seq<u8>, bits: Seq<bool>)
    requires
        packs(bytes, bits),
    ensures
        bytes == packed(bits),
{
    lemma_packs_unique(bytes, packed(bits), bits);
}

/// The greatest of `depths`, or 0 where there is none.
pub open spec fn max_depth(depths: Seq<nat>) -> nat
    decreases depths.len(),
{
    if depths.len() == 0 {
        0
    } else {
        let before = max_depth(depths.drop_last());
        if depths.last() > before {
            depths.last()
        } else {
            before
        }
    }
}

/// The greatest of `depths` is at least each of them.
pub proof fn lemma_max_depth(depths: Seq<nat>, i: int)
    requires
        0 <= i < depths.len(),
    ensures
        depths[i] <= max_depth(depths),
    decreases depths.len(),
{
    if i < depths.len() - 1 {
        lemma_max_depth(depths.drop_last(), i);
    }
}

/// Each of `depths` in two bytes, high byte first.
pub open spec fn depth_bytes(depths: Seq<nat>) -> Seq<u8>
    decreases depths.len(),
{
    if depths.len() == 0 {
        Seq::empty()
    } else {
        depth_bytes(depths.drop_last()) + seq![
            (depths.last() / 256) as u8,
            (depths.last() % 256) as u8,
        ]
    }
}

/// `hashes`, one behind the other.
pub open spec fn hash_bytes(hashes: Seq<Seq<u8>>) -> Seq<u8>
    decreases hashes.len(),
{
    if hashes.len() == 0 {
        Seq::empty()
    } else {
        hash_bytes(hashes.drop_last()) + hashes.last()
    }
}

/// The bits of a cell as its representation holds them: packed into bytes,
/// and where they do not end on a byte boundary, followed by a single `1`
/// bit before the zero bits that fill the last byte up.
pub open spec fn tagged(bits: Seq<bool>) -> Seq<u8> {
    if bits.len() % 8 == 0 {
        packed(bits)
    } else {
        packed(bits.push(true))
    }
}

/// The bytes that are hashed for a cell with `bits` whose children have
/// `depths` and `hashes`.
///
/// The first byte is the number of children. The second is the number of
/// whole bytes of `bits` plus the number of bytes that hold all of them.
pub open spec fn representation(bits: Seq<bool>, depths: Seq<nat>, hashes: Seq<Seq<u8>>) -> Seq<u8> {
    seq![depths.len() as u8, (bits.len() / 8 + (bits.len() + 7) / 8) as u8] + tagged(bits)
        + depth_bytes(depths) + hash_bytes(hashes)
}

} // verus!
