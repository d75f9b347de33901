//! Bits in a byte buffer, most significant bit of each byte first.
use vstd::prelude::*;

verus! {

/// The `i`-th bit of `bytes`, counting from the most significant bit of the first byte.
pub open spec fn bit_at(bytes: Seq<u8>, i: int) -> bool {
    bytes[i / 8] & (0x80u8 >> ((i % 8) as u8)) != 0
}

/// The first `n` bits of `bytes`.
pub open spec fn bits_of(bytes: Seq<u8>, n: nat) -> Seq<bool> {
    Seq::new(n, |i: int| bit_at(bytes, i))
}

/// The number of bytes that hold `n` bits.
pub open spec fn byte_len(n: nat) -> nat {
    (n + 7) / 8
}

/// Whether `bytes` is `bits` packed eight to a byte, the last byte filled up with zero bits.
pub open spec fn packs(bytes: Seq<u8>, bits: Seq<bool>) -> bool {
    &&& bytes.len() == byte_len(bits.len())
    &&& forall|i: int| 0 <= i < 8 * bytes.len() ==> #[trigger] bit_at(bytes, i) == (i < bits.len() && bits[i])
}

proof fn lemma_mask_or(x: u8, k: u8, j: u8)
    by (bit_vector)
    requires
        k < 8,
        j < 8,
    ensures
        ((x | (0x80u8 >> k)) & (0x80u8 >> j) != 0) == (j == k || x & (0x80u8 >> j) != 0),
{
}

proof fn lemma_mask_zero(j: u8)
    by (bit_vector)
    requires
        j < 8,
    ensures
        0u8 & (0x80u8 >> j) == 0,
{
}

/// A byte is determined by its eight bits.
proof fn lemma_byte_by_bits(x: u8, y: u8)
    by (bit_vector)
    requires
        (x & (0x80u8 >> 0u8) != 0) == (y & (0x80u8 >> 0u8) != 0),
        (x & (0x80u8 >> 1u8) != 0) == (y & (0x80u8 >> 1u8) != 0),
        (x & (0x80u8 >> 2u8) != 0) == (y & (0x80u8 >> 2u8) != 0),
        (x & (0x80u8 >> 3u8) != 0) == (y & (0x80u8 >> 3u8) != 0),
        (x & (0x80u8 >> 4u8) != 0) == (y & (0x80u8 >> 4u8) != 0),
        (x & (0x80u8 >> 5u8) != 0) == (y & (0x80u8 >> 5u8) != 0),
        (x & (0x80u8 >> 6u8) != 0) == (y & (0x80u8 >> 6u8) != 0),
        (x & (0x80u8 >> 7u8) != 0) == (y & (0x80u8 >> 7u8) != 0),
    ensures
        x == y,
{
}

/// Two packings of the same bits are the same bytes.
pub proof fn lemma_packs_unique(a: Seq<u8>, b: Seq<u8>, bits: Seq<bool>)
    requires
        packs(a, bits),
        packs(b, bits),
    ensures
        a == b,
{
    assert forall|k: int| 0 <= k < a.len() implies a[k] == b[k] by {
        assert(bit_at(a, 8 * k) == bit_at(b, 8 * k));
        assert(bit_at(a, 8 * k + 1) == bit_at(b, 8 * k + 1));
        assert(bit_at(a, 8 * k + 2) == bit_at(b, 8 * k + 2));
        assert(bit_at(a, 8 * k + 3) == bit_at(b, 8 * k + 3));
        assert(bit_at(a, 8 * k + 4) == bit_at(b, 8 * k + 4));
        assert(bit_at(a, 8 * k + 5) == bit_at(b, 8 * k + 5));
        assert(bit_at(a, 8 * k + 6) == bit_at(b, 8 * k + 6));
        assert(bit_at(a, 8 * k + 7) == bit_at(b, 8 * k + 7));
        lemma_byte_by_bits(a[k], b[k]);
    }
    assert(a =~= b);
}

/// Reads the `i`-th bit of `bytes`.
pub(crate) fn get_bit(bytes: &Vec<u8>, i: usize) -> (bit: bool)
    requires
        i < 8 * bytes@.len(),
    ensures
        bit == bit_at(bytes@, i as int),
{
    bytes[i / 8] & (0x80u8 >> ((i % 8) as u8)) != 0
}

/// Sets the `i`-th bit of `bytes` and leaves every other bit as it is.
fn set_bit(bytes: &mut Vec<u8>, i: usize)
    requires
        i < 8 * old(bytes)@.len(),
    ensures
        final(bytes)@.len() == old(bytes)@.len(),
        forall|j: int|
            0 <= j < 8 * old(bytes)@.len() ==> #[trigger] bit_at(final(bytes)@, j) == (j == i
                || bit_at(old(bytes)@, j)),
{
    let k: usize = i / 8;
    let shift: u8 = (i % 8) as u8;
    let byte: u8 = bytes[k];
    let updated: u8 = byte | (0x80u8 >> shift);
    bytes.set(k, updated);
    proof {
        assert forall|j: int| 0 <= j < 8 * old(bytes)@.len() implies #[trigger] bit_at(bytes@, j)
            == (j == i || bit_at(old(bytes)@, j)) by {
            if j / 8 == k as int {
                lemma_mask_or(byte, shift, (j % 8) as u8);
            }
        }
    }
}

/// Packs `bits` eight to a byte and fills the last byte up with zero bits.
pub fn pack_bits(bits: &Vec<bool>) -> (bytes: Vec<u8>)
    ensures
        packs(bytes@, bits@),
{
    let n: usize = bits.len();
    let total: usize = n / 8 + (if n % 8 == 0 { 0 } else { 1 });
    let mut bytes: Vec<u8> = Vec::new();
    while bytes.len() < total
        invariant
            bytes@.len() <= total,
            forall|j: int| 0 <= j < 8 * bytes@.len() ==> !#[trigger] bit_at(bytes@, j),
        decreases total - bytes@.len(),
    {
        let ghost before = bytes@;
        bytes.push(0u8);
        proof {
            assert forall|j: int| 0 <= j < 8 * bytes@.len() implies !#[trigger] bit_at(bytes@, j) by {
                if j / 8 < before.len() {
                    assert(bit_at(bytes@, j) == bit_at(before, j));
                } else {
                    lemma_mask_zero((j % 8) as u8);
                }
            }
        }
    }
    let mut i: usize = 0;
    while i < n
        invariant
            i <= n,
            n == bits@.len(),
            bytes@.len() == total,
            total == byte_len(n as nat),
            forall|j: int|
                0 <= j < 8 * bytes@.len() ==> #[trigger] bit_at(bytes@, j) == (j < i && bits@[j]),
        decreases n - i,
    {
        if bits[i] {
            set_bit(&mut bytes, i);
        }
        i = i + 1;
    }
    bytes
}

} // verus!
