//! The checksum that closes a bag of cells.
use crc::{Crc, CRC_32_ISCSI};
use vstd::prelude::*;

verus! {

/// The checksum register after one more bit: shifted down by one, and
/// combined with the reversed polynomial `0x82f63b78` where a set bit was
/// shifted out.
pub open spec fn crc32c_step(register: u32) -> u32 {
    (register >> 1) ^ (if register & 1 == 1 {
        0x82f6_3b78u32
    } else {
        0u32
    })
}

/// The checksum register after one more byte: the byte is combined with
/// the low bits of the register, which then takes eight steps.
pub open spec fn crc32c_update(register: u32, byte: u8) -> u32 {
    crc32c_step(
        crc32c_step(
            crc32c_step(
                crc32c_step(
                    crc32c_step(crc32c_step(crc32c_step(crc32c_step(register ^ (byte as u32))))),
                ),
            ),
        ),
    )
}

/// The checksum register after `data`, from a register of all ones.
pub open spec fn crc32c_register(data: Seq<u8>) -> u32
    decreases data.len(),
{
    if data.len() == 0 {
        0xffff_ffffu32
    } else {
        crc32c_update(crc32c_register(data.drop_last()), data.last())
    }
}

/// The CRC-32C (Castagnoli) checksum of `data`: the register after `data`, inverted.
pub open spec fn crc32c(data: Seq<u8>) -> u32 {
    crc32c_register(data) ^ 0xffff_ffffu32
}

/// The checksum of the nine digits `123456789` is `0xe3069283`, the check
/// value by which CRC-32C is known.
pub proof fn lemma_crc32c_check_value()
    ensures
        crc32c(seq![0x31u8, 0x32u8, 0x33u8, 0x34u8, 0x35u8, 0x36u8, 0x37u8, 0x38u8, 0x39u8])
            == 0xe306_9283u32,
{
    let text = seq![0x31u8, 0x32u8, 0x33u8, 0x34u8, 0x35u8, 0x36u8, 0x37u8, 0x38u8, 0x39u8];
    assert(crc32c_register(text.subrange(0, 0)) == 0xffff_ffffu32);
    assert(crc32c_update(0xffffffffu32, 0x31u8) == 0x6f0a661cu32) by (bit_vector);
    assert(text.subrange(0, 1).drop_last() =~= text.subrange(0, 0));
    assert(crc32c_register(text.subrange(0, 1)) == 0x6f0a661cu32);
    assert(crc32c_update(0x6f0a661cu32, 0x32u8) == 0x8caa3b9fu32) by (bit_vector);
    assert(text.subrange(0, 2).drop_last() =~= text.subrange(0, 1));
    assert(crc32c_register(text.subrange(0, 2)) == 0x8caa3b9fu32);
    assert(crc32c_update(0x8caa3b9fu32, 0x33u8) == 0xef84d04du32) by (bit_vector);
    assert(text.subrange(0, 3).drop_last() =~= text.subrange(0, 2));
    assert(crc32c_register(text.subrange(0, 3)) == 0xef84d04du32);
    assert(crc32c_update(0xef84d04du32, 0x34u8) == 0x09c50b11u32) by (bit_vector);
    assert(text.subrange(0, 4).drop_last() =~= text.subrange(0, 3));
    assert(crc32c_register(text.subrange(0, 4)) == 0x09c50b11u32);
    assert(crc32c_update(0x09c50b11u32, 0x35u8) == 0xe72edccau32) by (bit_vector);
    assert(text.subrange(0, 5).drop_last() =~= text.subrange(0, 4));
    assert(crc32c_register(text.subrange(0, 5)) == 0xe72edccau32);
    assert(crc32c_update(0xe72edccau32, 0x36u8) == 0xbeca8e79u32) by (bit_vector);
    assert(text.subrange(0, 6).drop_last() =~= text.subrange(0, 5));
    assert(crc32c_register(text.subrange(0, 6)) == 0xbeca8e79u32);
    assert(crc32c_update(0xbeca8e79u32, 0x37u8) == 0xedbd6815u32) by (bit_vector);
    assert(text.subrange(0, 7).drop_last() =~= text.subrange(0, 6));
    assert(crc32c_register(text.subrange(0, 7)) == 0xedbd6815u32);
    assert(crc32c_update(0xedbd6815u32, 0x38u8) == 0x9f787f65u32) by (bit_vector);
    assert(text.subrange(0, 8).drop_last() =~= text.subrange(0, 7));
    assert(crc32c_register(text.subrange(0, 8)) == 0x9f787f65u32);
    assert(crc32c_update(0x9f787f65u32, 0x39u8) == 0x1cf96d7cu32) by (bit_vector);
    assert(text.subrange(0, 9).drop_last() =~= text.subrange(0, 8));
    assert(crc32c_register(text.subrange(0, 9)) == 0x1cf96d7cu32);
    assert(text.subrange(0, 9) =~= text);
    assert(0x1cf96d7cu32 ^ 0xffff_ffffu32 == 0xe306_9283u32) by (bit_vector);
}

/// `Crc::<u32>::checksum` of the `crc` crate, for the algorithm
/// `CRC_32_ISCSI`: polynomial `0x1edc6f41`, bits taken and given in
/// reversed order, register and result inverted. The crate works with a
/// table of the eight steps for every byte; the contract restates its
/// result bit by bit, and is not proved.
#[verifier::external_body]
pub(crate) fn crc32c_checksum(data: &Vec<u8>) -> (sum: u32)
    ensures
        sum == crc32c(data@),
{
    Crc::<u32>::new(&CRC_32_ISCSI).checksum(data)
}

} // verus!
