//! Reads of unaligned bits, done by `bitstream_io`.
//!
//! Each function here opens a big-endian `BitReader` over a byte buffer,
//! skips to a bit position and makes one read. Their contracts are not
//! proved: they restate what `bitstream_io` does on an in-memory buffer.
use crate::cell::bits::bit_at;
use bitstream_io::{BigEndian, BitRead, BitReader};
use std::io::Cursor;
use vstd::prelude::*;

verus! {

/// The error type of `std::io`, which `bitstream_io` reports its failures in.
#[verifier::external_type_specification]
#[verifier::external_body]
pub struct ExIoError(std::io::Error);

/// `BitRead::skip` followed by `BitRead::read_bytes` on a fresh big-endian
/// `BitReader`.
///
/// The call succeeds exactly when the buffer reaches as far as the last bit
/// asked for. The bytes that come back hold, bit for bit, the `8 * count` bits
/// of `data` that follow its first `skip` bits.
#[verifier::external_body]
pub(crate) fn read_bytes_at(data: &Vec<u8>, skip: u32, count: usize) -> (r: Result<
    Vec<u8>,
    std::io::Error,
>)
    requires
        count <= data@.len(),
    ensures
        r is Ok <==> skip + 8 * count <= 8 * data@.len(),
        r matches Ok(bytes) ==> {
            &&& bytes@.len() == count
            &&& forall|i: int|
                0 <= i < 8 * count ==> #[trigger] bit_at(bytes@, i) == bit_at(data@, skip + i)
        },
{
    let mut reader = BitReader::endian(Cursor::new(data), BigEndian);
    reader.skip(skip)?;
    let mut bytes = vec![0u8; count];
    reader.read_bytes(&mut bytes)?;
    Ok(bytes)
}

/// `BitRead::skip` followed by `BitRead::read::<u8>` on a fresh big-endian
/// `BitReader`.
///
/// The call succeeds exactly when the buffer reaches as far as the last bit
/// asked for. The low `bits` bits of the value that comes back are, most
/// significant first, the `bits` bits of `data` that follow its first `skip`
/// bits; its other bits are zero.
#[verifier::external_body]
pub(crate) fn read_value_at(data: &Vec<u8>, skip: u32, bits: u32) -> (r: Result<u8, std::io::Error>)
    requires
        bits <= 8,
    ensures
        r is Ok <==> skip + bits <= 8 * data@.len(),
        r matches Ok(value) ==> forall|j: int|
            0 <= j < 8 ==> #[trigger] bit_at(seq![value], j) == (j >= 8 - bits && bit_at(
                data@,
                skip + bits - 8 + j,
            )),
{
    let mut reader = BitReader::endian(Cursor::new(data), BigEndian);
    reader.skip(skip)?;
    reader.read::<u8>(bits)
}

/// `ToString::to_string` on an I/O error. Nothing is claimed of the text.
#[verifier::external_body]
pub(crate) fn io_error_text(error: &std::io::Error) -> String {
    error.to_string()
}

} // verus!
