//! What is written as a bag of cells is read back as the same bag.
use crate::cell::bits::{bit_at, bits_of, byte_len, packs};
use crate::cell::hash::{packed, tagged};
use crate::cell::model::{MAX_CELL_BITS, MAX_CELL_REFERENCES};
use crate::cell::checksum::crc32c;
use crate::cell::raw::{
    byte_size, cell_encoding, cell_from, cells_encoding, cells_from, checksum_bytes, decoded,
    encoding, encoding_body, header_of, indices_encoding, roots_of, trailing_zeros, uint_at,
    uint_bytes, uint_le_at, writable, BagHeader, RawBagView, RawCellView,
};
use vstd::arithmetic::power2::{lemma2_to64, lemma_pow2_adds, pow2};
use vstd::prelude::*;

verus! {

/// A number takes as many bytes as can tell it.
pub proof fn lemma_byte_size(value: nat)
    ensures
        byte_size(value) >= 1,
        value < pow2(8 * byte_size(value)),
    decreases value,
{
    lemma2_to64();
    if value >= 256 {
        lemma_byte_size(value / 256);
        lemma_pow2_adds(8, 8 * byte_size(value / 256));
        assert(256 * (value / 256) + 255 < 256 * pow2(8 * byte_size(value / 256)))
            by (nonlinear_arith)
            requires
                value / 256 < pow2(8 * byte_size(value / 256)),
        ;
    }
}

/// A number below the `8 * n`-th power of two takes at most `n` bytes.
pub proof fn lemma_byte_size_bound(value: nat, n: nat)
    requires
        n >= 1,
        value < pow2(8 * n),
    ensures
        byte_size(value) <= n,
    decreases n,
{
    lemma2_to64();
    if value >= 256 {
        if n == 1 {
            assert(false);
        } else {
            lemma_pow2_adds(8, (8 * (n - 1)) as nat);
            assert(value / 256 < pow2((8 * (n - 1)) as nat)) by (nonlinear_arith)
                requires
                    value < 256 * pow2((8 * (n - 1)) as nat),
            ;
            lemma_byte_size_bound(value / 256, (n - 1) as nat);
        }
    }
}

/// A number in `n` bytes is `n` bytes long.
pub proof fn lemma_uint_bytes_len(value: nat, n: nat)
    ensures
        uint_bytes(value, n).len() == n,
    decreases n,
{
    if n > 0 {
        lemma_uint_bytes_len(value / 256, (n - 1) as nat);
    }
}

/// A number that `n` bytes can tell is read back from its `n` bytes.
pub proof fn lemma_uint_at_bytes(bytes: Seq<u8>, pos: int, value: nat, n: nat)
    requires
        0 <= pos,
        pos + n <= bytes.len(),
        value < pow2(8 * n),
        bytes.subrange(pos, pos + n) == uint_bytes(value, n),
    ensures
        uint_at(bytes, pos, n) == value,
    decreases n,
{
    lemma2_to64();
    if n > 0 {
        let shorter = uint_bytes(value / 256, (n - 1) as nat);
        lemma_uint_bytes_len(value / 256, (n - 1) as nat);
        lemma_pow2_adds(8, (8 * (n - 1)) as nat);
        assert(value / 256 < pow2((8 * (n - 1)) as nat)) by (nonlinear_arith)
            requires
                value < 256 * pow2((8 * (n - 1)) as nat),
        ;
        assert(bytes.subrange(pos, pos + n - 1) =~= shorter) by {
            assert forall|j: int| 0 <= j < n - 1 implies bytes.subrange(pos, pos + n - 1)[j]
                == shorter[j] by {
                assert(bytes.subrange(pos, pos + n)[j] == uint_bytes(value, n)[j]);
            }
        }
        assert(bytes[pos + n - 1] == bytes.subrange(pos, pos + n)[n - 1]);
        lemma_uint_at_bytes(bytes, pos, value / 256, (n - 1) as nat);
    }
}

/// A checksum is read back from its four bytes.
pub proof fn lemma_checksum_at(bytes: Seq<u8>, pos: int, sum: u32)
    requires
        0 <= pos,
        pos + 4 <= bytes.len(),
        bytes.subrange(pos, pos + 4) == checksum_bytes(sum),
    ensures
        uint_le_at(bytes, pos, 4) == sum,
{
    reveal_with_fuel(uint_le_at, 5);
    assert(bytes[pos] == bytes.subrange(pos, pos + 4)[0]);
    assert(bytes[pos + 1] == bytes.subrange(pos, pos + 4)[1]);
    assert(bytes[pos + 2] == bytes.subrange(pos, pos + 4)[2]);
    assert(bytes[pos + 3] == bytes.subrange(pos, pos + 4)[3]);
}

/// Indices in `size` bytes each take `size` bytes each.
pub proof fn lemma_indices_encoding_len(indices: Seq<nat>, size: nat)
    ensures
        indices_encoding(indices, size).len() == indices.len() * size,
    decreases indices.len(),
{
    if indices.len() > 0 {
        lemma_indices_encoding_len(indices.drop_last(), size);
        lemma_uint_bytes_len(indices.last(), size);
        assert((indices.len() - 1) * size + size == indices.len() * size) by (nonlinear_arith);
    } else {
        assert(indices.len() * size == 0) by (nonlinear_arith)
            requires
                indices.len() == 0,
        ;
    }
}

/// Indices that `size` bytes can tell are read back, each from its `size` bytes.
pub proof fn lemma_indices_at(bytes: Seq<u8>, pos: int, indices: Seq<nat>, size: nat, k: int)
    requires
        0 <= pos,
        pos + indices.len() * size <= bytes.len(),
        forall|i: int| 0 <= i < indices.len() ==> #[trigger] indices[i] < pow2(8 * size),
        bytes.subrange(pos, pos + indices.len() * size) == indices_encoding(indices, size),
        0 <= k < indices.len(),
    ensures
        uint_at(bytes, pos + k * size, size) == indices[k],
    decreases indices.len(),
{
    let n = indices.len();
    let all = indices_encoding(indices, size);
    let before = indices_encoding(indices.drop_last(), size);
    lemma_indices_encoding_len(indices, size);
    lemma_indices_encoding_len(indices.drop_last(), size);
    lemma_uint_bytes_len(indices.last(), size);
    assert((n - 1) * size + size == n * size) by (nonlinear_arith);
    assert(0 <= k * size && k * size + size <= n * size) by (nonlinear_arith)
        requires
            0 <= k < n,
            size >= 0,
    ;
    if k == n - 1 {
        assert(bytes.subrange(pos + k * size, pos + k * size + size) =~= uint_bytes(
            indices.last(),
            size,
        )) by {
            assert forall|j: int| 0 <= j < size implies bytes.subrange(
                pos + k * size,
                pos + k * size + size,
            )[j] == uint_bytes(indices.last(), size)[j] by {
                assert(bytes.subrange(pos, pos + n * size)[k * size + j] == all[k * size + j]);
            }
        }
        lemma_uint_at_bytes(bytes, pos + k * size, indices.last(), size);
    } else {
        assert(bytes.subrange(pos, pos + (n - 1) * size) =~= before) by {
            assert forall|j: int| 0 <= j < (n - 1) * size implies bytes.subrange(
                pos,
                pos + (n - 1) * size,
            )[j] == before[j] by {
                assert(bytes.subrange(pos, pos + n * size)[j] == all[j]);
            }
        }
        assert forall|i: int| 0 <= i < indices.drop_last().len() implies #[trigger] indices.drop_last()[i]
            < pow2(8 * size) by {
            assert(indices.drop_last()[i] == indices[i]);
        }
        lemma_indices_at(bytes, pos, indices.drop_last(), size, k);
    }
}

/// The byte whose bits, most significant first, are the eight given ones.
pub open spec fn byte_of(
    b0: bool,
    b1: bool,
    b2: bool,
    b3: bool,
    b4: bool,
    b5: bool,
    b6: bool,
    b7: bool,
) -> u8 {
    (if b0 { 0x80u8 } else { 0u8 }) | (if b1 { 0x40u8 } else { 0u8 }) | (if b2 { 0x20u8 } else { 0u8 })
        | (if b3 { 0x10u8 } else { 0u8 }) | (if b4 { 0x08u8 } else { 0u8 }) | (if b5 { 0x04u8 } else { 0u8 })
        | (if b6 { 0x02u8 } else { 0u8 }) | (if b7 { 0x01u8 } else { 0u8 })
}

proof fn lemma_byte_of(
    b0: bool,
    b1: bool,
    b2: bool,
    b3: bool,
    b4: bool,
    b5: bool,
    b6: bool,
    b7: bool,
)
    by (bit_vector)
    ensures
        (byte_of(b0, b1, b2, b3, b4, b5, b6, b7) & (0x80u8 >> 0u8) != 0) == b0,
        (byte_of(b0, b1, b2, b3, b4, b5, b6, b7) & (0x80u8 >> 1u8) != 0) == b1,
        (byte_of(b0, b1, b2, b3, b4, b5, b6, b7) & (0x80u8 >> 2u8) != 0) == b2,
        (byte_of(b0, b1, b2, b3, b4, b5, b6, b7) & (0x80u8 >> 3u8) != 0) == b3,
        (byte_of(b0, b1, b2, b3, b4, b5, b6, b7) & (0x80u8 >> 4u8) != 0) == b4,
        (byte_of(b0, b1, b2, b3, b4, b5, b6, b7) & (0x80u8 >> 5u8) != 0) == b5,
        (byte_of(b0, b1, b2, b3, b4, b5, b6, b7) & (0x80u8 >> 6u8) != 0) == b6,
        (byte_of(b0, b1, b2, b3, b4, b5, b6, b7) & (0x80u8 >> 7u8) != 0) == b7,
{
}

/// The `i`-th of `bits`, or a zero bit behind them.
pub open spec fn bit_or_zero(bits: Seq<bool>, i: int) -> bool {
    0 <= i < bits.len() && bits[i]
}

/// Every run of bits has a packing.
pub proof fn lemma_packed_packs(bits: Seq<bool>)
    ensures
        packs(packed(bits), bits),
{
    let bytes = Seq::new(
        byte_len(bits.len()),
        |k: int|
            byte_of(
                bit_or_zero(bits, 8 * k),
                bit_or_zero(bits, 8 * k + 1),
                bit_or_zero(bits, 8 * k + 2),
                bit_or_zero(bits, 8 * k + 3),
                bit_or_zero(bits, 8 * k + 4),
                bit_or_zero(bits, 8 * k + 5),
                bit_or_zero(bits, 8 * k + 6),
                bit_or_zero(bits, 8 * k + 7),
            ),
    );
    assert forall|i: int| 0 <= i < 8 * bytes.len() implies #[trigger] bit_at(bytes, i) == (i
        < bits.len() && bits[i]) by {
        let k = i / 8;
        lemma_byte_of(
            bit_or_zero(bits, 8 * k),
            bit_or_zero(bits, 8 * k + 1),
            bit_or_zero(bits, 8 * k + 2),
            bit_or_zero(bits, 8 * k + 3),
            bit_or_zero(bits, 8 * k + 4),
            bit_or_zero(bits, 8 * k + 5),
            bit_or_zero(bits, 8 * k + 6),
            bit_or_zero(bits, 8 * k + 7),
        );
        assert(i == 8 * k + i % 8);
    }
    assert(packs(bytes, bits));
}

/// Whether the bit `r` of `x`, counted from the most significant, is set
/// and every bit below it is zero.
spec fn ends_at(x: u8, r: u8) -> bool {
    x & (0x80u8 >> r) != 0 && x & (((0x80u8 >> r) - 1) as u8) == 0
}

proof fn lemma_ends_at_step(x: u8, r: u8)
    by (bit_vector)
    requires
        r < 7,
        x & (0x80u8 >> r) != 0 && x & (((0x80u8 >> r) - 1) as u8) == 0,
    ensures
        x != 0,
        x % 2 == 0,
        (x / 2) & (0x80u8 >> ((r + 1) as u8)) != 0 && (x / 2) & (((0x80u8 >> ((r + 1) as u8)) - 1) as u8)
            == 0,
{
}

proof fn lemma_ends_at_last(x: u8)
    by (bit_vector)
    requires
        x & (0x80u8 >> 7u8) != 0,
    ensures
        x % 2 == 1,
{
}

proof fn lemma_ends_at_bits(x: u8, r: u8)
    by (bit_vector)
    requires
        r < 8,
        x & (0x80u8 >> r) != 0,
        1 > r ==> x & (0x80u8 >> 1u8) == 0,
        2 > r ==> x & (0x80u8 >> 2u8) == 0,
        3 > r ==> x & (0x80u8 >> 3u8) == 0,
        4 > r ==> x & (0x80u8 >> 4u8) == 0,
        5 > r ==> x & (0x80u8 >> 5u8) == 0,
        6 > r ==> x & (0x80u8 >> 6u8) == 0,
        7 > r ==> x & (0x80u8 >> 7u8) == 0,
    ensures
        x & (0x80u8 >> r) != 0 && x & (((0x80u8 >> r) - 1) as u8) == 0,
{
}

/// A byte that ends at its bit `r` has `7 - r` zero bits below its lowest set bit.
proof fn lemma_trailing_zeros(x: u8, r: u8)
    requires
        r < 8,
        ends_at(x, r),
    ensures
        x != 0,
        trailing_zeros(x) == 7 - r,
    decreases 8 - r,
{
    if r == 7 {
        lemma_ends_at_last(x);
    } else {
        lemma_ends_at_step(x, r);
        lemma_trailing_zeros(x / 2, (r + 1) as u8);
    }
}

/// What the bits of a cell look like with their completion tag.
///
/// They take as many bytes as hold them, and one more bit where they do not
/// end on a byte boundary; they are read back from the front; and where
/// they carry a tag, the last byte ends at the tag.
pub proof fn lemma_tagged(bits: Seq<bool>)
    ensures
        tagged(bits).len() == (bits.len() / 8 + (bits.len() + 7) / 8) / 2 + (bits.len() / 8 + (
        bits.len() + 7) / 8) % 2,
        bits.len() <= 8 * tagged(bits).len(),
        bits_of(tagged(bits), bits.len()) == bits,
        bits.len() % 8 != 0 ==> tagged(bits).last() != 0 && trailing_zeros(tagged(bits).last()) == 7
            - bits.len() % 8,
{
    let n = bits.len() as int;
    if n % 8 == 0 {
        lemma_packed_packs(bits);
        let bytes = tagged(bits);
        assert(bits_of(bytes, bits.len()) =~= bits);
    } else {
        let longer = bits.push(true);
        lemma_packed_packs(longer);
        let bytes = tagged(bits);
        assert(bytes.len() == n / 8 + 1);
        assert forall|i: int| 0 <= i < n implies bits_of(bytes, bits.len())[i] == bits[i] by {
            assert(bit_at(bytes, i) == (i < longer.len() && longer[i]));
        }
        assert(bits_of(bytes, bits.len()) =~= bits);
        let last = bytes.last();
        let r = (n % 8) as u8;
        let base = 8 * (n / 8);
        assert(bit_at(bytes, base + r) == longer[n]);
        assert(bit_at(bytes, base + 1) == (base + 1 < longer.len() && longer[base + 1]));
        assert(bit_at(bytes, base + 2) == (base + 2 < longer.len() && longer[base + 2]));
        assert(bit_at(bytes, base + 3) == (base + 3 < longer.len() && longer[base + 3]));
        assert(bit_at(bytes, base + 4) == (base + 4 < longer.len() && longer[base + 4]));
        assert(bit_at(bytes, base + 5) == (base + 5 < longer.len() && longer[base + 5]));
        assert(bit_at(bytes, base + 6) == (base + 6 < longer.len() && longer[base + 6]));
        assert(bit_at(bytes, base + 7) == (base + 7 < longer.len() && longer[base + 7]));
        lemma_ends_at_bits(last, r);
        lemma_trailing_zeros(last, r);
    }
}

/// A cell that is written is read back as the same cell.
#[verifier::rlimit(50)]
pub proof fn lemma_cell_from_encoding(bytes: Seq<u8>, pos: int, cell: RawCellView, size: nat)
    requires
        0 <= pos,
        1 <= size <= 4,
        cell.bits.len() <= MAX_CELL_BITS,
        cell.references.len() <= MAX_CELL_REFERENCES,
        forall|k: int| 0 <= k < cell.references.len() ==> #[trigger] cell.references[k] < pow2(8 * size),
        pos + cell_encoding(cell, size).len() <= bytes.len(),
        bytes.subrange(pos, pos + cell_encoding(cell, size).len()) == cell_encoding(cell, size),
    ensures
        cell_from(bytes, pos, size) == Some((cell, pos + cell_encoding(cell, size).len())),
{
    let encoded = cell_encoding(cell, size);
    let data = tagged(cell.bits);
    let indices = indices_encoding(cell.references, size);
    let n = cell.bits.len() as int;
    lemma_tagged(cell.bits);
    lemma_indices_encoding_len(cell.references, size);
    assert(cell.references.len() * size <= 16) by (nonlinear_arith)
        requires
            cell.references.len() <= 4,
            size <= 4,
    ;
    let window = bytes.subrange(pos, pos + encoded.len());
    assert(bytes[pos] == window[0]);
    assert(bytes[pos + 1] == window[1]);
    let d1 = bytes[pos];
    let d2 = bytes[pos + 1];
    assert(d1 == cell.references.len());
    assert(d2 == n / 8 + (n + 7) / 8);
    let data_len = (d2 / 2 + d2 % 2) as int;
    assert(data_len == data.len());
    assert(d1 * size == cell.references.len() * size) by (nonlinear_arith)
        requires
            d1 == cell.references.len(),
    ;
    assert(bytes.subrange(pos + 2, pos + 2 + data_len) =~= data) by {
        assert forall|j: int| 0 <= j < data_len implies bytes.subrange(pos + 2, pos + 2 + data_len)[j]
            == data[j] by {
            assert(window[2 + j] == encoded[2 + j]);
        }
    }
    if n % 8 != 0 {
        assert(bytes[pos + 2 + data_len - 1] == bytes.subrange(pos + 2, pos + 2 + data_len)[data_len
            - 1]);
    }
    let refs_at = pos + 2 + data_len;
    assert(bytes.subrange(refs_at, refs_at + cell.references.len() * size) =~= indices) by {
        assert forall|j: int| 0 <= j < indices.len() implies bytes.subrange(
            refs_at,
            refs_at + cell.references.len() * size,
        )[j] == indices[j] by {
            assert(window[2 + data_len + j] == encoded[2 + data_len + j]);
        }
    }
    let read = cell_from(bytes, pos, size)->Some_0.0;
    assert forall|k: int| 0 <= k < cell.references.len() implies read.references[k]
        == cell.references[k] by {
        lemma_indices_at(bytes, refs_at, cell.references, size, k);
    }
    assert(read.references =~= cell.references);
    assert(read.bits =~= cell.bits);
}

/// Whether a cell can be written with indices of `size` bytes.
pub open spec fn cell_fits(cell: RawCellView, size: nat) -> bool {
    &&& cell.bits.len() <= MAX_CELL_BITS
    &&& cell.references.len() <= MAX_CELL_REFERENCES
    &&& forall|k: int| 0 <= k < cell.references.len() ==> #[trigger] cell.references[k] < pow2(8 * size)
}

/// A cell takes at most 146 bytes.
pub proof fn lemma_cell_encoding_len(cell: RawCellView, size: nat)
    requires
        1 <= size <= 4,
        cell.bits.len() <= MAX_CELL_BITS,
        cell.references.len() <= MAX_CELL_REFERENCES,
    ensures
        2 <= cell_encoding(cell, size).len() <= 146,
{
    lemma_tagged(cell.bits);
    lemma_indices_encoding_len(cell.references, size);
    assert(cell.references.len() * size <= 16) by (nonlinear_arith)
        requires
            cell.references.len() <= 4,
            size <= 4,
    ;
}

/// Cells take at most 146 bytes each.
pub proof fn lemma_cells_encoding_len(cells: Seq<RawCellView>, size: nat)
    requires
        1 <= size <= 4,
        forall|i: int|
            0 <= i < cells.len() ==> (#[trigger] cells[i]).bits.len() <= MAX_CELL_BITS
                && cells[i].references.len() <= MAX_CELL_REFERENCES,
    ensures
        cells_encoding(cells, size).len() <= 146 * cells.len(),
    decreases cells.len(),
{
    if cells.len() > 0 {
        assert forall|i: int| 0 <= i < cells.drop_last().len() implies (#[trigger] cells.drop_last()[i]).bits.len()
            <= MAX_CELL_BITS && cells.drop_last()[i].references.len() <= MAX_CELL_REFERENCES by {
            assert(cells.drop_last()[i] == cells[i]);
        }
        lemma_cells_encoding_len(cells.drop_last(), size);
        lemma_cell_encoding_len(cells.last(), size);
    }
}

/// Cells that are written one behind the other are read back as the same cells.
pub proof fn lemma_cells_from_encoding(bytes: Seq<u8>, pos: int, cells: Seq<RawCellView>, size: nat)
    requires
        0 <= pos,
        1 <= size <= 4,
        forall|i: int| 0 <= i < cells.len() ==> cell_fits(#[trigger] cells[i], size),
        pos + cells_encoding(cells, size).len() <= bytes.len(),
        bytes.subrange(pos, pos + cells_encoding(cells, size).len()) == cells_encoding(cells, size),
    ensures
        cells_from(bytes, pos, cells.len(), size) == Some(
            (cells, pos + cells_encoding(cells, size).len()),
        ),
    decreases cells.len(),
{
    if cells.len() == 0 {
        assert(cells =~= Seq::empty());
    } else {
        let all = cells_encoding(cells, size);
        let before = cells_encoding(cells.drop_last(), size);
        let last = cell_encoding(cells.last(), size);
        let window = bytes.subrange(pos, pos + all.len());
        assert forall|i: int| 0 <= i < cells.drop_last().len() implies cell_fits(
            #[trigger] cells.drop_last()[i],
            size,
        ) by {
            assert(cells.drop_last()[i] == cells[i]);
        }
        assert(bytes.subrange(pos, pos + before.len()) =~= before) by {
            assert forall|j: int| 0 <= j < before.len() implies bytes.subrange(
                pos,
                pos + before.len(),
            )[j] == before[j] by {
                assert(window[j] == all[j]);
            }
        }
        lemma_cells_from_encoding(bytes, pos, cells.drop_last(), size);
        let next = pos + before.len();
        assert(bytes.subrange(next, next + last.len()) =~= last) by {
            assert forall|j: int| 0 <= j < last.len() implies bytes.subrange(next, next + last.len())[j]
                == last[j] by {
                assert(window[before.len() + j] == all[before.len() + j]);
            }
        }
        assert(cell_fits(cells.last(), size));
        lemma_cell_from_encoding(bytes, next, cells.last(), size);
        assert(cells.drop_last().push(cells.last()) =~= cells);
    }
}

/// Where a run of bytes begins with one part behind another, it holds
/// each of the two parts at its place.
proof fn lemma_split(bytes: Seq<u8>, front: Seq<u8>, back: Seq<u8>)
    requires
        front.len() + back.len() <= bytes.len(),
        bytes.subrange(0, (front.len() + back.len()) as int) == front + back,
    ensures
        bytes.subrange(0, front.len() as int) == front,
        bytes.subrange(front.len() as int, (front.len() + back.len()) as int) == back,
{
    let both = bytes.subrange(0, (front.len() + back.len()) as int);
    assert forall|j: int| 0 <= j < front.len() implies bytes.subrange(0, front.len() as int)[j]
        == front[j] by {
        assert(both[j] == (front + back)[j]);
    }
    assert forall|j: int| 0 <= j < back.len() implies bytes.subrange(
        front.len() as int,
        (front.len() + back.len()) as int,
    )[j] == back[j] by {
        assert(both[front.len() + j] == (front + back)[front.len() + j]);
    }
    assert(bytes.subrange(0, front.len() as int) =~= front);
    assert(bytes.subrange(front.len() as int, (front.len() + back.len()) as int) =~= back);
}

/// The fields of the header of a bag, as they are written.
pub open spec fn header_for(bag: RawBagView, has_crc32c: bool) -> BagHeader {
    let size = byte_size(bag.cells.len());
    let data = cells_encoding(bag.cells, size);
    BagHeader {
        has_idx: false,
        has_crc32c,
        size,
        off_bytes: byte_size(data.len()),
        cells: bag.cells.len(),
        roots: bag.roots.len(),
        absent: 0,
        tot_cells_size: data.len(),
    }
}

/// Where each part of a written bag stands in its bytes.
#[verifier::rlimit(50)]
proof fn lemma_encoding_parts(bag: RawBagView, has_crc32c: bool)
    requires
        writable(bag),
    ensures
        ({
            let header = header_for(bag, has_crc32c);
            let bytes = encoding(bag, has_crc32c);
            let size = header.size;
            let data = cells_encoding(bag.cells, size);
            &&& 1 <= size <= 4
            &&& 1 <= header.off_bytes <= 8
            &&& header.cells < pow2(8 * size)
            &&& header.tot_cells_size < pow2(8 * header.off_bytes)
            &&& bytes.len() == header.total_len()
            &&& encoding_body(bag, has_crc32c).len() == header.checksum_at()
            &&& bytes[0] == 0xb5 && bytes[1] == 0xee && bytes[2] == 0x9c && bytes[3] == 0x72
            &&& bytes[4] == if has_crc32c {
                64 + size
            } else {
                size
            }
            &&& bytes[5] == header.off_bytes
            &&& bytes.subrange(6, (6 + size) as int) == uint_bytes(header.cells, size)
            &&& bytes.subrange((6 + size) as int, (6 + 2 * size) as int) == uint_bytes(header.roots, size)
            &&& bytes.subrange((6 + 2 * size) as int, (6 + 3 * size) as int) == uint_bytes(0, size)
            &&& bytes.subrange((6 + 3 * size) as int, header.roots_at() as int) == uint_bytes(
                header.tot_cells_size,
                header.off_bytes,
            )
            &&& bytes.subrange(header.roots_at() as int, header.cells_at() as int)
                == indices_encoding(bag.roots, size)
            &&& bytes.subrange(header.cells_at() as int, header.checksum_at() as int) == data
            &&& bytes.subrange(0, header.checksum_at() as int) == encoding_body(bag, has_crc32c)
            &&& has_crc32c ==> bytes.subrange(
                header.checksum_at() as int,
                (header.checksum_at() + 4) as int,
            ) == checksum_bytes(crc32c(encoding_body(bag, has_crc32c)))
        }),
{
    let header = header_for(bag, has_crc32c);
    let size = header.size;
    let data = cells_encoding(bag.cells, size);
    let body = encoding_body(bag, has_crc32c);
    let bytes = encoding(bag, has_crc32c);
    lemma2_to64();
    lemma_byte_size(header.cells);
    lemma_byte_size_bound(header.cells, 4);
    lemma_cells_encoding_len(bag.cells, size);
    lemma_byte_size(data.len());
    lemma_byte_size_bound(data.len(), 8);
    lemma_uint_bytes_len(header.cells, size);
    lemma_uint_bytes_len(header.roots, size);
    lemma_uint_bytes_len(0, size);
    lemma_uint_bytes_len(data.len(), header.off_bytes);
    lemma_indices_encoding_len(bag.roots, size);
    let opening = seq![
        0xb5u8,
        0xeeu8,
        0x9cu8,
        0x72u8,
        (if has_crc32c {
            64 + size
        } else {
            size
        }) as u8,
        header.off_bytes as u8,
    ];
    let with_cells = opening + uint_bytes(header.cells, size);
    let with_roots = with_cells + uint_bytes(header.roots, size);
    let with_absent = with_roots + uint_bytes(0, size);
    let with_size = with_absent + uint_bytes(data.len(), header.off_bytes);
    let with_root_list = with_size + indices_encoding(bag.roots, size);
    assert(body == with_root_list + data) by {
        reveal(encoding_body);
    }
    if has_crc32c {
        let sum = checksum_bytes(crc32c(body));
        assert(bytes == body + sum);
        assert(bytes.subrange(0, (body.len() + sum.len()) as int) =~= body + sum);
        lemma_split(bytes, body, sum);
    } else {
        assert(bytes.subrange(0, body.len() as int) =~= body);
    }
    lemma_split(bytes, with_root_list, data);
    lemma_split(bytes, with_size, indices_encoding(bag.roots, size));
    lemma_split(bytes, with_absent, uint_bytes(data.len(), header.off_bytes));
    lemma_split(bytes, with_roots, uint_bytes(0, size));
    lemma_split(bytes, with_cells, uint_bytes(header.roots, size));
    lemma_split(bytes, opening, uint_bytes(header.cells, size));
    let front = bytes.subrange(0, 6);
    assert(bytes[0] == front[0] && bytes[1] == front[1] && bytes[2] == front[2] && bytes[3]
        == front[3] && bytes[4] == front[4] && bytes[5] == front[5]);
}

/// A header is read back from bytes that hold its fields at their places.
proof fn lemma_header_of(bytes: Seq<u8>, header: BagHeader)
    requires
        1 <= header.size <= 4,
        1 <= header.off_bytes <= 8,
        !header.has_idx,
        header.cells < pow2(8 * header.size),
        header.roots < pow2(8 * header.size),
        header.absent == 0,
        header.tot_cells_size < pow2(8 * header.off_bytes),
        header.roots_at() <= bytes.len(),
        bytes[0] == 0xb5 && bytes[1] == 0xee && bytes[2] == 0x9c && bytes[3] == 0x72,
        bytes[4] == if header.has_crc32c {
            64 + header.size
        } else {
            header.size
        },
        bytes[5] == header.off_bytes,
        bytes.subrange(6, (6 + header.size) as int) == uint_bytes(header.cells, header.size),
        bytes.subrange((6 + header.size) as int, (6 + 2 * header.size) as int) == uint_bytes(
            header.roots,
            header.size,
        ),
        bytes.subrange((6 + 2 * header.size) as int, (6 + 3 * header.size) as int) == uint_bytes(
            0,
            header.size,
        ),
        bytes.subrange((6 + 3 * header.size) as int, header.roots_at() as int) == uint_bytes(
            header.tot_cells_size,
            header.off_bytes,
        ),
    ensures
        header_of(bytes) == Some(header),
{
    let size = header.size;
    lemma_uint_at_bytes(bytes, 6, header.cells, size);
    lemma_uint_at_bytes(bytes, (6 + size) as int, header.roots, size);
    lemma_uint_at_bytes(bytes, (6 + 2 * size) as int, 0, size);
    lemma_uint_at_bytes(bytes, (6 + 3 * size) as int, header.tot_cells_size, header.off_bytes);
}

/// The header of a written bag is read back as it was written.
proof fn lemma_encoding_header(bag: RawBagView, has_crc32c: bool)
    requires
        writable(bag),
    ensures
        header_of(encoding(bag, has_crc32c)) == Some(header_for(bag, has_crc32c)),
{
    let header = header_for(bag, has_crc32c);
    let bytes = encoding(bag, has_crc32c);
    lemma_encoding_parts(bag, has_crc32c);
    lemma_header_of(bytes, header);
}

/// A bag that is written is read back as the same bag.
#[verifier::rlimit(50)]
pub proof fn lemma_decoded_encoding(bag: RawBagView, has_crc32c: bool)
    requires
        writable(bag),
    ensures
        decoded(encoding(bag, has_crc32c)) == Some(bag),
{
    let header = header_for(bag, has_crc32c);
    let size = header.size;
    let bytes = encoding(bag, has_crc32c);
    let body = encoding_body(bag, has_crc32c);
    lemma_encoding_parts(bag, has_crc32c);
    lemma_encoding_header(bag, has_crc32c);
    if has_crc32c {
        lemma_checksum_at(bytes, header.checksum_at() as int, crc32c(body));
    }
    assert forall|i: int| 0 <= i < bag.cells.len() implies cell_fits(#[trigger] bag.cells[i], size) by {
        assert forall|k: int| 0 <= k < bag.cells[i].references.len() implies #[trigger] bag.cells[i].references[k]
            < pow2(8 * size) by {
            assert(bag.cells[i].references[k] < bag.cells.len());
        }
    }
    lemma_cells_from_encoding(bytes, header.cells_at() as int, bag.cells, size);
    let roots = roots_of(bytes, header);
    assert forall|i: int| 0 <= i < bag.roots.len() implies #[trigger] bag.roots[i] < pow2(8 * size) by {
        assert(bag.roots[i] < bag.cells.len());
    }
    assert forall|k: int| 0 <= k < bag.roots.len() implies roots[k] == bag.roots[k] by {
        lemma_indices_encoding_len(bag.roots, size);
        lemma_indices_at(bytes, header.roots_at() as int, bag.roots, size, k);
    }
    assert(roots =~= bag.roots);
    assert forall|k: int| 0 <= k < roots.len() implies !(#[trigger] roots[k] >= header.cells) by {
        assert(bag.roots[k] < bag.cells.len());
    }
}

} // verus!
