//! The byte format of a bag of cells.
//!
//! A bag is a header, a list of root indices, an optional index, the cells
//! one behind the other, and an optional checksum. A cell is two descriptor
//! bytes, its bits with a completion tag, and the indices of its children.
use crate::cell::bag_of_cells::linkable;
use crate::cell::bits::{bits_of, pack_bits};
use crate::cell::hash::{lemma_packed, tagged};
use crate::cell::model::{MAX_CELL_BITS, MAX_CELL_REFERENCES};
use crate::cell::round_trip::{lemma_byte_size_bound, lemma_decoded_encoding};
use crate::cell::checksum::{crc32c, crc32c_checksum};
use crate::cell::error::{describe, described, TonCellError};
use vstd::arithmetic::power2::{lemma2_to64, lemma_pow2_adds, lemma_pow2_strictly_increases, pow2};
use vstd::prelude::*;

verus! {

/// A cell as a bag lists it: its bits, and its children by their indices in the bag.
pub struct RawCell {
    pub bits: Vec<bool>,
    pub references: Vec<usize>,
}

/// What a [`RawCell`] holds.
pub struct RawCellView {
    pub bits: Seq<bool>,
    pub references: Seq<nat>,
}

impl View for RawCell {
    type V = RawCellView;

    open spec fn view(&self) -> RawCellView {
        RawCellView {
            bits: self.bits@,
            references: Seq::new(self.references@.len(), |k: int| self.references@[k] as nat),
        }
    }
}

/// The number that the `n` bytes of `bytes` from `pos` on spell, most
/// significant byte first.
pub open spec fn uint_at(bytes: Seq<u8>, pos: int, n: nat) -> nat
    decreases n,
{
    if n == 0 {
        0
    } else {
        256 * uint_at(bytes, pos, (n - 1) as nat) + bytes[pos + n - 1] as nat
    }
}

/// The number that the `n` bytes of `bytes` from `pos` on spell, least
/// significant byte first.
pub open spec fn uint_le_at(bytes: Seq<u8>, pos: int, n: nat) -> nat
    decreases n,
{
    if n == 0 {
        0
    } else {
        bytes[pos] as nat + 256 * uint_le_at(bytes, pos + 1, (n - 1) as nat)
    }
}

/// The number of zero bits below the lowest set bit of `byte`; 8 for zero.
pub open spec fn trailing_zeros(byte: u8) -> nat
    decreases byte,
{
    if byte == 0 {
        8
    } else if byte % 2 == 1 {
        0
    } else {
        1 + trailing_zeros(byte / 2)
    }
}

/// `n` bytes spell a number below the `8 * n`-th power of two.
pub proof fn lemma_uint_at_bound(bytes: Seq<u8>, pos: int, n: nat)
    ensures
        uint_at(bytes, pos, n) < pow2(8 * n),
    decreases n,
{
    lemma2_to64();
    if n > 0 {
        lemma_uint_at_bound(bytes, pos, (n - 1) as nat);
        lemma_pow2_adds(8, (8 * (n - 1)) as nat);
        assert(256 * uint_at(bytes, pos, (n - 1) as nat) + 255 < 256 * pow2((8 * (n - 1)) as nat))
            by (nonlinear_arith)
            requires
                uint_at(bytes, pos, (n - 1) as nat) < pow2((8 * (n - 1)) as nat),
        ;
    }
}

/// `n` bytes, least significant first, spell a number below the `8 * n`-th power of two.
pub proof fn lemma_uint_le_at_bound(bytes: Seq<u8>, pos: int, n: nat)
    ensures
        uint_le_at(bytes, pos, n) < pow2(8 * n),
    decreases n,
{
    lemma2_to64();
    if n > 0 {
        lemma_uint_le_at_bound(bytes, pos + 1, (n - 1) as nat);
        lemma_pow2_adds(8, (8 * (n - 1)) as nat);
        assert(255 + 256 * uint_le_at(bytes, pos + 1, (n - 1) as nat) < 256 * pow2(
            (8 * (n - 1)) as nat,
        )) by (nonlinear_arith)
            requires
                uint_le_at(bytes, pos + 1, (n - 1) as nat) < pow2((8 * (n - 1)) as nat),
        ;
    }
}

/// Reads `n` bytes from `pos` on as one number, most significant byte first.
fn read_uint(bytes: &Vec<u8>, pos: usize, n: usize) -> (value: u64)
    requires
        n <= 8,
        pos + n <= bytes@.len(),
    ensures
        value == uint_at(bytes@, pos as int, n as nat),
{
    let len: usize = bytes.len();
    let mut value: u64 = 0;
    let mut i: usize = 0;
    while i < n
        invariant
            i <= n <= 8,
            pos + n <= bytes@.len() == len,
            value == uint_at(bytes@, pos as int, i as nat),
        decreases n - i,
    {
        proof {
            lemma_uint_at_bound(bytes@, pos as int, (i + 1) as nat);
            lemma2_to64();
            if i + 1 < 8 {
                lemma_pow2_strictly_increases((8 * (i + 1)) as nat, 64);
            }
        }
        value = value * 256 + bytes[pos + i] as u64;
        i = i + 1;
    }
    value
}

/// Counts the zero bits below the lowest set bit of `byte`.
fn count_trailing_zeros(byte: u8) -> (n: usize)
    ensures
        n == trailing_zeros(byte),
        n <= 8,
        byte != 0 ==> n < 8,
{
    let mut rest: u8 = byte;
    let mut n: usize = 0;
    if byte == 0 {
        return 8;
    }
    proof {
        lemma2_to64();
    }
    while rest % 2 == 0
        invariant
            rest != 0,
            n + trailing_zeros(rest) == trailing_zeros(byte),
            rest as int * pow2(n as nat) == byte as int,
            n < 8,
        decreases rest,
    {
        proof {
            lemma2_to64();
            vstd::arithmetic::power2::lemma_pow2_unfold((n + 1) as nat);
            assert((rest / 2) as int * (2 * pow2(n as nat)) == rest as int * pow2(n as nat))
                by (nonlinear_arith)
                requires
                    rest % 2 == 0,
            ;
            if n + 1 >= 8 {
                lemma_pow2_strictly_increases(7, (n + 1) as nat);
                assert((rest / 2) as int * pow2((n + 1) as nat) >= pow2((n + 1) as nat))
                    by (nonlinear_arith)
                    requires
                        rest / 2 >= 1,
                ;
            }
        }
        rest = rest / 2;
        n = n + 1;
    }
    assert(trailing_zeros(rest) == 0);
    proof {
        vstd::arithmetic::power2::lemma_pow2_pos(0);
        lemma2_to64();
    }
    n
}

/// The cell that `bytes` hold from `pos` on, where indices take `size`
/// bytes, and the position behind it.
///
/// The first descriptor byte is the number of children, at most four; a
/// cell that sets its higher bits is not an ordinary one and is not read. The second
/// is the number of whole bytes of bits plus the number of bytes that hold
/// all of them: where it is odd, the last byte ends in a `1` bit, which
/// marks the end of the bits, and zero bits.
pub open spec fn cell_from(bytes: Seq<u8>, pos: int, size: nat) -> Option<(RawCellView, int)> {
    if pos + 2 > bytes.len() {
        None
    } else {
        let d1 = bytes[pos];
        let d2 = bytes[pos + 1];
        let data_len = (d2 / 2 + d2 % 2) as int;
        let end = pos + 2 + data_len + d1 * size;
        if d1 > 4 || end > bytes.len() {
            None
        } else if d2 % 2 == 1 && bytes[pos + 2 + data_len - 1] == 0 {
            None
        } else {
            let data = bytes.subrange(pos + 2, pos + 2 + data_len);
            let bit_len = if d2 % 2 == 0 {
                8 * data_len
            } else {
                8 * data_len - 1 - trailing_zeros(bytes[pos + 2 + data_len - 1])
            };
            Some(
                (
                    RawCellView {
                        bits: bits_of(data, bit_len as nat),
                        references: Seq::new(
                            d1 as nat,
                            |k: int| uint_at(bytes, pos + 2 + data_len + k * size, size),
                        ),
                    },
                    end,
                ),
            )
        }
    }
}

/// Reads the cell that `bytes` hold from `pos` on.
#[verifier::rlimit(50)]
fn read_cell(bytes: &Vec<u8>, pos: usize, size: usize) -> (r: Option<(RawCell, usize)>)
    requires
        1 <= size <= 4,
        pos <= bytes@.len(),
    ensures
        r is Some <==> cell_from(bytes@, pos as int, size as nat) is Some,
        r matches Some((cell, end)) ==> cell_from(bytes@, pos as int, size as nat) == Some(
            (cell@, end as int),
        ) && pos + 2 <= end <= bytes@.len(),
{
    if bytes.len() - pos < 2 {
        return None;
    }
    let d1: u8 = bytes[pos];
    let d2: u8 = bytes[pos + 1];
    let data_len: usize = (d2 / 2 + d2 % 2) as usize;
    if d1 > 4 {
        return None;
    }
    let ref_count: usize = d1 as usize;
    assert(d1 * size == ref_count * size);
    assert(ref_count * size <= 16) by (nonlinear_arith)
        requires
            ref_count <= 4,
            size <= 4,
    ;
    if bytes.len() - pos - 2 < data_len + ref_count * size {
        return None;
    }
    let data_at: usize = pos + 2;
    if d2 % 2 == 1 && bytes[data_at + data_len - 1] == 0 {
        return None;
    }
    let bit_len: usize = if d2 % 2 == 0 {
        8 * data_len
    } else {
        8 * data_len - 1 - count_trailing_zeros(bytes[data_at + data_len - 1])
    };
    let ghost data = bytes@.subrange(data_at as int, data_at + data_len);
    let mut bits: Vec<bool> = Vec::new();
    let mut i: usize = 0;
    while i < bit_len
        invariant
            i <= bit_len <= 8 * data_len,
            data_at + data_len <= bytes@.len() <= usize::MAX,
            data == bytes@.subrange(data_at as int, data_at + data_len),
            bits@ == bits_of(data, i as nat),
        decreases bit_len - i,
    {
        let byte: u8 = bytes[data_at + i / 8];
        let bit: bool = byte & (0x80u8 >> ((i % 8) as u8)) != 0;
        assert(data[i as int / 8] == byte);
        bits.push(bit);
        assert(bits@ =~= bits_of(data, (i + 1) as nat));
        i = i + 1;
    }
    let refs_at: usize = data_at + data_len;
    let mut references: Vec<usize> = Vec::new();
    let mut k: usize = 0;
    while k < ref_count
        invariant
            k <= ref_count <= 4,
            1 <= size <= 4,
            refs_at + ref_count * size <= bytes@.len() <= usize::MAX,
            references@.len() == k,
            forall|j: int|
                0 <= j < k ==> references@[j] == uint_at(
                    bytes@,
                    refs_at + j * size,
                    size as nat,
                ),
        decreases ref_count - k,
    {
        assert(k * size + size <= ref_count * size) by (nonlinear_arith)
            requires
                k < ref_count,
        ;
        let index: u64 = read_uint(bytes, refs_at + k * size, size);
        proof {
            lemma_uint_at_bound(bytes@, refs_at + k * size, size as nat);
            lemma2_to64();
            if size < 4 {
                lemma_pow2_strictly_increases((8 * size) as nat, 32);
            }
        }
        references.push(index as usize);
        k = k + 1;
    }
    let cell = RawCell { bits, references };
    proof {
        let expected = cell_from(bytes@, pos as int, size as nat)->Some_0.0;
        assert(cell@.references =~= expected.references);
    }
    Some((cell, refs_at + ref_count * size))
}

/// The cells of a bag in the order of the bag, and the indices of its roots.
pub struct RawBagOfCells {
    pub cells: Vec<RawCell>,
    pub roots: Vec<usize>,
}

/// What a [`RawBagOfCells`] holds.
pub struct RawBagView {
    pub cells: Seq<RawCellView>,
    pub roots: Seq<nat>,
}

/// What each of `cells` holds, in order.
pub open spec fn views_of(cells: Seq<RawCell>) -> Seq<RawCellView> {
    Seq::new(cells.len(), |i: int| cells[i]@)
}

impl View for RawBagOfCells {
    type V = RawBagView;

    open spec fn view(&self) -> RawBagView {
        RawBagView {
            cells: views_of(self.cells@),
            roots: Seq::new(self.roots@.len(), |k: int| self.roots@[k] as nat),
        }
    }
}

/// The fields at the front of a bag.
pub struct BagHeader {
    /// Whether an index of the cells follows the root list.
    pub has_idx: bool,
    /// Whether a checksum closes the bag.
    pub has_crc32c: bool,
    /// The number of bytes of a cell index.
    pub size: nat,
    /// The number of bytes of an offset into the cell data.
    pub off_bytes: nat,
    /// The number of cells.
    pub cells: nat,
    /// The number of roots.
    pub roots: nat,
    /// The number of cells that are listed but not held.
    pub absent: nat,
    /// The number of bytes that all cells take together.
    pub tot_cells_size: nat,
}

impl BagHeader {
    /// Where the root list begins.
    pub open spec fn roots_at(self) -> nat {
        6 + 3 * self.size + self.off_bytes
    }

    /// Where the index begins, if there is one.
    pub open spec fn index_at(self) -> nat {
        self.roots_at() + self.roots * self.size
    }

    /// Where the cells begin.
    pub open spec fn cells_at(self) -> nat {
        self.index_at() + if self.has_idx {
            self.cells * self.off_bytes
        } else {
            0
        }
    }

    /// Where the checksum begins, if there is one.
    pub open spec fn checksum_at(self) -> nat {
        self.cells_at() + self.tot_cells_size
    }

    /// The number of bytes of the whole bag.
    pub open spec fn total_len(self) -> nat {
        self.checksum_at() + if self.has_crc32c {
            4nat
        } else {
            0nat
        }
    }
}

/// The header that `bytes` begin with.
///
/// The bag opens with the four bytes `b5 ee 9c 72`. The next byte holds,
/// from its highest bit down, three flags (index, checksum, cache bits), two
/// bits that are zero, and the number of bytes of a cell index, from 1 to 4.
/// The next is the number of bytes of an offset, from 1 to 8. Then come the
/// numbers of cells, of roots and of absent cells, and the size of the cell
/// data.
pub open spec fn header_of(bytes: Seq<u8>) -> Option<BagHeader> {
    if bytes.len() < 6 || bytes[0] != 0xb5 || bytes[1] != 0xee || bytes[2] != 0x9c || bytes[3]
        != 0x72 {
        None
    } else {
        let flags = bytes[4];
        let size = (flags % 8) as nat;
        let off_bytes = bytes[5] as nat;
        if (flags / 8) % 4 != 0 || size == 0 || size > 4 || off_bytes == 0 || off_bytes > 8
            || bytes.len() < 6 + 3 * size + off_bytes {
            None
        } else {
            Some(
                BagHeader {
                    has_idx: flags >= 128,
                    has_crc32c: (flags / 64) % 2 == 1,
                    size,
                    off_bytes,
                    cells: uint_at(bytes, 6, size),
                    roots: uint_at(bytes, (6 + size) as int, size),
                    absent: uint_at(bytes, (6 + 2 * size) as int, size),
                    tot_cells_size: uint_at(bytes, (6 + 3 * size) as int, off_bytes),
                },
            )
        }
    }
}

/// The `count` cells that `bytes` hold one behind the other from `pos` on,
/// and the position behind the last of them.
pub open spec fn cells_from(bytes: Seq<u8>, pos: int, count: nat, size: nat) -> Option<
    (Seq<RawCellView>, int),
>
    decreases count,
{
    if count == 0 {
        Some((Seq::empty(), pos))
    } else {
        match cells_from(bytes, pos, (count - 1) as nat, size) {
            None => None,
            Some((cells, next)) => match cell_from(bytes, next, size) {
                None => None,
                Some((cell, end)) => Some((cells.push(cell), end)),
            },
        }
    }
}

/// The root list: as many cell indices as the header says, from the end of
/// the header on.
pub open spec fn roots_of(bytes: Seq<u8>, header: BagHeader) -> Seq<nat> {
    Seq::new(
        header.roots,
        |k: int| uint_at(bytes, header.roots_at() + k * header.size, header.size),
    )
}

/// Whether `bytes` are a bag but for what their root list may hold: they
/// have the header `header` and the cells `cells`, and pass every check
/// that does not look at the root list.
spec fn cells_accepted(bytes: Seq<u8>, header: BagHeader, cells: Seq<RawCellView>) -> bool {
    &&& header_of(bytes) == Some(header)
    &&& header.absent == 0
    &&& header.roots <= header.cells
    &&& header.total_len() == bytes.len()
    &&& header.has_crc32c ==> crc32c(bytes.subrange(0, header.checksum_at() as int)) == uint_le_at(
        bytes,
        header.checksum_at() as int,
        4,
    )
    &&& cells_from(bytes, header.cells_at() as int, header.cells, header.size) == Some(
        (cells, header.checksum_at() as int),
    )
}

/// The bag that `bytes` hold, or `None` where they are not a bag.
///
/// The bytes are a bag where the header is well formed, no cell is absent,
/// there are no more roots than cells, the bag is as long as its header
/// says, the checksum, if there is one, is the CRC-32C of all bytes before
/// it, the cells fill the cell data exactly, and every root is the index of
/// a cell. Of the index, only its length is looked at.
pub open spec fn decoded(bytes: Seq<u8>) -> Option<RawBagView> {
    match header_of(bytes) {
        None => None,
        Some(header) => {
            if header.absent != 0 || header.roots > header.cells || header.total_len()
                != bytes.len() {
                None
            } else if header.has_crc32c && crc32c(bytes.subrange(0, header.checksum_at() as int))
                != uint_le_at(bytes, header.checksum_at() as int, 4) {
                None
            } else {
                match cells_from(bytes, header.cells_at() as int, header.cells, header.size) {
                    None => None,
                    Some((cells, end)) => {
                        let roots = roots_of(bytes, header);
                        if end != header.checksum_at() || exists|k: int|
                            0 <= k < roots.len() && #[trigger] roots[k] >= header.cells {
                            None
                        } else {
                            Some(RawBagView { cells, roots })
                        }
                    },
                }
            }
        },
    }
}

/// Where fewer cells cannot be read, more cannot be read either.
proof fn lemma_cells_from_none(bytes: Seq<u8>, pos: int, fewer: nat, count: nat, size: nat)
    requires
        fewer <= count,
        cells_from(bytes, pos, fewer, size) is None,
    ensures
        cells_from(bytes, pos, count, size) is None,
    decreases count,
{
    if fewer < count {
        lemma_cells_from_none(bytes, pos, fewer, (count - 1) as nat, size);
    }
}

/// The error of bytes that are not a bag of cells.
fn not_a_bag(what: &str, found: usize, expected: usize, len: usize) -> (e: TonCellError)
    ensures
        e matches TonCellError::BagOfCellsDeserializationError(text) && text@ == described(what@, found as nat, ", expected: "@, expected as nat, ", bytes: "@, len as nat),
{
    TonCellError::BagOfCellsDeserializationError(
        describe(what, found, ", expected: ", expected, ", bytes: ", len),
    )
}

impl RawBagOfCells {
    /// Reads a bag of cells from `bytes`.
    #[verifier::rlimit(50)]
    pub fn parse(bytes: &Vec<u8>) -> (r: Result<RawBagOfCells, TonCellError>)
        ensures
            r is Ok <==> decoded(bytes@) is Some,
            r matches Ok(bag) ==> decoded(bytes@) == Some(bag@),
            r matches Err(e) ==> e is BagOfCellsDeserializationError,
    {
        let len: usize = bytes.len();
        if len < 6 || bytes[0] != 0xb5 || bytes[1] != 0xee || bytes[2] != 0x9c || bytes[3] != 0x72 {
            return Err(not_a_bag("Unsupported magic number, bytes: ", len, 6, len));
        }
        let flags: u8 = bytes[4];
        let size: usize = (flags % 8) as usize;
        let off_bytes: usize = bytes[5] as usize;
        if (flags / 8) % 4 != 0 || size == 0 || size > 4 || off_bytes == 0 || off_bytes > 8 || len
            < 6 + 3 * size + off_bytes {
            return Err(not_a_bag("Invalid header: index bytes: ", size, 4, len));
        }
        let has_idx: bool = flags >= 128;
        let has_crc32c: bool = (flags / 64) % 2 == 1;
        let cells: u64 = read_uint(bytes, 6, size);
        let roots: u64 = read_uint(bytes, 6 + size, size);
        let absent: u64 = read_uint(bytes, 6 + 2 * size, size);
        let tot_cells_size: u64 = read_uint(bytes, 6 + 3 * size, off_bytes);
        let ghost header = header_of(bytes@)->Some_0;
        proof {
            lemma2_to64();
            lemma_uint_at_bound(bytes@, 6, size as nat);
            lemma_uint_at_bound(bytes@, 6 + size, size as nat);
            if size < 4 {
                lemma_pow2_strictly_increases((8 * size) as nat, 32);
            }
        }
        if absent != 0 || roots > cells {
            return Err(not_a_bag("Invalid header: roots: ", roots as usize, cells as usize, len));
        }
        assert(roots * size <= 0xffff_ffff * 4 && cells * off_bytes <= 0xffff_ffff * 8)
            by (nonlinear_arith)
            requires
                roots <= 0xffff_ffff,
                cells <= 0xffff_ffff,
                size <= 4,
                off_bytes <= 8,
        ;
        let root_bytes: u64 = roots * (size as u64);
        let index_bytes: u64 = if has_idx {
            cells * (off_bytes as u64)
        } else {
            0
        };
        let roots_at: usize = 6 + 3 * size + off_bytes;
        let total: u128 = roots_at as u128 + root_bytes as u128 + index_bytes as u128
            + tot_cells_size as u128 + (if has_crc32c {
            4u128
        } else {
            0u128
        });
        if total != len as u128 {
            return Err(not_a_bag("Invalid length: bytes: ", len, 0, len));
        }
        let cells_at: usize = roots_at + root_bytes as usize + index_bytes as usize;
        let checksum_at: usize = cells_at + tot_cells_size as usize;
        if has_crc32c {
            let mut covered: Vec<u8> = Vec::new();
            let mut i: usize = 0;
            while i < checksum_at
                invariant
                    i <= checksum_at <= bytes@.len(),
                    covered@ == bytes@.subrange(0, i as int),
                decreases checksum_at - i,
            {
                covered.push(bytes[i]);
                assert(covered@ =~= bytes@.subrange(0, i + 1));
                i = i + 1;
            }
            let computed: u32 = crc32c_checksum(&covered);
            let stored: u64 = bytes[checksum_at] as u64 + 256 * (bytes[checksum_at + 1] as u64 + 256
                * (bytes[checksum_at + 2] as u64 + 256 * (bytes[checksum_at + 3] as u64)));
            proof {
                reveal_with_fuel(uint_le_at, 5);
            }
            if computed as u64 != stored {
                return Err(not_a_bag("Checksum mismatch: found: ", stored as usize, computed as usize, len));
            }
        }
        let count: usize = cells as usize;
        let mut list: Vec<RawCell> = Vec::new();
        let mut pos: usize = cells_at;
        let mut i: usize = 0;
        assert(views_of(list@) =~= Seq::empty());
        while i < count
            invariant
                i <= count,
                1 <= size <= 4,
                pos <= bytes@.len(),
                list@.len() == i,
                header_of(bytes@) == Some(header),
                count == header.cells,
                size == header.size,
                cells_at == header.cells_at(),
                header.absent == 0,
                header.roots <= header.cells,
                header.total_len() == bytes@.len(),
                cells_from(bytes@, cells_at as int, i as nat, size as nat) == Some(
                    (views_of(list@), pos as int),
                ),
            decreases count - i,
        {
            let ghost before = views_of(list@);
            match read_cell(bytes, pos, size) {
                None => {
                    proof {
                        assert(cells_from(bytes@, cells_at as int, (i + 1) as nat, size as nat) is None);
                        lemma_cells_from_none(
                            bytes@,
                            cells_at as int,
                            (i + 1) as nat,
                            count as nat,
                            size as nat,
                        );
                    }
                    return Err(not_a_bag("Invalid cell: index: ", i, count, len));
                },
                Some((cell, end)) => {
                    list.push(cell);
                    assert(views_of(list@) =~= before.push(cell@));
                    pos = end;
                },
            }
            i = i + 1;
        }
        if pos != checksum_at {
            return Err(not_a_bag("Invalid cell data: end: ", pos, checksum_at, len));
        }
        let ghost expected_roots = roots_of(bytes@, header);
        assert(cells_accepted(bytes@, header, views_of(list@)));
        let root_count: usize = roots as usize;
        let mut root_list: Vec<usize> = Vec::new();
        let mut k: usize = 0;
        while k < root_count
            invariant
                k <= root_count == header.roots,
                1 <= size <= 4,
                size == header.size,
                count == header.cells == cells,
                roots_at == header.roots_at(),
                roots_at + root_count * size <= bytes@.len() == len,
                root_list@.len() == k,
                cells_accepted(bytes@, header, views_of(list@)),
                expected_roots == roots_of(bytes@, header),
                forall|j: int|
                    0 <= j < k ==> root_list@[j] == expected_roots[j] && root_list@[j] < count,
            decreases root_count - k,
        {
            assert(k * size + size <= root_count * size) by (nonlinear_arith)
                requires
                    k < root_count,
            ;
            let index: u64 = read_uint(bytes, roots_at + k * size, size);
            proof {
                lemma_uint_at_bound(bytes@, roots_at + k * size, size as nat);
                lemma2_to64();
                if size < 4 {
                    lemma_pow2_strictly_increases((8 * size) as nat, 32);
                }
                assert(expected_roots[k as int] == uint_at(bytes@, header.roots_at() + k * header.size, header.size));
                assert(roots_at + k * size == header.roots_at() + k * header.size);
                assert(index == expected_roots[k as int]);
            }
            if index >= cells {
                assert(expected_roots[k as int] >= header.cells);
                return Err(not_a_bag("Invalid root: index: ", index as usize, count, len));
            }
            let ghost read = root_list@;
            root_list.push(index as usize);
            assert(forall|j: int| 0 <= j < k ==> root_list@[j] == read[j]);
            assert(root_list@[k as int] == expected_roots[k as int]);
            k = k + 1;
        }
        let bag = RawBagOfCells { cells: list, roots: root_list };
        proof {
            assert(bag@.roots =~= expected_roots);
        }
        Ok(bag)
    }
}

/// `value` in `n` bytes, most significant byte first.
pub open spec fn uint_bytes(value: nat, n: nat) -> Seq<u8>
    decreases n,
{
    if n == 0 {
        Seq::empty()
    } else {
        uint_bytes(value / 256, (n - 1) as nat).push((value % 256) as u8)
    }
}

/// The number of bytes that `value` takes, at least one.
pub open spec fn byte_size(value: nat) -> nat
    decreases value,
{
    if value < 256 {
        1
    } else {
        1 + byte_size(value / 256)
    }
}

/// Each of `indices` in `size` bytes, one behind the other.
pub open spec fn indices_encoding(indices: Seq<nat>, size: nat) -> Seq<u8>
    decreases indices.len(),
{
    if indices.len() == 0 {
        Seq::empty()
    } else {
        indices_encoding(indices.drop_last(), size) + uint_bytes(indices.last(), size)
    }
}

/// The bytes of one cell: the number of its children, the descriptor of
/// its bits, its bits with the completion tag, and its child indices.
pub open spec fn cell_encoding(cell: RawCellView, size: nat) -> Seq<u8> {
    seq![
        cell.references.len() as u8,
        (cell.bits.len() / 8 + (cell.bits.len() + 7) / 8) as u8,
    ] + tagged(cell.bits) + indices_encoding(cell.references, size)
}

/// The bytes of `cells`, one behind the other.
pub open spec fn cells_encoding(cells: Seq<RawCellView>, size: nat) -> Seq<u8>
    decreases cells.len(),
{
    if cells.len() == 0 {
        Seq::empty()
    } else {
        cells_encoding(cells.drop_last(), size) + cell_encoding(cells.last(), size)
    }
}

/// The four bytes of a checksum, least significant byte first.
pub open spec fn checksum_bytes(sum: u32) -> Seq<u8> {
    seq![
        (sum % 256) as u8,
        ((sum / 256) % 256) as u8,
        ((sum / 65536) % 256) as u8,
        (sum / 16777216) as u8,
    ]
}

/// The bytes of a bag without its checksum.
///
/// Indices take as many bytes as the number of cells needs, and offsets as
/// many as the size of the cell data needs. There is no index, no cell is
/// absent, and of the flags only the one of the checksum may be set.
#[verifier::opaque]
pub open spec fn encoding_body(bag: RawBagView, has_crc32c: bool) -> Seq<u8> {
    let size = byte_size(bag.cells.len());
    let data = cells_encoding(bag.cells, size);
    let off_bytes = byte_size(data.len());
    let flags = if has_crc32c {
        64 + size
    } else {
        size
    };
    seq![0xb5u8, 0xeeu8, 0x9cu8, 0x72u8, flags as u8, off_bytes as u8] + uint_bytes(
        bag.cells.len(),
        size,
    ) + uint_bytes(bag.roots.len(), size) + uint_bytes(0, size) + uint_bytes(data.len(), off_bytes)
        + indices_encoding(bag.roots, size) + data
}

/// The bytes of a bag, closed by the CRC-32C of all bytes before it where
/// a checksum is asked for.
pub open spec fn encoding(bag: RawBagView, has_crc32c: bool) -> Seq<u8> {
    let body = encoding_body(bag, has_crc32c);
    if has_crc32c {
        body + checksum_bytes(crc32c(body))
    } else {
        body
    }
}

/// Whether a bag can be written: its cells and roots can be made into a
/// graph, four bytes can count its cells, and it has no more roots than cells.
pub open spec fn writable(bag: RawBagView) -> bool {
    linkable(bag) && bag.cells.len() <= 0xffff_ffff && bag.roots.len() <= bag.cells.len()
}

/// Counts the bytes that `value` takes.
fn count_bytes(value: u64) -> (n: usize)
    ensures
        n == byte_size(value as nat),
        1 <= n <= 8,
{
    let mut rest: u64 = value;
    let mut n: usize = 1;
    proof {
        lemma2_to64();
        assert(rest as int * pow2((8 * (n - 1)) as nat) == rest as int) by (nonlinear_arith)
            requires
                pow2((8 * (n - 1)) as nat) == 1,
        ;
    }
    while rest >= 256
        invariant
            n + byte_size(rest as nat) == 1 + byte_size(value as nat),
            1 <= n <= 8,
            rest as int * pow2((8 * (n - 1)) as nat) <= value as int,
        decreases rest,
    {
        proof {
            lemma2_to64();
            lemma_pow2_adds(8, (8 * (n - 1)) as nat);
            assert((rest / 256) as int * (256 * pow2((8 * (n - 1)) as nat)) <= rest as int * pow2(
                (8 * (n - 1)) as nat,
            )) by (nonlinear_arith)
                requires
                    (rest / 256) * 256 <= rest,
                    pow2((8 * (n - 1)) as nat) >= 0,
            ;
            if n == 8 {
                assert((rest / 256) as int * pow2(64) >= pow2(64)) by (nonlinear_arith)
                    requires
                        rest / 256 >= 1,
                        pow2(64) >= 0,
                ;
            }
        }
        rest = rest / 256;
        n = n + 1;
    }
    proof {
        lemma2_to64();
    }
    n
}

/// Appends `value` in `n` bytes, most significant byte first.
fn push_uint(out: &mut Vec<u8>, value: u64, n: usize)
    requires
        n <= 8,
    ensures
        final(out)@ == old(out)@ + uint_bytes(value as nat, n as nat),
{
    let mut bytes: Vec<u8> = Vec::new();
    let mut rest: u64 = value;
    let mut i: usize = 0;
    assert(uint_bytes(value as nat, n as nat) =~= uint_bytes(rest as nat, (n - i) as nat) + bytes@);
    while i < n
        invariant
            i <= n,
            uint_bytes(value as nat, n as nat) == uint_bytes(rest as nat, (n - i) as nat) + bytes@,
        decreases n - i,
    {
        let ghost before = bytes@;
        proof {
            let shorter = uint_bytes(rest as nat / 256, (n - i - 1) as nat);
            assert(uint_bytes(rest as nat, (n - i) as nat) == shorter.push((rest % 256) as u8));
            assert(shorter.push((rest % 256) as u8) + before =~= shorter + (seq![(rest % 256) as u8]
                + before));
        }
        bytes.insert(0, (rest % 256) as u8);
        assert(bytes@ =~= seq![(rest % 256) as u8] + before);
        rest = rest / 256;
        i = i + 1;
    }
    assert(uint_bytes(rest as nat, 0) + bytes@ =~= bytes@);
    extend(out, &bytes);
}

/// Appends `more` to `out`.
fn extend(out: &mut Vec<u8>, more: &Vec<u8>)
    ensures
        final(out)@ == old(out)@ + more@,
{
    let mut i: usize = 0;
    assert(out@ =~= old(out)@ + more@.subrange(0, 0));
    while i < more.len()
        invariant
            i <= more@.len(),
            out@ == old(out)@ + more@.subrange(0, i as int),
        decreases more@.len() - i,
    {
        out.push(more[i]);
        assert(out@ =~= old(out)@ + more@.subrange(0, i + 1));
        i = i + 1;
    }
    assert(more@.subrange(0, i as int) =~= more@);
}

/// Appends each of `indices` in `size` bytes.
fn push_indices(out: &mut Vec<u8>, indices: &Vec<usize>, size: usize)
    requires
        size <= 8,
    ensures
        final(out)@ == old(out)@ + indices_encoding(
            Seq::new(indices@.len(), |k: int| indices@[k] as nat),
            size as nat,
        ),
{
    let ghost all = Seq::new(indices@.len(), |k: int| indices@[k] as nat);
    let mut k: usize = 0;
    assert(out@ =~= old(out)@ + indices_encoding(all.subrange(0, 0), size as nat));
    while k < indices.len()
        invariant
            k <= indices@.len(),
            size <= 8,
            all == Seq::new(indices@.len(), |k: int| indices@[k] as nat),
            out@ == old(out)@ + indices_encoding(all.subrange(0, k as int), size as nat),
        decreases indices@.len() - k,
    {
        let ghost before = out@;
        push_uint(out, indices[k] as u64, size);
        proof {
            let longer = all.subrange(0, k + 1);
            assert(longer.drop_last() =~= all.subrange(0, k as int));
            assert(out@ =~= old(out)@ + indices_encoding(longer, size as nat));
        }
        k = k + 1;
    }
    assert(all.subrange(0, k as int) =~= all);
}

/// The error of a bag that cannot be written.
fn not_writable(what: &str, index: usize, found: usize, count: usize) -> (e: TonCellError)
    ensures
        e matches TonCellError::BagOfCellsSerializationError(text) && text@ == described(what@, index as nat, ", found: "@, found as nat, ", cells: "@, count as nat),
{
    TonCellError::BagOfCellsSerializationError(
        describe(what, index, ", found: ", found, ", cells: ", count),
    )
}

impl RawBagOfCells {
    /// Whether the cells and roots of this bag can be made into a graph.
    pub fn is_linkable(&self) -> (r: bool)
        ensures
            r == linkable(self@),
    {
        let count: usize = self.cells.len();
        let mut i: usize = 0;
        while i < count
            invariant
                i <= count == self.cells@.len(),
                forall|n: int|
                    0 <= n < i ==> (#[trigger] self@.cells[n]).bits.len() <= MAX_CELL_BITS
                        && self@.cells[n].references.len() <= MAX_CELL_REFERENCES,
                forall|n: int, k: int|
                    0 <= n < i && 0 <= k < self@.cells[n].references.len() ==> n
                        < #[trigger] self@.cells[n].references[k] < count,
            decreases count - i,
        {
            let cell = &self.cells[i];
            assert(cell@ == self@.cells[i as int]);
            if cell.bits.len() > MAX_CELL_BITS || cell.references.len() > MAX_CELL_REFERENCES {
                return false;
            }
            let mut k: usize = 0;
            while k < cell.references.len()
                invariant
                    k <= cell.references@.len(),
                    i < count == self.cells@.len(),
                    cell@ == self@.cells[i as int],
                    forall|n: int| 0 <= n < k ==> i < #[trigger] cell.references@[n] < count,
                decreases cell.references@.len() - k,
            {
                if cell.references[k] <= i || cell.references[k] >= count {
                    assert(self@.cells[i as int].references[k as int] == cell.references@[k as int]);
                    return false;
                }
                k = k + 1;
            }
            assert forall|n: int, k: int|
                0 <= n < i + 1 && 0 <= k < self@.cells[n].references.len() implies n
                < #[trigger] self@.cells[n].references[k] < count by {
                if n == i {
                    assert(self@.cells[n].references[k] == cell.references@[k]);
                }
            }
            i = i + 1;
        }
        let mut k: usize = 0;
        while k < self.roots.len()
            invariant
                k <= self.roots@.len(),
                count == self.cells@.len(),
                forall|n: int| 0 <= n < k ==> #[trigger] self.roots@[n] < count,
            decreases self.roots@.len() - k,
        {
            if self.roots[k] >= count {
                assert(self@.roots[k as int] == self.roots@[k as int]);
                return false;
            }
            k = k + 1;
        }
        assert forall|k: int| 0 <= k < self@.roots.len() implies #[trigger] self@.roots[k]
            < self@.cells.len() by {
            assert(self@.roots[k] == self.roots@[k]);
        }
        true
    }

    /// The bytes of the cells, one behind the other, with indices of `size` bytes.
    fn encode_cells(&self, size: usize) -> (data: Vec<u8>)
        requires
            size <= 8,
            linkable(self@),
        ensures
            data@ == cells_encoding(self@.cells, size as nat),
    {
        let count: usize = self.cells.len();
        let mut data: Vec<u8> = Vec::new();
        let mut i: usize = 0;
        assert(data@ =~= cells_encoding(self@.cells.subrange(0, 0), size as nat));
        while i < count
            invariant
                i <= count == self.cells@.len(),
                size <= 8,
                linkable(self@),
                data@ == cells_encoding(self@.cells.subrange(0, i as int), size as nat),
            decreases count - i,
        {
            let cell = &self.cells[i];
            assert(cell@ == self@.cells[i as int]);
            let ghost before = data@;
            encode_cell(&mut data, cell, size);
            proof {
                let longer = self@.cells.subrange(0, i + 1);
                assert(longer.drop_last() =~= self@.cells.subrange(0, i as int));
                assert(data@ =~= before + cell_encoding(cell@, size as nat));
            }
            i = i + 1;
        }
        assert(self@.cells.subrange(0, i as int) =~= self@.cells);
        data
    }

    /// The bytes of the bag without its checksum.
    #[verifier::rlimit(50)]
    fn encode_body(&self, has_crc32c: bool) -> (bytes: Vec<u8>)
        requires
            writable(self@),
        ensures
            bytes@ == encoding_body(self@, has_crc32c),
    {
        let count: usize = self.cells.len();
        let root_count: usize = self.roots.len();
        let size: usize = count_bytes(count as u64);
        let data = self.encode_cells(size);
        let off_bytes: usize = count_bytes(data.len() as u64);
        proof {
            lemma2_to64();
            lemma_byte_size_bound(count as nat, 4);
        }
        let flags: u8 = if has_crc32c {
            (64 + size) as u8
        } else {
            size as u8
        };
        let mut bytes: Vec<u8> = Vec::new();
        bytes.push(0xb5);
        bytes.push(0xee);
        bytes.push(0x9c);
        bytes.push(0x72);
        bytes.push(flags);
        bytes.push(off_bytes as u8);
        push_uint(&mut bytes, count as u64, size);
        push_uint(&mut bytes, root_count as u64, size);
        push_uint(&mut bytes, 0, size);
        push_uint(&mut bytes, data.len() as u64, off_bytes);
        push_indices(&mut bytes, &self.roots, size);
        extend(&mut bytes, &data);
        assert(bytes@ =~= encoding_body(self@, has_crc32c)) by {
            reveal(encoding_body);
        }
        bytes
    }

    /// Writes this bag to bytes, with a closing checksum where `has_crc32c` is set.
    ///
    /// Fails where the cells and roots cannot be made into a graph, where
    /// there are more cells than four bytes can count, or where there are
    /// more roots than cells. What is written is read back as this bag.
    pub fn serialize(&self, has_crc32c: bool) -> (r: Result<Vec<u8>, TonCellError>)
        ensures
            r is Ok <==> writable(self@),
            r matches Ok(bytes) ==> bytes@ == encoding(self@, has_crc32c) && decoded(bytes@) == Some(
                self@,
            ),
            r matches Err(e) ==> e is BagOfCellsSerializationError,
    {
        let count: usize = self.cells.len();
        let root_count: usize = self.roots.len();
        if !self.is_linkable() {
            return Err(not_writable("Invalid bag: roots: ", root_count, 0, count));
        }
        if count > 0xffff_ffff || root_count > count {
            return Err(not_writable("Too many cells or roots: roots: ", root_count, count, count));
        }
        let mut bytes = self.encode_body(has_crc32c);
        if has_crc32c {
            let sum: u32 = crc32c_checksum(&bytes);
            bytes.push((sum % 256) as u8);
            bytes.push(((sum / 256) % 256) as u8);
            bytes.push(((sum / 65536) % 256) as u8);
            bytes.push((sum / 16777216) as u8);
            assert(bytes@ =~= encoding(self@, has_crc32c));
        }
        proof {
            lemma_decoded_encoding(self@, has_crc32c);
        }
        Ok(bytes)
    }
}

/// Appends the bytes of `cell`, with indices of `size` bytes.
fn encode_cell(out: &mut Vec<u8>, cell: &RawCell, size: usize)
    requires
        size <= 8,
        cell@.bits.len() <= MAX_CELL_BITS,
    ensures
        final(out)@ == old(out)@ + cell_encoding(cell@, size as nat),
{
    let bit_len: usize = cell.bits.len();
    let mut bytes: Vec<u8> = Vec::new();
    bytes.push(cell.references.len() as u8);
    bytes.push((bit_len / 8 + (bit_len + 7) / 8) as u8);
    let body = if bit_len % 8 == 0 {
        pack_bits(&cell.bits)
    } else {
        let mut tagged_bits: Vec<bool> = cell.bits.clone();
        tagged_bits.push(true);
        let packed = pack_bits(&tagged_bits);
        proof {
            assert(tagged_bits@ =~= cell.bits@.push(true));
            lemma_packed(packed@, cell.bits@.push(true));
        }
        packed
    };
    proof {
        if bit_len % 8 == 0 {
            lemma_packed(body@, cell.bits@);
        }
        assert(body@ == tagged(cell@.bits));
    }
    extend(&mut bytes, &body);
    push_indices(&mut bytes, &cell.references, size);
    assert(bytes@ =~= cell_encoding(cell@, size as nat));
    extend(out, &bytes);
}

} // verus!
