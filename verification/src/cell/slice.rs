//! A window into a cell: a range of its bits and a range of its references.
use crate::cell::bits::{bit_at, packs};
use crate::cell::bitstream::{io_error_text, read_bytes_at, read_value_at};
use crate::cell::error::{describe, described, TonCellError};
use crate::cell::model::CellView;
use crate::cell::parser::CellParser;
use crate::cell::{ArcCell, Cell};
use std::sync::Arc;
use vstd::prelude::*;

verus! {

/// What a [`CellSlice`] is: the content of its cell and the four bounds of its window.
pub struct CellSliceView {
    pub cell: CellView,
    pub start_bit: nat,
    pub end_bit: nat,
    pub start_ref: nat,
    pub end_ref: nat,
}

impl CellSliceView {
    /// Whether both ranges are in order and within the cell.
    pub open spec fn in_bounds(self) -> bool {
        &&& self.start_bit <= self.end_bit <= self.cell.bits.len()
        &&& self.start_ref <= self.end_ref <= self.cell.refs.len()
    }

    /// The bits and references that the window selects.
    pub open spec fn content(self) -> CellView {
        self.cell.window(
            self.start_bit as int,
            self.end_bit as int,
            self.start_ref as int,
            self.end_ref as int,
        )
    }

    /// The number of references in the window.
    pub open spec fn ref_count(self) -> nat {
        (self.end_ref - self.start_ref) as nat
    }
}

/// A range of the bits and a range of the references of one cell.
///
/// A slice copies nothing: it shares the cell. Both ranges are always in
/// order and within the cell.
#[derive(Debug, PartialEq)]
pub struct CellSlice {
    cell: ArcCell,
    start_bit: usize,
    end_bit: usize,
    start_ref: usize,
    end_ref: usize,
}

impl View for CellSlice {
    type V = CellSliceView;

    closed spec fn view(&self) -> CellSliceView {
        CellSliceView {
            cell: self.cell@,
            start_bit: self.start_bit as nat,
            end_bit: self.end_bit as nat,
            start_ref: self.start_ref as nat,
            end_ref: self.end_ref as nat,
        }
    }
}

proof fn lemma_shift_up(value: u8, by: u8, j: u8)
    by (bit_vector)
    requires
        0 < by < 8,
        j < 8,
    ensures
        ((value << by) & (0x80u8 >> j) != 0) == (j < 8 - by && (value & (0x80u8 >> ((j + by) as u8))
            != 0)),
{
}

impl CellSlice {
    #[verifier::type_invariant]
    spec fn well_formed(&self) -> bool {
        self@.in_bounds()
    }

    /// The message of a window that is not within `cell`: it names the
    /// bounds of the bit range and the number of bits where the bit range is
    /// out of order or reaches beyond the cell, and else the bounds of the
    /// reference range and the number of references.
    pub open spec fn invalid_range(
        cell: CellView,
        start_bit: nat,
        end_bit: nat,
        start_ref: nat,
        end_ref: nat,
    ) -> Seq<char> {
        if end_bit < start_bit || end_bit > cell.bits.len() {
            described(
                "Invalid bit offsets: start: "@,
                start_bit,
                ", end: "@,
                end_bit,
                ", bit_len: "@,
                cell.bits.len(),
            )
        } else {
            described(
                "Invalid references: start: "@,
                start_ref,
                ", end: "@,
                end_ref,
                ", count: "@,
                cell.refs.len(),
            )
        }
    }

    /// The window `[start_bit, end_bit)`, `[start_ref, end_ref)` of `cell`.
    ///
    /// Fails when a range is out of order or reaches beyond the cell, with a
    /// message that names the range and what the cell holds.
    pub fn new(
        cell: &ArcCell,
        start_bit: usize,
        end_bit: usize,
        start_ref: usize,
        end_ref: usize,
    ) -> (r: Result<CellSlice, TonCellError>)
        ensures
            r is Ok <==> start_bit <= end_bit <= cell@.bits.len() && start_ref <= end_ref
                <= cell@.refs.len(),
            r matches Ok(slice) ==> slice@ == (CellSliceView {
                cell: cell@,
                start_bit: start_bit as nat,
                end_bit: end_bit as nat,
                start_ref: start_ref as nat,
                end_ref: end_ref as nat,
            }),
            r matches Err(e) ==> e matches TonCellError::CellParserError(text) && text@
                == Self::invalid_range(
                cell@,
                start_bit as nat,
                end_bit as nat,
                start_ref as nat,
                end_ref as nat,
            ),
    {
        let bit_len: usize = cell.bit_len();
        if end_bit < start_bit || end_bit > bit_len {
            return Err(
                TonCellError::CellParserError(
                    describe(
                        "Invalid bit offsets: start: ",
                        start_bit,
                        ", end: ",
                        end_bit,
                        ", bit_len: ",
                        bit_len,
                    ),
                ),
            );
        }
        let ref_count: usize = cell.references().len();
        if end_ref < start_ref || end_ref > ref_count {
            return Err(
                TonCellError::CellParserError(
                    describe(
                        "Invalid references: start: ",
                        start_ref,
                        ", end: ",
                        end_ref,
                        ", count: ",
                        ref_count,
                    ),
                ),
            );
        }
        Ok(CellSlice { cell: cell.clone(), start_bit, end_bit, start_ref, end_ref })
    }

    /// The window from bit `offset` to the end of `cell`, with all its references.
    ///
    /// Fails when `offset` is beyond the last bit of the cell.
    pub fn new_with_offset(cell: &Cell, offset: usize) -> (r: Result<CellSlice, TonCellError>)
        ensures
            r is Ok <==> offset <= cell@.bits.len(),
            r matches Ok(slice) ==> slice@ == (CellSliceView {
                cell: cell@,
                start_bit: offset as nat,
                end_bit: cell@.bits.len(),
                start_ref: 0,
                end_ref: cell@.refs.len(),
            }),
            r matches Err(e) ==> e matches TonCellError::CellParserError(text) && text@
                == Self::invalid_range(
                cell@,
                offset as nat,
                cell@.bits.len(),
                0,
                cell@.refs.len(),
            ),
    {
        let bit_len: usize = cell.bit_len();
        let ref_count: usize = cell.references().len();
        CellSlice::new(&Arc::new(cell.clone()), offset, bit_len, 0, ref_count)
    }

    /// The window that spans all of `cell`.
    pub fn full_cell(cell: Cell) -> (r: Result<CellSlice, TonCellError>)
        ensures
            r matches Ok(slice) && slice@ == (CellSliceView {
                cell: cell@,
                start_bit: 0,
                end_bit: cell@.bits.len(),
                start_ref: 0,
                end_ref: cell@.refs.len(),
            }),
    {
        let bit_len: usize = cell.bit_len();
        let ref_count: usize = cell.references().len();
        Ok(
            CellSlice {
                cell: Arc::new(cell),
                start_bit: 0,
                end_bit: bit_len,
                start_ref: 0,
                end_ref: ref_count,
            },
        )
    }

    /// The cell this slice looks into.
    pub fn cell(&self) -> (cell: &ArcCell)
        ensures
            cell@ == self@.cell,
    {
        &self.cell
    }

    /// The first bit of the window.
    pub fn start_bit(&self) -> (n: usize)
        ensures
            n == self@.start_bit,
    {
        self.start_bit
    }

    /// The bit behind the last bit of the window.
    pub fn end_bit(&self) -> (n: usize)
        ensures
            n == self@.end_bit,
    {
        self.end_bit
    }

    /// The first reference of the window.
    pub fn start_ref(&self) -> (n: usize)
        ensures
            n == self@.start_ref,
    {
        self.start_ref
    }

    /// The reference behind the last reference of the window.
    pub fn end_ref(&self) -> (n: usize)
        ensures
            n == self@.end_ref,
    {
        self.end_ref
    }

    /// The `idx`-th reference of the window, counted from the window's start.
    ///
    /// Fails with `InvalidIndex` when `idx` is the size of the window or more.
    pub fn reference(&self, idx: usize) -> (r: Result<&ArcCell, TonCellError>)
        ensures
            self@.in_bounds(),
            r is Ok <==> idx < self@.ref_count(),
            r matches Ok(child) ==> child@ == self@.content().refs[idx as int],
            r matches Err(e) ==> e == (TonCellError::InvalidIndex {
                idx,
                ref_count: self@.ref_count() as usize,
            }),
    {
        proof {
            use_type_invariant(self);
        }
        let ref_count: usize = self.end_ref - self.start_ref;
        if idx >= ref_count {
            return Err(TonCellError::InvalidIndex { idx, ref_count });
        }
        let references = self.cell.references();
        Ok(&references[self.start_ref + idx])
    }

    /// A parser at the front of the window, which reads up to its end.
    pub fn parser(&self) -> (parser: CellParser<'_>)
        ensures
            parser@ == self@.content(),
            parser.source() == self@.cell,
    {
        proof {
            use_type_invariant(self);
        }
        CellParser::over(&self.cell, self.start_bit, self.end_bit, self.start_ref, self.end_ref)
    }

    /// Copies the window into a cell of its own, which shares nothing with
    /// the bytes of the cell it came from.
    ///
    /// The bits of the window are read through a bit reader that is moved to
    /// the window's first bit; they are packed into the fewest bytes that hold
    /// them, the last byte filled up with zero bits.
    pub fn into_cell(&self) -> (r: Result<Cell, TonCellError>)
        ensures
            self@.in_bounds(),
            r matches Ok(cell) && cell@ == self@.content() && packs(cell.bytes(), cell@.bits),
    {
        proof {
            use_type_invariant(self);
        }
        let source = self.cell.data();
        let cell_bit_len: usize = self.cell.bit_len();
        let bit_len: usize = self.end_bit - self.start_bit;
        let full_bytes: usize = bit_len / 8;
        let last_byte_len: usize = bit_len % 8;
        let mut data: Vec<u8> = match read_bytes_at(source, self.start_bit as u32, full_bytes) {
            Ok(bytes) => bytes,
            Err(e) => {
                return Err(TonCellError::CellParserError(io_error_text(&e)));
            },
        };
        if last_byte_len != 0 {
            let ghost whole = data@;
            let skip: u32 = (self.start_bit + 8 * full_bytes) as u32;
            let last_byte: u8 = match read_value_at(source, skip, last_byte_len as u32) {
                Ok(value) => value,
                Err(e) => {
                    return Err(TonCellError::CellParserError(io_error_text(&e)));
                },
            };
            let by: u8 = (8 - last_byte_len) as u8;
            let shifted: u8 = last_byte << by;
            data.push(shifted);
            proof {
                assert forall|i: int| 8 * full_bytes <= i < 8 * data@.len() implies #[trigger] bit_at(
                    data@,
                    i,
                ) == (i < bit_len && bit_at(source@, self.start_bit + i)) by {
                    let j = i - 8 * full_bytes;
                    assert(i / 8 == full_bytes && i % 8 == j);
                    lemma_shift_up(last_byte, by, j as u8);
                    if j < 8 - by {
                        assert(bit_at(seq![last_byte], j + by) == bit_at(source@, self.start_bit + i));
                        assert((j + by) / 8 == 0 && (j + by) % 8 == j + by);
                    }
                }
                assert forall|i: int| 0 <= i < 8 * full_bytes implies #[trigger] bit_at(data@, i)
                    == bit_at(source@, self.start_bit + i) by {
                    assert(bit_at(data@, i) == bit_at(whole, i));
                }
            }
        }
        assert forall|i: int| 0 <= i < 8 * data@.len() implies #[trigger] bit_at(data@, i) == (i
            < bit_len && bit_at(source@, self.start_bit + i)) by {}
        let references = self.cell.references();
        let mut window: Vec<ArcCell> = Vec::new();
        let mut i: usize = self.start_ref;
        while i < self.end_ref
            invariant
                self.start_ref <= i <= self.end_ref <= references@.len(),
                window@ == references@.subrange(self.start_ref as int, i as int),
            decreases self.end_ref - i,
        {
            window.push(references[i].clone());
            assert(window@ =~= references@.subrange(self.start_ref as int, i + 1));
            i = i + 1;
        }
        let ghost bytes = data@;
        let r = Cell::new(data, bit_len, window);
        proof {
            let cell = r->Ok_0;
            assert forall|i: int| 0 <= i < bit_len implies cell@.bits[i] == self@.content().bits[i] by {
                assert(cell@.bits[i] == bit_at(bytes, i));
                assert(self@.cell.bits[self.start_bit + i] == bit_at(source@, self.start_bit + i));
            }
            assert(cell@.bits =~= self@.content().bits);
            assert(cell@.refs =~= self@.content().refs);
            assert(packs(bytes, cell@.bits));
        }
        r
    }
}

impl Clone for CellSlice {
    fn clone(&self) -> (r: Self)
        ensures
            r@ == self@,
    {
        proof {
            use_type_invariant(self);
        }
        CellSlice {
            cell: self.cell.clone(),
            start_bit: self.start_bit,
            end_bit: self.end_bit,
            start_ref: self.start_ref,
            end_ref: self.end_ref,
        }
    }
}

} // verus!
