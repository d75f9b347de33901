//! The write cursor: accumulates bits and references and makes a cell of them.
use crate::cell::bigint::BigInt;
use crate::cell::biguint::BigUint;
use crate::cell::bits::{bits_of, get_bit, pack_bits, packs};
use crate::cell::error::{describe, TonCellError};
use crate::cell::integer::{fits_signed, i64_to_bits, int_to_bits, nat_to_bits, u64_to_bits};
use crate::cell::model::{CellView, MAX_CELL_BITS, MAX_CELL_REFERENCES};
use crate::cell::{ArcCell, Cell};
use std::sync::Arc;
use vstd::arithmetic::power2::pow2;
use vstd::prelude::*;

verus! {

/// Accumulates the bits and references of a cell that is being made.
///
/// Every write either appends all of what it was given or fails and leaves
/// the builder as it was. What has been accumulated never exceeds the
/// capacity of a single cell.
pub struct CellBuilder {
    bits: Vec<bool>,
    references: Vec<ArcCell>,
}

impl View for CellBuilder {
    type V = CellView;

    closed spec fn view(&self) -> CellView {
        CellView { bits: self.bits@, refs: Cell::contents_of(self.references@) }
    }
}

/// Appends the first `bit_len` bits of `data` to `bits`.
fn extend_bits(bits: &mut Vec<bool>, bit_len: usize, data: &Vec<u8>)
    requires
        bit_len <= 8 * data@.len(),
    ensures
        final(bits)@ == old(bits)@ + bits_of(data@, bit_len as nat),
{
    let mut i: usize = 0;
    while i < bit_len
        invariant
            i <= bit_len <= 8 * data@.len(),
            bits@ == old(bits)@ + bits_of(data@, i as nat),
        decreases bit_len - i,
    {
        let bit: bool = get_bit(data, i);
        bits.push(bit);
        assert(bits@ =~= old(bits)@ + bits_of(data@, (i + 1) as nat));
        i = i + 1;
    }
}

/// Appends `run` to `bits`.
fn extend_run(bits: &mut Vec<bool>, run: &Vec<bool>)
    ensures
        final(bits)@ == old(bits)@ + run@,
{
    let mut i: usize = 0;
    assert(bits@ =~= old(bits)@ + run@.subrange(0, 0));
    while i < run.len()
        invariant
            i <= run@.len(),
            bits@ == old(bits)@ + run@.subrange(0, i as int),
        decreases run@.len() - i,
    {
        bits.push(run[i]);
        assert(bits@ =~= old(bits)@ + run@.subrange(0, i + 1));
        i = i + 1;
    }
    assert(run@.subrange(0, i as int) =~= run@);
}

impl CellBuilder {
    #[verifier::type_invariant]
    spec fn well_formed(&self) -> bool {
        &&& self.bits@.len() <= MAX_CELL_BITS
        &&& self.references@.len() <= MAX_CELL_REFERENCES
    }

    /// A builder that holds nothing yet.
    pub fn new() -> (builder: CellBuilder)
        ensures
            builder@ == CellView::empty(),
    {
        let builder = CellBuilder { bits: Vec::new(), references: Vec::new() };
        assert(builder@.refs =~= CellView::empty().refs);
        builder
    }

    /// The number of bits that can still be written.
    pub fn remaining_bits(&self) -> (n: usize)
        ensures
            self@.fits(),
            n == MAX_CELL_BITS - self@.bits.len(),
    {
        proof {
            use_type_invariant(self);
        }
        MAX_CELL_BITS - self.bits.len()
    }

    /// The number of references that can still be appended.
    pub fn remaining_references(&self) -> (n: usize)
        ensures
            self@.fits(),
            n == MAX_CELL_REFERENCES - self@.refs.len(),
    {
        proof {
            use_type_invariant(self);
        }
        MAX_CELL_REFERENCES - self.references.len()
    }

    /// Appends one bit. Fails when the builder is full.
    pub fn store_bit(&mut self, bit: bool) -> (r: Result<(), TonCellError>)
        ensures
            r is Ok <==> old(self)@.bits.len() < MAX_CELL_BITS,
            r is Ok ==> final(self)@ == old(self)@.push_bit(bit),
            r matches Err(e) ==> e is CellBuilderError && final(self)@ == old(self)@,
    {
        proof {
            use_type_invariant(&*self);
        }
        if self.bits.len() >= MAX_CELL_BITS {
            return Err(
                TonCellError::CellBuilderError(
                    describe(
                        "Cannot store bits: requested: ",
                        1,
                        ", stored: ",
                        self.bits.len(),
                        ", max: ",
                        MAX_CELL_BITS,
                    ),
                ),
            );
        }
        let mut bits: Vec<bool> = Vec::new();
        std::mem::swap(&mut bits, &mut self.bits);
        bits.push(bit);
        std::mem::swap(&mut bits, &mut self.bits);
        Ok(())
    }

    /// Appends the first `bit_len` bits of `data`.
    ///
    /// Fails when `data` holds fewer bits than that, or when the builder has
    /// no room for them.
    pub fn store_bits(&mut self, bit_len: usize, data: &Vec<u8>) -> (r: Result<(), TonCellError>)
        ensures
            r is Ok <==> bit_len <= 8 * data@.len() && old(self)@.bits.len() + bit_len
                <= MAX_CELL_BITS,
            r is Ok ==> final(self)@ == old(self)@.push_bits(bits_of(data@, bit_len as nat)),
            r matches Err(e) ==> e is CellBuilderError && final(self)@ == old(self)@,
    {
        proof {
            use_type_invariant(&*self);
        }
        if data.len() < bit_len / 8 || (data.len() == bit_len / 8 && bit_len % 8 != 0) {
            return Err(
                TonCellError::CellBuilderError(
                    describe(
                        "Cannot store bits: requested: ",
                        bit_len,
                        ", given bytes: ",
                        data.len(),
                        ", stored: ",
                        self.bits.len(),
                    ),
                ),
            );
        }
        if bit_len > MAX_CELL_BITS - self.bits.len() {
            return Err(
                TonCellError::CellBuilderError(
                    describe(
                        "Cannot store bits: requested: ",
                        bit_len,
                        ", stored: ",
                        self.bits.len(),
                        ", max: ",
                        MAX_CELL_BITS,
                    ),
                ),
            );
        }
        let mut bits: Vec<bool> = Vec::new();
        std::mem::swap(&mut bits, &mut self.bits);
        extend_bits(&mut bits, bit_len, data);
        std::mem::swap(&mut bits, &mut self.bits);
        Ok(())
    }

    /// Appends the bits of `run`, or fails when the builder has no room for them.
    fn store_run(&mut self, run: &Vec<bool>) -> (r: Result<(), TonCellError>)
        ensures
            r is Ok <==> old(self)@.bits.len() + run@.len() <= MAX_CELL_BITS,
            r is Ok ==> final(self)@ == old(self)@.push_bits(run@),
            r matches Err(e) ==> e is CellBuilderError && final(self)@ == old(self)@,
    {
        proof {
            use_type_invariant(&*self);
        }
        if run.len() > MAX_CELL_BITS - self.bits.len() {
            return Err(
                TonCellError::CellBuilderError(
                    describe(
                        "Cannot store bits: requested: ",
                        run.len(),
                        ", stored: ",
                        self.bits.len(),
                        ", max: ",
                        MAX_CELL_BITS,
                    ),
                ),
            );
        }
        let mut bits: Vec<bool> = Vec::new();
        std::mem::swap(&mut bits, &mut self.bits);
        extend_run(&mut bits, run);
        std::mem::swap(&mut bits, &mut self.bits);
        Ok(())
    }

    /// The error of a number that `bit_len` bits cannot tell.
    fn does_not_fit(&self, bit_len: usize) -> (e: TonCellError)
        ensures
            e matches TonCellError::CellBuilderError(text) && text@ == crate::cell::error::described(
                "Value does not fit: bit_len: "@,
                bit_len as nat,
                ", stored: "@,
                self@.bits.len(),
                ", max: "@,
                MAX_CELL_BITS as nat,
            ),
    {
        TonCellError::CellBuilderError(
            describe(
                "Value does not fit: bit_len: ",
                bit_len,
                ", stored: ",
                self.bits.len(),
                ", max: ",
                MAX_CELL_BITS,
            ),
        )
    }

    /// Appends `value` as an unsigned number of `bit_len` bits, most significant bit first.
    ///
    /// Fails when `bit_len` is above 64, when `bit_len` bits cannot tell
    /// `value`, or when the builder has no room for them.
    pub fn store_u64(&mut self, bit_len: usize, value: u64) -> (r: Result<(), TonCellError>)
        ensures
            r is Ok <==> bit_len <= 64 && value < pow2(bit_len as nat) && old(self)@.bits.len()
                + bit_len <= MAX_CELL_BITS,
            r is Ok ==> final(self)@ == old(self)@.push_bits(
                nat_to_bits(value as nat, bit_len as nat),
            ),
            r matches Err(e) ==> e is CellBuilderError && final(self)@ == old(self)@,
    {
        proof {
            crate::cell::integer::lemma_nat_to_bits_len(value as nat, bit_len as nat);
        }
        match u64_to_bits(value, bit_len) {
            Some(run) => self.store_run(&run),
            None => Err(self.does_not_fit(bit_len)),
        }
    }

    /// Appends `value` as an unsigned number of `bit_len` bits, most significant bit first.
    ///
    /// Fails when `bit_len` bits cannot tell `value`, or when the builder has
    /// no room for them.
    pub fn store_uint(&mut self, bit_len: usize, value: &BigUint) -> (r: Result<(), TonCellError>)
        ensures
            r is Ok <==> value@ < pow2(bit_len as nat) && old(self)@.bits.len() + bit_len
                <= MAX_CELL_BITS,
            r is Ok ==> final(self)@ == old(self)@.push_bits(nat_to_bits(value@, bit_len as nat)),
            r matches Err(e) ==> e is CellBuilderError && final(self)@ == old(self)@,
    {
        proof {
            crate::cell::integer::lemma_nat_to_bits_len(value@, bit_len as nat);
        }
        match value.to_bits(bit_len) {
            Some(run) => self.store_run(&run),
            None => Err(self.does_not_fit(bit_len)),
        }
    }

    /// Appends `value` in two's complement of `bit_len` bits, most significant bit first.
    ///
    /// Fails when `bit_len` bits cannot tell `value`, or when the builder has
    /// no room for them.
    pub fn store_int(&mut self, bit_len: usize, value: &BigInt) -> (r: Result<(), TonCellError>)
        ensures
            r is Ok <==> fits_signed(value@, bit_len as nat) && old(self)@.bits.len() + bit_len
                <= MAX_CELL_BITS,
            r is Ok ==> final(self)@ == old(self)@.push_bits(int_to_bits(value@, bit_len as nat)),
            r matches Err(e) ==> e is CellBuilderError && final(self)@ == old(self)@,
    {
        proof {
            crate::cell::integer::lemma_nat_to_bits_len(value@ as nat, bit_len as nat);
            crate::cell::integer::lemma_nat_to_bits_len(
                (value@ + pow2(bit_len as nat)) as nat,
                bit_len as nat,
            );
        }
        match value.to_bits(bit_len) {
            Some(run) => self.store_run(&run),
            None => Err(self.does_not_fit(bit_len)),
        }
    }

    /// Appends `value` in two's complement of `bit_len` bits, most significant bit first.
    ///
    /// Fails when `bit_len` is 0 or above 64, when `bit_len` bits cannot
    /// tell `value`, or when the builder has no room for them.
    pub fn store_i64(&mut self, bit_len: usize, value: i64) -> (r: Result<(), TonCellError>)
        ensures
            r is Ok <==> bit_len <= 64 && fits_signed(value as int, bit_len as nat) && old(
                self,
            )@.bits.len() + bit_len <= MAX_CELL_BITS,
            r is Ok ==> final(self)@ == old(self)@.push_bits(
                int_to_bits(value as int, bit_len as nat),
            ),
            r matches Err(e) ==> e is CellBuilderError && final(self)@ == old(self)@,
    {
        proof {
            crate::cell::integer::lemma_nat_to_bits_len(value as nat, bit_len as nat);
            crate::cell::integer::lemma_nat_to_bits_len(
                (value + pow2(bit_len as nat)) as nat,
                bit_len as nat,
            );
        }
        match i64_to_bits(value, bit_len) {
            Some(run) => self.store_run(&run),
            None => Err(self.does_not_fit(bit_len)),
        }
    }

    /// Appends `value` as an unsigned number of `bit_len` bits: [`Self::store_u64`] for a byte.
    pub fn store_u8(&mut self, bit_len: usize, value: u8) -> (r: Result<(), TonCellError>)
        ensures
            r is Ok <==> bit_len <= 64 && value < pow2(bit_len as nat) && old(self)@.bits.len()
                + bit_len <= MAX_CELL_BITS,
            r is Ok ==> final(self)@ == old(self)@.push_bits(
                nat_to_bits(value as nat, bit_len as nat),
            ),
            r matches Err(e) ==> e is CellBuilderError && final(self)@ == old(self)@,
    {
        self.store_u64(bit_len, value as u64)
    }

    /// Appends `value` as an unsigned number of `bit_len` bits: [`Self::store_u64`] for 32 bits.
    pub fn store_u32(&mut self, bit_len: usize, value: u32) -> (r: Result<(), TonCellError>)
        ensures
            r is Ok <==> bit_len <= 64 && value < pow2(bit_len as nat) && old(self)@.bits.len()
                + bit_len <= MAX_CELL_BITS,
            r is Ok ==> final(self)@ == old(self)@.push_bits(
                nat_to_bits(value as nat, bit_len as nat),
            ),
            r matches Err(e) ==> e is CellBuilderError && final(self)@ == old(self)@,
    {
        self.store_u64(bit_len, value as u64)
    }

    /// Appends `value` in two's complement of `bit_len` bits: [`Self::store_i64`] for 32 bits.
    pub fn store_i32(&mut self, bit_len: usize, value: i32) -> (r: Result<(), TonCellError>)
        ensures
            r is Ok <==> bit_len <= 64 && fits_signed(value as int, bit_len as nat) && old(
                self,
            )@.bits.len() + bit_len <= MAX_CELL_BITS,
            r is Ok ==> final(self)@ == old(self)@.push_bits(
                int_to_bits(value as int, bit_len as nat),
            ),
            r matches Err(e) ==> e is CellBuilderError && final(self)@ == old(self)@,
    {
        self.store_i64(bit_len, value as i64)
    }

    /// Appends `cell` as one more reference. Fails when the builder already
    /// holds as many references as a cell can.
    pub fn store_reference(&mut self, cell: &ArcCell) -> (r: Result<(), TonCellError>)
        ensures
            r is Ok <==> old(self)@.refs.len() < MAX_CELL_REFERENCES,
            r is Ok ==> final(self)@ == old(self)@.push_ref(cell@),
            r matches Err(e) ==> e is CellBuilderError && final(self)@ == old(self)@,
    {
        proof {
            use_type_invariant(&*self);
        }
        if self.references.len() >= MAX_CELL_REFERENCES {
            return Err(
                TonCellError::CellBuilderError(
                    describe(
                        "Cannot store references: requested: ",
                        1,
                        ", stored: ",
                        self.references.len(),
                        ", max: ",
                        MAX_CELL_REFERENCES,
                    ),
                ),
            );
        }
        let mut references: Vec<ArcCell> = Vec::new();
        std::mem::swap(&mut references, &mut self.references);
        references.push(cell.clone());
        std::mem::swap(&mut references, &mut self.references);
        assert(self@.refs =~= old(self)@.push_ref(cell@).refs);
        Ok(())
    }

    /// Appends `cell` as one more reference, rather than its content.
    pub fn store_child(&mut self, cell: Cell) -> (r: Result<(), TonCellError>)
        ensures
            r is Ok <==> old(self)@.refs.len() < MAX_CELL_REFERENCES,
            r is Ok ==> final(self)@ == old(self)@.push_ref(cell@),
            r matches Err(e) ==> e is CellBuilderError && final(self)@ == old(self)@,
    {
        self.store_reference(&Arc::new(cell))
    }

    /// Appends the content of `cell`: its bits behind the bits of the builder
    /// and its references behind the references of the builder.
    ///
    /// Fails when the builder has no room for all of either.
    pub fn store_cell(&mut self, cell: &Cell) -> (r: Result<(), TonCellError>)
        ensures
            r is Ok <==> old(self)@.concat(cell@).fits(),
            r is Ok ==> final(self)@ == old(self)@.concat(cell@),
            r matches Err(e) ==> e is CellBuilderError && final(self)@ == old(self)@,
    {
        proof {
            use_type_invariant(&*self);
        }
        let bit_len: usize = cell.bit_len();
        let references = cell.references();
        if references.len() > MAX_CELL_REFERENCES - self.references.len() {
            return Err(
                TonCellError::CellBuilderError(
                    describe(
                        "Cannot store references: requested: ",
                        references.len(),
                        ", stored: ",
                        self.references.len(),
                        ", max: ",
                        MAX_CELL_REFERENCES,
                    ),
                ),
            );
        }
        if bit_len > MAX_CELL_BITS - self.bits.len() {
            return Err(
                TonCellError::CellBuilderError(
                    describe(
                        "Cannot store bits: requested: ",
                        bit_len,
                        ", stored: ",
                        self.bits.len(),
                        ", max: ",
                        MAX_CELL_BITS,
                    ),
                ),
            );
        }
        let mut bits: Vec<bool> = Vec::new();
        std::mem::swap(&mut bits, &mut self.bits);
        extend_bits(&mut bits, bit_len, cell.data());
        std::mem::swap(&mut bits, &mut self.bits);
        let mut stored_references: Vec<ArcCell> = Vec::new();
        std::mem::swap(&mut stored_references, &mut self.references);
        let mut i: usize = 0;
        while i < references.len()
            invariant
                i <= references@.len(),
                old(self)@.refs.len() + references@.len() <= MAX_CELL_REFERENCES,
                stored_references@ == old(self).references@ + references@.subrange(0, i as int),
            decreases references@.len() - i,
        {
            stored_references.push(references[i].clone());
            assert(stored_references@ =~= old(self).references@ + references@.subrange(0, i + 1));
            i = i + 1;
        }
        std::mem::swap(&mut stored_references, &mut self.references);
        assert(self@.refs =~= old(self)@.concat(cell@).refs);
        Ok(())
    }

    /// Makes the cell that holds what was written. The builder is used up.
    pub fn build(self) -> (r: Result<Cell, TonCellError>)
        ensures
            r matches Ok(cell) && cell@ == self@ && packs(cell.bytes(), cell@.bits),
    {
        proof {
            use_type_invariant(&self);
        }
        let data = pack_bits(&self.bits);
        let ghost bits = self.bits@;
        let bit_len: usize = self.bits.len();
        let r = Cell::new(data, bit_len, self.references);
        proof {
            let cell = r->Ok_0;
            assert(cell@.bits =~= bits);
        }
        r
    }
}

} // verus!
