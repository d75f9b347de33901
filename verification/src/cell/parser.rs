//! The read cursor: walks the bits and references of a cell from front to back.
use crate::cell::bigint::BigInt;
use crate::cell::biguint::BigUint;
use crate::cell::bits::{get_bit, pack_bits, packs};
use crate::cell::error::{describe, TonCellError};
use crate::cell::integer::{
    bits_to_i64, bits_to_int, bits_to_nat, bits_to_u64, lemma_bits_to_int_bound,
    lemma_bits_to_nat_bound,
};
use crate::cell::model::CellView;
use crate::cell::{ArcCell, Cell};
use vstd::arithmetic::power2::{lemma2_to64, lemma_pow2_strictly_increases};
use vstd::prelude::*;

verus! {

/// A cursor over the bits and the references of one cell, or of a window of it.
///
/// Both positions start at the front of the window and only move forward.
/// The view of a parser is what it has not read yet. A read that would pass
/// the end of the window fails and leaves the parser where it was.
pub struct CellParser<'a> {
    cell: &'a Cell,
    bit_pos: usize,
    ref_pos: usize,
    end_bit: usize,
    end_ref: usize,
}

impl<'a> View for CellParser<'a> {
    type V = CellView;

    closed spec fn view(&self) -> CellView {
        self.cell@.window(
            self.bit_pos as int,
            self.end_bit as int,
            self.ref_pos as int,
            self.end_ref as int,
        )
    }
}

impl Cell {
    /// A parser at the front of this cell.
    pub fn parser(&self) -> (parser: CellParser<'_>)
        ensures
            parser@ == self@,
            parser.source() == self@,
    {
        let end_bit: usize = self.bit_len();
        let end_ref: usize = self.references().len();
        let parser = CellParser { cell: self, bit_pos: 0, ref_pos: 0, end_bit, end_ref };
        assert(parser@.bits =~= self@.bits);
        assert(parser@.refs =~= self@.refs);
        parser
    }
}

impl<'a> CellParser<'a> {
    #[verifier::type_invariant]
    spec fn well_formed(&self) -> bool {
        &&& self.bit_pos <= self.end_bit <= self.cell@.bits.len()
        &&& self.ref_pos <= self.end_ref <= self.cell@.refs.len()
    }

    /// A parser at the front of the window `[start_bit, end_bit)`,
    /// `[start_ref, end_ref)` of `cell`.
    pub(crate) fn over(
        cell: &'a Cell,
        start_bit: usize,
        end_bit: usize,
        start_ref: usize,
        end_ref: usize,
    ) -> (parser: CellParser<'a>)
        requires
            start_bit <= end_bit <= cell@.bits.len(),
            start_ref <= end_ref <= cell@.refs.len(),
        ensures
            parser@ == cell@.window(
                start_bit as int,
                end_bit as int,
                start_ref as int,
                end_ref as int,
            ),
            parser.source() == cell@,
    {
        CellParser { cell, bit_pos: start_bit, ref_pos: start_ref, end_bit, end_ref }
    }

    /// The content of the cell that is being read, read and unread parts alike.
    pub closed spec fn source(&self) -> CellView {
        self.cell@
    }

    /// The cell that is being read.
    pub fn cell(&self) -> (cell: &'a Cell)
        ensures
            cell@ == self.source(),
    {
        self.cell
    }

    /// The number of bits not read yet.
    pub fn remaining_bits(&self) -> (n: usize)
        ensures
            self@.fits(),
            n == self@.bits.len(),
    {
        proof {
            use_type_invariant(self);
        }
        let bit_len: usize = self.cell.bit_len();
        let ref_count: usize = self.cell.references().len();
        self.end_bit - self.bit_pos
    }

    /// The number of references not read yet.
    pub fn remaining_refs(&self) -> (n: usize)
        ensures
            self@.fits(),
            n == self@.refs.len(),
    {
        proof {
            use_type_invariant(self);
        }
        let bit_len: usize = self.cell.bit_len();
        let ref_count: usize = self.cell.references().len();
        self.end_ref - self.ref_pos
    }

    /// Fails unless every bit and every reference has been read.
    pub fn ensure_empty(&self) -> (r: Result<(), TonCellError>)
        ensures
            r is Ok <==> self@.bits.len() == 0 && self@.refs.len() == 0,
            r matches Err(e) ==> e is CellParserError,
    {
        let bits: usize = self.remaining_bits();
        let refs: usize = self.remaining_refs();
        if bits == 0 && refs == 0 {
            Ok(())
        } else {
            Err(
                TonCellError::CellParserError(
                    describe("Unread data: bits: ", bits, ", references: ", refs, ", read bits: ", self.bit_pos),
                ),
            )
        }
    }

    /// The error of a read of `requested` bits that the cell does not hold.
    fn out_of_bits(&self, requested: usize) -> (e: TonCellError)
        ensures
            e matches TonCellError::CellParserError(text) && text@ == crate::cell::error::described(
                "Cannot load bits: requested: "@,
                requested as nat,
                ", position: "@,
                self.bit_pos as nat,
                ", end: "@,
                self.end_bit as nat,
            ),
    {
        TonCellError::CellParserError(
            describe(
                "Cannot load bits: requested: ",
                requested,
                ", position: ",
                self.bit_pos,
                ", end: ",
                self.end_bit,
            ),
        )
    }

    /// The next `n` bits, without moving.
    fn peek_bits(&self, n: usize) -> (bits: Vec<bool>)
        requires
            n <= self@.bits.len(),
        ensures
            bits@ == self@.bits.subrange(0, n as int),
    {
        proof {
            use_type_invariant(self);
        }
        let data = self.cell.data();
        let mut bits: Vec<bool> = Vec::new();
        let mut i: usize = 0;
        while i < n
            invariant
                i <= n <= self@.bits.len(),
                self.bit_pos + self@.bits.len() == self.end_bit <= self.cell@.bits.len(),
                self.cell@.bits.len() <= 8 * data@.len(),
                self.cell@.bits == crate::cell::bits::bits_of(data@, self.cell@.bits.len()),
                bits@ == self@.bits.subrange(0, i as int),
            decreases n - i,
        {
            let bit: bool = get_bit(data, self.bit_pos + i);
            bits.push(bit);
            assert(bits@ =~= self@.bits.subrange(0, i + 1));
            i = i + 1;
        }
        bits
    }

    /// Reads one bit.
    pub fn load_bit(&mut self) -> (r: Result<bool, TonCellError>)
        ensures
            r is Ok <==> old(self)@.bits.len() > 0,
            r matches Ok(bit) ==> bit == old(self)@.bits[0] && final(self)@ == old(self)@.skip(1, 0),
            r matches Err(e) ==> e is CellParserError && final(self)@ == old(self)@,
            final(self).source() == old(self).source(),
    {
        proof {
            use_type_invariant(&*self);
        }
        if self.remaining_bits() == 0 {
            return Err(self.out_of_bits(1));
        }
        let bit: bool = get_bit(self.cell.data(), self.bit_pos);
        self.bit_pos = self.bit_pos + 1;
        assert(self@.bits =~= old(self)@.skip(1, 0).bits);
        assert(self@.refs =~= old(self)@.skip(1, 0).refs);
        Ok(bit)
    }

    /// Moves past the next `n` bits.
    pub fn skip_bits(&mut self, n: usize) -> (r: Result<(), TonCellError>)
        ensures
            r is Ok <==> n <= old(self)@.bits.len(),
            r is Ok ==> final(self)@ == old(self)@.skip(n as int, 0),
            r matches Err(e) ==> e is CellParserError && final(self)@ == old(self)@,
            final(self).source() == old(self).source(),
    {
        proof {
            use_type_invariant(&*self);
        }
        if n > self.remaining_bits() {
            return Err(self.out_of_bits(n));
        }
        self.bit_pos = self.bit_pos + n;
        assert(self@.bits =~= old(self)@.skip(n as int, 0).bits);
        assert(self@.refs =~= old(self)@.skip(n as int, 0).refs);
        Ok(())
    }

    /// Reads the next `n` bits into bytes, eight to a byte, the last byte
    /// filled up with zero bits.
    pub fn load_bits(&mut self, n: usize) -> (r: Result<Vec<u8>, TonCellError>)
        ensures
            r is Ok <==> n <= old(self)@.bits.len(),
            r matches Ok(bytes) ==> packs(bytes@, old(self)@.bits.subrange(0, n as int))
                && final(self)@ == old(self)@.skip(n as int, 0),
            r matches Err(e) ==> e is CellParserError && final(self)@ == old(self)@,
            final(self).source() == old(self).source(),
    {
        proof {
            use_type_invariant(&*self);
        }
        if n > self.remaining_bits() {
            return Err(self.out_of_bits(n));
        }
        let bits = self.peek_bits(n);
        let bytes = pack_bits(&bits);
        self.bit_pos = self.bit_pos + n;
        assert(self@.bits =~= old(self)@.skip(n as int, 0).bits);
        assert(self@.refs =~= old(self)@.skip(n as int, 0).refs);
        Ok(bytes)
    }

    /// Reads the next `bit_len` bits as an unsigned number, most significant bit first.
    ///
    /// Fails when `bit_len` is above 64 or above the number of bits that are left.
    pub fn load_u64(&mut self, bit_len: usize) -> (r: Result<u64, TonCellError>)
        ensures
            r is Ok <==> bit_len <= 64 && bit_len <= old(self)@.bits.len(),
            r matches Ok(value) ==> value == bits_to_nat(old(self)@.bits.subrange(0, bit_len as int))
                && final(self)@ == old(self)@.skip(bit_len as int, 0),
            r matches Err(e) ==> e is CellParserError && final(self)@ == old(self)@,
            final(self).source() == old(self).source(),
    {
        proof {
            use_type_invariant(&*self);
        }
        if bit_len > 64 || bit_len > self.remaining_bits() {
            return Err(self.out_of_bits(bit_len));
        }
        let bits = self.peek_bits(bit_len);
        let value: u64 = bits_to_u64(&bits);
        self.bit_pos = self.bit_pos + bit_len;
        assert(self@.bits =~= old(self)@.skip(bit_len as int, 0).bits);
        assert(self@.refs =~= old(self)@.skip(bit_len as int, 0).refs);
        Ok(value)
    }

    /// Reads the next `bit_len` bits as an unsigned number of any size, most significant bit first.
    ///
    /// Fails when `bit_len` is above the number of bits that are left.
    pub fn load_uint(&mut self, bit_len: usize) -> (r: Result<BigUint, TonCellError>)
        ensures
            r is Ok <==> bit_len <= old(self)@.bits.len(),
            r matches Ok(value) ==> value@ == bits_to_nat(
                old(self)@.bits.subrange(0, bit_len as int),
            ) && final(self)@ == old(self)@.skip(bit_len as int, 0),
            r matches Err(e) ==> e is CellParserError && final(self)@ == old(self)@,
            final(self).source() == old(self).source(),
    {
        proof {
            use_type_invariant(&*self);
        }
        if bit_len > self.remaining_bits() {
            return Err(self.out_of_bits(bit_len));
        }
        let bits = self.peek_bits(bit_len);
        let value = BigUint::from_bits(&bits);
        self.bit_pos = self.bit_pos + bit_len;
        assert(self@.bits =~= old(self)@.skip(bit_len as int, 0).bits);
        assert(self@.refs =~= old(self)@.skip(bit_len as int, 0).refs);
        Ok(value)
    }

    /// Reads the next `bit_len` bits as a number of any size in two's
    /// complement, most significant bit first.
    ///
    /// Fails when `bit_len` is 0 or above the number of bits that are left.
    pub fn load_int(&mut self, bit_len: usize) -> (r: Result<BigInt, TonCellError>)
        ensures
            r is Ok <==> 1 <= bit_len <= old(self)@.bits.len(),
            r matches Ok(value) ==> value@ == bits_to_int(
                old(self)@.bits.subrange(0, bit_len as int),
            ) && final(self)@ == old(self)@.skip(bit_len as int, 0),
            r matches Err(e) ==> e is CellParserError && final(self)@ == old(self)@,
            final(self).source() == old(self).source(),
    {
        proof {
            use_type_invariant(&*self);
        }
        if bit_len == 0 || bit_len > self.remaining_bits() {
            return Err(self.out_of_bits(bit_len));
        }
        let bits = self.peek_bits(bit_len);
        let value = BigInt::from_bits(&bits);
        self.bit_pos = self.bit_pos + bit_len;
        assert(self@.bits =~= old(self)@.skip(bit_len as int, 0).bits);
        assert(self@.refs =~= old(self)@.skip(bit_len as int, 0).refs);
        Ok(value)
    }

    /// Reads the next `bit_len` bits as a number in two's complement, most significant bit first.
    ///
    /// Fails when `bit_len` is 0, above 64 or above the number of bits that are left.
    pub fn load_i64(&mut self, bit_len: usize) -> (r: Result<i64, TonCellError>)
        ensures
            r is Ok <==> 1 <= bit_len <= 64 && bit_len <= old(self)@.bits.len(),
            r matches Ok(value) ==> value == bits_to_int(old(self)@.bits.subrange(0, bit_len as int))
                && final(self)@ == old(self)@.skip(bit_len as int, 0),
            r matches Err(e) ==> e is CellParserError && final(self)@ == old(self)@,
            final(self).source() == old(self).source(),
    {
        proof {
            use_type_invariant(&*self);
        }
        if bit_len == 0 || bit_len > 64 || bit_len > self.remaining_bits() {
            return Err(self.out_of_bits(bit_len));
        }
        let bits = self.peek_bits(bit_len);
        let value: i64 = bits_to_i64(&bits);
        self.bit_pos = self.bit_pos + bit_len;
        assert(self@.bits =~= old(self)@.skip(bit_len as int, 0).bits);
        assert(self@.refs =~= old(self)@.skip(bit_len as int, 0).refs);
        Ok(value)
    }

    /// Reads the next `bit_len` bits as an unsigned number: [`Self::load_u64`] for a byte.
    ///
    /// Fails when `bit_len` is above 8 or above the number of bits that are left.
    pub fn load_u8(&mut self, bit_len: usize) -> (r: Result<u8, TonCellError>)
        ensures
            r is Ok <==> bit_len <= 8 && bit_len <= old(self)@.bits.len(),
            r matches Ok(value) ==> value == bits_to_nat(old(self)@.bits.subrange(0, bit_len as int))
                && final(self)@ == old(self)@.skip(bit_len as int, 0),
            r matches Err(e) ==> e is CellParserError && final(self)@ == old(self)@,
            final(self).source() == old(self).source(),
    {
        if bit_len > 8 {
            return Err(self.out_of_bits(bit_len));
        }
        match self.load_u64(bit_len) {
            Ok(value) => {
                proof {
                    lemma_bits_to_nat_bound(old(self)@.bits.subrange(0, bit_len as int));
                    lemma2_to64();
                    if bit_len < 8 {
                        lemma_pow2_strictly_increases(bit_len as nat, 8);
                    }
                }
                Ok(value as u8)
            },
            Err(e) => Err(e),
        }
    }

    /// Reads the next `bit_len` bits as an unsigned number: [`Self::load_u64`] for 32 bits.
    ///
    /// Fails when `bit_len` is above 32 or above the number of bits that are left.
    pub fn load_u32(&mut self, bit_len: usize) -> (r: Result<u32, TonCellError>)
        ensures
            r is Ok <==> bit_len <= 32 && bit_len <= old(self)@.bits.len(),
            r matches Ok(value) ==> value == bits_to_nat(old(self)@.bits.subrange(0, bit_len as int))
                && final(self)@ == old(self)@.skip(bit_len as int, 0),
            r matches Err(e) ==> e is CellParserError && final(self)@ == old(self)@,
            final(self).source() == old(self).source(),
    {
        if bit_len > 32 {
            return Err(self.out_of_bits(bit_len));
        }
        match self.load_u64(bit_len) {
            Ok(value) => {
                proof {
                    lemma_bits_to_nat_bound(old(self)@.bits.subrange(0, bit_len as int));
                    lemma2_to64();
                    if bit_len < 32 {
                        lemma_pow2_strictly_increases(bit_len as nat, 32);
                    }
                }
                Ok(value as u32)
            },
            Err(e) => Err(e),
        }
    }

    /// Reads the next `bit_len` bits in two's complement: [`Self::load_i64`] for 32 bits.
    ///
    /// Fails when `bit_len` is 0, above 32 or above the number of bits that are left.
    pub fn load_i32(&mut self, bit_len: usize) -> (r: Result<i32, TonCellError>)
        ensures
            r is Ok <==> 1 <= bit_len <= 32 && bit_len <= old(self)@.bits.len(),
            r matches Ok(value) ==> value == bits_to_int(old(self)@.bits.subrange(0, bit_len as int))
                && final(self)@ == old(self)@.skip(bit_len as int, 0),
            r matches Err(e) ==> e is CellParserError && final(self)@ == old(self)@,
            final(self).source() == old(self).source(),
    {
        if bit_len > 32 {
            return Err(self.out_of_bits(bit_len));
        }
        match self.load_i64(bit_len) {
            Ok(value) => {
                proof {
                    lemma_bits_to_int_bound(old(self)@.bits.subrange(0, bit_len as int));
                    lemma2_to64();
                    if bit_len < 32 {
                        lemma_pow2_strictly_increases((bit_len - 1) as nat, 31);
                    }
                }
                Ok(value as i32)
            },
            Err(e) => Err(e),
        }
    }

    /// Reads the next reference.
    pub fn next_reference(&mut self) -> (r: Result<ArcCell, TonCellError>)
        ensures
            r is Ok <==> old(self)@.refs.len() > 0,
            r matches Ok(child) ==> child@ == old(self)@.refs[0] && final(self)@ == old(self)@.skip(
                0,
                1,
            ),
            r matches Err(e) ==> e is CellParserError && final(self)@ == old(self)@,
            final(self).source() == old(self).source(),
    {
        proof {
            use_type_invariant(&*self);
        }
        let references = self.cell.references();
        if self.ref_pos >= self.end_ref {
            return Err(
                TonCellError::CellParserError(
                    describe(
                        "Cannot load reference: position: ",
                        self.ref_pos,
                        ", end: ",
                        self.end_ref,
                        ", read bits: ",
                        self.bit_pos,
                    ),
                ),
            );
        }
        let child: ArcCell = references[self.ref_pos].clone();
        self.ref_pos = self.ref_pos + 1;
        assert(self@.bits =~= old(self)@.skip(0, 1).bits);
        assert(self@.refs =~= old(self)@.skip(0, 1).refs);
        Ok(child)
    }

    /// Reads all that is left into a cell of its own.
    pub fn load_remaining(&mut self) -> (r: Result<Cell, TonCellError>)
        ensures
            r matches Ok(cell) && cell@ == old(self)@ && packs(cell.bytes(), cell@.bits),
            final(self)@ == CellView::empty(),
            final(self).source() == old(self).source(),
    {
        proof {
            use_type_invariant(&*self);
        }
        let n: usize = self.remaining_bits();
        let bits = self.peek_bits(n);
        let data = pack_bits(&bits);
        let references = self.cell.references();
        let mut rest: Vec<ArcCell> = Vec::new();
        let mut i: usize = self.ref_pos;
        while i < self.end_ref
            invariant
                self.ref_pos <= i <= self.end_ref <= references@.len(),
                rest@ == references@.subrange(self.ref_pos as int, i as int),
            decreases self.end_ref - i,
        {
            rest.push(references[i].clone());
            assert(rest@ =~= references@.subrange(self.ref_pos as int, i + 1));
            i = i + 1;
        }
        let ghost packed = data@;
        let r = Cell::new(data, n, rest);
        proof {
            let cell = r->Ok_0;
            assert(cell@.bits =~= old(self)@.bits) by {
                assert forall|k: int| 0 <= k < n implies cell@.bits[k] == old(self)@.bits[k] by {
                    assert(cell@.bits[k] == crate::cell::bits::bit_at(packed, k));
                }
            }
            assert(cell@.refs =~= old(self)@.refs);
        }
        self.bit_pos = self.end_bit;
        self.ref_pos = self.end_ref;
        assert(self@.bits =~= CellView::empty().bits);
        assert(self@.refs =~= CellView::empty().refs);
        r
    }
}

} // verus!
