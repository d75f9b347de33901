//! The cell: an immutable node of bits and child references.
use std::sync::Arc;
use vstd::prelude::*;

pub mod bag_of_cells;
pub mod bigint;
pub mod biguint;
pub mod bits;
pub mod bitstream;
pub mod builder;
pub mod checksum;
pub mod error;
mod flatten;
pub mod hash;
pub mod integer;
pub mod model;
pub mod parser;
pub mod raw;
pub mod round_trip;
pub mod slice;

use bits::{bits_of, get_bit, pack_bits};
use error::{describe, TonCellError};
use hash::{
    depth_bytes, hash_bytes, lemma_packed, max_depth, representation, sha256, sha256_digest,
    tagged, TonHash, MAX_DEPTH,
};
use model::{CellView, MAX_CELL_BITS, MAX_CELL_REFERENCES};

verus! {

/// A shared handle to a cell. A child may be shared by several parents.
pub type ArcCell = Arc<Cell>;

/// An immutable node: up to [`MAX_CELL_BITS`] bits, packed into bytes, and
/// up to [`MAX_CELL_REFERENCES`] children.
#[derive(Debug, PartialEq, Eq)]
pub struct Cell {
    data: Vec<u8>,
    bit_len: usize,
    references: Vec<ArcCell>,
    hash: TonHash,
    depth: u16,
}

impl View for Cell {
    type V = CellView;

    closed spec fn view(&self) -> CellView {
        self.content()
    }
}

impl Cell {
    #[verifier::type_invariant]
    spec fn well_formed(&self) -> bool {
        &&& self.bit_len <= MAX_CELL_BITS
        &&& self.bit_len <= 8 * self.data@.len()
        &&& self.references@.len() <= MAX_CELL_REFERENCES
        &&& self.depth == self.content().depth()
        &&& self.hash@ == self.content().hash()
    }

    /// The bits of this cell and, in order, the content of each child.
    pub closed spec fn content(&self) -> CellView
        decreases self,
    {
        CellView {
            bits: bits_of(self.data@, self.bit_len as nat),
            refs: Seq::new(
                self.references@.len(),
                |i: int|
                    if 0 <= i < self.references@.len() {
                        self.references@[i].content()
                    } else {
                        CellView::empty()
                    },
            ),
        }
    }

    /// The content of each of `references`, in order.
    pub open spec fn contents_of(references: Seq<ArcCell>) -> Seq<CellView> {
        Seq::new(references.len(), |i: int| references[i]@)
    }

    /// Makes a cell of the first `bit_len` bits of `data` and of `references`.
    ///
    /// Fails when `bit_len` or the number of references is above the
    /// capacity of a cell, or when `data` is too short for `bit_len` bits.
    pub fn new(data: Vec<u8>, bit_len: usize, references: Vec<ArcCell>) -> (r: Result<
        Cell,
        TonCellError,
    >)
        ensures
            r is Ok <==> bit_len <= MAX_CELL_BITS && bit_len <= 8 * data@.len() && references@.len()
                <= MAX_CELL_REFERENCES,
            r matches Ok(cell) ==> cell@.bits == bits_of(data@, bit_len as nat) && cell@.refs
                == Self::contents_of(references@) && cell.bytes() == data@,
            r matches Err(e) ==> e is CellParserError,
    {
        if bit_len > MAX_CELL_BITS {
            return Err(
                TonCellError::CellParserError(
                    describe(
                        "Invalid cell: bit_len: ",
                        bit_len,
                        ", max bit_len: ",
                        MAX_CELL_BITS,
                        ", data bytes: ",
                        data.len(),
                    ),
                ),
            );
        }
        if data.len() < bit_len / 8 || (data.len() == bit_len / 8 && bit_len % 8 != 0) {
            return Err(
                TonCellError::CellParserError(
                    describe(
                        "Invalid cell: data bytes: ",
                        data.len(),
                        ", bit_len: ",
                        bit_len,
                        ", bytes needed: ",
                        bit_len / 8 + 1,
                    ),
                ),
            );
        }
        if references.len() > MAX_CELL_REFERENCES {
            return Err(
                TonCellError::CellParserError(
                    describe(
                        "Invalid cell: references: ",
                        references.len(),
                        ", max references: ",
                        MAX_CELL_REFERENCES,
                        ", bit_len: ",
                        bit_len,
                    ),
                ),
            );
        }
        let ghost content = CellView {
            bits: bits_of(data@, bit_len as nat),
            refs: Self::contents_of(references@),
        };
        let (depth, hash) = Self::digest(&data, bit_len, &references);
        proof {
            let made = Cell { data, bit_len, references, hash, depth };
            assert(made.content().refs =~= content.refs);
            assert(made.content() == content);
        }
        let cell = Cell { data, bit_len, references, hash, depth };
        Ok(cell)
    }

    /// The depth and the content hash of the cell that `data`, `bit_len` and
    /// `references` make.
    #[verifier::rlimit(50)]
    fn digest(data: &Vec<u8>, bit_len: usize, references: &Vec<ArcCell>) -> (r: (u16, TonHash))
        requires
            bit_len <= MAX_CELL_BITS,
            bit_len <= 8 * data@.len(),
            references@.len() <= MAX_CELL_REFERENCES,
        ensures
            ({
                let content = CellView {
                    bits: bits_of(data@, bit_len as nat),
                    refs: Self::contents_of(references@),
                };
                r.0 == content.depth() && r.1@ == content.hash()
            }),
    {
        let ghost content = CellView {
            bits: bits_of(data@, bit_len as nat),
            refs: Self::contents_of(references@),
        };
        let ghost depths = content.child_depths();
        let ghost hashes = content.child_hashes();
        // The bits, with the completion tag where they end within a byte.
        let mut bits: Vec<bool> = Vec::new();
        let mut i: usize = 0;
        while i < bit_len
            invariant
                i <= bit_len <= 8 * data@.len(),
                bits@ == bits_of(data@, i as nat),
            decreases bit_len - i,
        {
            bits.push(get_bit(data, i));
            assert(bits@ =~= bits_of(data@, (i + 1) as nat));
            i = i + 1;
        }
        if bit_len % 8 != 0 {
            bits.push(true);
        }
        let body = pack_bits(&bits);
        proof {
            lemma_packed(body@, bits@);
            assert(body@ == tagged(content.bits));
        }
        let mut bytes: Vec<u8> = Vec::new();
        bytes.push(references.len() as u8);
        bytes.push((bit_len / 8 + (bit_len + 7) / 8) as u8);
        let mut k: usize = 0;
        while k < body.len()
            invariant
                k <= body@.len(),
                bytes@ == seq![references@.len() as u8, (bit_len / 8 + (bit_len + 7) / 8) as u8]
                    + body@.subrange(0, k as int),
            decreases body@.len() - k,
        {
            bytes.push(body[k]);
            assert(bytes@ =~= seq![references@.len() as u8, (bit_len / 8 + (bit_len + 7) / 8) as u8]
                + body@.subrange(0, k + 1));
            k = k + 1;
        }
        assert(body@.subrange(0, k as int) =~= body@);
        let ghost head = bytes@;
        // The depth of each child, and the greatest of them.
        let mut deepest: u16 = 0;
        let mut j: usize = 0;
        while j < references.len()
            invariant
                j <= references@.len() == depths.len(),
                references@.len() <= MAX_CELL_REFERENCES,
                content.refs == Self::contents_of(references@),
                depths == content.child_depths(),
                deepest == max_depth(depths.subrange(0, j as int)),
                bytes@ == head + depth_bytes(depths.subrange(0, j as int)),
            decreases references@.len() - j,
        {
            let child = &references[j];
            proof {
                use_type_invariant(&**child);
                assert(child@ == content.refs[j as int]);
                assert(depths.subrange(0, j + 1).drop_last() =~= depths.subrange(0, j as int));
            }
            let depth: u16 = child.depth;
            if depth > deepest {
                deepest = depth;
            }
            bytes.push((depth / 256) as u8);
            bytes.push((depth % 256) as u8);
            assert(bytes@ =~= head + depth_bytes(depths.subrange(0, j + 1)));
            j = j + 1;
        }
        assert(depths.subrange(0, j as int) =~= depths);
        let ghost middle = bytes@;
        let mut j: usize = 0;
        while j < references.len()
            invariant
                j <= references@.len() == hashes.len(),
                content.refs == Self::contents_of(references@),
                hashes == content.child_hashes(),
                bytes@ == middle + hash_bytes(hashes.subrange(0, j as int)),
            decreases references@.len() - j,
        {
            let child = &references[j];
            proof {
                use_type_invariant(&**child);
                assert(child@ == content.refs[j as int]);
                assert(hashes.subrange(0, j + 1).drop_last() =~= hashes.subrange(0, j as int));
            }
            let ghost before = bytes@;
            let mut n: usize = 0;
            while n < 32
                invariant
                    n <= 32,
                    bytes@ == before + child.hash@.subrange(0, n as int),
                decreases 32 - n,
            {
                bytes.push(child.hash[n]);
                assert(bytes@ =~= before + child.hash@.subrange(0, n + 1));
                n = n + 1;
            }
            assert(child.hash@.subrange(0, 32) =~= child.hash@);
            assert(bytes@ =~= middle + hash_bytes(hashes.subrange(0, j + 1)));
            j = j + 1;
        }
        assert(hashes.subrange(0, j as int) =~= hashes);
        assert(bytes@ =~= representation(content.bits, depths, hashes));
        let depth: u16 = if references.len() == 0 {
            0
        } else if deepest == MAX_DEPTH {
            MAX_DEPTH
        } else {
            deepest + 1
        };
        let hash = sha256_digest(&bytes);
        proof {
            assert(content.depth() == depth);
            assert(content.hash() == sha256(representation(content.bits, depths, hashes)));
        }
        (depth, hash)
    }

    /// The content hash of this cell.
    pub fn cell_hash(&self) -> (hash: TonHash)
        ensures
            hash@ == self@.hash(),
    {
        proof {
            use_type_invariant(self);
        }
        self.hash
    }

    /// The length of the longest chain of references below this cell, or
    /// [`MAX_DEPTH`] where that chain is longer.
    pub fn depth(&self) -> (depth: u16)
        ensures
            depth == self@.depth(),
    {
        proof {
            use_type_invariant(self);
        }
        self.depth
    }

    /// The number of bits this cell holds.
    pub fn bit_len(&self) -> (n: usize)
        ensures
            n == self@.bits.len(),
            n <= MAX_CELL_BITS,
    {
        proof {
            use_type_invariant(self);
        }
        self.bit_len
    }

    /// The bytes that hold the bits of this cell.
    pub closed spec fn bytes(&self) -> Seq<u8> {
        self.data@
    }

    /// The bytes that hold the bits of this cell.
    pub fn data(&self) -> (data: &Vec<u8>)
        ensures
            data@ == self.bytes(),
            self@.bits.len() <= 8 * data@.len(),
            self@.bits == bits_of(data@, self@.bits.len()),
    {
        proof {
            use_type_invariant(self);
        }
        &self.data
    }

    /// The children of this cell, in order.
    pub fn references(&self) -> (references: &Vec<ArcCell>)
        ensures
            references@.len() <= MAX_CELL_REFERENCES,
            self@.refs == Self::contents_of(references@),
    {
        proof {
            use_type_invariant(self);
            assert(self@.refs =~= Self::contents_of(self.references@));
        }
        &self.references
    }

    /// The `idx`-th child, or `InvalidIndex` when there is none.
    pub fn reference(&self, idx: usize) -> (r: Result<&ArcCell, TonCellError>)
        ensures
            r is Ok <==> idx < self@.refs.len(),
            r matches Ok(child) ==> child@ == self@.refs[idx as int],
            r matches Err(e) ==> e == (TonCellError::InvalidIndex {
                idx,
                ref_count: self@.refs.len() as usize,
            }),
    {
        if idx < self.references.len() {
            Ok(&self.references[idx])
        } else {
            Err(TonCellError::InvalidIndex { idx, ref_count: self.references.len() })
        }
    }

    /// The bits of this cell, one by one.
    pub fn bits(&self) -> (bits: Vec<bool>)
        ensures
            bits@ == self@.bits,
    {
        proof {
            use_type_invariant(self);
        }
        let mut bits: Vec<bool> = Vec::new();
        let mut i: usize = 0;
        while i < self.bit_len
            invariant
                i <= self.bit_len <= 8 * self.data@.len(),
                bits@ == bits_of(self.data@, i as nat),
            decreases self.bit_len - i,
        {
            bits.push(get_bit(&self.data, i));
            assert(bits@ =~= bits_of(self.data@, (i + 1) as nat));
            i = i + 1;
        }
        bits
    }

    /// Moves this cell behind a shared handle.
    pub fn to_arc(self) -> (r: ArcCell)
        ensures
            r@ == self@,
    {
        Arc::new(self)
    }
}

impl Clone for Cell {
    fn clone(&self) -> (r: Self)
        ensures
            r@ == self@,
            r.bytes() == self.bytes(),
    {
        proof {
            use_type_invariant(self);
        }
        let data = self.data.clone();
        let mut references: Vec<ArcCell> = Vec::new();
        let mut i: usize = 0;
        while i < self.references.len()
            invariant
                i <= self.references@.len(),
                references@ == self.references@.subrange(0, i as int),
            decreases self.references@.len() - i,
        {
            references.push(self.references[i].clone());
            assert(references@ =~= self.references@.subrange(0, i + 1));
            i = i + 1;
        }
        assert(references@ =~= self.references@);
        proof {
            let made = Cell {
                data,
                bit_len: self.bit_len,
                references,
                hash: self.hash,
                depth: self.depth,
            };
            assert(made.content().bits =~= self.content().bits);
            assert(made.content().refs =~= self.content().refs);
        }
        Cell { data, bit_len: self.bit_len, references, hash: self.hash, depth: self.depth }
    }
}

} // verus!
