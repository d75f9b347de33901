//! The mathematical content of a cell.
use crate::cell::hash::{max_depth, representation, MAX_DEPTH};
use vstd::prelude::*;

verus! {

/// The largest number of payload bits a cell holds.
pub const MAX_CELL_BITS: usize = 1023;

/// The largest number of child references a cell holds.
pub const MAX_CELL_REFERENCES: usize = 4;

/// A run of bits together with a run of child contents.
///
/// It is what a cell holds, what a builder has accumulated so far, and what a
/// parser has not yet read.
pub struct CellView {
    pub bits: Seq<bool>,
    pub refs: Seq<CellView>,
}

impl CellView {
    /// No bits and no references.
    pub open spec fn empty() -> CellView {
        CellView { bits: Seq::empty(), refs: Seq::empty() }
    }

    /// `self` followed by one more bit.
    pub open spec fn push_bit(self, bit: bool) -> CellView {
        CellView { bits: self.bits.push(bit), refs: self.refs }
    }

    /// `self` followed by more bits.
    pub open spec fn push_bits(self, bits: Seq<bool>) -> CellView {
        CellView { bits: self.bits + bits, refs: self.refs }
    }

    /// `self` followed by one more reference.
    pub open spec fn push_ref(self, child: CellView) -> CellView {
        CellView { bits: self.bits, refs: self.refs.push(child) }
    }

    /// The bits of `self` followed by those of `other`, and likewise the references.
    pub open spec fn concat(self, other: CellView) -> CellView {
        CellView { bits: self.bits + other.bits, refs: self.refs + other.refs }
    }

    /// What is left of `self` behind its first `bits` bits and first `refs` references.
    pub open spec fn skip(self, bits: int, refs: int) -> CellView {
        CellView { bits: self.bits.skip(bits), refs: self.refs.skip(refs) }
    }

    /// The bits `[start_bit, end_bit)` and the references `[start_ref, end_ref)` of `self`.
    pub open spec fn window(self, start_bit: int, end_bit: int, start_ref: int, end_ref: int) -> CellView {
        CellView {
            bits: self.bits.subrange(start_bit, end_bit),
            refs: self.refs.subrange(start_ref, end_ref),
        }
    }

    /// The height of each child, in order.
    pub open spec fn child_heights(self) -> Seq<nat>
        decreases self, 0nat,
    {
        Seq::new(
            self.refs.len(),
            |i: int|
                if 0 <= i < self.refs.len() {
                    self.refs[i].height()
                } else {
                    0
                },
        )
    }

    /// The length of the longest chain of references below `self`.
    pub open spec fn height(self) -> nat
        decreases self, 1nat,
    {
        if self.refs.len() == 0 {
            0
        } else {
            max_depth(self.child_heights()) + 1
        }
    }

    /// The size of each child, in order.
    pub open spec fn child_sizes(self) -> Seq<nat>
        decreases self, 0nat,
    {
        Seq::new(
            self.refs.len(),
            |i: int|
                if 0 <= i < self.refs.len() {
                    self.refs[i].size()
                } else {
                    0
                },
        )
    }

    /// The number of cells below and including `self`, a cell counted once
    /// for every way that leads to it.
    pub open spec fn size(self) -> nat
        decreases self, 1nat,
    {
        1 + sum(self.child_sizes())
    }

    /// The depth of each child, in order.
    pub open spec fn child_depths(self) -> Seq<nat>
        decreases self, 0nat,
    {
        Seq::new(
            self.refs.len(),
            |i: int|
                if 0 <= i < self.refs.len() {
                    self.refs[i].depth()
                } else {
                    0
                },
        )
    }

    /// The length of the longest chain of references below `self`, or
    /// [`MAX_DEPTH`] where that chain is longer.
    pub open spec fn depth(self) -> nat
        decreases self, 1nat,
    {
        if self.refs.len() == 0 {
            0
        } else {
            let deepest = max_depth(self.child_depths());
            if deepest >= MAX_DEPTH {
                MAX_DEPTH as nat
            } else {
                deepest + 1
            }
        }
    }

    /// The content hash of each child, in order.
    pub open spec fn child_hashes(self) -> Seq<Seq<u8>>
        decreases self, 0nat,
    {
        Seq::new(
            self.refs.len(),
            |i: int|
                if 0 <= i < self.refs.len() {
                    self.refs[i].hash()
                } else {
                    Seq::empty()
                },
        )
    }

    /// The content hash: the SHA-256 digest of the representation of
    /// `self`, which in turn holds the depth and the content hash of every
    /// child. Two cells with the same content have the same hash.
    pub open spec fn hash(self) -> Seq<u8>
        decreases self, 1nat,
    {
        crate::cell::hash::sha256(
            representation(self.bits, self.child_depths(), self.child_hashes()),
        )
    }

    /// Whether `self` respects both capacity bounds of a single cell.
    pub open spec fn fits(self) -> bool {
        self.bits.len() <= MAX_CELL_BITS && self.refs.len() <= MAX_CELL_REFERENCES
    }
}

/// The sum of `numbers`.
pub open spec fn sum(numbers: Seq<nat>) -> nat
    decreases numbers.len(),
{
    if numbers.len() == 0 {
        0
    } else {
        sum(numbers.drop_last()) + numbers.last()
    }
}

/// The size of each of `roots`, in order.
pub open spec fn sizes_of(roots: Seq<CellView>) -> Seq<nat> {
    Seq::new(roots.len(), |k: int| roots[k].size())
}

/// The number of cells below and including `roots`, a cell counted once for
/// every way that leads to it.
pub open spec fn graph_size(roots: Seq<CellView>) -> nat {
    sum(sizes_of(roots))
}

/// A child is less high than its parent.
pub proof fn lemma_child_height(parent: CellView, i: int)
    requires
        0 <= i < parent.refs.len(),
    ensures
        parent.refs[i].height() < parent.height(),
{
    crate::cell::hash::lemma_max_depth(parent.child_heights(), i);
}

/// Two contents with the same bits and the same references are the same.
pub proof fn lemma_view_equal(a: CellView, b: CellView)
    requires
        a.bits =~= b.bits,
        a.refs =~= b.refs,
    ensures
        a == b,
{
}

} // verus!
