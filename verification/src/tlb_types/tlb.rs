//! The protocol by which a type says how it is laid out in cells.
use crate::cell::builder::CellBuilder;
use crate::cell::error::TonCellError;
use crate::cell::model::{lemma_view_equal, CellView};
use crate::cell::parser::CellParser;
use crate::cell::{ArcCell, Cell};
use vstd::prelude::*;

verus! {

/// A type whose values are written to and read from cells.
///
/// An implementation gives the two operations `read_definition` and
/// `write_definition`. One that also wants its layout reasoned about sets
/// `has_model` and says, in `written`, `abandoned`, `readable`, `reads_as`
/// and `same_value`, what the two operations do; they are then held to it.
/// Of a type without a model nothing is assumed.
pub trait TLB: Sized {
    /// Whether this type says what its reading and writing do.
    open spec fn has_model() -> bool {
        false
    }

    /// What a builder holds once `self` has been written behind `dst`, or
    /// `None` where that write fails.
    open spec fn written(&self, dst: CellView) -> Option<CellView> {
        None
    }

    /// What a builder that held `dst` holds after the write of `self`
    /// behind it has failed.
    open spec fn abandoned(&self, dst: CellView) -> CellView {
        dst
    }

    /// Whether a value can be read at the front of `input`.
    open spec fn readable(input: CellView) -> bool {
        false
    }

    /// Whether reading at the front of `input` yields `value` and leaves `rest` unread.
    open spec fn reads_as(input: CellView, value: Self, rest: CellView) -> bool {
        false
    }

    /// Whether `other` is `self` as far as a reader can tell.
    open spec fn same_value(&self, other: Self) -> bool {
        *self == other
    }

    /// Reads one value at the parser's position, consuming exactly the bits
    /// and references of its layout.
    fn read_definition(parser: &mut CellParser) -> (r: Result<Self, TonCellError>)
        ensures
            Self::has_model() ==> (r is Ok <==> Self::readable(old(parser)@)),
            Self::has_model() ==> (r matches Ok(value) ==> Self::reads_as(
                old(parser)@,
                value,
                final(parser)@,
            )),
    ;

    /// Writes the layout of `self` behind what the builder holds.
    fn write_definition(&self, dst: &mut CellBuilder) -> (r: Result<(), TonCellError>)
        ensures
            Self::has_model() ==> (r is Ok <==> self.written(old(dst)@) is Some),
            Self::has_model() ==> (r is Ok ==> self.written(old(dst)@) == Some(final(dst)@)),
            Self::has_model() ==> (r is Err ==> final(dst)@ == self.abandoned(old(dst)@)),
    ;

    /// Reads one value: `read_definition` with nothing around it.
    fn read(parser: &mut CellParser) -> (r: Result<Self, TonCellError>)
        ensures
            Self::has_model() ==> (r is Ok <==> Self::readable(old(parser)@)),
            Self::has_model() ==> (r matches Ok(value) ==> Self::reads_as(
                old(parser)@,
                value,
                final(parser)@,
            )),
    {
        Self::read_definition(parser)
    }

    /// Writes one value: `write_definition` with nothing around it.
    fn write(&self, dst: &mut CellBuilder) -> (r: Result<(), TonCellError>)
        ensures
            Self::has_model() ==> (r is Ok <==> self.written(old(dst)@) is Some),
            Self::has_model() ==> (r is Ok ==> self.written(old(dst)@) == Some(final(dst)@)),
            Self::has_model() ==> (r is Err ==> final(dst)@ == self.abandoned(old(dst)@)),
    {
        self.write_definition(dst)
    }

    /// Reads one value at the front of `cell`. What the value leaves unread is ignored.
    fn from_cell(cell: &Cell) -> (r: Result<Self, TonCellError>)
        ensures
            Self::has_model() ==> (r is Ok <==> Self::readable(cell@)),
            Self::has_model() ==> (r matches Ok(value) ==> exists|rest: CellView|
                Self::reads_as(cell@, value, rest)),
    {
        let mut parser = cell.parser();
        Self::read(&mut parser)
    }

    /// Writes `self` into a cell of its own.
    fn to_cell(&self) -> (r: Result<Cell, TonCellError>)
        ensures
            Self::has_model() ==> (r is Ok <==> self.written(CellView::empty()) is Some),
            Self::has_model() ==> (r matches Ok(cell) ==> self.written(CellView::empty()) == Some(
                cell@,
            )),
    {
        let mut builder = CellBuilder::new();
        match self.write(&mut builder) {
            Ok(()) => builder.build(),
            Err(e) => Err(e),
        }
    }
}

impl<'a> CellParser<'a> {
    /// Reads one value of type `T` at the parser's position.
    pub fn load_tlb<T: TLB>(&mut self) -> (r: Result<T, TonCellError>)
        ensures
            T::has_model() ==> (r is Ok <==> T::readable(old(self)@)),
            T::has_model() ==> (r matches Ok(value) ==> T::reads_as(old(self)@, value, final(self)@)),
    {
        T::read(self)
    }
}

impl CellBuilder {
    /// Writes `value` behind what the builder holds.
    pub fn store_tlb<T: TLB>(&mut self, value: &T) -> (r: Result<(), TonCellError>)
        ensures
            T::has_model() ==> (r is Ok <==> value.written(old(self)@) is Some),
            T::has_model() ==> (r is Ok ==> value.written(old(self)@) == Some(final(self)@)),
            T::has_model() ==> (r is Err ==> final(self)@ == value.abandoned(old(self)@)),
    {
        value.write(self)
    }
}

/// The tail of `out` behind as many bits and references as `dst` holds:
/// what a write that turned `dst` into `out` has added.
pub open spec fn appended(dst: CellView, out: CellView) -> CellView {
    out.skip(dst.bits.len() as int, dst.refs.len() as int)
}

/// The round trip of `value`, written behind `dst` and read back with `rest` behind it.
///
/// Where the write succeeds, it only adds to `dst`; a value can be read where
/// what was added begins; and if `read` is that value, with `left` unread
/// behind it, then `left` is `rest` and `read` is the same value as `value`.
pub open spec fn round_trip<T: TLB>(
    value: T,
    dst: CellView,
    rest: CellView,
    read: T,
    left: CellView,
) -> bool {
    value.written(dst) matches Some(out) ==> {
        let added = appended(dst, out);
        &&& out == dst.concat(added)
        &&& T::readable(added.concat(rest))
        &&& T::reads_as(added.concat(rest), read, left) ==> left == rest && value.same_value(read)
    }
}

impl TLB for Cell {
    open spec fn has_model() -> bool {
        true
    }

    /// The content of the cell is appended, bits to bits and references to references.
    open spec fn written(&self, dst: CellView) -> Option<CellView> {
        if dst.concat(self@).fits() {
            Some(dst.concat(self@))
        } else {
            None
        }
    }

    open spec fn readable(input: CellView) -> bool {
        true
    }

    /// A cell takes all that is left.
    open spec fn reads_as(input: CellView, value: Self, rest: CellView) -> bool {
        value@ == input && rest == CellView::empty()
    }

    open spec fn same_value(&self, other: Self) -> bool {
        self@ == other@
    }

    fn read_definition(parser: &mut CellParser) -> (r: Result<Self, TonCellError>) {
        parser.load_remaining()
    }

    fn write_definition(&self, dst: &mut CellBuilder) -> (r: Result<(), TonCellError>) {
        dst.store_cell(self)
    }
}

impl TLB for ArcCell {
    open spec fn has_model() -> bool {
        true
    }

    /// The content of the cell is appended, bits to bits and references to references.
    open spec fn written(&self, dst: CellView) -> Option<CellView> {
        if dst.concat(self@).fits() {
            Some(dst.concat(self@))
        } else {
            None
        }
    }

    open spec fn readable(input: CellView) -> bool {
        true
    }

    /// A cell takes all that is left.
    open spec fn reads_as(input: CellView, value: Self, rest: CellView) -> bool {
        value@ == input && rest == CellView::empty()
    }

    open spec fn same_value(&self, other: Self) -> bool {
        self@ == other@
    }

    fn read_definition(parser: &mut CellParser) -> (r: Result<Self, TonCellError>) {
        match parser.load_remaining() {
            Ok(cell) => Ok(cell.to_arc()),
            Err(e) => Err(e),
        }
    }

    fn write_definition(&self, dst: &mut CellBuilder) -> (r: Result<(), TonCellError>) {
        dst.store_cell(self)
    }
}

/// A cell that is written at the end of a builder and read back is the same cell.
///
/// A cell takes all that is left when it is read, so the law holds where
/// nothing follows it.
pub proof fn lemma_cell_round_trip(value: Cell, dst: CellView, read: Cell, left: CellView)
    ensures
        round_trip::<Cell>(value, dst, CellView::empty(), read, left),
{
    if let Some(out) = value.written(dst) {
        let added = appended(dst, out);
        lemma_view_equal(added, value@);
        lemma_view_equal(out, dst.concat(added));
        lemma_view_equal(added.concat(CellView::empty()), value@);
    }
}

/// A shared cell that is written at the end of a builder and read back is the same cell.
pub proof fn lemma_arc_cell_round_trip(value: ArcCell, dst: CellView, read: ArcCell, left: CellView)
    ensures
        round_trip::<ArcCell>(value, dst, CellView::empty(), read, left),
{
    if let Some(out) = value.written(dst) {
        let added = appended(dst, out);
        lemma_view_equal(added, value@);
        lemma_view_equal(out, dst.concat(added));
        lemma_view_equal(added.concat(CellView::empty()), value@);
    }
}

} // verus!
