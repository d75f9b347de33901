//! `Either X Y`, a choice between two layouts, and `Either X ^X`, a choice
//! between a value laid out in place and the same value behind a reference.
use crate::cell::builder::CellBuilder;
use crate::cell::error::TonCellError;
use crate::cell::model::{lemma_view_equal, CellView, MAX_CELL_BITS, MAX_CELL_REFERENCES};
use crate::cell::parser::CellParser;
use crate::cell::Cell;
use crate::tlb_types::tlb::{appended, round_trip, TLB};
use vstd::prelude::*;
use vstd::std_specs::cmp::{PartialEqSpec, PartialEqSpecImpl};

verus! {

/// One of two values, told apart by one leading bit: `0` for `Left`, `1` for `Right`.
#[derive(Clone, Debug)]
pub enum Either<L, R> {
    Left(L),
    Right(R),
}

/// A value that is laid out either in place or in a child cell of its own,
/// told apart by one leading bit: `0` in place, `1` behind a reference.
#[derive(Clone, Debug)]
pub struct EitherRef<T> {
    pub value: T,
    pub layout: EitherRefLayout,
}

/// Where an [`EitherRef`] puts its value.
#[derive(Clone, Debug, Copy)]
pub enum EitherRefLayout {
    /// In place, in the current cell.
    ToCell,
    /// In a child cell, reached through a reference.
    ToRef,
    /// Not decided yet: in place if the value fits, in a child cell if not.
    /// Writing decides; reading never yields this layout.
    Native,
}

impl PartialEq for EitherRefLayout {
    /// `Native` turns into one of the other two layouts when it is written,
    /// so it is equal to every layout.
    fn eq(&self, other: &EitherRefLayout) -> (r: bool) {
        match (self, other) {
            (EitherRefLayout::Native, _) => true,
            (_, EitherRefLayout::Native) => true,
            (EitherRefLayout::ToCell, EitherRefLayout::ToCell) => true,
            (EitherRefLayout::ToRef, EitherRefLayout::ToRef) => true,
            _ => false,
        }
    }
}

impl PartialEqSpecImpl for EitherRefLayout {
    open spec fn obeys_eq_spec() -> bool {
        true
    }

    open spec fn eq_spec(&self, other: &EitherRefLayout) -> bool {
        self.agrees_with(*other)
    }
}

impl<L: PartialEq, R: PartialEq> PartialEq for Either<L, R> {
    /// Two values are equal when they are on the same side and equal there.
    fn eq(&self, other: &Either<L, R>) -> (r: bool) {
        match (self, other) {
            (Either::Left(a), Either::Left(b)) => a == b,
            (Either::Right(a), Either::Right(b)) => a == b,
            _ => false,
        }
    }
}

impl<L: PartialEq, R: PartialEq> PartialEqSpecImpl for Either<L, R> {
    open spec fn obeys_eq_spec() -> bool {
        L::obeys_eq_spec() && R::obeys_eq_spec()
    }

    open spec fn eq_spec(&self, other: &Either<L, R>) -> bool {
        match (self, other) {
            (Either::Left(a), Either::Left(b)) => a.eq_spec(b),
            (Either::Right(a), Either::Right(b)) => a.eq_spec(b),
            _ => false,
        }
    }
}

impl<T: PartialEq> PartialEq for EitherRef<T> {
    /// Two values are equal when what they hold is equal and their layouts
    /// agree, where `Native` agrees with every layout.
    fn eq(&self, other: &EitherRef<T>) -> (r: bool) {
        self.value == other.value && self.layout == other.layout
    }
}

impl<T: PartialEq> PartialEqSpecImpl for EitherRef<T> {
    open spec fn obeys_eq_spec() -> bool {
        T::obeys_eq_spec()
    }

    open spec fn eq_spec(&self, other: &EitherRef<T>) -> bool {
        self.value.eq_spec(&other.value) && self.layout.agrees_with(other.layout)
    }
}

impl EitherRefLayout {
    /// What `==` means on layouts: the two are the same, or one of them is `Native`.
    pub open spec fn agrees_with(self, other: EitherRefLayout) -> bool {
        self is Native || other is Native || self == other
    }
}

impl<L: TLB, R: TLB> TLB for Either<L, R> {
    open spec fn has_model() -> bool {
        L::has_model() && R::has_model()
    }

    /// One discriminator bit, then the chosen value.
    open spec fn written(&self, dst: CellView) -> Option<CellView> {
        if dst.bits.len() < MAX_CELL_BITS {
            match self {
                Either::Left(left) => left.written(dst.push_bit(false)),
                Either::Right(right) => right.written(dst.push_bit(true)),
            }
        } else {
            None
        }
    }

    /// A builder that is full keeps what it held; else the discriminator
    /// bit is written, and the chosen value leaves what it leaves.
    open spec fn abandoned(&self, dst: CellView) -> CellView {
        if dst.bits.len() < MAX_CELL_BITS {
            match self {
                Either::Left(left) => left.abandoned(dst.push_bit(false)),
                Either::Right(right) => right.abandoned(dst.push_bit(true)),
            }
        } else {
            dst
        }
    }

    open spec fn readable(input: CellView) -> bool {
        &&& input.bits.len() > 0
        &&& if input.bits[0] {
            R::readable(input.skip(1, 0))
        } else {
            L::readable(input.skip(1, 0))
        }
    }

    open spec fn reads_as(input: CellView, value: Self, rest: CellView) -> bool {
        &&& input.bits.len() > 0
        &&& match value {
            Either::Left(left) => !input.bits[0] && L::reads_as(input.skip(1, 0), left, rest),
            Either::Right(right) => input.bits[0] && R::reads_as(input.skip(1, 0), right, rest),
        }
    }

    open spec fn same_value(&self, other: Self) -> bool {
        match (*self, other) {
            (Either::Left(a), Either::Left(b)) => a.same_value(b),
            (Either::Right(a), Either::Right(b)) => a.same_value(b),
            _ => false,
        }
    }

    fn read_definition(parser: &mut CellParser) -> (r: Result<Self, TonCellError>)
        ensures
            old(parser)@.bits.len() == 0 ==> (r matches Err(TonCellError::CellParserError(_)))
                && final(parser)@ == old(parser)@,
            r matches Ok(Either::Left(_)) ==> old(parser)@.bits.len() > 0 && !old(parser)@.bits[0],
            r matches Ok(Either::Right(_)) ==> old(parser)@.bits.len() > 0 && old(parser)@.bits[0],
    {
        match parser.load_bit() {
            Err(e) => Err(e),
            Ok(false) => match L::read(parser) {
                Ok(left) => Ok(Either::Left(left)),
                Err(e) => Err(e),
            },
            Ok(true) => match R::read(parser) {
                Ok(right) => Ok(Either::Right(right)),
                Err(e) => Err(e),
            },
        }
    }

    fn write_definition(&self, dst: &mut CellBuilder) -> (r: Result<(), TonCellError>)
        ensures
            old(dst)@.bits.len() >= MAX_CELL_BITS ==> (r matches Err(
                TonCellError::CellBuilderError(_),
            )) && final(dst)@ == old(dst)@,
    {
        match self {
            Either::Left(left) => {
                match dst.store_bit(false) {
                    Ok(()) => left.write(dst),
                    Err(e) => Err(e),
                }
            },
            Either::Right(right) => {
                match dst.store_bit(true) {
                    Ok(()) => right.write(dst),
                    Err(e) => Err(e),
                }
            },
        }
    }
}

impl<T> EitherRef<T> {
    /// A value whose layout is decided when it is written.
    pub fn new(value: T) -> (r: Self)
        ensures
            r.value == value,
            r.layout is Native,
    {
        EitherRef { value, layout: EitherRefLayout::Native }
    }
}

impl<T: TLB> EitherRef<T> {
    /// Whether `self`, written behind `dst`, puts `cell`, its value in a cell
    /// of its own, in place: a forced layout decides by itself, and `Native`
    /// chooses in place exactly when the bits of `cell` are fewer than the
    /// bits that `dst` has room for.
    pub open spec fn writes_in_place(&self, dst: CellView, cell: CellView) -> bool {
        self.layout.in_place(dst, cell)
    }
}

impl EitherRefLayout {
    /// Whether a value with this layout, which takes `cell` when it is
    /// written into a cell of its own, goes in place behind `dst`.
    pub open spec fn in_place(self, dst: CellView, cell: CellView) -> bool {
        match self {
            EitherRefLayout::ToCell => true,
            EitherRefLayout::ToRef => false,
            EitherRefLayout::Native => cell.bits.len() < MAX_CELL_BITS - dst.bits.len(),
        }
    }

    /// What follows `dst` once the discriminator bit of `cell` is written.
    pub open spec fn marked(self, dst: CellView, cell: CellView) -> CellView {
        dst.push_bit(!self.in_place(dst, cell))
    }

    /// What follows `dst` once `cell` is written with this layout: in place,
    /// a `0` bit and the content of `cell`; behind a reference, a `1` bit and
    /// `cell` as one more reference.
    pub open spec fn laid_out(self, dst: CellView, cell: CellView) -> CellView {
        if self.in_place(dst, cell) {
            self.marked(dst, cell).concat(cell)
        } else {
            self.marked(dst, cell).push_ref(cell)
        }
    }

    /// What a builder that held `dst` holds after `cell` was to be written
    /// with this layout: `dst` where there was no room for the discriminator
    /// bit, the whole layout where it fits, and else the bit alone.
    pub open spec fn left_by(self, dst: CellView, cell: CellView) -> CellView {
        if dst.bits.len() >= MAX_CELL_BITS {
            dst
        } else if self.laid_out(dst, cell).fits() {
            self.laid_out(dst, cell)
        } else {
            self.marked(dst, cell)
        }
    }

    /// Writes a value that was written into a cell of its own, `candidate`,
    /// behind what the builder holds.
    ///
    /// A value that could not be written into a cell of its own leaves the
    /// builder as it was, and its error is handed on. Else the discriminator
    /// bit is written, and then the cell in place or as a reference; where
    /// one of the two has no room, the write fails with `CellBuilderError`
    /// and the builder keeps what was written before.
    pub fn store(self, candidate: Result<Cell, TonCellError>, dst: &mut CellBuilder) -> (r: Result<
        (),
        TonCellError,
    >)
        ensures
            candidate matches Err(e) ==> r == Err::<(), TonCellError>(e) && final(dst)@ == old(dst)@,
            candidate matches Ok(cell) ==> {
                &&& final(dst)@ == self.left_by(old(dst)@, cell@)
                &&& r is Ok <==> old(dst)@.bits.len() < MAX_CELL_BITS && self.laid_out(
                    old(dst)@,
                    cell@,
                ).fits()
                &&& r matches Err(e) ==> e is CellBuilderError
            },
    {
        let cell = match candidate {
            Ok(cell) => cell,
            Err(e) => {
                return Err(e);
            },
        };
        let serial_layout = match self {
            EitherRefLayout::ToCell => EitherRefLayout::ToCell,
            EitherRefLayout::ToRef => EitherRefLayout::ToRef,
            EitherRefLayout::Native => {
                if cell.bit_len() < dst.remaining_bits() {
                    EitherRefLayout::ToCell
                } else {
                    EitherRefLayout::ToRef
                }
            },
        };
        match serial_layout {
            EitherRefLayout::ToCell => match dst.store_bit(false) {
                Ok(()) => dst.store_cell(&cell),
                Err(e) => Err(e),
            },
            _ => match dst.store_bit(true) {
                Ok(()) => dst.store_child(cell),
                Err(e) => Err(e),
            },
        }
    }
}

impl<T: TLB> TLB for EitherRef<T> {
    open spec fn has_model() -> bool {
        T::has_model()
    }

    /// The value is first written into a cell of its own. In place, a `0` bit
    /// and the content of that cell follow `dst`; behind a reference, a `1`
    /// bit and that cell as one more reference. The number of references
    /// that `dst` has room for plays no part in the choice.
    open spec fn written(&self, dst: CellView) -> Option<CellView> {
        match self.value.written(CellView::empty()) {
            None => None,
            Some(cell) => {
                if dst.bits.len() >= MAX_CELL_BITS {
                    None
                } else if self.writes_in_place(dst, cell) {
                    if dst.push_bit(false).concat(cell).fits() {
                        Some(dst.push_bit(false).concat(cell))
                    } else {
                        None
                    }
                } else {
                    if dst.refs.len() < MAX_CELL_REFERENCES {
                        Some(dst.push_bit(true).push_ref(cell))
                    } else {
                        None
                    }
                }
            },
        }
    }

    /// A value that cannot be written into a cell of its own leaves the
    /// builder as it was; else the builder keeps the discriminator bit, if
    /// there was room for it, and nothing of the value.
    open spec fn abandoned(&self, dst: CellView) -> CellView {
        match self.value.written(CellView::empty()) {
            None => dst,
            Some(cell) => self.layout.left_by(dst, cell),
        }
    }

    open spec fn readable(input: CellView) -> bool {
        &&& input.bits.len() > 0
        &&& if input.bits[0] {
            input.refs.len() > 0 && T::readable(input.refs[0])
        } else {
            T::readable(input.skip(1, 0))
        }
    }

    open spec fn reads_as(input: CellView, value: Self, rest: CellView) -> bool {
        &&& input.bits.len() > 0
        &&& if input.bits[0] {
            &&& value.layout is ToRef
            &&& input.refs.len() > 0
            &&& rest == input.skip(1, 1)
            &&& exists|unread: CellView| T::reads_as(input.refs[0], value.value, unread)
        } else {
            &&& value.layout is ToCell
            &&& T::reads_as(input.skip(1, 0), value.value, rest)
        }
    }

    open spec fn same_value(&self, other: Self) -> bool {
        self.value.same_value(other.value) && self.layout.agrees_with(other.layout)
    }

    fn read_definition(parser: &mut CellParser) -> (r: Result<Self, TonCellError>)
        ensures
            old(parser)@.bits.len() == 0 ==> (r matches Err(TonCellError::CellParserError(_)))
                && final(parser)@ == old(parser)@,
            old(parser)@.bits.len() > 0 && old(parser)@.bits[0] && old(parser)@.refs.len() == 0
                ==> (r matches Err(TonCellError::CellParserError(_))) && final(parser)@ == old(
                parser,
            )@.skip(1, 0),
            r matches Ok(read) ==> old(parser)@.bits.len() > 0 && (read.layout is ToRef <==> old(
                parser,
            )@.bits[0]) && (read.layout is ToCell <==> !old(parser)@.bits[0]),
    {
        match parser.load_bit() {
            Err(e) => Err(e),
            Ok(false) => match T::read(parser) {
                Ok(value) => Ok(EitherRef { value, layout: EitherRefLayout::ToCell }),
                Err(e) => Err(e),
            },
            Ok(true) => {
                match parser.next_reference() {
                    Err(e) => Err(e),
                    Ok(child) => match T::from_cell(&child) {
                        Ok(value) => {
                            let ghost unread = choose|rest: CellView|
                                T::reads_as(child@, value, rest);
                            let read = EitherRef { value, layout: EitherRefLayout::ToRef };
                            proof {
                                lemma_view_equal(parser@, old(parser)@.skip(1, 1));
                                if T::has_model() {
                                    assert(T::reads_as(old(parser)@.refs[0], read.value, unread));
                                }
                            }
                            Ok(read)
                        },
                        Err(e) => Err(e),
                    },
                }
            },
        }
    }

    fn write_definition(&self, dst: &mut CellBuilder) -> (r: Result<(), TonCellError>)
        ensures
            r is Ok ==> exists|cell: CellView|
                {
                    &&& old(dst)@.bits.len() < MAX_CELL_BITS
                    &&& #[trigger] self.layout.laid_out(old(dst)@, cell).fits()
                    &&& final(dst)@ == self.layout.laid_out(old(dst)@, cell)
                },
            r matches Err(e) ==> {
                ||| final(dst)@ == old(dst)@
                ||| e is CellBuilderError && !(self.layout is ToRef) && final(dst)@ == old(
                    dst,
                )@.push_bit(false)
                ||| e is CellBuilderError && !(self.layout is ToCell) && final(dst)@ == old(
                    dst,
                )@.push_bit(true)
            },
            T::has_model() && self.value.written(CellView::empty()) is None ==> final(dst)@ == old(
                dst,
            )@,
            T::has_model() ==> (self.value.written(CellView::empty()) matches Some(cell) ==> {
                &&& final(dst)@ == self.layout.left_by(old(dst)@, cell)
                &&& r matches Err(e) ==> e is CellBuilderError
            }),
    {
        self.layout.store(self.value.to_cell(), dst)
    }
}

/// An `Either` that is written and read back is the same `Either`, where
/// the value it holds is read back the same behind the discriminator bit.
pub proof fn lemma_either_round_trip<L: TLB, R: TLB>(
    value: Either<L, R>,
    dst: CellView,
    rest: CellView,
    read: Either<L, R>,
    left: CellView,
)
    requires
        match value {
            Either::Left(l) => forall|x: L| #[trigger] round_trip(l, dst.push_bit(false), rest, x, left),
            Either::Right(r) => forall|x: R| #[trigger] round_trip(r, dst.push_bit(true), rest, x, left),
        },
    ensures
        round_trip(value, dst, rest, read, left),
{
    if let Some(out) = value.written(dst) {
        let added = appended(dst, out);
        match value {
            Either::Left(l) => {
                let inner_dst = dst.push_bit(false);
                let inner = appended(inner_dst, out);
                let probe: L = match read {
                    Either::Left(x) => x,
                    Either::Right(_) => l,
                };
                assert(round_trip(l, inner_dst, rest, probe, left));
                lemma_view_equal(out, dst.concat(added));
                assert(added.bits[0] == inner_dst.bits[dst.bits.len() as int]);
                lemma_view_equal(added.concat(rest).skip(1, 0), inner.concat(rest));
            },
            Either::Right(r) => {
                let inner_dst = dst.push_bit(true);
                let inner = appended(inner_dst, out);
                let probe: R = match read {
                    Either::Left(_) => r,
                    Either::Right(x) => x,
                };
                assert(round_trip(r, inner_dst, rest, probe, left));
                lemma_view_equal(out, dst.concat(added));
                assert(added.bits[0] == inner_dst.bits[dst.bits.len() as int]);
                lemma_view_equal(added.concat(rest).skip(1, 0), inner.concat(rest));
            },
        }
    }
}

/// An `EitherRef` that is written and read back is the same `EitherRef`,
/// where its value is read back the same from a cell of its own: with `rest`
/// behind it for the layout in place, with nothing behind it for the layout
/// behind a reference. The layout that is read back is the one that was
/// written, which `Native` agrees with.
pub proof fn lemma_either_ref_round_trip<T: TLB>(
    value: EitherRef<T>,
    dst: CellView,
    rest: CellView,
    read: EitherRef<T>,
    left: CellView,
)
    requires
        forall|x: T| #[trigger] round_trip(value.value, CellView::empty(), rest, x, left),
        forall|x: T, unread: CellView| #[trigger]
            round_trip(value.value, CellView::empty(), CellView::empty(), x, unread),
    ensures
        round_trip(value, dst, rest, read, left),
{
    if let Some(out) = value.written(dst) {
        let cell = value.value.written(CellView::empty())->Some_0;
        let added = appended(dst, out);
        let own = appended(CellView::empty(), cell);
        lemma_view_equal(own, cell);
        if value.writes_in_place(dst, cell) {
            assert(round_trip(value.value, CellView::empty(), rest, read.value, left));
            lemma_view_equal(out, dst.concat(added));
            assert(added.bits[0] == dst.push_bit(false).bits[dst.bits.len() as int]);
            lemma_view_equal(added.concat(rest).skip(1, 0), cell.concat(rest));
        } else {
            lemma_view_equal(out, dst.concat(added));
            assert(added.bits[0] == dst.push_bit(true).bits[dst.bits.len() as int]);
            assert(added.refs[0] == dst.push_bit(true).push_ref(cell).refs[dst.refs.len() as int]);
            lemma_view_equal(added.concat(rest).skip(1, 1), rest);
            lemma_view_equal(cell.concat(CellView::empty()), cell);
            assert(round_trip(value.value, CellView::empty(), CellView::empty(), read.value, rest));
            if EitherRef::<T>::reads_as(added.concat(rest), read, left) {
                let unread = choose|unread: CellView|
                    T::reads_as(added.concat(rest).refs[0], read.value, unread);
                assert(round_trip(
                    value.value,
                    CellView::empty(),
                    CellView::empty(),
                    read.value,
                    unread,
                ));
            }
        }
    }
}

/// A value that cannot be written behind `dst` is not moved elsewhere to
/// make room: the builder keeps what it held, with at most the
/// discriminator bit behind it and no reference more.
pub proof fn lemma_either_ref_failed_write<T: TLB>(value: EitherRef<T>, dst: CellView)
    requires
        value.written(dst) is None,
    ensures
        value.abandoned(dst) == dst || value.abandoned(dst) == dst.push_bit(false)
            || value.abandoned(dst) == dst.push_bit(true),
        value.abandoned(dst).refs == dst.refs,
{
}

/// The layout that `Native` chooses.
///
/// Let the value, written into a cell of its own, take `B` bits, and let
/// `dst` have room for `R` more bits. Where the write succeeds, the value is
/// laid out in place exactly when `B < R`, and behind a reference otherwise;
/// and whatever is read back where the write began has that layout, which is
/// never `Native`.
pub proof fn lemma_native_layout<T: TLB>(
    value: EitherRef<T>,
    dst: CellView,
    rest: CellView,
    read: EitherRef<T>,
    left: CellView,
)
    requires
        value.layout is Native,
        value.written(dst) is Some,
    ensures
        ({
            let out = value.written(dst)->Some_0;
            let cell = value.value.written(CellView::empty())->Some_0;
            let in_place = cell.bits.len() < MAX_CELL_BITS - dst.bits.len();
            &&& value.value.written(CellView::empty()) is Some
            &&& in_place ==> out == dst.push_bit(false).concat(cell)
            &&& !in_place ==> out == dst.push_bit(true).push_ref(cell)
            &&& EitherRef::<T>::reads_as(appended(dst, out).concat(rest), read, left) ==> {
                &&& read.layout is ToCell <==> in_place
                &&& read.layout is ToRef <==> !in_place
            }
        }),
{
    let out = value.written(dst)->Some_0;
    let cell = value.value.written(CellView::empty())->Some_0;
    let added = appended(dst, out);
    if cell.bits.len() < MAX_CELL_BITS - dst.bits.len() {
        assert(added.bits[0] == dst.push_bit(false).bits[dst.bits.len() as int]);
    } else {
        assert(added.bits[0] == dst.push_bit(true).bits[dst.bits.len() as int]);
    }
}

/// `Left(x)` and then `Right(y)`, written one behind the other and read back
/// in that order, are `Left(x)` and then `Right(y)` again.
///
/// Each of the two takes one discriminator bit, `0` and `1`, in front of what
/// its value alone adds, and the second read ends where the writes began to
/// be followed by `rest`.
pub proof fn lemma_either_sequence<L: TLB, R: TLB>(
    x: L,
    y: R,
    dst: CellView,
    rest: CellView,
    first: Either<L, R>,
    between: CellView,
    second: Either<L, R>,
    left: CellView,
)
    requires
        Either::<L, R>::Left(x).written(dst) is Some,
        Either::<L, R>::Right(y).written(Either::<L, R>::Left(x).written(dst)->Some_0) is Some,
        ({
            let mid = Either::<L, R>::Left(x).written(dst)->Some_0;
            let out = Either::<L, R>::Right(y).written(mid)->Some_0;
            &&& forall|a: L| #[trigger]
                round_trip(x, dst.push_bit(false), appended(mid, out).concat(rest), a, between)
            &&& forall|b: R| #[trigger] round_trip(y, mid.push_bit(true), rest, b, left)
            &&& Either::<L, R>::reads_as(appended(dst, out).concat(rest), first, between)
            &&& Either::<L, R>::reads_as(between, second, left)
        }),
    ensures
        ({
            let mid = Either::<L, R>::Left(x).written(dst)->Some_0;
            let out = Either::<L, R>::Right(y).written(mid)->Some_0;
            &&& first matches Either::Left(a) && x.same_value(a)
            &&& second matches Either::Right(b) && y.same_value(b)
            &&& left == rest
            &&& between == appended(mid, out).concat(rest)
            &&& !appended(dst, mid).bits[0]
            &&& appended(mid, out).bits[0]
            &&& appended(dst, mid).skip(1, 0) == appended(dst.push_bit(false), mid)
            &&& appended(mid, out).skip(1, 0) == appended(mid.push_bit(true), out)
        }),
{
    let mid = Either::<L, R>::Left(x).written(dst)->Some_0;
    let out = Either::<L, R>::Right(y).written(mid)->Some_0;
    let tail = appended(mid, out).concat(rest);
    lemma_either_round_trip::<L, R>(Either::Left(x), dst, tail, first, between);
    lemma_either_round_trip::<L, R>(Either::Right(y), mid, rest, second, left);
    let probe: L = match first {
        Either::Left(a) => a,
        Either::Right(_) => x,
    };
    assert(round_trip(x, dst.push_bit(false), tail, probe, between));
    assert(round_trip(y, mid.push_bit(true), rest, arbitrary::<R>(), left));
    lemma_view_equal(appended(dst, out), appended(dst, mid).concat(appended(mid, out)));
    lemma_view_equal(appended(dst, out).concat(rest), appended(dst, mid).concat(tail));
    assert(appended(dst, mid).bits[0] == dst.push_bit(false).bits[dst.bits.len() as int]);
    assert(appended(mid, out).bits[0] == mid.push_bit(true).bits[mid.bits.len() as int]);
    lemma_view_equal(appended(dst, mid).skip(1, 0), appended(dst.push_bit(false), mid));
    lemma_view_equal(appended(mid, out).skip(1, 0), appended(mid.push_bit(true), out));
}

} // verus!
