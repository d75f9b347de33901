//! The bag of cells: a graph of cells with its roots, as it travels in bytes.
use crate::cell::bits::pack_bits;
use crate::cell::error::{describe, described, TonCellError};
use crate::cell::model::{graph_size, CellView, MAX_CELL_BITS, MAX_CELL_REFERENCES};
use crate::cell::flatten::list_graph;
use crate::cell::raw::{decoded, encoding, writable, RawBagOfCells, RawBagView, RawCellView};
use crate::cell::round_trip::lemma_decoded_encoding;
use crate::cell::{ArcCell, Cell};
use vstd::prelude::*;
use vstd::slice::slice_to_vec;

verus! {

/// A graph of cells, given by its roots.
pub struct BagOfCells {
    pub roots: Vec<ArcCell>,
}

impl View for BagOfCells {
    type V = Seq<CellView>;

    open spec fn view(&self) -> Seq<CellView> {
        Cell::contents_of(self.roots@)
    }
}

/// Whether the cells of a bag can be made into a graph: every cell respects
/// the capacity of a cell, every child index points at a cell behind the
/// cell that holds it, and every root is the index of a cell.
pub open spec fn linkable(bag: RawBagView) -> bool {
    &&& forall|i: int|
        0 <= i < bag.cells.len() ==> (#[trigger] bag.cells[i]).bits.len() <= MAX_CELL_BITS
            && bag.cells[i].references.len() <= MAX_CELL_REFERENCES
    &&& forall|i: int, k: int|
        0 <= i < bag.cells.len() && 0 <= k < bag.cells[i].references.len() ==> i
            < #[trigger] bag.cells[i].references[k] < bag.cells.len()
    &&& forall|k: int| 0 <= k < bag.roots.len() ==> #[trigger] bag.roots[k] < bag.cells.len()
}

/// The content of the `i`-th cell of a bag: its bits, and the content of
/// the cells that its child indices point at.
pub open spec fn content_at(cells: Seq<RawCellView>, i: int) -> CellView
    decreases cells.len() - i,
{
    if 0 <= i < cells.len() {
        CellView {
            bits: cells[i].bits,
            refs: Seq::new(
                cells[i].references.len(),
                |k: int|
                    {
                        let j = cells[i].references[k] as int;
                        if i < j < cells.len() {
                            content_at(cells, j)
                        } else {
                            CellView::empty()
                        }
                    },
            ),
        }
    } else {
        CellView::empty()
    }
}

/// The content of each root of a bag, in order.
pub open spec fn contents_of_roots(bag: RawBagView) -> Seq<CellView> {
    Seq::new(bag.roots.len(), |k: int| content_at(bag.cells, bag.roots[k] as int))
}

/// Whether the `i`-th cell of `bag` is a root or a child of a cell before it.
pub open spec fn reachable(bag: RawBagView, i: int) -> bool {
    ||| exists|k: int| 0 <= k < bag.roots.len() && #[trigger] bag.roots[k] == i
    ||| exists|j: int, k: int|
        0 <= j < i && 0 <= k < bag.cells[j].references.len() && #[trigger] bag.cells[j].references[k]
            == i
}

/// Whether `bag` lists the graph below `roots`, each cell once: it can be
/// made into a graph, its roots have, one by one, the content hash and the
/// depth of `roots`, no two of its cells have the same content, every cell
/// is a root or a child of a cell before it, and there are no more cells
/// than there are ways from `roots` to a cell.
pub open spec fn lists(bag: RawBagView, roots: Seq<CellView>) -> bool {
    &&& forall|i: int| 0 <= i < bag.cells.len() ==> #[trigger] reachable(bag, i)
    &&& bag.cells.len() <= graph_size(roots)
    &&& linkable(bag)
    &&& bag.roots.len() == roots.len()
    &&& forall|k: int|
        0 <= k < roots.len() ==> content_at(bag.cells, #[trigger] bag.roots[k] as int).hash()
            == roots[k].hash() && content_at(bag.cells, bag.roots[k] as int).depth()
            == roots[k].depth()
    &&& forall|i: int, j: int|
        0 <= i < j < bag.cells.len() ==> content_at(bag.cells, i) != content_at(bag.cells, j)
}

/// A graph that is written and read back has, root for root, the content
/// hash and the depth that it had.
///
/// Let `bag` list the graph below `roots`. Its bytes, with or without a
/// checksum, are read as `bag` again, and the roots of the graph that `bag`
/// is made into have the content hashes and depths of `roots`.
pub proof fn lemma_bag_round_trip(roots: Seq<CellView>, bag: RawBagView, has_crc32c: bool)
    requires
        lists(bag, roots),
        writable(bag),
    ensures
        decoded(encoding(bag, has_crc32c)) == Some(bag),
        linkable(bag),
        contents_of_roots(bag).len() == roots.len(),
        forall|k: int|
            0 <= k < roots.len() ==> (#[trigger] contents_of_roots(bag)[k]).hash() == roots[k].hash()
                && contents_of_roots(bag)[k].depth() == roots[k].depth(),
{
    lemma_decoded_encoding(bag, has_crc32c);
    assert forall|k: int| 0 <= k < roots.len() implies (#[trigger] contents_of_roots(bag)[k]).hash()
        == roots[k].hash() && contents_of_roots(bag)[k].depth() == roots[k].depth() by {
        assert(content_at(bag.cells, bag.roots[k] as int).hash() == roots[k].hash());
    }
}

/// The error of a bag whose cells cannot be made into a graph.
fn not_linkable(what: &str, index: usize, found: usize, count: usize) -> (e: TonCellError)
    ensures
        e matches TonCellError::BagOfCellsDeserializationError(text) && text@
            == crate::cell::error::described(
            what@,
            index as nat,
            ", found: "@,
            found as nat,
            ", cells: "@,
            count as nat,
        ),
{
    TonCellError::BagOfCellsDeserializationError(
        describe(what, index, ", found: ", found, ", cells: ", count),
    )
}

impl BagOfCells {
    /// The bag with the given roots.
    pub fn new(roots: Vec<ArcCell>) -> (bag: BagOfCells)
        ensures
            bag.roots == roots,
    {
        BagOfCells { roots }
    }

    /// The bag with the single root `root`.
    pub fn from_root(root: Cell) -> (bag: BagOfCells)
        ensures
            bag@ == seq![root@],
    {
        let mut roots: Vec<ArcCell> = Vec::new();
        roots.push(root.to_arc());
        let bag = BagOfCells { roots };
        assert(bag@ =~= seq![root@]);
        bag
    }

    /// The number of roots.
    pub fn num_roots(&self) -> (n: usize)
        ensures
            n == self@.len(),
    {
        self.roots.len()
    }

    /// The only root of the bag. Fails unless the bag has exactly one root.
    pub fn single_root(self) -> (r: Result<ArcCell, TonCellError>)
        ensures
            r is Ok <==> self@.len() == 1,
            r matches Ok(root) ==> root@ == self@[0],
            r matches Err(e) ==> e matches TonCellError::CellParserError(text) && text@ == described(
                "Single root expected, got: "@,
                self@.len(),
                ", expected: "@,
                1,
                ", extra: "@,
                0,
            ),
    {
        let root_count: usize = self.roots.len();
        if root_count == 1 {
            Ok(self.roots[0].clone())
        } else {
            Err(
                TonCellError::CellParserError(
                    describe("Single root expected, got: ", root_count, ", expected: ", 1, ", extra: ", 0),
                ),
            )
        }
    }

    /// Makes the cells of `bag` into a graph, from the last cell to the first.
    #[verifier::rlimit(50)]
    pub fn from_raw(bag: &RawBagOfCells) -> (r: Result<BagOfCells, TonCellError>)
        ensures
            r is Ok <==> linkable(bag@),
            r matches Ok(linked) ==> linked@ == contents_of_roots(bag@),
            r matches Err(e) ==> e is BagOfCellsDeserializationError,
    {
        let count: usize = bag.cells.len();
        let ghost cells = bag@.cells;
        // The cells behind `at`, last cell first.
        let mut built: Vec<ArcCell> = Vec::new();
        let mut at: usize = count;
        while at > 0
            invariant
                at <= count == bag.cells@.len(),
                cells == bag@.cells,
                built@.len() == count - at,
                forall|p: int| 0 <= p < built@.len() ==> (#[trigger] built@[p])@ == content_at(cells, count - 1 - p),
                forall|i: int|
                    at <= i < count ==> (#[trigger] cells[i]).bits.len() <= MAX_CELL_BITS
                        && cells[i].references.len() <= MAX_CELL_REFERENCES,
                forall|i: int, k: int|
                    at <= i < count && 0 <= k < cells[i].references.len() ==> i
                        < #[trigger] cells[i].references[k] < count,
            decreases at,
        {
            let index: usize = at - 1;
            let raw = &bag.cells[index];
            assert(raw@ == cells[index as int]);
            if raw.bits.len() > MAX_CELL_BITS || raw.references.len() > MAX_CELL_REFERENCES {
                return Err(not_linkable("Invalid cell: index: ", index, raw.bits.len(), count));
            }
            let mut references: Vec<ArcCell> = Vec::new();
            let mut k: usize = 0;
            while k < raw.references.len()
                invariant
                    k <= raw.references@.len(),
                    index < count == bag.cells@.len(),
                    at == index + 1,
                    cells == bag@.cells,
                    raw@ == cells[index as int],
                    built@.len() == count - at,
                    forall|p: int| 0 <= p < built@.len() ==> (#[trigger] built@[p])@ == content_at(cells, count - 1 - p),
                    references@.len() == k,
                    forall|n: int| 0 <= n < k ==> index < #[trigger] raw.references@[n] < count,
                    forall|n: int|
                        0 <= n < k ==> (#[trigger] references@[n])@ == content_at(
                            cells,
                            raw.references@[n] as int,
                        ),
                decreases raw.references@.len() - k,
            {
                let child: usize = raw.references[k];
                assert(cells[index as int].references[k as int] == child);
                if child <= index || child >= count {
                    return Err(not_linkable("Invalid reference: cell: ", index, child, count));
                }
                let ghost listed = references@;
                references.push(built[count - 1 - child].clone());
                assert forall|n: int| 0 <= n < k + 1 implies (#[trigger] references@[n])@
                    == content_at(cells, raw.references@[n] as int) by {
                    if n < k {
                        assert(references@[n] == listed[n]);
                    }
                }
                k = k + 1;
            }
            let data = pack_bits(&raw.bits);
            let cell = match Cell::new(data, raw.bits.len(), references) {
                Ok(cell) => cell,
                Err(_) => {
                    return Err(not_linkable("Invalid cell: index: ", index, raw.bits.len(), count));
                },
            };
            proof {
                assert(cell@.bits =~= cells[index as int].bits);
                assert(cell@.refs =~= content_at(cells, index as int).refs);
            }
            let ghost before = built@;
            built.push(cell.to_arc());
            assert forall|p: int| 0 <= p < built@.len() implies (#[trigger] built@[p])@
                == content_at(cells, count - 1 - p) by {
                if p < before.len() {
                    assert(built@[p] == before[p]);
                }
            }
            assert forall|i: int, k: int|
                index <= i < count && 0 <= k < cells[i].references.len() implies i
                < #[trigger] cells[i].references[k] < count by {
                if i == index {
                    assert(cells[i].references[k] == raw.references@[k]);
                }
            }
            at = index;
        }
        let mut roots: Vec<ArcCell> = Vec::new();
        let mut k: usize = 0;
        while k < bag.roots.len()
            invariant
                k <= bag.roots@.len(),
                count == bag.cells@.len(),
                cells == bag@.cells,
                built@.len() == count,
                forall|p: int| 0 <= p < built@.len() ==> (#[trigger] built@[p])@ == content_at(cells, count - 1 - p),
                roots@.len() == k,
                forall|n: int| 0 <= n < k ==> #[trigger] bag.roots@[n] < count,
                forall|n: int|
                    0 <= n < k ==> (#[trigger] roots@[n])@ == content_at(
                        cells,
                        bag.roots@[n] as int,
                    ),
            decreases bag.roots@.len() - k,
        {
            let root: usize = bag.roots[k];
            assert(bag@.roots[k as int] == root);
            if root >= count {
                return Err(not_linkable("Invalid root: position: ", k, root, count));
            }
            let ghost listed = roots@;
            roots.push(built[count - 1 - root].clone());
            assert forall|n: int| 0 <= n < k + 1 implies (#[trigger] roots@[n])@ == content_at(
                cells,
                bag.roots@[n] as int,
            ) by {
                if n < k {
                    assert(roots@[n] == listed[n]);
                }
            }
            k = k + 1;
        }
        let linked = BagOfCells { roots };
        assert(linked@ =~= contents_of_roots(bag@));
        Ok(linked)
    }

    /// Lists the cells of the graph, each once, parents before their children.
    ///
    /// Cells are told apart by their content hash and depth: where two cells
    /// below the roots have the same content, the list holds one cell for
    /// both.
    pub fn to_raw(&self) -> (bag: RawBagOfCells)
        ensures
            lists(bag@, self@),
    {
        let bag = list_graph(&self.roots);
        proof {
            assert forall|k: int| 0 <= k < self@.len() implies content_at(
                bag@.cells,
                #[trigger] bag@.roots[k] as int,
            ).hash() == self@[k].hash() && content_at(bag@.cells, bag@.roots[k] as int).depth()
                == self@[k].depth() by {
                assert(self@[k] == self.roots@[k]@);
            }
        }
        bag
    }

    /// Writes the graph to bytes, each cell once, with a closing checksum
    /// where `has_crc32c` is set.
    ///
    /// What is written is the encoding of a list of the graph, which is read
    /// back as that list. The write fails only where the list has more cells
    /// than four bytes can count, or more roots than cells. So a graph with
    /// at most one root, in which there are no more ways from the root to a
    /// cell than four bytes can count, is always written.
    pub fn serialize(&self, has_crc32c: bool) -> (r: Result<Vec<u8>, TonCellError>)
        ensures
            exists|bag: RawBagView|
                {
                    &&& #[trigger] lists(bag, self@)
                    &&& r is Ok <==> writable(bag)
                    &&& r matches Ok(bytes) ==> bytes@ == encoding(bag, has_crc32c) && decoded(
                        bytes@,
                    ) == Some(bag)
                },
            r matches Err(e) ==> e is BagOfCellsSerializationError,
            self@.len() <= 1 && graph_size(self@) <= 0xffff_ffff ==> r is Ok,
    {
        let bag = self.to_raw();
        let r = bag.serialize(has_crc32c);
        proof {
            assert(lists(bag@, self@));
            if self@.len() == 1 {
                assert(bag@.roots[0] < bag@.cells.len());
            }
        }
        r
    }

    /// Reads a bag of cells from `serial` and makes its cells into a graph.
    ///
    /// Fails where `serial` is not a bag of cells, and where a cell of the
    /// bag has a child that does not come behind it.
    pub fn parse(serial: &[u8]) -> (r: Result<BagOfCells, TonCellError>)
        ensures
            r is Ok <==> (decoded(serial@) matches Some(bag) && linkable(bag)),
            r matches Ok(linked) ==> linked@ == contents_of_roots(decoded(serial@)->Some_0),
            r matches Err(e) ==> e is BagOfCellsDeserializationError,
    {
        let bytes = slice_to_vec(serial);
        match RawBagOfCells::parse(&bytes) {
            Ok(bag) => Self::from_raw(&bag),
            Err(e) => Err(e),
        }
    }
}

} // verus!
