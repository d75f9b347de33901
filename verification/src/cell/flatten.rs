//! From a graph of cells to the list of its cells, each listed once.
use crate::cell::bag_of_cells::{content_at, linkable};
use crate::cell::hash::{same_hash, TonHash};
use crate::cell::bag_of_cells::reachable;
use crate::cell::model::{
    graph_size, lemma_child_height, sizes_of, sum, CellView, MAX_CELL_BITS, MAX_CELL_REFERENCES,
};
use crate::cell::raw::{RawBagOfCells, RawCell, RawCellView};
use crate::cell::{ArcCell, Cell};
use vstd::prelude::*;

verus! {

/// A cell on the list: its bits, the places of its children on the list,
/// and its content hash and depth, by which it is found again.
struct Listed {
    bits: Vec<bool>,
    references: Vec<usize>,
    hash: TonHash,
    depth: u16,
}

/// The content of the `i`-th cell of a list on which children come before
/// their parents.
spec fn content_back(list: Seq<Listed>, i: int) -> CellView
    decreases i,
{
    if 0 <= i < list.len() {
        CellView {
            bits: list[i].bits@,
            refs: Seq::new(
                list[i].references@.len(),
                |k: int|
                    {
                        let j = list[i].references@[k] as int;
                        if 0 <= j < i {
                            content_back(list, j)
                        } else {
                            CellView::empty()
                        }
                    },
            ),
        }
    } else {
        CellView::empty()
    }
}

/// Whether `list` is a list of cells, each listed once: every cell respects
/// the capacity of a cell, its children come before it, its hash and depth
/// are those of its content, and no two cells have the same content.
spec fn well_listed(list: Seq<Listed>) -> bool {
    &&& forall|i: int|
        0 <= i < list.len() ==> (#[trigger] list[i]).bits@.len() <= MAX_CELL_BITS
            && list[i].references@.len() <= MAX_CELL_REFERENCES
    &&& forall|i: int, k: int|
        0 <= i < list.len() && 0 <= k < list[i].references@.len() ==> #[trigger] list[i].references@[k]
            < i
    &&& forall|i: int|
        0 <= i < list.len() ==> (#[trigger] list[i]).hash@ == content_back(list, i).hash()
            && list[i].depth == content_back(list, i).depth()
    &&& forall|i: int, j: int|
        0 <= i < j < list.len() ==> #[trigger] content_back(list, i) != #[trigger] content_back(
            list,
            j,
        )
}

/// Whether the cell at `j` has the cell at `i`, which comes before it, as its `k`-th child.
spec fn refers(list: Seq<Listed>, j: int, k: int, i: int) -> bool {
    i < j < list.len() && 0 <= k < list[j].references@.len() && list[j].references@[k] == i
}

/// Whether the cell at `i` is a child of a cell that comes behind it.
spec fn referenced(list: Seq<Listed>, i: int) -> bool {
    exists|j: int, k: int| #[trigger] refers(list, j, k, i)
}

/// Whether `i` is one of `places`.
spec fn placed(places: Seq<usize>, i: int) -> bool {
    exists|n: int| 0 <= n < places.len() && #[trigger] places[n] == i
}

/// Whether the content of the cell at `i` is no higher than that of the cell at `c`.
spec fn no_higher(list: Seq<Listed>, i: int, c: int) -> bool {
    content_back(list, i).height() <= content_back(list, c).height()
}

/// Whether the cell at `i` is the one at `top` or a child of a later cell,
/// and no higher than the one at `top`.
spec fn hangs(list: Seq<Listed>, i: int, top: int) -> bool {
    (i == top || referenced(list, i)) && no_higher(list, i, top)
}

/// Whether the cell at `i` is one of `places` or a child of a later cell.
spec fn reached(list: Seq<Listed>, places: Seq<usize>, i: int) -> bool {
    referenced(list, i) || placed(places, i)
}

/// Whether the cell at `i` is reached and no higher than one of `places`.
spec fn hangs_on(list: Seq<Listed>, places: Seq<usize>, i: int) -> bool {
    reached(list, places, i) && exists|n: int|
        0 <= n < places.len() && #[trigger] no_higher(list, i, places[n] as int)
}

/// A cell that is reached stays so when more cells and one more place are added.
proof fn lemma_reached_kept(
    before: Seq<Listed>,
    after: Seq<Listed>,
    places: Seq<usize>,
    place: usize,
    i: int,
)
    requires
        before.len() <= after.len(),
        forall|n: int| 0 <= n < before.len() ==> before[n] == after[n],
        0 <= i < before.len(),
        reached(before, places, i),
    ensures
        reached(after, places.push(place), i),
{
    if referenced(before, i) {
        let (j, k) = choose|j: int, k: int| #[trigger] refers(before, j, k, i);
        assert(before[j] == after[j]);
        assert(refers(after, j, k, i));
    } else {
        let n = choose|n: int| 0 <= n < places.len() && #[trigger] places[n] == i;
        assert(places.push(place)[n] == i);
    }
}

/// What was listed for the children so far hangs on them once one more
/// child is listed.
proof fn lemma_child_listed(
    start: int,
    before: Seq<Listed>,
    after: Seq<Listed>,
    places: Seq<usize>,
    child: usize,
)
    requires
        0 <= start <= before.len() <= after.len(),
        forall|n: int| 0 <= n < before.len() ==> before[n] == after[n],
        child < after.len(),
        forall|n: int| 0 <= n < places.len() ==> #[trigger] places[n] < before.len(),
        forall|i: int| start <= i < before.len() ==> #[trigger] hangs_on(before, places, i),
        forall|i: int| before.len() <= i < after.len() ==> #[trigger] hangs(after, i, child as int),
    ensures
        forall|i: int| start <= i < after.len() ==> #[trigger] hangs_on(after, places.push(child), i),
{
    let more = places.push(child);
    assert forall|i: int| start <= i < after.len() implies #[trigger] hangs_on(after, more, i) by {
        if i < before.len() {
            assert(hangs_on(before, places, i));
            lemma_reached_kept(before, after, places, child, i);
            let n = choose|n: int|
                0 <= n < places.len() && #[trigger] no_higher(before, i, places[n] as int);
            lemma_content_back_kept(before, after, i);
            lemma_content_back_kept(before, after, places[n] as int);
            assert(more[n] == places[n]);
            assert(no_higher(after, i, more[n] as int));
        } else {
            assert(hangs(after, i, child as int));
            let last = places.len() as int;
            assert(more[last] == child);
            assert(no_higher(after, i, more[last] as int));
        }
    }
}

/// Whether the content of the cell at `i` is less high than that of the cell at `top`.
spec fn lower(list: Seq<Listed>, i: int, top: int) -> bool {
    content_back(list, i).height() < content_back(list, top).height()
}

/// One cell that was listed for the children of a cell hangs on the cell
/// once it is listed behind them, and is less high than it.
proof fn lemma_parent_listed_at(
    start: int,
    before: Seq<Listed>,
    after: Seq<Listed>,
    places: Seq<usize>,
    i: int,
)
    requires
        0 <= start <= i < before.len(),
        after.len() == before.len() + 1,
        forall|n: int| 0 <= n < before.len() ==> before[n] == after[n],
        after[before.len() as int].references@ == places,
        forall|n: int| 0 <= n < places.len() ==> #[trigger] places[n] < before.len(),
        hangs_on(before, places, i),
    ensures
        hangs(after, i, before.len() as int),
        lower(after, i, before.len() as int),
{
    let top = before.len() as int;
    let made = content_back(after, top);
    if referenced(before, i) {
        let (j, k) = choose|j: int, k: int| #[trigger] refers(before, j, k, i);
        assert(before[j] == after[j]);
        assert(refers(after, j, k, i));
    } else {
        let n = choose|n: int| 0 <= n < places.len() && #[trigger] places[n] == i;
        assert(refers(after, top, n, i));
    }
    let n = choose|n: int| 0 <= n < places.len() && #[trigger] no_higher(before, i, places[n] as int);
    lemma_content_back_kept(before, after, i);
    lemma_content_back_kept(before, after, places[n] as int);
    assert(made.refs[n] == content_back(after, places[n] as int));
    lemma_child_height(made, n);
}

/// What was listed for the children of a cell hangs on the cell once it is
/// listed behind them, and is less high than it.
proof fn lemma_parent_listed(start: int, before: Seq<Listed>, after: Seq<Listed>, places: Seq<usize>)
    requires
        0 <= start <= before.len(),
        after.len() == before.len() + 1,
        forall|n: int| 0 <= n < before.len() ==> before[n] == after[n],
        after[before.len() as int].references@ == places,
        forall|n: int| 0 <= n < places.len() ==> #[trigger] places[n] < before.len(),
        forall|i: int| start <= i < before.len() ==> #[trigger] hangs_on(before, places, i),
    ensures
        forall|i: int| start <= i < after.len() ==> #[trigger] hangs(after, i, before.len() as int),
        forall|i: int| start <= i < before.len() ==> #[trigger] lower(after, i, before.len() as int),
{
    let top = before.len() as int;
    assert forall|i: int| start <= i < after.len() implies #[trigger] hangs(after, i, top) by {
        if i < before.len() {
            assert(hangs_on(before, places, i));
            lemma_parent_listed_at(start, before, after, places, i);
        }
    }
    assert forall|i: int| start <= i < before.len() implies #[trigger] lower(after, i, top) by {
        assert(hangs_on(before, places, i));
        lemma_parent_listed_at(start, before, after, places, i);
    }
}

/// A list keeps the content of its cells when more cells are added to it.
proof fn lemma_content_back_kept(before: Seq<Listed>, after: Seq<Listed>, i: int)
    requires
        before.len() <= after.len(),
        forall|n: int| 0 <= n < before.len() ==> before[n] == after[n],
        0 <= i < before.len(),
    ensures
        content_back(after, i) == content_back(before, i),
    decreases i,
{
    assert forall|k: int| 0 <= k < before[i].references@.len() implies content_back(after, i).refs[k]
        == content_back(before, i).refs[k] by {
        let j = before[i].references@[k] as int;
        if 0 <= j < i {
            lemma_content_back_kept(before, after, j);
        }
    }
    assert(content_back(after, i).refs =~= content_back(before, i).refs);
}

/// The place on the list of the cell with the given hash and depth, if it is listed.
fn find(list: &Vec<Listed>, hash: &TonHash, depth: u16) -> (r: Option<usize>)
    ensures
        r matches Some(index) ==> index < list@.len() && list@[index as int].hash@ == hash@
            && list@[index as int].depth == depth,
        r is None ==> forall|i: int|
            0 <= i < list@.len() ==> !((#[trigger] list@[i]).hash@ == hash@ && list@[i].depth
                == depth),
{
    let mut i: usize = 0;
    while i < list.len()
        invariant
            i <= list@.len(),
            forall|n: int|
                0 <= n < i ==> !((#[trigger] list@[n]).hash@ == hash@ && list@[n].depth == depth),
        decreases list@.len() - i,
    {
        if list[i].depth == depth && same_hash(&list[i].hash, hash) {
            return Some(i);
        }
        i = i + 1;
    }
    None
}

/// Puts `cell` and all cells below it on the list, unless they are listed
/// already, and gives the place of `cell` on the list.
#[verifier::rlimit(50)]
fn list_cell(cell: &Cell, list: &mut Vec<Listed>) -> (index: usize)
    requires
        well_listed(old(list)@),
    ensures
        well_listed(final(list)@),
        old(list)@.len() <= final(list)@.len(),
        forall|n: int| 0 <= n < old(list)@.len() ==> old(list)@[n] == final(list)@[n],
        index < final(list)@.len(),
        final(list)@[index as int].hash@ == cell@.hash(),
        final(list)@[index as int].depth == cell@.depth(),
        final(list)@.len() - old(list)@.len() <= cell@.size(),
        forall|i: int|
            old(list)@.len() <= i < final(list)@.len() ==> #[trigger] hangs(
                final(list)@,
                i,
                index as int,
            ),
    decreases cell@.height(),
{
    let hash = cell.cell_hash();
    let depth: u16 = cell.depth();
    if let Some(index) = find(list, &hash, depth) {
        return index;
    }
    let children = cell.references();
    let ghost sizes = cell@.child_sizes();
    assert(sizes.subrange(0, 0) =~= Seq::empty());
    let mut references: Vec<usize> = Vec::new();
    let mut k: usize = 0;
    while k < children.len()
        invariant
            k <= children@.len() <= MAX_CELL_REFERENCES,
            cell@.refs == Cell::contents_of(children@),
            well_listed(list@),
            old(list)@.len() <= list@.len(),
            forall|n: int| 0 <= n < old(list)@.len() ==> old(list)@[n] == list@[n],
            references@.len() == k,
            forall|n: int| 0 <= n < k ==> #[trigger] references@[n] < list@.len(),
            forall|n: int|
                0 <= n < k ==> list@[(#[trigger] references@[n]) as int].hash@ == cell@.refs[n].hash()
                    && list@[references@[n] as int].depth == cell@.refs[n].depth(),
            forall|i: int|
                0 <= i < old(list)@.len() ==> !((#[trigger] old(list)@[i]).hash@ == hash@ && old(
                    list,
                )@[i].depth == depth),
            sizes == cell@.child_sizes(),
            list@.len() - old(list)@.len() <= sum(sizes.subrange(0, k as int)),
            forall|i: int|
                old(list)@.len() <= i < list@.len() ==> #[trigger] hangs_on(list@, references@, i),
        decreases children@.len() - k,
    {
        let ghost before = list@;
        let ghost listed = references@;
        proof {
            lemma_child_height(cell@, k as int);
        }
        let child = list_cell(&children[k], list);
        proof {
            lemma_child_listed(old(list)@.len() as int, before, list@, listed, child);
            assert(sizes.subrange(0, k + 1).drop_last() =~= sizes.subrange(0, k as int));
            assert(children@[k as int]@ == cell@.refs[k as int]);
        }
        references.push(child);
        assert forall|n: int| 0 <= n < k + 1 implies list@[(#[trigger] references@[n]) as int].hash@
            == cell@.refs[n].hash() && list@[references@[n] as int].depth == cell@.refs[n].depth() by {
            if n < k {
                assert(references@[n] == listed[n]);
                assert(list@[listed[n] as int] == before[listed[n] as int]);
            }
        }
        k = k + 1;
    }
    assert(sizes.subrange(0, k as int) =~= sizes);
    let ghost before = list@;
    let ghost children_at = references@;
    let bit_len: usize = cell.bit_len();
    let entry = Listed { bits: cell.bits(), references, hash, depth };
    list.push(entry);
    let index: usize = list.len() - 1;
    proof {
        let after = list@;
        let made = content_back(after, index as int);
        assert forall|i: int| 0 <= i < before.len() implies content_back(after, i) == content_back(
            before,
            i,
        ) by {
            lemma_content_back_kept(before, after, i);
        }
        assert forall|n: int| 0 <= n < made.refs.len() implies made.refs[n].hash()
            == cell@.refs[n].hash() && made.refs[n].depth() == cell@.refs[n].depth() by {
            let j = children_at[n] as int;
            assert(after[index as int].references@[n] == children_at[n]);
            assert(made.refs[n] == content_back(after, j));
            assert(after[j] == before[j]);
        }
        assert(made.child_hashes() =~= cell@.child_hashes());
        assert(made.child_depths() =~= cell@.child_depths());
        assert(made.bits == cell@.bits);
        assert(made.hash() == cell@.hash());
        assert(made.depth() == cell@.depth());
        assert forall|i: int| 0 <= i < after.len() implies (#[trigger] after[i]).hash@
            == content_back(after, i).hash() && after[i].depth == content_back(after, i).depth() by {
            if i < before.len() {
                assert(after[i] == before[i]);
            }
        }
        assert forall|i: int, k: int|
            0 <= i < after.len() && 0 <= k < after[i].references@.len() implies #[trigger] after[i].references@[k]
            < i by {
            if i < before.len() {
                assert(after[i] == before[i]);
            } else {
                assert(after[i].references@[k] == children_at[k]);
            }
        }
        lemma_parent_listed(old(list)@.len() as int, before, after, children_at);
        assert forall|i: int, j: int| 0 <= i < j < after.len() implies #[trigger] content_back(
            after,
            i,
        ) != #[trigger] content_back(after, j) by {
            if j < before.len() {
                assert(content_back(before, i) != content_back(before, j));
            } else if i < old(list)@.len() {
                assert(after[i] == old(list)@[i]);
                assert(after[i].hash@ == content_back(after, i).hash());
            } else {
                assert(lower(after, i, index as int));
            }
        }
        assert forall|i: int| 0 <= i < after.len() implies (#[trigger] after[i]).bits@.len()
            <= MAX_CELL_BITS && after[i].references@.len() <= MAX_CELL_REFERENCES by {
            if i < before.len() {
                assert(after[i] == before[i]);
            }
        }
    }
    index
}

/// The cells of `list` in the opposite order, so that children come behind
/// their parents, with every place counted from the other end.
spec fn mirrored(list: Seq<Listed>) -> Seq<RawCellView> {
    Seq::new(
        list.len(),
        |p: int|
            RawCellView {
                bits: list[list.len() - 1 - p].bits@,
                references: Seq::new(
                    list[list.len() - 1 - p].references@.len(),
                    |k: int| (list.len() - 1 - list[list.len() - 1 - p].references@[k]) as nat,
                ),
            },
    )
}

/// A cell has the same content on a list and on the mirrored list.
proof fn lemma_mirrored_content(list: Seq<Listed>, i: int)
    requires
        well_listed(list),
        0 <= i < list.len(),
    ensures
        content_at(mirrored(list), list.len() - 1 - i) == content_back(list, i),
    decreases i,
{
    let cells = mirrored(list);
    let p = list.len() - 1 - i;
    assert forall|k: int| 0 <= k < list[i].references@.len() implies content_at(cells, p).refs[k]
        == content_back(list, i).refs[k] by {
        let j = list[i].references@[k] as int;
        assert(cells[p].references[k] == list.len() - 1 - j);
        lemma_mirrored_content(list, j);
    }
    assert(content_at(cells, p).refs =~= content_back(list, i).refs);
}

/// Lists every cell of the graph below `roots` once and gives the list with
/// parents before their children, together with the places of the roots.
///
/// The list can be made into a graph again. Each root is then a cell with
/// the content hash and the depth of the root that was given, no two cells
/// of the list have the same content, every cell of the list is a root or a
/// child of a cell before it, and the list has no more cells than there
/// are ways from the roots to a cell.
#[verifier::rlimit(50)]
pub(crate) fn list_graph(roots: &Vec<ArcCell>) -> (bag: RawBagOfCells)
    ensures
        linkable(bag@),
        bag@.roots.len() == roots@.len(),
        forall|k: int|
            0 <= k < roots@.len() ==> content_at(bag@.cells, #[trigger] bag@.roots[k] as int).hash()
                == roots@[k]@.hash() && content_at(bag@.cells, bag@.roots[k] as int).depth()
                == roots@[k]@.depth(),
        forall|i: int, j: int|
            0 <= i < j < bag@.cells.len() ==> content_at(bag@.cells, i) != content_at(
                bag@.cells,
                j,
            ),
        forall|i: int| 0 <= i < bag@.cells.len() ==> #[trigger] reachable(bag@, i),
        bag@.cells.len() <= graph_size(Cell::contents_of(roots@)),
{
    let ghost sizes = sizes_of(Cell::contents_of(roots@));
    assert(sizes.subrange(0, 0) =~= Seq::empty());
    let mut list: Vec<Listed> = Vec::new();
    let mut places: Vec<usize> = Vec::new();
    let mut k: usize = 0;
    while k < roots.len()
        invariant
            k <= roots@.len(),
            well_listed(list@),
            places@.len() == k,
            forall|n: int| 0 <= n < k ==> #[trigger] places@[n] < list@.len(),
            forall|n: int|
                0 <= n < k ==> list@[(#[trigger] places@[n]) as int].hash@ == roots@[n]@.hash()
                    && list@[places@[n] as int].depth == roots@[n]@.depth(),
            sizes == sizes_of(Cell::contents_of(roots@)),
            list@.len() <= sum(sizes.subrange(0, k as int)),
            forall|i: int| 0 <= i < list@.len() ==> #[trigger] reached(list@, places@, i),
        decreases roots@.len() - k,
    {
        let ghost before = list@;
        let ghost placed = places@;
        let place = list_cell(&roots[k], &mut list);
        proof {
            assert(sizes.subrange(0, k + 1).drop_last() =~= sizes.subrange(0, k as int));
            assert forall|i: int| 0 <= i < list@.len() implies #[trigger] reached(
                list@,
                placed.push(place),
                i,
            ) by {
                if i < before.len() {
                    assert(reached(before, placed, i));
                    lemma_reached_kept(before, list@, placed, place, i);
                } else {
                    assert(hangs(list@, i, place as int));
                    assert(placed.push(place)[placed.len() as int] == place);
                }
            }
        }
        places.push(place);
        assert forall|n: int| 0 <= n < k + 1 implies list@[(#[trigger] places@[n]) as int].hash@
            == roots@[n]@.hash() && list@[places@[n] as int].depth == roots@[n]@.depth() by {
            if n < k {
                assert(places@[n] == placed[n]);
                assert(list@[placed[n] as int] == before[placed[n] as int]);
            }
        }
        k = k + 1;
    }
    assert(sizes.subrange(0, k as int) =~= sizes);
    let ghost listed = list@;
    let count: usize = list.len();
    let mut root_list: Vec<usize> = Vec::new();
    let mut k: usize = 0;
    while k < places.len()
        invariant
            k <= places@.len(),
            count == listed.len(),
            forall|n: int| 0 <= n < places@.len() ==> #[trigger] places@[n] < count,
            root_list@.len() == k,
            forall|n: int| 0 <= n < k ==> #[trigger] root_list@[n] == count - 1 - places@[n],
        decreases places@.len() - k,
    {
        assert(places@[k as int] < count);
        root_list.push(count - 1 - places[k]);
        k = k + 1;
    }
    let mut cells: Vec<RawCell> = Vec::new();
    while list.len() > 0
        invariant
            count == listed.len(),
            well_listed(listed),
            list@.len() + cells@.len() == count,
            forall|n: int| 0 <= n < list@.len() ==> list@[n] == listed[n],
            forall|p: int| 0 <= p < cells@.len() ==> (#[trigger] cells@[p])@ == mirrored(listed)[p],
        decreases list@.len(),
    {
        let ghost at = list@.len() - 1;
        let entry = list.pop().unwrap();
        assert(entry == listed[at]);
        let mut references: Vec<usize> = Vec::new();
        let mut k: usize = 0;
        while k < entry.references.len()
            invariant
                k <= entry.references@.len(),
                count == listed.len(),
                0 <= at < count,
                entry == listed[at],
                well_listed(listed),
                references@.len() == k,
                forall|n: int|
                    0 <= n < k ==> #[trigger] references@[n] == count - 1 - entry.references@[n],
            decreases entry.references@.len() - k,
        {
            assert(listed[at].references@[k as int] < at);
            references.push(count - 1 - entry.references[k]);
            k = k + 1;
        }
        let ghost before = cells@;
        let raw = RawCell { bits: entry.bits, references };
        assert(raw@.references =~= mirrored(listed)[count - 1 - at].references);
        cells.push(raw);
        assert forall|p: int| 0 <= p < cells@.len() implies (#[trigger] cells@[p])@ == mirrored(
            listed,
        )[p] by {
            if p < before.len() {
                assert(cells@[p] == before[p]);
            }
        }
    }
    let bag = RawBagOfCells { cells, roots: root_list };
    proof {
        assert(bag@.cells =~= mirrored(listed));
        assert forall|i: int| 0 <= i < count implies content_at(bag@.cells, count - 1 - i)
            == content_back(listed, i) by {
            lemma_mirrored_content(listed, i);
        }
        assert forall|i: int, j: int| 0 <= i < j < bag@.cells.len() implies content_at(bag@.cells, i)
            != content_at(bag@.cells, j) by {
            let a = count - 1 - i;
            let b = count - 1 - j;
            assert(content_at(bag@.cells, count - 1 - a) == content_back(listed, a));
            assert(content_at(bag@.cells, count - 1 - b) == content_back(listed, b));
            assert(content_back(listed, b) != content_back(listed, a));
        }
        assert forall|i: int| 0 <= i < bag@.cells.len() implies #[trigger] reachable(bag@, i) by {
            let at = count - 1 - i;
            assert(reached(listed, places@, at));
            if referenced(listed, at) {
                let (j, k) = choose|j: int, k: int| #[trigger] refers(listed, j, k, at);
                assert(bag@.cells[count - 1 - j].references[k] == i);
            } else {
                let n = choose|n: int| 0 <= n < places@.len() && #[trigger] places@[n] == at;
                assert(root_list@[n] == count - 1 - places@[n]);
                assert(bag@.roots[n] == i);
            }
        }
        assert forall|k: int| 0 <= k < roots@.len() implies content_at(
            bag@.cells,
            #[trigger] bag@.roots[k] as int,
        ).hash() == roots@[k]@.hash() && content_at(bag@.cells, bag@.roots[k] as int).depth()
            == roots@[k]@.depth() by {
            let place = places@[k] as int;
            assert(root_list@[k] == count - 1 - place);
            assert(content_at(bag@.cells, count - 1 - place) == content_back(listed, place));
            assert(listed[place].hash@ == content_back(listed, place).hash());
        }
        assert forall|i: int, k: int|
            0 <= i < bag@.cells.len() && 0 <= k < bag@.cells[i].references.len() implies i
            < #[trigger] bag@.cells[i].references[k] < bag@.cells.len() by {
            let at = count - 1 - i;
            assert(listed[at].references@[k] < at);
        }
        assert forall|i: int| 0 <= i < bag@.cells.len() implies (#[trigger] bag@.cells[i]).bits.len()
            <= MAX_CELL_BITS && bag@.cells[i].references.len() <= MAX_CELL_REFERENCES by {
            let at = count - 1 - i;
            assert(listed[at].bits@.len() <= MAX_CELL_BITS);
        }
        assert forall|k: int| 0 <= k < bag@.roots.len() implies #[trigger] bag@.roots[k]
            < bag@.cells.len() by {
            assert(root_list@[k] == count - 1 - places@[k]);
        }
    }
    bag
}

} // verus!
