//! The decisions of a provider of library cells.
//!
//! A provider answers a batch of content hashes with the library cells that
//! have them. It asks a cache first, loads what the cache does not hold in
//! requests of bounded size, and reads each answer as a bag of cells with a
//! single root. Looking up, loading and storing are left to the caller; what
//! to make of their results is decided here.
use crate::cell::bag_of_cells::{contents_of_roots, linkable, BagOfCells};
use crate::cell::error::TonCellError;
use crate::cell::hash::{same_hash, TonHash};
use crate::cell::model::CellView;
use crate::cell::raw::decoded;
use crate::cell::ArcCell;
use vstd::prelude::*;

verus! {

/// The largest number of libraries that one request asks for.
pub const MAX_LIBS_REQUESTED: usize = 255;

/// How many libraries are kept by default.
pub const DEFAULT_LIBRARY_CACHE_CAPACITY: u64 = 300;

/// For how many seconds a library is kept by default: one hour.
pub const DEFAULT_LIBRARY_CACHE_TIME_TO_LIVE: u64 = 3600;

/// A failure of a library provider.
#[derive(Debug, Clone, PartialEq, Eq)]
pub enum TonLibraryError {
    /// Libraries are served as of the latest state only.
    SeqnoNotSupported,
    /// An answer could not be read as cells.
    TonCellError(TonCellError),
    /// The source of the libraries failed.
    TonClientError(String),
}

/// How many libraries a cache keeps, and for how long.
#[derive(Clone, Copy, Debug, PartialEq, Eq)]
pub struct LibraryCacheParams {
    capacity: u64,
    time_to_live: u64,
}

impl LibraryCacheParams {
    /// A cache of at most `capacity` libraries, each kept for `time_to_live` seconds.
    pub fn new(capacity: u64, time_to_live: u64) -> (params: LibraryCacheParams)
        ensures
            params.capacity_spec() == capacity,
            params.time_to_live_spec() == time_to_live,
    {
        LibraryCacheParams { capacity, time_to_live }
    }

    /// The number of libraries that the cache keeps at most.
    pub closed spec fn capacity_spec(&self) -> u64 {
        self.capacity
    }

    /// The number of seconds for which the cache keeps a library.
    pub closed spec fn time_to_live_spec(&self) -> u64 {
        self.time_to_live
    }

    /// The number of libraries that the cache keeps at most.
    #[verifier::when_used_as_spec(capacity_spec)]
    pub fn capacity(&self) -> (capacity: u64)
        ensures
            capacity == self.capacity_spec(),
    {
        self.capacity
    }

    /// The number of seconds for which the cache keeps a library.
    #[verifier::when_used_as_spec(time_to_live_spec)]
    pub fn time_to_live(&self) -> (seconds: u64)
        ensures
            seconds == self.time_to_live_spec(),
    {
        self.time_to_live
    }
}

impl Default for LibraryCacheParams {
    /// 300 libraries, each kept for one hour.
    fn default() -> (params: LibraryCacheParams)
        ensures
            params.capacity() == DEFAULT_LIBRARY_CACHE_CAPACITY,
            params.time_to_live() == DEFAULT_LIBRARY_CACHE_TIME_TO_LIVE,
    {
        LibraryCacheParams {
            capacity: DEFAULT_LIBRARY_CACHE_CAPACITY,
            time_to_live: DEFAULT_LIBRARY_CACHE_TIME_TO_LIVE,
        }
    }
}

/// Whether libraries can be served for the given state: only the latest
/// state is served, so a sequence number is refused.
pub fn check_seqno(mc_seqno: Option<i32>) -> (r: Result<(), TonLibraryError>)
    ensures
        r is Ok <==> mc_seqno is None,
        r matches Err(e) ==> e is SeqnoNotSupported,
{
    if mc_seqno.is_some() {
        return Err(TonLibraryError::SeqnoNotSupported);
    }
    Ok(())
}

/// The range of the `i`-th request for a batch of `total` hashes: from
/// `i` times [`MAX_LIBS_REQUESTED`] up to as many more, or up to `total`
/// where that comes first.
pub open spec fn chunk_at(total: nat, i: int) -> (int, int) {
    (
        i * MAX_LIBS_REQUESTED,
        if (i + 1) * MAX_LIBS_REQUESTED <= total {
            (i + 1) * MAX_LIBS_REQUESTED
        } else {
            total as int
        },
    )
}

/// Cuts a batch of `total` hashes into the ranges of the requests that
/// load them: as many requests as it takes, each but the last of
/// [`MAX_LIBS_REQUESTED`] hashes.
pub fn chunk_ranges(total: usize) -> (chunks: Vec<(usize, usize)>)
    ensures
        chunks@.len() == (total + MAX_LIBS_REQUESTED - 1) / (MAX_LIBS_REQUESTED as int),
        forall|i: int|
            0 <= i < chunks@.len() ==> (#[trigger] chunks@[i]).0 == chunk_at(total as nat, i).0
                && chunks@[i].1 == chunk_at(total as nat, i).1,
{
    let mut chunks: Vec<(usize, usize)> = Vec::new();
    let mut start: usize = 0;
    while start < total
        invariant
            start <= total,
            start == chunks@.len() * MAX_LIBS_REQUESTED,
            forall|i: int|
                0 <= i < chunks@.len() ==> (#[trigger] chunks@[i]).0 == chunk_at(total as nat, i).0
                    && chunks@[i].1 == chunk_at(total as nat, i).1,
        decreases total - start,
    {
        if total - start <= MAX_LIBS_REQUESTED {
            chunks.push((start, total));
            return chunks;
        }
        let end: usize = start + MAX_LIBS_REQUESTED;
        chunks.push((start, end));
        start = end;
    }
    chunks
}

/// The entries of `lookups` that the cache held, in order.
pub open spec fn hits<K, V>(lookups: Seq<(K, Option<V>)>) -> Seq<(K, V)>
    decreases lookups.len(),
{
    if lookups.len() == 0 {
        Seq::empty()
    } else {
        match lookups.last().1 {
            Some(value) => hits(lookups.drop_last()).push((lookups.last().0, value)),
            None => hits(lookups.drop_last()),
        }
    }
}

/// The keys of `lookups` that the cache did not hold, in order.
pub open spec fn misses<K, V>(lookups: Seq<(K, Option<V>)>) -> Seq<K>
    decreases lookups.len(),
{
    if lookups.len() == 0 {
        Seq::empty()
    } else {
        match lookups.last().1 {
            Some(_) => misses(lookups.drop_last()),
            None => misses(lookups.drop_last()).push(lookups.last().0),
        }
    }
}

/// What a cache held of a batch, and what is still to be loaded.
pub struct CacheLookup<K, V> {
    pub found: Vec<(K, V)>,
    pub missing: Vec<K>,
}

/// `items` in the opposite order.
fn reversed<T>(items: Vec<T>) -> (r: Vec<T>)
    ensures
        r@ == items@.reverse(),
{
    let mut items = items;
    let ghost all = items@;
    let mut r: Vec<T> = Vec::new();
    while items.len() > 0
        invariant
            items@.len() + r@.len() == all.len(),
            items@ == all.subrange(0, items@.len() as int),
            forall|i: int| 0 <= i < r@.len() ==> r@[i] == all[all.len() - 1 - i],
        decreases items@.len(),
    {
        let item = items.pop().unwrap();
        r.push(item);
    }
    assert(r@ =~= all.reverse());
    r
}

/// Sorts the answers of a cache into what it held and what it did not,
/// each in the order of the batch.
pub fn split_cached<K, V>(lookups: Vec<(K, Option<V>)>) -> (r: CacheLookup<K, V>)
    ensures
        r.found@ == hits(lookups@),
        r.missing@ == misses(lookups@),
{
    let ghost all = lookups@;
    let mut rest = reversed(lookups);
    let mut found: Vec<(K, V)> = Vec::new();
    let mut missing: Vec<K> = Vec::new();
    assert(all.subrange(0, 0) =~= Seq::empty());
    while rest.len() > 0
        invariant
            rest@.len() <= all.len(),
            rest@ == all.reverse().subrange(0, rest@.len() as int),
            found@ == hits(all.subrange(0, all.len() - rest@.len())),
            missing@ == misses(all.subrange(0, all.len() - rest@.len())),
        decreases rest@.len(),
    {
        let ghost done = all.len() - rest@.len();
        let (key, value) = rest.pop().unwrap();
        proof {
            let longer = all.subrange(0, done + 1);
            assert(longer.drop_last() =~= all.subrange(0, done as int));
            assert(longer.last() == all[done as int]);
            assert(all.reverse()[all.len() - 1 - done] == all[done as int]);
        }
        match value {
            Some(value) => {
                found.push((key, value));
            },
            None => {
                missing.push(key);
            },
        }
    }
    assert(all.subrange(0, all.len() as int) =~= all);
    CacheLookup { found, missing }
}

/// Pairs each cell with its content hash, the key under which it is kept.
pub fn index_by_hash(cells: &Vec<ArcCell>) -> (keyed: Vec<(TonHash, ArcCell)>)
    ensures
        keyed@.len() == cells@.len(),
        forall|i: int|
            0 <= i < cells@.len() ==> (#[trigger] keyed@[i]).0@ == cells@[i]@.hash() && keyed@[i].1
                == cells@[i],
{
    let mut keyed: Vec<(TonHash, ArcCell)> = Vec::new();
    let mut i: usize = 0;
    while i < cells.len()
        invariant
            i <= cells@.len(),
            keyed@.len() == i,
            forall|n: int|
                0 <= n < i ==> (#[trigger] keyed@[n]).0@ == cells@[n]@.hash() && keyed@[n].1
                    == cells@[n],
        decreases cells@.len() - i,
    {
        let cell = cells[i].clone();
        keyed.push((cell.cell_hash(), cell));
        i = i + 1;
    }
    keyed
}

/// The libraries of `entries` by their hashes, where a later entry replaces
/// an earlier one with the same hash.
pub open spec fn keyed(entries: Seq<(TonHash, ArcCell)>) -> Map<Seq<u8>, CellView>
    decreases entries.len(),
{
    if entries.len() == 0 {
        Map::empty()
    } else {
        keyed(entries.drop_last()).insert(entries.last().0@, entries.last().1@)
    }
}

/// Whether no hash occurs twice in `entries`.
pub open spec fn distinct_keys(entries: Seq<(TonHash, ArcCell)>) -> bool {
    forall|i: int, j: int|
        0 <= i < j < entries.len() ==> (#[trigger] entries[i]).0@ != (#[trigger] entries[j]).0@
}

/// Replacing the library of a hash on a list without repeated hashes is
/// replacing it in what the list holds.
proof fn lemma_keyed_update(entries: Seq<(TonHash, ArcCell)>, i: int, entry: (TonHash, ArcCell))
    requires
        distinct_keys(entries),
        0 <= i < entries.len(),
        entries[i].0@ == entry.0@,
    ensures
        keyed(entries.update(i, entry)) == keyed(entries).insert(entry.0@, entry.1@),
    decreases entries.len(),
{
    let updated = entries.update(i, entry);
    let last = entries.len() - 1;
    if i == last {
        assert(updated.drop_last() =~= entries.drop_last());
        assert(keyed(updated) =~= keyed(entries).insert(entry.0@, entry.1@));
    } else {
        assert(updated.drop_last() =~= entries.drop_last().update(i, entry));
        assert(distinct_keys(entries.drop_last())) by {
            assert forall|a: int, b: int| 0 <= a < b < entries.drop_last().len() implies (
            #[trigger] entries.drop_last()[a]).0@ != (#[trigger] entries.drop_last()[b]).0@ by {
                assert(entries.drop_last()[a] == entries[a]);
                assert(entries.drop_last()[b] == entries[b]);
            }
        }
        lemma_keyed_update(entries.drop_last(), i, entry);
        assert(entries[i].0@ != entries[last].0@);
        assert(keyed(updated) =~= keyed(entries).insert(entry.0@, entry.1@));
    }
}

/// Puts the library `cell` under `hash`, in the place of the library that
/// the list holds under that hash, if there is one.
fn put(entries: &mut Vec<(TonHash, ArcCell)>, hash: TonHash, cell: ArcCell)
    requires
        distinct_keys(old(entries)@),
    ensures
        distinct_keys(final(entries)@),
        keyed(final(entries)@) == keyed(old(entries)@).insert(hash@, cell@),
{
    let mut i: usize = 0;
    while i < entries.len()
        invariant
            i <= entries@.len(),
            entries@ == old(entries)@,
            distinct_keys(entries@),
            forall|n: int| 0 <= n < i ==> (#[trigger] entries@[n]).0@ != hash@,
        decreases entries@.len() - i,
    {
        if same_hash(&entries[i].0, &hash) {
            proof {
                lemma_keyed_update(entries@, i as int, (hash, cell));
            }
            let ghost before = entries@;
            entries.set(i, (hash, cell));
            assert forall|a: int, b: int| 0 <= a < b < entries@.len() implies (
            #[trigger] entries@[a]).0@ != (#[trigger] entries@[b]).0@ by {
                assert(before[a].0@ != before[b].0@);
            }
            return ;
        }
        i = i + 1;
    }
    let ghost before = entries@;
    entries.push((hash, cell));
    assert(entries@.drop_last() =~= before);
    assert forall|a: int, b: int| 0 <= a < b < entries@.len() implies (#[trigger] entries@[a]).0@ != (
    #[trigger] entries@[b]).0@ by {
        if b < before.len() {
            assert(before[a].0@ != before[b].0@);
        }
    }
}

/// Merges what a cache held with what was loaded: one library for each
/// hash, and what was loaded in the place of what the cache held under the
/// same hash.
pub fn merge_libraries(found: &Vec<(TonHash, ArcCell)>, loaded: &Vec<(TonHash, ArcCell)>) -> (merged:
    Vec<(TonHash, ArcCell)>)
    ensures
        distinct_keys(merged@),
        keyed(merged@) == keyed(found@ + loaded@),
{
    let ghost all = found@ + loaded@;
    let mut merged: Vec<(TonHash, ArcCell)> = Vec::new();
    let mut i: usize = 0;
    assert(all.subrange(0, 0) =~= Seq::empty());
    while i < found.len()
        invariant
            i <= found@.len(),
            all == found@ + loaded@,
            distinct_keys(merged@),
            keyed(merged@) == keyed(all.subrange(0, i as int)),
        decreases found@.len() - i,
    {
        proof {
            let longer = all.subrange(0, i + 1);
            assert(longer.drop_last() =~= all.subrange(0, i as int));
            assert(longer.last() == found@[i as int]);
        }
        put(&mut merged, found[i].0, found[i].1.clone());
        i = i + 1;
    }
    let mut k: usize = 0;
    while k < loaded.len()
        invariant
            k <= loaded@.len(),
            all == found@ + loaded@,
            distinct_keys(merged@),
            keyed(merged@) == keyed(all.subrange(0, found@.len() + k)),
        decreases loaded@.len() - k,
    {
        proof {
            let longer = all.subrange(0, found@.len() + k + 1);
            assert(longer.drop_last() =~= all.subrange(0, found@.len() + k));
            assert(longer.last() == loaded@[k as int]);
        }
        put(&mut merged, loaded[k].0, loaded[k].1.clone());
        k = k + 1;
    }
    assert(all.subrange(0, all.len() as int) =~= all);
    merged
}

/// Whether `payload` is a bag of cells that can be made into a graph.
pub open spec fn is_bag(payload: Seq<u8>) -> bool {
    decoded(payload) matches Some(bag) && linkable(bag)
}

/// Whether `payload` is a bag of cells with a single root.
pub open spec fn is_library(payload: Seq<u8>) -> bool {
    is_bag(payload) && decoded(payload)->Some_0.roots.len() == 1
}

/// Whether the `i`-th of `payloads` is the first that is not a library.
pub open spec fn first_failure(payloads: Seq<Vec<u8>>, i: int) -> bool {
    &&& 0 <= i < payloads.len()
    &&& !is_library(payloads[i]@)
    &&& forall|n: int| 0 <= n < i ==> is_library(#[trigger] payloads[n]@)
}

/// The content of the single root of the bag of cells that `payload` is.
pub open spec fn library_of(payload: Seq<u8>) -> CellView {
    contents_of_roots(decoded(payload)->Some_0)[0]
}

/// Reads each payload as a bag of cells with a single root.
///
/// The first payload that is not one fails the whole batch: with
/// `BagOfCellsDeserializationError` where it is no bag of cells, with
/// `CellParserError` where its roots are not exactly one.
pub fn parse_libraries(payloads: &Vec<Vec<u8>>) -> (r: Result<Vec<ArcCell>, TonLibraryError>)
    ensures
        r is Ok <==> forall|i: int| 0 <= i < payloads@.len() ==> is_library(#[trigger] payloads@[i]@),
        r matches Ok(libraries) ==> libraries@.len() == payloads@.len() && forall|i: int|
            0 <= i < payloads@.len() ==> (#[trigger] libraries@[i])@ == library_of(payloads@[i]@),
        r matches Err(e) ==> e matches TonLibraryError::TonCellError(inner) && exists|i: int|
            {
                &&& #[trigger] first_failure(payloads@, i)
                &&& is_bag(payloads@[i]@) ==> inner is CellParserError
                &&& !is_bag(payloads@[i]@) ==> inner is BagOfCellsDeserializationError
            },
{
    let mut libraries: Vec<ArcCell> = Vec::new();
    let mut i: usize = 0;
    while i < payloads.len()
        invariant
            i <= payloads@.len(),
            libraries@.len() == i,
            forall|n: int| 0 <= n < i ==> is_library(#[trigger] payloads@[n]@),
            forall|n: int| 0 <= n < i ==> (#[trigger] libraries@[n])@ == library_of(payloads@[n]@),
        decreases payloads@.len() - i,
    {
        let bag = match BagOfCells::parse(payloads[i].as_slice()) {
            Ok(bag) => bag,
            Err(e) => {
                assert(first_failure(payloads@, i as int));
                return Err(TonLibraryError::TonCellError(e));
            },
        };
        let root = match bag.single_root() {
            Ok(root) => root,
            Err(e) => {
                assert(first_failure(payloads@, i as int));
                return Err(TonLibraryError::TonCellError(e));
            },
        };
        libraries.push(root);
        i = i + 1;
    }
    Ok(libraries)
}

} // verus!
