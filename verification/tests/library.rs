use tonlib_cell::library::{
    check_seqno, chunk_ranges, index_by_hash, merge_libraries, parse_libraries, split_cached,
    LibraryCacheParams, TonLibraryError, MAX_LIBS_REQUESTED,
};
use tonlib_cell::{BagOfCells, Cell, CellBuilder, TonCellError};

fn cell_of(byte: u8) -> Cell {
    let mut builder = CellBuilder::new();
    builder.store_u8(8, byte).unwrap();
    builder.build().unwrap()
}

#[test]
fn cache_params_default_to_300_libraries_for_an_hour() {
    let params = LibraryCacheParams::default();
    assert_eq!(params.capacity(), 300);
    assert_eq!(params.time_to_live(), 60 * 60);
    let other = LibraryCacheParams::new(7, 9);
    assert_eq!((other.capacity(), other.time_to_live()), (7, 9));
}

#[test]
fn seqno_is_not_supported() {
    assert_eq!(check_seqno(None), Ok(()));
    assert_eq!(check_seqno(Some(0)), Err(TonLibraryError::SeqnoNotSupported));
    assert_eq!(check_seqno(Some(-1)), Err(TonLibraryError::SeqnoNotSupported));
}

#[test]
fn batches_are_cut_into_requests_of_255() {
    assert_eq!(MAX_LIBS_REQUESTED, 255);
    assert_eq!(chunk_ranges(0), vec![]);
    assert_eq!(chunk_ranges(1), vec![(0, 1)]);
    assert_eq!(chunk_ranges(255), vec![(0, 255)]);
    assert_eq!(chunk_ranges(256), vec![(0, 255), (255, 256)]);
    assert_eq!(chunk_ranges(510), vec![(0, 255), (255, 510)]);
    assert_eq!(
        chunk_ranges(600),
        vec![(0, 255), (255, 510), (510, 600)]
    );
}

#[test]
fn cache_answers_are_split_in_order() {
    let lookups = vec![
        (1u8, Some("a")),
        (2u8, None),
        (3u8, Some("c")),
        (4u8, None),
        (5u8, None),
    ];
    let split = split_cached(lookups);
    assert_eq!(split.found, vec![(1u8, "a"), (3u8, "c")]);
    assert_eq!(split.missing, vec![2u8, 4u8, 5u8]);
    let nothing = split_cached(Vec::<(u8, Option<u8>)>::new());
    assert!(nothing.found.is_empty() && nothing.missing.is_empty());
}

#[test]
fn libraries_are_keyed_by_their_hash() {
    let cells = vec![cell_of(1).to_arc(), cell_of(2).to_arc()];
    let keyed = index_by_hash(&cells);
    assert_eq!(keyed.len(), 2);
    assert_eq!(keyed[0].0, cells[0].cell_hash());
    assert_eq!(keyed[1].0, cells[1].cell_hash());
    assert_eq!(keyed[1].1, cells[1]);
    assert_ne!(keyed[0].0, keyed[1].0);
}

#[test]
fn payloads_are_read_as_single_roots() {
    let first = BagOfCells::from_root(cell_of(1)).serialize(true).unwrap();
    let second = BagOfCells::from_root(cell_of(2)).serialize(false).unwrap();
    let libraries = parse_libraries(&vec![first.clone(), second]).unwrap();
    assert_eq!(libraries.len(), 2);
    assert_eq!(libraries[0].as_ref(), &cell_of(1));
    assert_eq!(libraries[1].as_ref(), &cell_of(2));
    assert_eq!(parse_libraries(&vec![]), Ok(vec![]));

    let two_roots = BagOfCells::new(vec![cell_of(1).to_arc(), cell_of(2).to_arc()])
        .serialize(false)
        .unwrap();
    assert!(matches!(
        parse_libraries(&vec![first.clone(), two_roots]),
        Err(TonLibraryError::TonCellError(TonCellError::CellParserError(_)))
    ));
    assert!(matches!(
        parse_libraries(&vec![vec![1, 2, 3], first]),
        Err(TonLibraryError::TonCellError(
            TonCellError::BagOfCellsDeserializationError(_)
        ))
    ));
}

#[test]
fn loaded_libraries_replace_cached_ones() {
    let one = cell_of(1).to_arc();
    let two = cell_of(2).to_arc();
    let three = cell_of(3).to_arc();
    let key_a = [0xaa; 32];
    let key_b = [0xbb; 32];
    let key_c = [0xcc; 32];
    let found = vec![(key_a, one.clone()), (key_b, two.clone()), (key_a, three.clone())];
    let loaded = vec![(key_c, one.clone()), (key_b, three.clone())];
    let merged = merge_libraries(&found, &loaded);
    assert_eq!(
        merged,
        vec![(key_a, three.clone()), (key_b, three), (key_c, one)]
    );
    assert_eq!(merge_libraries(&vec![], &vec![]), vec![]);
    assert_eq!(merge_libraries(&vec![(key_a, two.clone())], &vec![]), vec![(key_a, two)]);
}
