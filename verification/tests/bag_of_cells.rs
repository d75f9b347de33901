use std::sync::Arc;
use tonlib_cell::cell::raw::{RawBagOfCells, RawCell};
use tonlib_cell::{ArcCell, BagOfCells, Cell, CellBuilder, TonCellError};

const EMPTY_CELL_BOC: [u8; 17] = [
    0xb5, 0xee, 0x9c, 0x72, 0x41, 0x01, 0x01, 0x01, 0x00, 0x02, 0x00, 0x00, 0x00, 0x4c, 0xac,
    0xb9, 0xcd,
];

fn cell_of(byte: u8, references: Vec<ArcCell>) -> Cell {
    let mut builder = CellBuilder::new();
    builder.store_u8(8, byte).unwrap();
    for reference in &references {
        builder.store_reference(reference).unwrap();
    }
    builder.build().unwrap()
}

#[test]
fn empty_cell_is_written_as_the_known_bytes() {
    let bag = BagOfCells::from_root(Cell::new(vec![], 0, vec![]).unwrap());
    assert_eq!(bag.serialize(true).unwrap(), EMPTY_CELL_BOC.to_vec());
    assert_eq!(bag.serialize(false).unwrap(), {
        let mut plain = EMPTY_CELL_BOC[..13].to_vec();
        plain[4] = 0x01;
        plain
    });
}

#[test]
fn empty_cell_is_read_from_the_known_bytes() {
    let bag = BagOfCells::parse(&EMPTY_CELL_BOC).unwrap();
    assert_eq!(bag.num_roots(), 1);
    let root = bag.single_root().unwrap();
    assert_eq!(root.bit_len(), 0);
    assert_eq!(root.references().len(), 0);
}

#[test]
fn parse_rejects_a_wrong_checksum() {
    let mut bytes = EMPTY_CELL_BOC.to_vec();
    bytes[16] ^= 1;
    assert!(matches!(
        BagOfCells::parse(&bytes),
        Err(TonCellError::BagOfCellsDeserializationError(_))
    ));
}

#[test]
fn parse_rejects_truncated_and_foreign_input() {
    for len in 0..EMPTY_CELL_BOC.len() {
        assert!(matches!(
            BagOfCells::parse(&EMPTY_CELL_BOC[..len]),
            Err(TonCellError::BagOfCellsDeserializationError(_))
        ));
    }
    let mut longer = EMPTY_CELL_BOC.to_vec();
    longer.push(0);
    assert!(BagOfCells::parse(&longer).is_err());
    let mut foreign = EMPTY_CELL_BOC.to_vec();
    foreign[0] = 0xb6;
    assert!(BagOfCells::parse(&foreign).is_err());
}

#[test]
fn parse_rejects_references_that_do_not_point_forward() {
    // one cell that names itself as its child
    let own_child = vec![
        0xb5, 0xee, 0x9c, 0x72, 0x01, 0x01, 0x01, 0x01, 0x00, 0x03, 0x00, 0x01, 0x00, 0x00,
    ];
    assert!(RawBagOfCells::parse(&own_child).is_ok());
    assert!(matches!(
        BagOfCells::parse(&own_child),
        Err(TonCellError::BagOfCellsDeserializationError(_))
    ));
    // the second cell names the first
    let backward = vec![
        0xb5, 0xee, 0x9c, 0x72, 0x01, 0x01, 0x02, 0x01, 0x00, 0x05, 0x00, 0x00, 0x00, 0x01, 0x00,
        0x00,
    ];
    assert!(RawBagOfCells::parse(&backward).is_ok());
    assert!(BagOfCells::parse(&backward).is_err());
    // the first cell names the second
    let forward = vec![
        0xb5, 0xee, 0x9c, 0x72, 0x01, 0x01, 0x02, 0x01, 0x00, 0x05, 0x00, 0x01, 0x00, 0x01, 0x00,
        0x00,
    ];
    let root = BagOfCells::parse(&forward).unwrap().single_root().unwrap();
    assert_eq!(root.references().len(), 1);
    assert_eq!(root.references()[0].bit_len(), 0);
}

#[test]
fn parse_reads_the_completion_tag() {
    // one cell of five bits, 10110, closed by the tag bit and two zero bits
    let bytes = vec![
        0xb5, 0xee, 0x9c, 0x72, 0x01, 0x01, 0x01, 0x01, 0x00, 0x03, 0x00, 0x00, 0x01, 0b1011_0100,
    ];
    let root = BagOfCells::parse(&bytes).unwrap().single_root().unwrap();
    assert_eq!(root.bit_len(), 5);
    assert_eq!(root.data(), &vec![0b1011_0000u8]);
    assert_eq!(BagOfCells::from_root(root.as_ref().clone()).serialize(false).unwrap(), bytes);
    // a tag is missing where the last byte is zero
    let mut untagged = bytes.clone();
    untagged[13] = 0;
    assert!(BagOfCells::parse(&untagged).is_err());
}

#[test]
fn single_root_needs_exactly_one_root() {
    let none = BagOfCells::new(vec![]);
    assert!(matches!(
        none.single_root(),
        Err(TonCellError::CellParserError(_))
    ));
    let two = BagOfCells::new(vec![cell_of(1, vec![]).to_arc(), cell_of(2, vec![]).to_arc()]);
    match two.single_root() {
        Err(TonCellError::CellParserError(text)) => assert!(text.contains("got: 2")),
        _ => panic!("two roots are not a single root"),
    }
}

#[test]
fn shared_cell_is_written_once() {
    // two cells with the same content, made apart from each other
    let shared_a = cell_of(0x11, vec![]).to_arc();
    let shared_b = cell_of(0x11, vec![]).to_arc();
    assert!(!Arc::ptr_eq(&shared_a, &shared_b));
    let left = cell_of(0x22, vec![shared_a]).to_arc();
    let right = cell_of(0x33, vec![shared_b]).to_arc();
    let root = cell_of(0x44, vec![left, right]);
    let bag = BagOfCells::from_root(root.clone());

    let raw = bag.to_raw();
    assert_eq!(raw.cells.len(), 4);
    assert_eq!(raw.roots, vec![0]);

    let bytes = bag.serialize(true).unwrap();
    let raw_read = RawBagOfCells::parse(&bytes).unwrap();
    assert_eq!(raw_read.cells.len(), 4);

    let read = BagOfCells::parse(&bytes).unwrap().single_root().unwrap();
    assert_eq!(read.as_ref(), &root);
    assert_eq!(read.cell_hash(), root.cell_hash());
    let left_child = &read.references()[0].references()[0];
    let right_child = &read.references()[1].references()[0];
    assert!(Arc::ptr_eq(left_child, right_child));
    assert_eq!(left_child.data(), &vec![0x11u8]);
}

#[test]
fn bag_with_several_roots_round_trips() {
    let leaf = cell_of(1, vec![]).to_arc();
    let first = cell_of(2, vec![leaf.clone()]).to_arc();
    let second = cell_of(3, vec![leaf.clone(), first.clone()]).to_arc();
    let bag = BagOfCells::new(vec![second.clone(), leaf.clone(), first.clone()]);
    let bytes = bag.serialize(false).unwrap();
    let read = BagOfCells::parse(&bytes).unwrap();
    assert_eq!(read.num_roots(), 3);
    assert_eq!(read.roots[0], second);
    assert_eq!(read.roots[1], leaf);
    assert_eq!(read.roots[2], first);
    assert_eq!(bag.to_raw().cells.len(), 3);
}

#[test]
fn raw_bag_that_is_no_graph_is_not_written() {
    let dangling = RawBagOfCells {
        cells: vec![RawCell {
            bits: vec![],
            references: vec![1],
        }],
        roots: vec![0],
    };
    assert!(matches!(
        dangling.serialize(false),
        Err(TonCellError::BagOfCellsSerializationError(_))
    ));
    assert!(matches!(
        BagOfCells::from_raw(&dangling),
        Err(TonCellError::BagOfCellsDeserializationError(_))
    ));
    let no_such_root = RawBagOfCells {
        cells: vec![],
        roots: vec![0],
    };
    assert!(no_such_root.serialize(true).is_err());
}

#[test]
fn parse_passes_over_an_index() {
    // one empty cell, with an index of one offset in front of the cells
    let bytes = vec![
        0xb5, 0xee, 0x9c, 0x72, 0x81, 0x01, 0x01, 0x01, 0x00, 0x02, 0x00, 0x02, 0x00, 0x00,
    ];
    let root = BagOfCells::parse(&bytes).unwrap().single_root().unwrap();
    assert_eq!(root.bit_len(), 0);
    // without the flag the same bytes are one byte too long
    let mut unflagged = bytes.clone();
    unflagged[4] = 0x01;
    assert!(BagOfCells::parse(&unflagged).is_err());
    // absent cells and unknown flags are refused
    let mut absent = EMPTY_CELL_BOC[..13].to_vec();
    absent[4] = 0x01;
    assert!(BagOfCells::parse(&absent).is_ok());
    absent[8] = 0x01;
    assert!(BagOfCells::parse(&absent).is_err());
    let mut flagged = EMPTY_CELL_BOC[..13].to_vec();
    flagged[4] = 0x09;
    assert!(BagOfCells::parse(&flagged).is_err());
}

#[test]
fn bag_failures_say_what_was_found() {
    assert_eq!(
        BagOfCells::parse(&[1, 2, 3]).err(),
        Some(TonCellError::BagOfCellsDeserializationError(
            "Unsupported magic number, bytes: 3, expected: 6, bytes: 3".to_string()
        ))
    );
    let mut longer = EMPTY_CELL_BOC.to_vec();
    longer.push(0);
    assert_eq!(
        BagOfCells::parse(&longer).err(),
        Some(TonCellError::BagOfCellsDeserializationError(
            "Invalid length: bytes: 18, expected: 0, bytes: 18".to_string()
        ))
    );
    let dangling = RawBagOfCells {
        cells: vec![RawCell {
            bits: vec![],
            references: vec![1],
        }],
        roots: vec![0],
    };
    assert_eq!(
        BagOfCells::from_raw(&dangling).err(),
        Some(TonCellError::BagOfCellsDeserializationError(
            "Invalid reference: cell: 0, found: 1, cells: 1".to_string()
        ))
    );
    assert_eq!(
        dangling.serialize(false),
        Err(TonCellError::BagOfCellsSerializationError(
            "Invalid bag: roots: 1, found: 0, cells: 1".to_string()
        ))
    );
}

#[test]
fn single_root_names_the_count_of_roots() {
    let three = BagOfCells::new(vec![
        cell_of(1, vec![]).to_arc(),
        cell_of(2, vec![]).to_arc(),
        cell_of(3, vec![]).to_arc(),
    ]);
    assert_eq!(
        three.single_root(),
        Err(TonCellError::CellParserError(
            "Single root expected, got: 3, expected: 1, extra: 0".to_string()
        ))
    );
}

#[test]
fn every_listed_cell_hangs_on_a_root() {
    let shared = cell_of(1, vec![]).to_arc();
    let middle = cell_of(2, vec![shared.clone(), shared.clone()]).to_arc();
    let root = cell_of(3, vec![middle.clone(), shared.clone(), middle]);
    let raw = BagOfCells::from_root(root).to_raw();
    assert_eq!(raw.roots, vec![0]);
    assert_eq!(raw.cells.len(), 3);
    assert_eq!(raw.cells[0].references, vec![1, 2, 1]);
    assert_eq!(raw.cells[1].references, vec![2, 2]);
    assert_eq!(raw.cells[2].references, Vec::<usize>::new());
}
