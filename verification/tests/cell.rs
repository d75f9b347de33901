use std::sync::Arc;
use tonlib_cell::{ArcCell, BigInt, BigUint, Cell, CellBuilder, CellSlice, TonCellError};

fn leaf(byte: u8) -> ArcCell {
    Arc::new(Cell::new(vec![byte], 8, vec![]).unwrap())
}

fn hex(bytes: &[u8]) -> String {
    let mut text = String::new();
    for byte in bytes {
        text.push_str(&format!("{:02x}", byte));
    }
    text
}

#[test]
fn cell_new_checks_bit_len_and_data() {
    assert!(Cell::new(vec![0; 128], 1023, vec![]).is_ok());
    assert!(matches!(
        Cell::new(vec![0; 128], 1024, vec![]),
        Err(TonCellError::CellParserError(_))
    ));
    assert!(matches!(
        Cell::new(vec![0xff], 9, vec![]),
        Err(TonCellError::CellParserError(_))
    ));
    assert!(Cell::new(vec![0xff], 8, vec![]).is_ok());
    assert!(Cell::new(vec![], 0, vec![]).is_ok());
}

#[test]
fn cell_new_checks_reference_count() {
    let four = vec![leaf(1), leaf(2), leaf(3), leaf(4)];
    assert!(Cell::new(vec![], 0, four.clone()).is_ok());
    let mut five = four;
    five.push(leaf(5));
    assert!(matches!(
        Cell::new(vec![], 0, five),
        Err(TonCellError::CellParserError(_))
    ));
}

#[test]
fn cell_reference_is_bounds_checked() {
    let cell = Cell::new(vec![], 0, vec![leaf(7), leaf(9)]).unwrap();
    assert_eq!(cell.reference(1).unwrap().data(), &vec![9u8]);
    assert_eq!(
        cell.reference(2),
        Err(TonCellError::InvalidIndex {
            idx: 2,
            ref_count: 2
        })
    );
}

#[test]
fn empty_cell_hash_is_the_known_one() {
    let cell = Cell::new(vec![], 0, vec![]).unwrap();
    assert_eq!(
        hex(&cell.cell_hash()),
        "96a296d224f285c67bee93c30f8a309157f0daa35dc5b87e410b78630a09cfc7"
    );
    assert_eq!(cell.depth(), 0);
}

#[test]
fn hash_depends_on_content_alone() {
    // the same five bits, once with zero bits behind them and once with set bits
    let clean = Cell::new(vec![0b1010_1000], 5, vec![leaf(1)]).unwrap();
    let noisy = Cell::new(vec![0b1010_1111], 5, vec![leaf(1)]).unwrap();
    assert_eq!(clean.cell_hash(), noisy.cell_hash());
    let mut builder = CellBuilder::new();
    builder.store_u8(5, 0b10101).unwrap();
    builder.store_reference(&leaf(1)).unwrap();
    let built = builder.build().unwrap();
    assert_eq!(built.cell_hash(), clean.cell_hash());
    assert_eq!(built.depth(), 1);
    let other = Cell::new(vec![0b1010_1000], 5, vec![leaf(2)]).unwrap();
    assert_ne!(other.cell_hash(), clean.cell_hash());
    let longer = Cell::new(vec![0b1010_1000], 6, vec![leaf(1)]).unwrap();
    assert_ne!(longer.cell_hash(), clean.cell_hash());
}

#[test]
fn slice_new_rejects_ranges_out_of_bounds() {
    let cell = Arc::new(Cell::new(vec![0xff, 0xff], 12, vec![leaf(1), leaf(2)]).unwrap());
    assert!(CellSlice::new(&cell, 0, 12, 0, 2).is_ok());
    assert!(CellSlice::new(&cell, 12, 12, 2, 2).is_ok());
    assert!(matches!(
        CellSlice::new(&cell, 0, 13, 0, 2),
        Err(TonCellError::CellParserError(_))
    ));
    assert!(matches!(
        CellSlice::new(&cell, 0, 12, 0, 3),
        Err(TonCellError::CellParserError(_))
    ));
    assert!(matches!(
        CellSlice::new(&cell, 5, 4, 0, 2),
        Err(TonCellError::CellParserError(_))
    ));
    assert!(matches!(
        CellSlice::new(&cell, 0, 12, 2, 1),
        Err(TonCellError::CellParserError(_))
    ));
}

#[test]
fn slice_new_describes_the_invalid_range() {
    let cell = Arc::new(Cell::new(vec![0xff, 0xff], 12, vec![leaf(1)]).unwrap());
    match CellSlice::new(&cell, 3, 13, 0, 1) {
        Err(TonCellError::CellParserError(text)) => {
            assert_eq!(text, "Invalid bit offsets: start: 3, end: 13, bit_len: 12")
        }
        _ => panic!("the bit range is out of bounds"),
    }
    match CellSlice::new(&cell, 0, 12, 1, 2) {
        Err(TonCellError::CellParserError(text)) => {
            assert_eq!(text, "Invalid references: start: 1, end: 2, count: 1")
        }
        _ => panic!("the reference range is out of bounds"),
    }
}

#[test]
fn slice_reference_rejects_the_window_size() {
    let cell =
        Arc::new(Cell::new(vec![], 0, vec![leaf(10), leaf(11), leaf(12), leaf(13)]).unwrap());
    let slice = CellSlice::new(&cell, 0, 0, 1, 3).unwrap();
    assert_eq!(slice.reference(0).unwrap().data(), &vec![11u8]);
    assert_eq!(slice.reference(1).unwrap().data(), &vec![12u8]);
    assert_eq!(
        slice.reference(2),
        Err(TonCellError::InvalidIndex {
            idx: 2,
            ref_count: 2
        })
    );
    assert_eq!(
        slice.reference(3),
        Err(TonCellError::InvalidIndex {
            idx: 3,
            ref_count: 2
        })
    );
    let none = CellSlice::new(&cell, 0, 0, 2, 2).unwrap();
    assert_eq!(
        none.reference(0),
        Err(TonCellError::InvalidIndex {
            idx: 0,
            ref_count: 0
        })
    );
}

#[test]
fn slice_constructors_span_the_cell() {
    let cell = Cell::new(vec![0xab, 0xc0], 10, vec![leaf(1), leaf(2)]).unwrap();
    let full = CellSlice::full_cell(cell.clone()).unwrap();
    assert_eq!(
        (full.start_bit(), full.end_bit(), full.start_ref(), full.end_ref()),
        (0, 10, 0, 2)
    );
    let tail = CellSlice::new_with_offset(&cell, 4).unwrap();
    assert_eq!(
        (tail.start_bit(), tail.end_bit(), tail.start_ref(), tail.end_ref()),
        (4, 10, 0, 2)
    );
    assert_eq!(tail.cell().as_ref(), &cell);
    assert!(CellSlice::new_with_offset(&cell, 10).is_ok());
    assert!(matches!(
        CellSlice::new_with_offset(&cell, 11),
        Err(TonCellError::CellParserError(_))
    ));
}

#[test]
fn slice_into_cell_copies_the_window() {
    let cell = Arc::new(
        Cell::new(
            vec![0b1011_0111, 0b0101_1010],
            16,
            vec![leaf(1), leaf(2), leaf(3)],
        )
        .unwrap(),
    );
    // bits 3..13 are 1 0111 0101 1
    let slice = CellSlice::new(&cell, 3, 13, 1, 3).unwrap();
    let copy = slice.into_cell().unwrap();
    assert_eq!(copy.bit_len(), 10);
    assert_eq!(copy.data(), &vec![0b1011_1010u8, 0b1100_0000u8]);
    assert_eq!(copy.references().len(), 2);
    assert_eq!(copy.references()[0].data(), &vec![2u8]);
    assert_eq!(copy.references()[1].data(), &vec![3u8]);

    // whole bytes from an unaligned start
    let bytes = CellSlice::new(&cell, 4, 12, 0, 0).unwrap().into_cell().unwrap();
    assert_eq!(bytes.bit_len(), 8);
    assert_eq!(bytes.data(), &vec![0b0111_0101u8]);

    // fewer than eight bits, and none at all
    let few = CellSlice::new(&cell, 9, 12, 0, 0).unwrap().into_cell().unwrap();
    assert_eq!(few.bit_len(), 3);
    assert_eq!(few.data(), &vec![0b1010_0000u8]);
    let none = CellSlice::new(&cell, 16, 16, 3, 3).unwrap().into_cell().unwrap();
    assert_eq!(none.bit_len(), 0);
    assert_eq!(none.data(), &Vec::<u8>::new());
    assert_eq!(none.references().len(), 0);

    // the whole cell
    let whole = CellSlice::full_cell(cell.as_ref().clone())
        .unwrap()
        .into_cell()
        .unwrap();
    assert_eq!(&whole, cell.as_ref());
}

#[test]
fn builder_enforces_bit_capacity() {
    let mut builder = CellBuilder::new();
    assert_eq!(builder.remaining_bits(), 1023);
    builder.store_bits(1016, &vec![0xaa; 127]).unwrap();
    assert_eq!(builder.remaining_bits(), 7);
    assert!(matches!(
        builder.store_bits(8, &vec![0xff]),
        Err(TonCellError::CellBuilderError(_))
    ));
    // a write that fails leaves the builder as it was
    assert_eq!(builder.remaining_bits(), 7);
    builder.store_u8(7, 0x7f).unwrap();
    assert_eq!(builder.remaining_bits(), 0);
    assert!(matches!(
        builder.store_bit(true),
        Err(TonCellError::CellBuilderError(_))
    ));
    let cell = builder.build().unwrap();
    assert_eq!(cell.bit_len(), 1023);
    assert_eq!(cell.data()[127], 0b1111_1110);
}

#[test]
fn builder_rejects_a_payload_above_the_cell_maximum() {
    let mut builder = CellBuilder::new();
    assert!(matches!(
        builder.store_bits(1024, &vec![0; 128]),
        Err(TonCellError::CellBuilderError(_))
    ));
    assert_eq!(builder.remaining_bits(), 1023);
    assert_eq!(builder.build().unwrap().bit_len(), 0);
}

#[test]
fn builder_enforces_reference_capacity() {
    let mut builder = CellBuilder::new();
    for i in 0..4 {
        builder.store_reference(&leaf(i)).unwrap();
    }
    assert_eq!(builder.remaining_references(), 0);
    assert!(matches!(
        builder.store_reference(&leaf(4)),
        Err(TonCellError::CellBuilderError(_))
    ));
    assert!(matches!(
        builder.store_child(Cell::new(vec![], 0, vec![]).unwrap()),
        Err(TonCellError::CellBuilderError(_))
    ));
    let with_one = Cell::new(vec![0x80], 1, vec![leaf(9)]).unwrap();
    assert!(matches!(
        builder.store_cell(&with_one),
        Err(TonCellError::CellBuilderError(_))
    ));
    // neither the bit nor the reference of the cell was taken
    assert_eq!(builder.remaining_bits(), 1023);
    assert_eq!(builder.build().unwrap().references().len(), 4);
}

#[test]
fn builder_store_bits_needs_enough_data() {
    let mut builder = CellBuilder::new();
    assert!(matches!(
        builder.store_bits(9, &vec![0xff]),
        Err(TonCellError::CellBuilderError(_))
    ));
    builder.store_bits(3, &vec![0b1010_0000]).unwrap();
    builder.store_bits(5, &vec![0b1111_1111]).unwrap();
    assert_eq!(builder.build().unwrap().data(), &vec![0b1011_1111u8]);
}

#[test]
fn builder_store_cell_appends_bits_and_references() {
    let inner = Cell::new(vec![0b1100_0000], 2, vec![leaf(5)]).unwrap();
    let mut builder = CellBuilder::new();
    builder.store_bit(true).unwrap();
    builder.store_reference(&leaf(4)).unwrap();
    builder.store_cell(&inner).unwrap();
    let cell = builder.build().unwrap();
    assert_eq!(cell.bit_len(), 3);
    assert_eq!(cell.data(), &vec![0b1110_0000u8]);
    assert_eq!(cell.references().len(), 2);
    assert_eq!(cell.references()[1].data(), &vec![5u8]);
}

#[test]
fn integers_are_written_most_significant_bit_first() {
    let mut builder = CellBuilder::new();
    builder.store_u64(12, 0xabc).unwrap();
    builder.store_i64(4, -5).unwrap();
    builder.store_u32(8, 1).unwrap();
    builder.store_i32(8, -128).unwrap();
    let cell = builder.build().unwrap();
    assert_eq!(cell.data(), &vec![0xabu8, 0xcb, 0x01, 0x80]);
    let mut parser = cell.parser();
    assert_eq!(parser.load_u64(12).unwrap(), 0xabc);
    assert_eq!(parser.load_i64(4).unwrap(), -5);
    assert_eq!(parser.load_u8(8).unwrap(), 1);
    assert_eq!(parser.load_i32(8).unwrap(), -128);
    assert_eq!(parser.remaining_bits(), 0);
    assert!(parser.ensure_empty().is_ok());
}

#[test]
fn integers_that_do_not_fit_are_rejected() {
    let mut builder = CellBuilder::new();
    assert!(matches!(
        builder.store_u64(4, 16),
        Err(TonCellError::CellBuilderError(_))
    ));
    assert!(builder.store_u64(4, 15).is_ok());
    assert!(matches!(
        builder.store_i64(4, 8),
        Err(TonCellError::CellBuilderError(_))
    ));
    assert!(matches!(
        builder.store_i64(4, -9),
        Err(TonCellError::CellBuilderError(_))
    ));
    assert!(builder.store_i64(4, -8).is_ok());
    assert!(builder.store_i64(4, 7).is_ok());
    assert!(matches!(
        builder.store_u64(65, 0),
        Err(TonCellError::CellBuilderError(_))
    ));
    assert!(matches!(
        builder.store_i64(0, 0),
        Err(TonCellError::CellBuilderError(_))
    ));
    assert!(builder.store_u64(0, 0).is_ok());
    assert!(builder.store_u64(64, u64::MAX).is_ok());
    assert!(builder.store_i64(64, i64::MIN).is_ok());
    let cell = builder.build().unwrap();
    let mut parser = cell.parser();
    assert_eq!(parser.load_u64(4).unwrap(), 15);
    assert_eq!(parser.load_i64(4).unwrap(), -8);
    assert_eq!(parser.load_i64(4).unwrap(), 7);
    assert_eq!(parser.load_u64(64).unwrap(), u64::MAX);
    assert_eq!(parser.load_i64(64).unwrap(), i64::MIN);
}

#[test]
fn big_integers_round_trip() {
    let mut builder = CellBuilder::new();
    let big = BigUint::from(0x0123_4567_89ab_cdefu64);
    builder.store_uint(256, &big).unwrap();
    builder.store_uint(3, &BigUint::from(5u32)).unwrap();
    assert!(matches!(
        builder.store_uint(2, &BigUint::from(4u32)),
        Err(TonCellError::CellBuilderError(_))
    ));
    builder.store_uint(0, &BigUint::from(0u32)).unwrap();
    let cell = builder.build().unwrap();
    assert_eq!(cell.bit_len(), 259);
    assert_eq!(cell.data()[31], 0xef);
    assert_eq!(cell.data()[32], 0b1010_0000);
    let mut parser = cell.parser();
    let read = parser.load_uint(256).unwrap();
    assert_eq!(read, big);
    assert_eq!(read.to_u64(), Some(0x0123_4567_89ab_cdef));
    assert_eq!(read.bit_len(), 57);
    assert_eq!(parser.load_uint(3).unwrap().to_u64(), Some(5));
    assert!(matches!(
        parser.load_uint(1),
        Err(TonCellError::CellParserError(_))
    ));
}

#[test]
fn big_integer_wider_than_a_word() {
    let mut builder = CellBuilder::new();
    builder.store_bit(true).unwrap();
    builder.store_u64(64, 0).unwrap();
    let cell = builder.build().unwrap();
    let wide = cell.parser().load_uint(65).unwrap();
    assert_eq!(wide.to_u64(), None);
    assert_eq!(wide.bit_len(), 65);
    assert_eq!(BigUint::from(0u32).bit_len(), 0);
    assert_eq!(BigUint::from_bits(&vec![false, false, true, false]), BigUint::from(2u32));
    assert_eq!(
        BigUint::from(5u32).to_bits(4),
        Some(vec![false, true, false, true])
    );
    assert_eq!(BigUint::from(5u32).to_bits(2), None);
}

#[test]
fn parser_reads_fail_at_the_end_and_stay_put() {
    let cell = Cell::new(vec![0b1010_0000], 3, vec![leaf(1)]).unwrap();
    let mut parser = cell.parser();
    assert_eq!(parser.remaining_bits(), 3);
    assert_eq!(parser.remaining_refs(), 1);
    assert!(matches!(
        parser.load_bits(4),
        Err(TonCellError::CellParserError(_))
    ));
    assert!(matches!(
        parser.load_u64(4),
        Err(TonCellError::CellParserError(_))
    ));
    assert!(matches!(
        parser.skip_bits(4),
        Err(TonCellError::CellParserError(_))
    ));
    assert_eq!(parser.remaining_bits(), 3);
    assert!(parser.load_bit().unwrap());
    assert_eq!(parser.load_bits(2).unwrap(), vec![0b0100_0000u8]);
    assert!(matches!(
        parser.load_bit(),
        Err(TonCellError::CellParserError(_))
    ));
    assert!(matches!(
        parser.ensure_empty(),
        Err(TonCellError::CellParserError(_))
    ));
    assert_eq!(parser.next_reference().unwrap().data(), &vec![1u8]);
    assert!(matches!(
        parser.next_reference(),
        Err(TonCellError::CellParserError(_))
    ));
    assert!(parser.ensure_empty().is_ok());
}

#[test]
fn parser_load_remaining_takes_what_is_left() {
    let cell = Cell::new(vec![0b1011_0111, 0b0100_0000], 10, vec![leaf(1), leaf(2)]).unwrap();
    let mut parser = cell.parser();
    parser.skip_bits(3).unwrap();
    parser.next_reference().unwrap();
    let rest = parser.load_remaining().unwrap();
    assert_eq!(rest.bit_len(), 7);
    assert_eq!(rest.data(), &vec![0b1011_1010u8]);
    assert_eq!(rest.references().len(), 1);
    assert_eq!(rest.references()[0].data(), &vec![2u8]);
    assert_eq!(parser.remaining_bits(), 0);
    assert_eq!(parser.remaining_refs(), 0);
}

#[test]
fn slice_parser_reads_the_window_only() {
    let cell = Arc::new(
        Cell::new(
            vec![0b1011_0111, 0b0101_1010],
            16,
            vec![leaf(1), leaf(2), leaf(3)],
        )
        .unwrap(),
    );
    let slice = CellSlice::new(&cell, 3, 13, 1, 2).unwrap();
    let mut parser = slice.parser();
    assert_eq!(parser.remaining_bits(), 10);
    assert_eq!(parser.remaining_refs(), 1);
    assert_eq!(parser.load_u64(10).unwrap(), 0b10_1110_1011);
    assert!(matches!(
        parser.load_bit(),
        Err(TonCellError::CellParserError(_))
    ));
    assert_eq!(parser.next_reference().unwrap().data(), &vec![2u8]);
    assert!(matches!(
        parser.next_reference(),
        Err(TonCellError::CellParserError(_))
    ));
    assert_eq!(parser.cell().bit_len(), 16);
    let mut again = slice.parser();
    again.skip_bits(2).unwrap();
    assert_eq!(&again.load_remaining().unwrap(), &Cell::new(vec![0b1110_1011], 8, vec![leaf(2)]).unwrap());
}

#[test]
fn narrow_loads_refuse_wider_fields() {
    let cell = Cell::new(vec![0xde, 0xad, 0xbe, 0xef, 0x01], 40, vec![]).unwrap();
    let mut parser = cell.parser();
    assert!(matches!(
        parser.load_u32(33),
        Err(TonCellError::CellParserError(_))
    ));
    assert!(matches!(
        parser.load_u8(9),
        Err(TonCellError::CellParserError(_))
    ));
    assert!(matches!(
        parser.load_i32(33),
        Err(TonCellError::CellParserError(_))
    ));
    assert_eq!(parser.load_u32(32).unwrap(), 0xdead_beef);
    assert_eq!(parser.load_u8(0).unwrap(), 0);
    assert_eq!(parser.load_u8(8).unwrap(), 1);
}

#[test]
fn failed_reads_and_writes_say_what_was_asked() {
    let mut builder = CellBuilder::new();
    builder.store_u8(8, 1).unwrap();
    assert_eq!(
        builder.store_u64(4, 16),
        Err(TonCellError::CellBuilderError(
            "Value does not fit: bit_len: 4, stored: 8, max: 1023".to_string()
        ))
    );
    let cell = Cell::new(vec![0b1010_0000], 3, vec![]).unwrap();
    let mut parser = cell.parser();
    parser.skip_bits(1).unwrap();
    assert_eq!(
        parser.load_bits(4),
        Err(TonCellError::CellParserError(
            "Cannot load bits: requested: 4, position: 1, end: 3".to_string()
        ))
    );
    assert_eq!(
        parser.load_u64(100),
        Err(TonCellError::CellParserError(
            "Cannot load bits: requested: 100, position: 1, end: 3".to_string()
        ))
    );
}

#[test]
fn signed_big_integers_round_trip() {
    let mut builder = CellBuilder::new();
    builder.store_int(257, &BigInt::from_i64(-5)).unwrap();
    builder.store_int(4, &BigInt::from_i64(-8)).unwrap();
    builder.store_int(4, &BigInt::from_i64(7)).unwrap();
    builder.store_int(1, &BigInt::from_i64(-1)).unwrap();
    builder.store_int(1, &BigInt::from_i64(0)).unwrap();
    assert!(matches!(
        builder.store_int(4, &BigInt::from_i64(8)),
        Err(TonCellError::CellBuilderError(_))
    ));
    assert!(matches!(
        builder.store_int(4, &BigInt::from_i64(-9)),
        Err(TonCellError::CellBuilderError(_))
    ));
    assert!(matches!(
        builder.store_int(0, &BigInt::from_i64(0)),
        Err(TonCellError::CellBuilderError(_))
    ));
    assert!(matches!(
        builder.store_int(1, &BigInt::from_i64(1)),
        Err(TonCellError::CellBuilderError(_))
    ));
    let cell = builder.build().unwrap();
    assert_eq!(cell.bit_len(), 257 + 4 + 4 + 1 + 1);
    assert_eq!(cell.data()[0], 0xff);
    // -5 ends in 1111 1011: seven of these bits close byte 31
    assert_eq!(cell.data()[31], 0b1111_1101);
    // the last bit of -5, then 1000, 0111, 1, 0
    assert_eq!(cell.data()[32], 0b1_1000_011);
    assert_eq!(cell.data()[33], 0b1_1_0_00000);
    let mut parser = cell.parser();
    let read = parser.load_int(257).unwrap();
    assert_eq!(read, BigInt::from_i64(-5));
    assert_eq!(read.to_i64(), Some(-5));
    assert_eq!(parser.load_int(4).unwrap().to_i64(), Some(-8));
    assert_eq!(parser.load_int(4).unwrap().to_i64(), Some(7));
    assert_eq!(parser.load_int(1).unwrap().to_i64(), Some(-1));
    assert!(matches!(
        parser.load_int(0),
        Err(TonCellError::CellParserError(_))
    ));
    assert_eq!(parser.load_int(1).unwrap(), BigInt::from_i64(0));
    assert!(matches!(
        parser.load_int(1),
        Err(TonCellError::CellParserError(_))
    ));
}

#[test]
fn signed_big_integer_wider_than_a_word() {
    let mut builder = CellBuilder::new();
    builder.store_bit(true).unwrap();
    builder.store_u64(64, 0).unwrap();
    builder.store_bit(false).unwrap();
    builder.store_u64(64, u64::MAX).unwrap();
    let cell = builder.build().unwrap();
    let mut parser = cell.parser();
    let low = parser.load_int(65).unwrap();
    let high = parser.load_int(65).unwrap();
    assert_eq!(low.to_i64(), None);
    assert_eq!(high.to_i64(), None);
    assert_ne!(low, high);
    assert_eq!(low.to_bits(65), Some({
        let mut bits = vec![false; 65];
        bits[0] = true;
        bits
    }));
    assert_eq!(low.to_bits(64), None);
    assert_eq!(BigInt::from_i64(i64::MIN).to_i64(), Some(i64::MIN));
    assert_eq!(BigInt::from_i64(i64::MAX).to_i64(), Some(i64::MAX));
    assert_eq!(BigInt::from_i64(-3).to_bits(4), Some(vec![true, true, false, true]));
    assert_eq!(
        BigInt::from_bits(&vec![true, true, true, false, true]),
        BigInt::from_i64(-3)
    );
    assert_eq!(BigInt::from_bits(&vec![]), BigInt::from_i64(0));
}
