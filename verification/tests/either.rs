use std::sync::Arc;
use tonlib_cell::{
    ArcCell, BigUint, Cell, CellBuilder, CellParser, Either, EitherRef, EitherRefLayout,
    TonCellError, TLB,
};

#[derive(Debug, PartialEq, Clone)]
struct TestType1 {
    value: i32,
}

#[derive(Debug, PartialEq, Clone)]
struct TestType2 {
    value: i64,
}

impl TLB for TestType1 {
    fn read_definition(parser: &mut CellParser) -> Result<Self, TonCellError> {
        Ok(TestType1 {
            value: parser.load_i32(32)?,
        })
    }

    fn write_definition(&self, dst: &mut CellBuilder) -> Result<(), TonCellError> {
        dst.store_i32(32, self.value)?;
        Ok(())
    }
}

impl TLB for TestType2 {
    fn read_definition(parser: &mut CellParser) -> Result<Self, TonCellError> {
        Ok(TestType2 {
            value: parser.load_i64(64)?,
        })
    }

    fn write_definition(&self, dst: &mut CellBuilder) -> Result<(), TonCellError> {
        dst.store_i64(64, self.value)?;
        Ok(())
    }
}

#[derive(Debug, PartialEq, Clone)]
enum List {
    Empty,
    Cons(Item),
}

impl TLB for List {
    fn read_definition(parser: &mut CellParser) -> Result<Self, TonCellError> {
        let r = parser.remaining_bits();
        println!("{r}");
        if parser.remaining_bits() == 0 {
            Ok(Self::Empty)
        } else {
            Ok(Self::Cons(Item::read(parser)?))
        }
    }

    fn write_definition(&self, dst: &mut CellBuilder) -> Result<(), TonCellError> {
        match self {
            List::Empty => {}
            List::Cons(swap_metadata_list_some) => swap_metadata_list_some.write(dst)?,
        }
        Ok(())
    }
}

#[derive(Debug, PartialEq, Clone)]
struct Item {
    next: EitherRef<ArcCell>,
    number1: BigUint,
    number2: BigUint,
    number3: BigUint,
}

impl TLB for Item {
    fn read_definition(parser: &mut CellParser) -> Result<Self, TonCellError> {
        Ok(Self {
            number1: parser.load_uint(256)?,
            number2: parser.load_uint(256)?,
            number3: parser.load_uint(256)?,
            next: TLB::read(parser)?,
        })
    }

    fn write_definition(&self, dst: &mut CellBuilder) -> Result<(), TonCellError> {
        dst.store_uint(256, &self.number1)?;
        dst.store_uint(256, &self.number2)?;
        dst.store_uint(256, &self.number3)?;
        self.next.write(dst)?;
        Ok(())
    }
}

#[test]
fn test_either_ref() -> Result<(), TonCellError> {
    let obj1 = EitherRef {
        value: TestType1 { value: 1 },
        layout: EitherRefLayout::ToCell,
    };

    let obj2 = EitherRef {
        value: TestType2 { value: 2 },
        layout: EitherRefLayout::ToRef,
    };

    let obj3 = EitherRef {
        value: TestType1 { value: 3 },
        layout: EitherRefLayout::Native,
    };

    let mut builder = CellBuilder::new();
    obj1.write(&mut builder)?;
    obj2.write(&mut builder)?;
    obj3.write(&mut builder)?;
    let cell = builder.build()?;
    let mut parser = cell.parser();
    let parsed_obj1: EitherRef<TestType1> = parser.load_tlb()?;
    let parsed_obj2: EitherRef<TestType2> = parser.load_tlb()?;
    let parsed_obj3: EitherRef<TestType1> = parser.load_tlb()?;
    assert_eq!(obj1, parsed_obj1);
    assert_eq!(obj2, parsed_obj2);
    assert_eq!(obj3.value, parsed_obj3.value);
    assert_eq!(parsed_obj3.layout, EitherRefLayout::ToCell);

    // check layout
    let mut parser = cell.parser();
    assert!(!parser.load_bit()?); // to_cell
    assert!(parser.load_bits(32).is_ok()); // skipping
    assert!(parser.load_bit()?); // to_ref
    assert_eq!(parser.cell().references().len(), 1);
    assert!(!parser.load_bit()?); // to_cell
    assert!(parser.load_bits(32).is_ok()); // skipping
    Ok(())
}

#[test]
fn test_either() -> Result<(), TonCellError> {
    let obj1: Either<TestType1, TestType2> = Either::Left(TestType1 { value: 1 });
    let obj2: Either<TestType1, TestType2> = Either::Right(TestType2 { value: 2 });
    let mut builder = CellBuilder::new();
    obj1.write(&mut builder)?;
    obj2.write(&mut builder)?;
    let cell = builder.build()?;
    let mut parser = cell.parser();
    let parsed_obj1 = parser.load_tlb()?;
    let parsed_obj2 = parser.load_tlb()?;
    assert_eq!(obj1, parsed_obj1);
    assert_eq!(obj2, parsed_obj2);

    // check raw data
    let mut parser = cell.parser();
    assert!(!parser.load_bit()?);
    assert!(parser.load_bits(32).is_ok()); // skipping
    assert!(parser.load_bit()?);
    Ok(())
}

#[test]
fn test_either_recursive() -> Result<(), TonCellError> {
    let new_list = List::Cons(Item {
        next: EitherRef {
            value: List::Cons(Item {
                next: EitherRef {
                    value: List::Empty.to_cell()?.to_arc(),
                    layout: EitherRefLayout::Native,
                },
                number1: BigUint::from(1u32),
                number2: BigUint::from(2u32),
                number3: BigUint::from(3u32),
            })
            .to_cell()?
            .to_arc(),
            layout: EitherRefLayout::Native,
        },
        number1: BigUint::from(1u32),
        number2: BigUint::from(2u32),
        number3: BigUint::from(3u32),
    });

    let result = new_list.to_cell()?;
    println!("{result:?}");
    Ok(())
}

#[test]
fn either_recursive_list_reads_back() -> Result<(), TonCellError> {
    let inner = List::Cons(Item {
        next: EitherRef {
            value: List::Empty.to_cell()?.to_arc(),
            layout: EitherRefLayout::Native,
        },
        number1: BigUint::from(1u32),
        number2: BigUint::from(2u32),
        number3: BigUint::from(3u32),
    });
    let outer = List::Cons(Item {
        next: EitherRef {
            value: inner.to_cell()?.to_arc(),
            layout: EitherRefLayout::Native,
        },
        number1: BigUint::from(4u32),
        number2: BigUint::from(5u32),
        number3: BigUint::from(6u32),
    });
    let cell = outer.to_cell()?;
    // three numbers of 256 bits and the discriminator; the tail went behind a reference
    assert_eq!(cell.bit_len(), 769);
    assert_eq!(cell.references().len(), 1);
    let read = List::from_cell(&cell)?;
    assert_eq!(read, outer);
    match read {
        List::Cons(item) => {
            assert!(matches!(item.next.layout, EitherRefLayout::ToRef));
            let read_inner = List::from_cell(&item.next.value)?;
            assert_eq!(read_inner, inner);
            match read_inner {
                List::Cons(inner_item) => {
                    // the empty list has no bits, so it fits in place
                    assert!(matches!(inner_item.next.layout, EitherRefLayout::ToCell));
                    assert_eq!(List::from_cell(&inner_item.next.value)?, List::Empty);
                }
                List::Empty => panic!("the inner list has one item"),
            }
        }
        List::Empty => panic!("the outer list has one item"),
    }
    assert_eq!(List::from_cell(&List::Empty.to_cell()?)?, List::Empty);
    let _ = Arc::new(Cell::new(vec![], 0, vec![])?);
    Ok(())
}

#[test]
fn either_ref_native_goes_in_place_only_where_it_fits() -> Result<(), TonCellError> {
    // 32 bits of value: in place where more than 32 bits are left
    let value = EitherRef::new(TestType1 { value: -7 });
    let mut roomy = CellBuilder::new();
    roomy.store_bits(1023 - 33, &vec![0; 128])?;
    assert_eq!(roomy.remaining_bits(), 33);
    value.write(&mut roomy)?;
    assert_eq!(roomy.remaining_bits(), 0);
    let cell = roomy.build()?;
    assert_eq!(cell.references().len(), 0);
    let mut parser = cell.parser();
    parser.skip_bits(1023 - 33)?;
    let read: EitherRef<TestType1> = parser.load_tlb()?;
    assert!(matches!(read.layout, EitherRefLayout::ToCell));
    assert_eq!(read, value);

    // behind a reference where exactly 32 bits are left
    let mut tight = CellBuilder::new();
    tight.store_bits(1023 - 32, &vec![0; 128])?;
    assert_eq!(tight.remaining_bits(), 32);
    value.write(&mut tight)?;
    assert_eq!(tight.remaining_bits(), 31);
    let cell = tight.build()?;
    assert_eq!(cell.references().len(), 1);
    assert_eq!(cell.references()[0].bit_len(), 32);
    let mut parser = cell.parser();
    parser.skip_bits(1023 - 32)?;
    let read: EitherRef<TestType1> = parser.load_tlb()?;
    assert!(matches!(read.layout, EitherRefLayout::ToRef));
    assert_eq!(read, value);
    assert_eq!(read.value.value, -7);
    Ok(())
}

#[test]
fn either_ref_native_ignores_the_room_for_references() -> Result<(), TonCellError> {
    let value = EitherRef::new(TestType1 { value: 1 });
    let mut builder = CellBuilder::new();
    builder.store_bits(1023 - 32, &vec![0; 128])?;
    for _ in 0..4 {
        builder.store_child(Cell::new(vec![], 0, vec![])?)?;
    }
    assert!(matches!(
        value.write(&mut builder),
        Err(TonCellError::CellBuilderError(_))
    ));
    Ok(())
}

#[test]
fn either_ref_forced_layouts_fail_where_they_do_not_fit() -> Result<(), TonCellError> {
    let in_place = EitherRef {
        value: TestType2 { value: 5 },
        layout: EitherRefLayout::ToCell,
    };
    let mut builder = CellBuilder::new();
    builder.store_bits(1023 - 64, &vec![0; 128])?;
    assert!(matches!(
        in_place.write(&mut builder),
        Err(TonCellError::CellBuilderError(_))
    ));
    let full = {
        let mut builder = CellBuilder::new();
        builder.store_bits(1023, &vec![0; 128])?;
        builder
    };
    let mut builder = full;
    let by_ref = EitherRef {
        value: TestType2 { value: 5 },
        layout: EitherRefLayout::ToRef,
    };
    assert!(by_ref.write(&mut builder).is_err());
    Ok(())
}

#[test]
fn either_read_fails_on_an_empty_cell() -> Result<(), TonCellError> {
    let cell = Cell::new(vec![], 0, vec![])?;
    let read: Result<Either<TestType1, TestType2>, TonCellError> = cell.parser().load_tlb();
    assert!(matches!(read, Err(TonCellError::CellParserError(_))));
    let read: Result<EitherRef<TestType1>, TonCellError> = cell.parser().load_tlb();
    assert!(matches!(read, Err(TonCellError::CellParserError(_))));
    // the discriminator asks for a reference that is not there
    let lone_bit = Cell::new(vec![0x80], 1, vec![])?;
    let read: Result<EitherRef<TestType1>, TonCellError> = lone_bit.parser().load_tlb();
    assert!(matches!(read, Err(TonCellError::CellParserError(_))));
    Ok(())
}

#[test]
fn either_takes_one_bit_per_value() -> Result<(), TonCellError> {
    let left: Either<TestType1, TestType2> = Either::Left(TestType1 { value: 1 });
    let right: Either<TestType1, TestType2> = Either::Right(TestType2 { value: 2 });
    let mut builder = CellBuilder::new();
    left.write(&mut builder)?;
    assert_eq!(builder.remaining_bits(), 1023 - 33);
    right.write(&mut builder)?;
    assert_eq!(builder.remaining_bits(), 1023 - 33 - 65);
    let cell = builder.build()?;
    let mut parser = cell.parser();
    let first: Either<TestType1, TestType2> = parser.load_tlb()?;
    assert_eq!(parser.remaining_bits(), 65);
    let second: Either<TestType1, TestType2> = parser.load_tlb()?;
    assert_eq!(parser.remaining_bits(), 0);
    assert_eq!((first, second), (left, right));
    Ok(())
}

#[test]
fn layouts_compare_with_native_as_a_wildcard() {
    assert_eq!(EitherRefLayout::Native, EitherRefLayout::ToCell);
    assert_eq!(EitherRefLayout::ToRef, EitherRefLayout::Native);
    assert_eq!(EitherRefLayout::Native, EitherRefLayout::Native);
    assert_eq!(EitherRefLayout::ToCell, EitherRefLayout::ToCell);
    assert_ne!(EitherRefLayout::ToCell, EitherRefLayout::ToRef);
    assert_ne!(EitherRefLayout::ToRef, EitherRefLayout::ToCell);
}

#[test]
fn cells_are_values_that_take_what_is_left() -> Result<(), TonCellError> {
    let inner = Cell::new(vec![0b1010_0000], 3, vec![Cell::new(vec![], 0, vec![])?.to_arc()])?;
    let wrapped = EitherRef {
        value: inner.clone(),
        layout: EitherRefLayout::ToCell,
    };
    let cell = wrapped.to_cell()?;
    assert_eq!(cell.bit_len(), 4);
    assert_eq!(cell.data(), &vec![0b0101_0000u8]);
    let read: EitherRef<Cell> = TLB::from_cell(&cell)?;
    assert_eq!(read, wrapped);
    let by_ref = EitherRef {
        value: inner.to_arc(),
        layout: EitherRefLayout::ToRef,
    };
    let cell = by_ref.to_cell()?;
    assert_eq!(cell.bit_len(), 1);
    assert_eq!(cell.references().len(), 1);
    let read: EitherRef<ArcCell> = TLB::from_cell(&cell)?;
    assert_eq!(read, by_ref);
    Ok(())
}

#[test]
fn builder_and_parser_take_values() -> Result<(), TonCellError> {
    let value: Either<TestType1, TestType2> = Either::Right(TestType2 { value: -2 });
    let mut builder = CellBuilder::new();
    builder.store_tlb(&value)?;
    builder.store_tlb(&TestType1 { value: 9 })?;
    let cell = builder.build()?;
    assert_eq!(cell.bit_len(), 1 + 64 + 32);
    let mut parser = cell.parser();
    let read: Either<TestType1, TestType2> = parser.load_tlb()?;
    assert_eq!(read, value);
    assert_eq!(parser.load_tlb::<TestType1>()?, TestType1 { value: 9 });
    assert_ne!(read, Either::Left(TestType1 { value: -2 }));
    Ok(())
}

#[test]
fn layout_store_hands_a_failed_value_on() -> Result<(), TonCellError> {
    let mut builder = CellBuilder::new();
    builder.store_u8(3, 5)?;
    let failed = TonCellError::CellParserError("no value".to_string());
    for layout in [
        EitherRefLayout::ToCell,
        EitherRefLayout::ToRef,
        EitherRefLayout::Native,
    ] {
        assert_eq!(layout.store(Err(failed.clone()), &mut builder), Err(failed.clone()));
        assert_eq!(builder.remaining_bits(), 1023 - 3);
        assert_eq!(builder.remaining_references(), 4);
    }
    Ok(())
}

#[test]
fn layout_store_that_does_not_fit_keeps_the_bit_alone() -> Result<(), TonCellError> {
    let value = Cell::new(vec![0xff; 8], 64, vec![])?;
    // in place by force: the bit is written, the 64 bits have no room
    let mut builder = CellBuilder::new();
    builder.store_bits(1023 - 64, &vec![0; 128])?;
    assert!(matches!(
        EitherRefLayout::ToCell.store(Ok(value.clone()), &mut builder),
        Err(TonCellError::CellBuilderError(_))
    ));
    assert_eq!(builder.remaining_bits(), 63);
    assert_eq!(builder.remaining_references(), 4);
    // behind a reference by force: the bit is written, no reference is free
    let mut builder = CellBuilder::new();
    for _ in 0..4 {
        builder.store_reference(&Cell::new(vec![], 0, vec![])?.to_arc())?;
    }
    assert!(matches!(
        EitherRefLayout::ToRef.store(Ok(value.clone()), &mut builder),
        Err(TonCellError::CellBuilderError(_))
    ));
    assert_eq!(builder.remaining_bits(), 1022);
    assert_eq!(builder.remaining_references(), 0);
    // a full builder takes nothing
    let mut builder = CellBuilder::new();
    builder.store_bits(1023, &vec![0; 128])?;
    assert!(matches!(
        EitherRefLayout::Native.store(Ok(value.clone()), &mut builder),
        Err(TonCellError::CellBuilderError(_))
    ));
    assert_eq!(builder.remaining_bits(), 0);
    assert_eq!(builder.remaining_references(), 4);
    // where it fits, in place and behind a reference
    let mut builder = CellBuilder::new();
    EitherRefLayout::Native.store(Ok(value.clone()), &mut builder)?;
    EitherRefLayout::ToRef.store(Ok(value), &mut builder)?;
    let cell = builder.build()?;
    assert_eq!(cell.bit_len(), 1 + 64 + 1);
    assert_eq!(cell.references().len(), 1);
    assert_eq!(cell.data()[0], 0b0111_1111);
    assert_eq!(cell.data()[8], 0b1100_0000);
    Ok(())
}
