//! Cells, the bit-packed nodes of a directed acyclic graph, with cursors that
//! read and write them bit by bit, and the typed codec built on those cursors.
//!
//! Every contract is stated over [`cell::model::CellView`], the mathematical
//! content of a cell: a sequence of bits and a sequence of child contents.
pub mod cell;
pub mod library;
pub mod tlb_types;

pub use cell::error::TonCellError;
pub use cell::hash::TonHash;
pub use cell::model::CellView;
pub use cell::bag_of_cells::BagOfCells;
pub use cell::bigint::BigInt;
pub use cell::biguint::BigUint;
pub use cell::builder::CellBuilder;
pub use cell::parser::CellParser;
pub use cell::slice::CellSlice;
pub use cell::{ArcCell, Cell};
pub use library::{LibraryCacheParams, TonLibraryError};
pub use tlb_types::primitives::either::{Either, EitherRef, EitherRefLayout};
pub use tlb_types::tlb::TLB;
