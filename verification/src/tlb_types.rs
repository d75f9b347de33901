//! Typed values and how they are laid out in cells.
pub mod primitives;
pub mod tlb;
