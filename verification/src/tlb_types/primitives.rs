//! The sum types that the schema language builds on.
pub mod either;
