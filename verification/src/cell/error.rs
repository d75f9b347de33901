//! The recoverable failures of the cell layer.
use vstd::prelude::*;

verus! {

/// A failure of a cell operation. None of them is fatal: the caller decides
/// whether to give up or to try something else.
#[derive(Debug, Clone, PartialEq, Eq)]
pub enum TonCellError {
    /// A bag of cells could not be decoded.
    BagOfCellsDeserializationError(String),
    /// A bag of cells could not be encoded.
    BagOfCellsSerializationError(String),
    /// A write would have exceeded a cell's capacity, or its value does not fit.
    CellBuilderError(String),
    /// A cell, a slice or a read does not stay within the data it refers to.
    CellParserError(String),
    /// A reference index outside of a window of `ref_count` references.
    InvalidIndex { idx: usize, ref_count: usize },
}

/// The character of the decimal digit `d`.
pub open spec fn digit(d: nat) -> char {
    if d == 0 {
        '0'
    } else if d == 1 {
        '1'
    } else if d == 2 {
        '2'
    } else if d == 3 {
        '3'
    } else if d == 4 {
        '4'
    } else if d == 5 {
        '5'
    } else if d == 6 {
        '6'
    } else if d == 7 {
        '7'
    } else if d == 8 {
        '8'
    } else {
        '9'
    }
}

/// `n` in decimal digits, without a sign and without leading zeros.
pub open spec fn decimal(n: nat) -> Seq<char>
    decreases n,
{
    if n < 10 {
        seq![digit(n)]
    } else {
        decimal(n / 10).push(digit(n % 10))
    }
}

/// The message of three labelled numbers: each text, followed by its number
/// in decimal digits.
pub open spec fn described(
    first: Seq<char>,
    a: nat,
    second: Seq<char>,
    b: nat,
    third: Seq<char>,
    c: nat,
) -> Seq<char> {
    first + decimal(a) + second + decimal(b) + third + decimal(c)
}

/// Joins three labelled numbers into one message with `format!`.
///
/// Each of the six arguments is written with `{}`: a text as it is, and a
/// number in decimal digits, which is how `Display` writes a `usize`. The
/// contract restates that and is not proved.
#[verifier::external_body]
pub(crate) fn describe(first: &str, a: usize, second: &str, b: usize, third: &str, c: usize) -> (text:
    String)
    ensures
        text@ == described(first@, a as nat, second@, b as nat, third@, c as nat),
{
    format!("{}{}{}{}{}{}", first, a, second, b, third, c)
}

} // verus!
