//! The cell as a spreadsheet stores it.

use crate::number::Number;
use vstd::prelude::*;

verus! {

/// One cell as stored, with no hint of what it stands for beyond its kind:
/// whether a number is a date, a count or an amount is for the reader to
/// decide.
#[derive(Clone, Debug, PartialEq)]
pub enum RawCell {
    /// Text.
    Text(String),
    /// A binary64 number.
    Number(Number),
    /// A whole number.
    Integer(i64),
    /// A cell marked as a date, holding the date's day count from the
    /// epoch. Only the table writer reads it; to the conversions it is a
    /// cell of another kind.
    DateTime(Number),
    /// A truth value.
    Boolean(bool),
    /// A blank cell, or no cell at all at the position asked for.
    Empty,
    /// Any other kind: an error value, a duration, a date kept as text.
    Other,
}

} // verus!
