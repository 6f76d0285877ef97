//! The errors that the codec can return.

use vstd::prelude::*;

verus! {

/// Why an encode, a decode, or a grid construction was refused.
///
/// Parameter errors (`WidthOutOfRange`, `RowCountMismatch`, `LabelColumns`)
/// mean the caller handed inconsistent arguments; `LengthNotDivisible` means
/// the file is corrupt or was written with other parameters; and
/// `FlatLengthMismatch` means a grid was requested whose shape does not match
/// the number of values supplied. I/O errors never arise here: the codec works
/// on in-memory byte buffers only.
#[derive(Clone, Copy, Debug, PartialEq, Eq, Structural)]
pub enum DenseError {
    /// A requested byte width is 0 or greater than 8.
    WidthOutOfRange,
    /// The data grid and the label grid do not have the same number of rows.
    RowCountMismatch,
    /// The label grid does not have exactly one column.
    LabelColumns,
    /// The byte buffer's length is not a multiple of the record size.
    LengthNotDivisible,
    /// A flat value sequence does not hold exactly rows * columns values.
    FlatLengthMismatch,
}

} // verus!
