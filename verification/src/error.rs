//! Error kinds of the grid pipeline.

use vstd::prelude::*;

verus! {

/// What can go wrong while parsing a grid or deriving images from it.
///
/// Reading and writing files is the caller's business; the kinds here cover
/// only the in-memory pipeline.
#[derive(Clone, Copy, Debug, PartialEq, Eq, Structural)]
pub enum GridError {
    /// A required header field is absent, out of order, or non-numeric.
    MalformedHeader,
    /// A data cell is not a decimal number the grid accepts.
    MalformedValue,
    /// The number of complete data rows differs from the declared `nrows`.
    RowCountMismatch,
    /// The data values do not divide evenly into rows of `ncols` cells.
    ColumnCountMismatch,
    /// Two rasters that must share dimensions do not.
    DimensionMismatch,
}

} // verus!
