//! What can be wrong with a matrix or with the bytes of a file.

use vstd::prelude::*;

verus! {

/// A violated invariant, with the value that was expected and the one that was found.
#[derive(Debug, Clone, Copy, PartialEq, Eq, Structural)]
pub enum FormatError {
    /// The gzip layer could not be decoded.
    Compression,
    /// The number of cells on hand differs from the number of cells of the matrix.
    CellCount { expected: usize, found: usize },
    /// A bit vector or a dense row has the wrong length.
    RowLength { expected: usize, found: usize },
    /// The number of values of a cell differs from the number of features its bit vector marks.
    ValueCount { expected: usize, found: usize },
    /// A feature index is not below the number of features.
    FeatureRange { feature: usize, limit: usize },
    /// A cell index is not below the number of cells.
    CellRange { cell: usize, limit: usize },
    /// The input ends within a bit vector: the bytes it has, and those that are left.
    TruncatedBits { expected: usize, found: usize },
    /// The input ends within the values of a cell: the values it has, and
    /// those that are left in full.
    TruncatedValues { expected: usize, found: usize },
    /// A line of text, counted from 1, is not of the form that its place asks for.
    Syntax { line: usize },
    /// A count or an index is above `limit`, the most that its place can hold.
    TooLarge { limit: usize },
    /// A text cannot be parted into records of fields.
    Malformed,
    /// A text has no line with the size of the matrix.
    NoSizeLine,
    /// The dimensions that a file declares differ from those of the matrix.
    Dimensions { expected_cells: usize, expected_features: usize, found_cells: usize, found_features: usize },
}

} // verus!
