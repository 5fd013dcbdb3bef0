//! The errors of the library.
use vstd::prelude::*;

verus! {

/// An error that the library can produce.
///
/// There are a few families of errors:
/// - related to _linear algebra_
/// - related to FEC
/// - related to proving the shards
#[derive(Debug, PartialEq)]
pub enum KomodoError {
    /// Rows of a matrix should all have the same length `expected`, but row
    /// `row` has length `found`.
    InvalidMatrixElements { expected: usize, found: usize, row: usize },
    /// `{0}` and `{1}` are the shape of the rectangular matrix.
    NonSquareMatrix(usize, usize),
    /// `{0}` is the ID of the row where the matrix inversion failed.
    NonInvertibleMatrix(usize),
    /// The shapes of two matrices that cannot be multiplied.
    IncompatibleMatrixShapes { left: (usize, usize), right: (usize, usize) },
    /// Two seed points of a Vandermonde matrix are the same.
    InvalidVandermonde { first_index: usize, second_index: usize, value_repr: String },
    /// `{0}` is the actual number of shards and `{1}` is the expected amount.
    TooFewShards(usize, usize),
    /// Two shards that should come from the same data differ in `key`.
    IncompatibleShards { key: String, index: usize, left: String, right: String },
    /// Two blocks that should come from the same data differ in `key`.
    IncompatibleBlocks { key: String, index: usize, left: String, right: String },
    /// A trusted setup was asked for degree zero.
    DegreeIsZero,
    /// A polynomial has more coefficients than there are powers in a trusted setup.
    TooFewPowersInTrustedSetup { powers: usize, coefficients: usize },
    /// `{0}` is a custom error message.
    Other(String),
}

} // verus!
