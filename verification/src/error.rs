use vstd::prelude::*;

verus! {

/// Why a precomputation request was turned down.
#[derive(Clone, Copy, Debug, PartialEq, Eq, Structural)]
pub enum PrecomputeError {
    /// The row count is zero or does not divide the number of chunks.
    InvalidShape,
    /// A row of the chunk matrix holds no nonzero chunk.
    EmptyRow,
    /// A scalar is not a string of hexadecimal digits.
    MalformedInput,
}

} // verus!
