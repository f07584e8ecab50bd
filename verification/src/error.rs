use vstd::prelude::*;

verus! {

/// Errors of the shuffler.
///
/// `FormatError`: a byte range is not a whole number of records.
/// `IOError`: a file could not be opened, read or written (raised by the
/// surrounding program; the in-memory core never produces it).
/// `InvariantViolation`: a selection was asked of an empty population
/// (the verified selection never produces it; callers that drive the
/// merge loop themselves may still report it).
#[derive(Clone, Copy, Debug, PartialEq, Eq, Structural)]
pub enum ShuffleError {
    FormatError,
    IOError,
    InvariantViolation,
}

} // verus!
