//! Errors reported by the host-side schedules.
use vstd::prelude::*;

verus! {

/// Failure of a host-side validation before any stage runs.
#[derive(Debug, Clone, PartialEq, Eq)]
pub enum Error {
    /// A length or count does not fit the 32-bit device index domain.
    LengthTooLarge { len: usize },
    /// Two inputs that must be aligned row by row have different lengths.
    LengthMismatch { left: usize, right: usize },
    /// An output cannot hold every row that the operation may write.
    OutputTooShort { input: usize, output: usize },
    /// A stage could not be set up; the message says why.
    Launch { message: String },
}

} // verus!
