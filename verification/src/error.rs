use vstd::prelude::*;

verus! {

/// Why an operation of the coder failed.
#[derive(Debug, Clone, Copy, PartialEq, Eq, Structural)]
pub enum CodingError {
    /// Writing out bytes failed: serialising the table gave no bytes.
    Io,
    /// The input has too many bytes for the chosen precision.
    InputTooLarge,
    /// The chosen register bounds leave too few bits to code with.
    BadPrecision,
    /// A byte was looked up that the table never saw.
    UnknownSymbol,
    /// A cumulative value at or beyond the table's total was looked up.
    ValueOutOfRange,
    /// The code register left the coding interval, or the trailer does not
    /// fit the length of the container.
    Corrupt,
    /// The container's layout is broken.
    BadContainer,
}

} // verus!
