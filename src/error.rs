use vstd::prelude::*;

verus! {

/// The ways an operation of this library can fail.
#[derive(Clone, Copy, Debug, PartialEq, Eq, Structural)]
pub enum LatticeError {
    /// A source could not be read or a destination could not be written.
    Io,
    /// Text could not be read as rows, or as a rectangular matrix of numbers.
    Format,
    /// The inner dimensions of a matrix product differ.
    DimensionMismatch,
    /// No invertible key was found within the allowed number of attempts.
    SingularKey,
    /// A byte sequence is not valid UTF-8 text.
    Decode,
    /// A recovered matrix cell does not fit in one byte.
    Range,
}

impl LatticeError {
    /// A short human-readable description of the error.
    pub fn message(&self) -> (r: &'static str)
        ensures
            match self {
            LatticeError::Io => r@ == "input could not be read or output could not be written"@,
            LatticeError::Format => r@ == "input is not in the expected format"@,
            LatticeError::DimensionMismatch => r@ == "incompatible dimensions for matrix multiplication"@,
            LatticeError::SingularKey => r@ == "no invertible key matrix was found"@,
            LatticeError::Decode => r@ == "recovered bytes are not valid UTF-8 text"@,
            LatticeError::Range => r@ == "recovered value does not fit in one byte"@,
            },
    {
        match self {
            LatticeError::Io => "input could not be read or output could not be written",
            LatticeError::Format => "input is not in the expected format",
            LatticeError::DimensionMismatch => "incompatible dimensions for matrix multiplication",
            LatticeError::SingularKey => "no invertible key matrix was found",
            LatticeError::Decode => "recovered bytes are not valid UTF-8 text",
            LatticeError::Range => "recovered value does not fit in one byte",
        }
    }
}

} // verus!
