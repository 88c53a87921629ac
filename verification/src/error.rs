//! The ways an encoding request can be refused.

use vstd::prelude::*;

verus! {

/// Why an input was rejected.
#[derive(Clone, Copy, Debug, PartialEq, Eq, Structural)]
pub enum EncodeError {
    /// The lower bound of an interval is not strictly below its upper bound.
    InvalidRange,
    /// The value to quantize lies outside its interval.
    ValueOutOfRange,
    /// Two bit sequences that must have the same length do not.
    LengthMismatch,
}

impl EncodeError {
    /// A short description of the error.
    pub fn message(&self) -> (s: &'static str)
        ensures
            s@ == match *self {
                EncodeError::InvalidRange => "invalid range"@,
                EncodeError::ValueOutOfRange => "value out of range"@,
                EncodeError::LengthMismatch => "bit sequences differ in length"@,
            },
    {
        match self {
            EncodeError::InvalidRange => "invalid range",
            EncodeError::ValueOutOfRange => "value out of range",
            EncodeError::LengthMismatch => "bit sequences differ in length",
        }
    }
}

} // verus!
