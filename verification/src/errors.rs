//! The failures that the library reports.

use vstd::prelude::*;

verus! {

/// Why an operation of this library refused its input.
#[derive(Clone, Copy, Debug, PartialEq, Eq, Structural)]
pub enum CrypError {
    /// Two operands that must have the same length do not.
    LengthMismatch,
    /// The text is not a well-formed hexadecimal or Base64 encoding.
    InvalidEncoding,
    /// The ciphertext is too short for every key length in the requested range.
    InsufficientData,
}

} // verus!
