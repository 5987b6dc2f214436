//! Failures of building a decoder and of decoding a reading.

use vstd::prelude::*;

verus! {

/// Why a puzzle line, or one of its output words, could not be decoded.
#[derive(Debug, Clone, Copy, PartialEq, Eq, Structural)]
pub enum DecodeError {
    /// An input word lights a number of wires that no digit lights.
    MalformedCodeword,
    /// A full pass over the undecided words settled none of them.
    UnsolvableConstraints,
    /// The word is not one of the inputs, or its digit was never settled.
    UnrecognizedOutput,
}

} // verus!
