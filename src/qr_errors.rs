use vstd::prelude::*;

verus! {

/// Why a payload could not be encoded.
#[derive(Clone, Copy, Debug, PartialEq, Eq, Structural)]
pub enum ErrorKind {
    /// The payload is empty.
    InputEmpty,
    /// The payload holds a character outside the requested mode's alphabet.
    ModeIncompatible,
    /// No supported symbol holds the payload, or the given one is too small.
    OverCapacity,
    /// The family, version, level or mode is outside what is implemented.
    UnsupportedConfiguration,
    /// The data codewords do not match the error-correction block shape.
    BlockMismatch,
}

/// An encoding failure.
#[derive(Clone, Copy, Debug, PartialEq, Eq, Structural)]
pub struct EncodingError {
    pub kind: ErrorKind,
}

impl EncodingError {
    pub fn new(kind: ErrorKind) -> (r: Self)
        ensures
            r.kind == kind,
    {
        EncodingError { kind }
    }
}

} // verus!
