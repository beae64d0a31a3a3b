use vstd::prelude::*;

verus! {

/// The ways a pipeline stage can fail. Every failure is terminal: no stage
/// retries, and no stage returns a partial result.
#[derive(Clone, Copy, Debug, PartialEq, Eq, Structural)]
pub enum CodecError {
    /// The alphabet has too many distinct symbols for single-byte codes.
    TooManyUniqueSymbols,
    /// A character to encode has no entry in the code mapping.
    UnmappedSymbol,
    /// A byte to decode has no entry in the reverse mapping; carries the
    /// offending byte.
    InvalidByte(u8),
}

} // verus!
