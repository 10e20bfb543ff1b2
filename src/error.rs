use vstd::prelude::*;

verus! {

/// The ways an operation of the store can fail. Failures of files and
/// streams belong to whoever does that I/O.
#[derive(Debug, Clone, Copy, PartialEq, Eq)]
pub enum Error {
    /// The compressed input is not a valid zlib stream.
    CompressionError,
    /// The decompressed bytes are not a well-formed record sequence.
    DecodeError,
    /// A stored value is not of the type that was asked for.
    ConversionError,
}

/// Result type of the store's fallible operations.
pub type Result<T> = core::result::Result<T, Error>;

} // verus!
