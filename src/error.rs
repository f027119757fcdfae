use vstd::prelude::*;

use crate::rowbinary::ColumnType;

verus! {

/// Everything that can go wrong on the data path.
#[derive(Clone, Copy, Debug, PartialEq, Eq, Structural)]
pub enum Error {
    /// More bytes are needed before the next item can be decoded.
    InsufficientData,
    /// The bytes cannot be the encoding of any value of the expected type.
    MalformedData,
    /// A row's column (its index and declared type) holds bytes that no
    /// value of that type encodes to.
    MalformedField(usize, ColumnType),
    /// A compressed block's payload does not match its stored checksum.
    ChecksumMismatch,
    /// A compressed block names a method this library does not know.
    UnsupportedCompressionMethod(u8),
    /// The stream ended in the middle of a row or block.
    TruncatedStream,
    /// A row does not fit the schema: the column index where it fails.
    SchemaMismatch(usize),
    /// The operation is not allowed in the current state.
    InvalidState,
    /// A block is too large to frame.
    BlockTooLarge,
}

} // verus!
