//! What can go wrong on the way to the wire and back.

use vstd::prelude::*;

verus! {

/// Why a batch could not be produced.
#[derive(Debug, Clone, Copy, PartialEq, Eq)]
pub enum EncodeError {
    /// The compressor gave up on the payload.
    Compression,
}

/// Why reading a batch stopped.
#[derive(Debug, Clone, Copy, PartialEq, Eq)]
pub enum DecodeError {
    /// The batch is no complete gzip stream, or its checksum is wrong.
    Corrupt,
    /// Fewer than eight bytes are left where a length prefix must stand.
    TruncatedPrefix,
    /// A length prefix asks for more bytes than the payload still holds.
    LengthOverrun,
    /// The bytes that a length prefix marks off are no record.
    MalformedRecord,
}

} // verus!
