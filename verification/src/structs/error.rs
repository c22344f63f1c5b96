//! What can go wrong when a message is decoded or encoded.

use vstd::prelude::*;

verus! {

/// Why a datagram could not be decoded.
#[derive(Debug, Clone, Copy, PartialEq, Eq, Structural)]
pub enum ParseError {
    /// A field reaches past the end of the buffer.
    TruncatedMessage,
    /// Fewer than twelve octets are left where the header begins.
    TruncatedHeader,
    /// A name follows more compression pointers than a decoder may follow.
    CompressionLoopExceeded,
    /// The declared payload length disagrees with the record type's layout
    /// or with what is left of the buffer.
    PayloadLengthMismatch,
    /// Kept for content that is well formed but not understood. No decoder
    /// returns it: such records are carried as `DNSRecord::Unknown`.
    Unsupported,
}

/// Why a message could not be encoded.
#[derive(Debug, Clone, Copy, PartialEq, Eq, Structural)]
pub enum EncodeError {
    /// The encoding does not fit into what is left of the buffer.
    TruncatedMessage,
    /// A compression pointer would have to name an offset beyond 14 bits.
    NameTooLargeToCompress,
    /// A label is longer than 63 octets, or a character string longer than 255.
    NameTooLong,
}

} // verus!
