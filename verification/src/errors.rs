//! The error taxonomy of the library.
//!
//! Per-request transport failures are carried as values inside batch results
//! and never abort sibling requests; construction and registration failures
//! are definite and surfaced to the caller.

use vstd::prelude::*;

verus! {

/// Construction of a session target failed: the host or the credential token
/// is not acceptable in a base URL.
#[derive(Debug, Clone, Copy, PartialEq, Eq, Structural)]
pub enum ConstructionError {
    /// The host string is not a syntactically valid URL host.
    InvalidHost,
    /// The credential token is empty or holds a character that may not stand
    /// in a URL path segment.
    InvalidToken,
    /// The relative path handed to the resolver is not a valid relative
    /// reference.
    InvalidPath,
}

/// One outbound request failed; kept as a value so that sibling requests in a
/// batch are never aborted by it.
#[derive(Debug, Clone, PartialEq, Eq)]
pub enum TransportError {
    /// The connection could not be established.
    Connection(String),
    /// The transport's own deadline fired.
    Timeout(String),
    /// Any other failure reported by the transport.
    Other(String),
}

/// A response body did not match the schema the caller expected.
#[derive(Debug, Clone, Copy, PartialEq, Eq, Structural)]
pub enum DecodeError {
    /// The body is not a well-formed document of the expected shape.
    Malformed,
    /// Device entries did not arrive strictly ordered by unique ID.
    UnorderedInventory,
}

/// The registration handshake cannot proceed.
#[derive(Debug, Clone, Copy, PartialEq, Eq, Structural)]
pub enum RegistrationError {
    /// No candidate bridge addresses were supplied.
    NoBridgesFound,
}

/// The discovery subsystem itself is unavailable; there is no fallback, so
/// this is fatal for discovery (the I/O layer reports it).
#[derive(Debug, Clone, PartialEq, Eq)]
pub enum DiscoveryError {
    /// The multicast primitive could not be opened.
    MulticastUnavailable(String),
}

/// A batch could not be assembled or collected as a whole; ordinary
/// per-element transport failures are never reported this way.
#[derive(Debug, Clone, Copy, PartialEq, Eq, Structural)]
pub enum DispatchError {
    /// The payload collection and the target collection differ in length.
    LengthMismatch,
    /// A collected result carries an index outside the batch.
    IndexOutOfRange,
    /// Two collected results carry the same index.
    DuplicateIndex,
    /// Some input index received no result.
    MissingResult,
}

} // verus!
