use vstd::prelude::*;

verus! {

/// The ways in which an engine operation can fail. Every failure is returned
/// to the caller of the operation that detected it.
#[derive(Debug, Clone, Copy, PartialEq, Eq, Structural)]
pub enum EngineError {
    /// A magnet URI that does not parse, has another scheme, or names no
    /// `urn:btih:` identifier.
    InvalidIdentifier,
    /// Metadata bytes that do not decode to a conformant torrent.
    MalformedMetadata,
    /// The byte source of a metadata file could not be read.
    IoError,
    /// A torrent with the same identifier is already registered.
    DuplicateIdentifier,
    /// No torrent with the given identifier is registered.
    NotFound,
    /// Admission would exceed the configured number of torrents.
    CapacityExceeded,
}

} // verus!
