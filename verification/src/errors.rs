//! Error taxonomy of the library.
//!
//! Every fallible operation of the library reports one of these kinds.
//! The daemon maps a kind to a single human-readable line before sending it
//! to a client.

use vstd::prelude::*;

verus! {

/// The error kinds the library can report.
#[derive(Debug, Clone, Copy, PartialEq, Eq, Structural)]
pub enum ErrorKind {
    /// A malformed record length header or record body.
    FramingDecode,
    /// The configured key is missing or not a valid 32-byte base64 value.
    CryptoKey,
    /// Sealing failed, or an authentication tag did not match on open.
    CryptoFailure,
    /// A chunk payload with a known version could not be decoded.
    StoreCorrupt,
    /// An update was requested for an id absent from the merged view.
    UnknownId,
    /// The sync backend could not authenticate against the remote.
    SyncAuth,
    /// The sync backend hit a network failure.
    SyncNetwork,
    /// The sync backend hit a conflict it could not resolve.
    SyncConflict,
    /// The remote lock tag was not released within the wait ceiling.
    SyncLockTimeout,
    /// The operation is deliberately not supported.
    Unimplemented,
    /// Any other failure.
    Generic,
}

/// An error of the library: a kind plus a human-readable detail line.
#[derive(Debug, Clone)]
pub struct Error {
    pub kind: ErrorKind,
    pub detail: String,
}

impl Error {
    /// Build an error of the given kind with an empty detail line.
    pub fn of(kind: ErrorKind) -> (r: Error)
        ensures
            r.kind == kind,
    {
        Error { kind, detail: String::new() }
    }

    /// Build an error of the given kind with a detail line.
    pub fn with_detail(kind: ErrorKind, detail: String) -> (r: Error)
        ensures
            r.kind == kind,
            r.detail@ == detail@,
    {
        Error { kind, detail }
    }

    /// The kind of this error.
    pub fn kind(&self) -> (r: ErrorKind)
        ensures
            r == self.kind,
    {
        self.kind
    }

    /// The detail line of this error.
    pub fn message(&self) -> (r: String)
        ensures
            r@ == self.detail@,
    {
        self.detail.clone()
    }
}

} // verus!
