//! The kinds of failure that the archive engine reports.

use vstd::prelude::*;

verus! {

/// Why an operation of the archive engine failed.
#[derive(Clone, Copy, Debug, PartialEq, Eq, Structural)]
pub enum ShokoError {
    /// No entry has the path that was asked for.
    NotFound,
    /// An argument cannot be used: a secret of the wrong length, a sealed
    /// blob too short to hold a nonce, a pattern with a syntax error.
    InvalidInput,
    /// Stored bytes are corrupt: a broken run-length stream or index.
    InvalidData,
    /// The secret is missing, or a sealed blob failed authentication.
    PermissionDenied,
    /// A read reached past the end of the archive's bytes.
    UnexpectedEof,
}

} // verus!
