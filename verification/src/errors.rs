//! Typed failures of the catalog client and the progress store.

use vstd::prelude::*;

verus! {

/// Everything that can go wrong while fetching from the catalog or while
/// loading and saving the progress store. Callers attach operation context
/// themselves; the variants carry only what the logic decides on.
#[derive(Clone, Copy, Debug, PartialEq, Eq, Structural)]
pub enum Error {
    /// The catalog answered with a non-success HTTP status code.
    HttpStatus(u16),
    /// The connection itself failed before any status code arrived.
    Transport,
    /// A response or a stored document could not be decoded.
    Malformed,
    /// Reading or writing the state file failed.
    Io,
    /// The state file was written by a build newer than this one:
    /// `actual` exceeds `expected`, the highest version this build reads.
    VersionMismatch { expected: u32, actual: u32 },
}

impl Error {
    /// A short, fixed description of the error kind.
    pub fn kind_message(&self) -> (r: &'static str)
        ensures
            r@ == self.spec_kind_message(),
    {
        match self {
            Error::HttpStatus(_) => "HTTP error",
            Error::Transport => "connection failed",
            Error::Malformed => "malformed data",
            Error::Io => "file I/O failed",
            Error::VersionMismatch { .. } => "user data version mismatch",
        }
    }

    pub open spec fn spec_kind_message(self) -> Seq<char> {
        match self {
            Error::HttpStatus(_) => "HTTP error"@,
            Error::Transport => "connection failed"@,
            Error::Malformed => "malformed data"@,
            Error::Io => "file I/O failed"@,
            Error::VersionMismatch { .. } => "user data version mismatch"@,
        }
    }
}

/// The HTTP status code the catalog uses for rate limiting.
pub const STATUS_TOO_MANY_REQUESTS: u16 = 429;

/// The only successful status code of the catalog's plain GET queries.
pub const STATUS_OK: u16 = 200;

/// Turn an HTTP status code into the error it stands for, if any.
pub fn classify_status(code: u16) -> (r: Option<Error>)
    ensures
        code == STATUS_OK ==> r.is_none(),
        code != STATUS_OK ==> r == Some(Error::HttpStatus(code)),
{
    if code == STATUS_OK {
        None
    } else {
        Some(Error::HttpStatus(code))
    }
}

} // verus!
