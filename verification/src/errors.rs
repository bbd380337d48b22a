//! Typed errors raised by the data-access layer.

use vstd::prelude::*;

verus! {

/// The failure classes an accessor operation can report.
#[derive(Clone, Copy, Debug, PartialEq, Eq, Structural)]
pub enum ErrorKind {
    /// A read was requested for a path with no existing object.
    NotFound,
    /// The requested path would resolve outside the sandboxed root.
    SecurityViolation,
    /// An unclassified filesystem failure during open, read, write or mkdir.
    IOError,
    /// The sandbox root itself is unusable (for example, not absolute).
    ConfigurationError,
}

/// A typed failure, carrying its class and a human-readable detail string
/// (for a rejected path, the offending input).
#[derive(Debug)]
pub struct Error {
    kind: ErrorKind,
    detail: String,
}

impl Error {
    /// The failure class of this error.
    pub closed spec fn spec_kind(&self) -> ErrorKind {
        self.kind
    }

    /// The detail string of this error.
    pub closed spec fn spec_detail(&self) -> Seq<char> {
        self.detail@
    }

    pub fn new(kind: ErrorKind, detail: String) -> (e: Error)
        ensures
            e.spec_kind() == kind,
            e.spec_detail() == detail@,
    {
        Error { kind, detail }
    }

    pub fn kind(&self) -> (k: ErrorKind)
        ensures
            k == self.spec_kind(),
    {
        self.kind
    }

    pub fn detail(&self) -> (d: &str)
        ensures
            d@ == self.spec_detail(),
    {
        self.detail.as_str()
    }

    /// Classifies a failed filesystem call: a missing object is reported as
    /// `NotFound`, every other failure as `IOError`.
    pub fn from_io(not_found: bool, detail: String) -> (e: Error)
        ensures
            e.spec_kind() == (if not_found {
                ErrorKind::NotFound
            } else {
                ErrorKind::IOError
            }),
            e.spec_detail() == detail@,
    {
        if not_found {
            Error::new(ErrorKind::NotFound, detail)
        } else {
            Error::new(ErrorKind::IOError, detail)
        }
    }
}

} // verus!
