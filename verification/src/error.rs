//! The errors of the packet format.
use vstd::prelude::*;

verus! {

/// Why a packet operation was refused.
#[derive(Debug, Clone, Copy, PartialEq, Eq, Structural)]
pub enum Error {
    /// Fragments are of wrong size.
    InvalidFragmentSize,
    /// Wrong number of paths given.
    InvalidPathCount,
    /// Integrity check failed.
    MacMismatch,
    /// An invalid header flag has been sent.
    InvalidHeaderFlag,
    /// Fragment set is incomplete.
    MissingFragments,
    /// The paths don't end at the same node.
    DivergingPaths,
}

/// The human-readable description of each error.
pub open spec fn error_message(e: Error) -> Seq<char> {
    match e {
        Error::InvalidFragmentSize => "fragments are of wrong size"@,
        Error::InvalidPathCount => "wrong number of paths given"@,
        Error::MacMismatch => "integrity check failed"@,
        Error::InvalidHeaderFlag => "an invalid header flag has been sent"@,
        Error::MissingFragments => "fragment set is incomplete"@,
        Error::DivergingPaths => "the paths don't end at the same node"@,
    }
}

impl Error {
    /// The human-readable description of the error.
    pub fn message(&self) -> (res: &'static str)
        ensures
            res@ == error_message(*self),
    {
        match self {
            Error::InvalidFragmentSize => "fragments are of wrong size",
            Error::InvalidPathCount => "wrong number of paths given",
            Error::MacMismatch => "integrity check failed",
            Error::InvalidHeaderFlag => "an invalid header flag has been sent",
            Error::MissingFragments => "fragment set is incomplete",
            Error::DivergingPaths => "the paths don't end at the same node",
        }
    }
}

/// The result type of the packet operations.
pub type Result<T, E = Error> = core::result::Result<T, E>;

} // verus!
