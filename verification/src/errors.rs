//! The error taxonomy of the engine.

use vstd::prelude::*;

verus! {

/// Everything that an index operation can report.
///
/// `NotExistingNode` is also returned when a fresh digest was expected but a
/// node under that digest already exists (the name is kept for historical
/// reasons; semantically "node already exists").
#[derive(Debug)]
pub enum JError {
    /// The OS denied access during enumeration or a metadata read.
    NoAuthorization(Vec<u8>),
    /// The path does not exist at the moment of the call, or it failed
    /// canonicalization.
    NotExistingPath(Vec<u8>),
    /// A directory-only operation was invoked on a file path.
    NotDirectory(Vec<u8>),
    /// An operation referenced a handle that is not in the index, or a
    /// duplicate digest was detected where a fresh one was expected.
    NotExistingNode(u64),
    /// The persistence file was unreadable or corrupt.
    CacheError,
}

} // verus!
