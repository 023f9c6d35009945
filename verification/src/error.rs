//! The ways in which an operation on a repository can fail.

use vstd::prelude::*;

verus! {

/// Why an operation failed.
#[derive(Clone, Copy, Debug, PartialEq, Eq, Structural)]
pub enum Error {
    /// The operation needs a repository, and there is none.
    NotInitialized,
    /// A repository is already there.
    AlreadyInitialized,
    /// No object is stored under the hash.
    ObjectNotFound,
    /// The stored bytes are not a compressed object: they do not decompress,
    /// or have no header, or lack a line that the operation needs.
    MalformedObject,
    /// The named reference does not exist.
    RefNotFound,
    /// The path is not in the index.
    NotStaged,
    /// The index holds nothing to commit.
    NothingToCommit,
    /// The compressor gave up on the object's bytes.
    CompressionFailed,
}

/// A result with its bytes seen as a sequence.
pub open spec fn result_view(r: Result<Vec<u8>, Error>) -> Result<Seq<u8>, Error> {
    match r {
        Ok(bytes) => Ok(bytes@),
        Err(e) => Err(e),
    }
}

} // verus!
