//! The errors that the operations of the library return.

use vstd::prelude::*;

verus! {

/// Why an operation was refused. A refused operation changes nothing.
#[derive(Clone, Copy, Debug, PartialEq, Eq, Structural)]
pub enum Error {
    /// The caller is not the one who may do this.
    PermissionError,
    /// The proof carries no signature.
    UnsignedProof,
    /// A signature does not verify under the key of the archive.
    VerificationFailed,
    /// The proof is about another chunk than the challenged one.
    ProvesWrongChunk,
    /// The proof has no node for the challenged leaf.
    MissingLeaf,
    /// The proof does not hold the digest of the chunk at the challenged leaf.
    ChunkHashVerificationFailed,
    /// The roots in the proof do not hash to the claimed root.
    RootHashVerificationFailed,
    /// Two records that belong together do not agree.
    InvalidState,
    /// The tree of an archive holds no bytes, or more than can be counted.
    InvalidTreeSize,
}

} // verus!
