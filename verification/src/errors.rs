//! What the operations of the tree report.

use vstd::prelude::*;

verus! {

/// Why an operation was refused.
#[derive(Debug, Clone, Copy, PartialEq, Eq, Structural)]
pub enum PrimitivesError {
    /// A tree of the requested height cannot hold the elements, an append found
    /// the tree full, or an index names no leaf.
    ParameterError,
    /// A proof is not shaped like a path from a leaf to a root: it is unusable
    /// before any digest is compared.
    ProofShapeError,
    /// A proof is shaped like a path, but its digests do not lead to the digest
    /// that the tree holds.
    VerificationError,
    /// A lookup did not end as its caller expected.
    InternalError,
}

/// The outcome of checking a well-shaped proof against a root digest.
#[derive(Debug, Clone, Copy, PartialEq, Eq, Structural)]
pub enum VerificationResult {
    /// The digests recomputed from the proof lead to the claimed root digest.
    Valid,
    /// They lead elsewhere.
    Invalid,
}

} // verus!
