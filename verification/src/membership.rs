//! Membership proofs, the results of lookups, commitments, and the
//! verification of a proof against a root digest.

use crate::digest::DigestAlgorithm;
use crate::engine::child_values;
use crate::errors::{PrimitivesError, VerificationResult};
use crate::node::{
    child_digests, is_genuine_path, is_path_shaped, path_digest, path_digests, MerkleNode,
};
use crate::traversal::{
    capacity, capacity_exceeds, selector, to_traversal_path, traversal_path,
};
use vstd::arithmetic::div_mod::lemma_mod_bound;
use vstd::laws_eq::obeys_concrete_eq;
use vstd::prelude::*;

verus! {

/// What a lookup finds.
#[derive(Debug, PartialEq, Eq)]
pub enum LookupResult<F, P, N> {
    /// The value is in memory, together with a proof for it.
    Found(F, P),
    /// The value was stored once and is no longer in memory.
    NotInMemory,
    /// Nothing is stored there.
    NotFound(N),
}

impl<F, P, N> LookupResult<F, P, N> {
    /// The value and its proof, if the lookup found them; an error otherwise.
    pub fn expect_ok(self) -> (r: Result<(F, P), PrimitivesError>)
        ensures
            match self {
                LookupResult::Found(x, p) => r == Ok::<(F, P), PrimitivesError>((x, p)),
                _ => r == Err::<(F, P), PrimitivesError>(PrimitivesError::InternalError),
            },
    {
        match self {
            LookupResult::Found(x, p) => Ok((x, p)),
            _ => Err(PrimitivesError::InternalError),
        }
    }

    /// What stands for the missing value, if the lookup found nothing; an
    /// error otherwise.
    pub fn expect_not_found(self) -> (r: Result<N, PrimitivesError>)
        ensures
            match self {
                LookupResult::NotFound(n) => r == Ok::<N, PrimitivesError>(n),
                _ => r == Err::<N, PrimitivesError>(PrimitivesError::InternalError),
            },
    {
        match self {
            LookupResult::NotFound(n) => Ok(n),
            _ => Err(PrimitivesError::InternalError),
        }
    }

    /// `Ok` if the value is no longer in memory; an error otherwise.
    pub fn expect_not_in_memory(self) -> (r: Result<(), PrimitivesError>)
        ensures
            match self {
                LookupResult::NotInMemory => r == Ok::<(), PrimitivesError>(()),
                _ => r == Err::<(), PrimitivesError>(PrimitivesError::InternalError),
            },
    {
        match self {
            LookupResult::NotInMemory => Ok(()),
            _ => Err(PrimitivesError::InternalError),
        }
    }
}

/// A membership proof for the leaf at position `pos`: the leaf itself, then,
/// going up, a snapshot of each branch on the way to the root.
#[derive(Debug, PartialEq, Eq)]
pub struct MerkleProof<E, T> {
    /// The position that the proof is for.
    pub pos: u64,
    /// The nodes on the way, the leaf first and the root last.
    pub proof: Vec<MerkleNode<E, T>>,
}

impl<E, T> MerkleProof<E, T> {
    /// A proof for position `pos` out of the nodes on the way.
    pub fn new(pos: u64, proof: Vec<MerkleNode<E, T>>) -> (p: Self)
        ensures
            p.pos == pos,
            p.proof == proof,
    {
        MerkleProof { pos, proof }
    }

    /// The number of nodes of the proof: one more than the height of the tree
    /// that it is for.
    pub fn tree_height(&self) -> (h: usize)
        ensures
            h == self.proof@.len(),
    {
        self.proof.len()
    }

    /// The position that the proof is for.
    pub fn index(&self) -> (i: u64)
        ensures
            i == self.pos,
    {
        self.pos
    }

    /// The element that the proof records, if it starts with a leaf.
    pub fn elem(&self) -> (e: Option<&E>)
        ensures
            match e {
                Some(found) => self.proof@.len() > 0 && self.proof@[0] is Leaf && *found
                    == self.proof@[0]->elem,
                None => self.proof@.len() == 0 || !(self.proof@[0] is Leaf),
            },
    {
        if self.proof.len() == 0 {
            return None;
        }
        match &self.proof[0] {
            MerkleNode::Leaf { elem, .. } => Some(elem),
            _ => None,
        }
    }

    /// A proof can be checked as a proof for `pos` in a tree of the given
    /// arity: it is for that position, it is shaped like a path, and the
    /// position exists in a tree as high as the path is long.
    pub open spec fn is_usable<const ARITY: usize>(self, pos: u64) -> bool {
        &&& self.pos == pos
        &&& is_path_shaped::<E, T, ARITY>(self.proof@)
        &&& pos < capacity(ARITY as nat, (self.proof@.len() - 1) as nat)
    }

    /// The digest of the leaf that the proof starts with, from the position and
    /// the element that the leaf records.
    pub open spec fn leaf_digest<H: DigestAlgorithm<E, T>>(self) -> T {
        H::leaf_digest(self.proof@[0]->pos, self.proof@[0]->elem)
    }

    /// The proof is genuine for the tree over the elements `s`: it records
    /// the element that `s` has at its position, and, beside the way up from
    /// there, the digests that the subtrees of that tree have.
    pub open spec fn is_genuine_for<H: DigestAlgorithm<E, T>, const ARITY: usize>(
        self,
        s: Seq<E>,
    ) -> bool {
        is_genuine_path::<E, T, H, ARITY>(self.proof@, s, self.pos as nat)
    }

    /// The root digest that the proof leads to.
    pub open spec fn root_digest<H: DigestAlgorithm<E, T>, const ARITY: usize>(self) -> T {
        path_digest::<E, T, H, ARITY>(self.proof@, self.pos as nat)
    }
}

impl<E: Copy, T: Copy> Clone for MerkleProof<E, T> {
    fn clone(&self) -> (copy: Self)
        ensures
            copy.pos == self.pos,
            copy.proof@.len() == self.proof@.len(),
            forall|l: int|
                0 <= l < copy.proof@.len() ==> (#[trigger] copy.proof@[l]).alike(self.proof@[l]),
    {
        let mut nodes: Vec<MerkleNode<E, T>> = Vec::new();
        let mut l: usize = 0;
        while l < self.proof.len()
            invariant
                l <= self.proof@.len(),
                nodes@.len() == l,
                forall|k: int| 0 <= k < l ==> (#[trigger] nodes@[k]).alike(self.proof@[k]),
            decreases self.proof@.len() - l,
        {
            nodes.push(self.proof[l].clone());
            l = l + 1;
        }
        MerkleProof { pos: self.pos, proof: nodes }
    }
}

/// The outcome of checking `proof` as a proof for position `pos` against the
/// digest `root`.
pub open spec fn verification<E, T, H: DigestAlgorithm<E, T>, const ARITY: usize>(
    root: T,
    pos: u64,
    proof: MerkleProof<E, T>,
) -> Result<VerificationResult, PrimitivesError> {
    if !proof.is_usable::<ARITY>(pos) {
        Err(PrimitivesError::ProofShapeError)
    } else if proof.root_digest::<H, ARITY>() == root {
        Ok(VerificationResult::Valid)
    } else {
        Ok(VerificationResult::Invalid)
    }
}

/// Tells whether `proof` can be checked as a proof for position `pos`.
pub fn is_usable_proof<E: Copy, T: Copy, const ARITY: usize>(pos: u64, proof: &MerkleProof<E, T>) -> (usable:
    bool)
    requires
        ARITY >= 1,
    ensures
        usable == proof.is_usable::<ARITY>(pos),
{
    let len: usize = proof.proof.len();
    if proof.pos != pos || len == 0 {
        return false;
    }
    if !capacity_exceeds(ARITY, len - 1, pos) {
        return false;
    }
    match &proof.proof[0] {
        MerkleNode::Leaf { .. } => {},
        _ => {
            return false;
        },
    }
    let mut level: usize = 1;
    while level < len
        invariant
            1 <= level <= len,
            len == proof.proof@.len(),
            forall|l: int|
                1 <= l < level ==> {
                    &&& (#[trigger] proof.proof@[l]) is Branch
                    &&& proof.proof@[l]->children@.len() == ARITY
                },
        decreases len - level,
    {
        match &proof.proof[level] {
            MerkleNode::Branch { value, children } => {
                if children.len() != ARITY {
                    return false;
                }
            },
            _ => {
                return false;
            },
        }
        level = level + 1;
    }
    true
}

/// Computes, for a path of nodes, the digest that it leads to at each of its
/// heights, the digest of its leaf first.
pub fn path_values<E: Copy, T: Copy, H: DigestAlgorithm<E, T>, const ARITY: usize>(
    pos: u64,
    nodes: &Vec<MerkleNode<E, T>>,
) -> (values: Vec<T>)
    requires
        ARITY >= 1,
        is_path_shaped::<E, T, ARITY>(nodes@),
    ensures
        values@ == path_digests::<E, T, H, ARITY>(nodes@, pos as nat),
{
    let len: usize = nodes.len();
    let path: Vec<usize> = to_traversal_path(pos, ARITY, len - 1);
    let mut values: Vec<T> = Vec::new();
    match &nodes[0] {
        MerkleNode::Leaf { value, pos: leaf_pos, elem } => {
            values.push(H::digest_leaf(*leaf_pos, elem));
        },
        _ => {},
    }
    assert(nodes@.take(1).len() == 1);
    let mut level: usize = 1;
    while level < len
        invariant
            ARITY >= 1,
            1 <= level <= len,
            len == nodes@.len(),
            is_path_shaped::<E, T, ARITY>(nodes@),
            path@ == traversal_path(pos as nat, ARITY as nat, (len - 1) as nat),
            values@.len() == level,
            forall|l: int|
                0 <= l < level ==> values@[l] == path_digest::<E, T, H, ARITY>(
                    #[trigger] nodes@.take(l + 1),
                    pos as nat,
                ),
        decreases len - level,
    {
        match &nodes[level] {
            MerkleNode::Branch { value, children } => {
                let branch: usize = path[len - 1 - level];
                proof {
                    lemma_mod_bound(
                        (pos as int) / (capacity(ARITY as nat, (level - 1) as nat) as int),
                        ARITY as int,
                    );
                    assert(branch == selector(pos as nat, ARITY as nat, (level - 1) as nat));
                    assert(nodes@.take(level + 1).drop_last() =~= nodes@.take(level as int));
                    assert(nodes@.take(level + 1).last() == nodes@[level as int]);
                    assert(values@[level - 1] == path_digest::<E, T, H, ARITY>(
                        nodes@.take(level - 1 + 1),
                        pos as nat,
                    ));
                }
                let mut data: Vec<T> = child_values::<E, T, H>(children);
                data.set(branch, values[level - 1]);
                values.push(H::digest(&data));
            },
            _ => {},
        }
        level = level + 1;
    }
    assert(values@ =~= path_digests::<E, T, H, ARITY>(nodes@, pos as nat));
    values
}

/// Checks `proof` as a proof for position `pos` against the digest `root`.
///
/// The digest of the leaf is computed from the position and the element that
/// the proof records, never taken from the proof, and so is the digest of each
/// branch above it, from the digests of the siblings that the proof records.
pub fn verify_proof<E: Copy, T: Copy + PartialEq, H: DigestAlgorithm<E, T>, const ARITY: usize>(
    root: &T,
    pos: u64,
    proof: &MerkleProof<E, T>,
) -> (r: Result<VerificationResult, PrimitivesError>)
    requires
        ARITY >= 1,
        obeys_concrete_eq::<T>(),
    ensures
        r == verification::<E, T, H, ARITY>(*root, pos, *proof),
{
    if !is_usable_proof::<E, T, ARITY>(pos, proof) {
        return Err(PrimitivesError::ProofShapeError);
    }
    let values: Vec<T> = path_values::<E, T, H, ARITY>(pos, &proof.proof);
    proof {
        reveal(obeys_concrete_eq);
        assert(proof.proof@.take(proof.proof@.len() as int) =~= proof.proof@);
    }
    if values[values.len() - 1] == *root {
        Ok(VerificationResult::Valid)
    } else {
        Ok(VerificationResult::Invalid)
    }
}

/// The public summary of a tree: its root digest, its height and the number
/// of its leaves.
#[derive(Debug, PartialEq, Eq)]
pub struct MerkleTreeCommitment<T> {
    digest: T,
    height: usize,
    num_leaves: u64,
}

impl<T: Copy> Clone for MerkleTreeCommitment<T> {
    fn clone(&self) -> (c: Self)
        ensures
            c == *self,
    {
        *self
    }
}

impl<T: Copy> Copy for MerkleTreeCommitment<T> {

}

impl<T: Copy> MerkleTreeCommitment<T> {
    /// The root digest.
    pub closed spec fn spec_digest(&self) -> T {
        self.digest
    }

    /// The height of the tree.
    pub closed spec fn spec_height(&self) -> usize {
        self.height
    }

    /// The number of leaves of the tree.
    pub closed spec fn spec_size(&self) -> u64 {
        self.num_leaves
    }

    /// The commitment of a tree with the given root digest, height and number
    /// of leaves.
    pub fn new(digest: T, height: usize, num_leaves: u64) -> (c: Self)
        ensures
            c.spec_digest() == digest,
            c.spec_height() == height,
            c.spec_size() == num_leaves,
    {
        MerkleTreeCommitment { digest, height, num_leaves }
    }

    /// The root digest.
    pub fn digest(&self) -> (d: T)
        ensures
            d == self.spec_digest(),
    {
        self.digest
    }

    /// The height of the tree.
    pub fn height(&self) -> (h: usize)
        ensures
            h == self.spec_height(),
    {
        self.height
    }

    /// The number of leaves of the tree.
    pub fn size(&self) -> (n: u64)
        ensures
            n == self.spec_size(),
    {
        self.num_leaves
    }
}

} // verus!
