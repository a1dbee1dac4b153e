//! A light-weight Merkle tree: an append-only tree that keeps only its
//! frontier, the right-most path, in memory.

use crate::biguint::{biguint_from_usize, biguint_pow, biguint_value};
use crate::digest::DigestAlgorithm;
use crate::errors::{PrimitivesError, VerificationResult};
use crate::lemmas::{
    lemma_agrees_with_subtree_digests, lemma_digest_is_subtree_digest, lemma_elem_at_is_element,
    lemma_genuine_path_digest, lemma_membership_path_agrees, lemma_membership_path_is_genuine,
    lemma_membership_path_verifies,
};
use crate::membership::{
    is_usable_proof, path_values, verification, verify_proof, LookupResult, MerkleProof,
    MerkleTreeCommitment,
};
use crate::node::{
    is_genuine_path, is_membership_path, merkle_root, path_digest, path_digests, subtree_digest,
    MerkleNode,
};
use crate::traversal::{
    block_start, can_build, capacity, capacity_exceeds, is_minimal_height, lemma_block_start_root,
    lemma_capacity_positive, minimal_height, placed, to_traversal_path,
};
use core::marker::PhantomData;
use num_bigint::BigUint;
use vstd::laws_eq::obeys_concrete_eq;
use vstd::prelude::*;

verus! {

/// An append-only Merkle tree of a fixed height over elements of type `E`,
/// with digests of type `T` computed by `H`, and `ARITY` children below each
/// branch. Appending a leaf forgets everything on the left of the way down to
/// it, so that only the last leaf and the digests beside its path stay in
/// memory.
pub struct LightWeightMerkleTree<E, H, T, const ARITY: usize> {
    root: MerkleNode<E, T>,
    height: usize,
    num_leaves: u64,
    _phantom: PhantomData<H>,
}

impl<E: Copy, H: DigestAlgorithm<E, T>, T: Copy + PartialEq, const ARITY: usize> LightWeightMerkleTree<
    E,
    H,
    T,
    ARITY,
> {
    /// The number of children of each branch.
    pub fn arity() -> (a: usize)
        ensures
            a == ARITY,
    {
        ARITY
    }

    /// The root node.
    pub closed spec fn spec_root(&self) -> MerkleNode<E, T> {
        self.root
    }

    /// The height of the tree.
    pub closed spec fn spec_height(&self) -> usize {
        self.height
    }

    /// The number of leaves appended so far.
    pub closed spec fn spec_num_leaves(&self) -> u64 {
        self.num_leaves
    }

    /// The tree is sound: it holds at most as many leaves as it has room for,
    /// the leaves `0 .. num_leaves` are all there or forgotten, nothing is
    /// stored beyond them, the way to the next free slot is in memory, and
    /// every digest is the digest of what is below it.
    pub open spec fn wf(&self) -> bool {
        &&& ARITY >= 1
        &&& self.spec_num_leaves() <= self.spec_capacity()
        &&& self.spec_root().wf::<H, ARITY>(
            self.spec_height() as nat,
            0,
            self.spec_num_leaves() as nat,
        )
    }

    /// The number of leaves that the tree has room for.
    pub open spec fn spec_capacity(&self) -> nat {
        capacity(ARITY as nat, self.spec_height() as nat)
    }

    /// The number of leaves that the tree can hold: its capacity, and no more
    /// than a position can count.
    pub open spec fn leaf_limit(&self) -> nat {
        if self.spec_capacity() <= u64::MAX {
            self.spec_capacity()
        } else {
            u64::MAX as nat
        }
    }

    /// The digest of the root.
    pub open spec fn root_digest(&self) -> T {
        self.spec_root().digest::<H>()
    }

    /// The element at position `index`, if that leaf is in memory.
    pub open spec fn elem_at(&self, index: nat) -> Option<E> {
        self.spec_root().elem_at::<ARITY>(self.spec_height() as nat, index)
    }

    /// The tree is a tree over the elements `s`, in the order in which they
    /// were appended: what it still holds of them agrees with `s`, and what it
    /// forgot had the digests that the tree over `s` has.
    pub open spec fn commits_to(&self, s: Seq<E>) -> bool {
        &&& s.len() == self.spec_num_leaves()
        &&& self.spec_root().represents::<H, ARITY>(s, self.spec_height() as nat, 0)
    }

    /// `proof` is the membership proof that this tree gives for a leaf in
    /// memory: the leaf, then a snapshot of each branch on the way up.
    pub open spec fn gives_proof(&self, proof: MerkleProof<E, T>) -> bool {
        is_membership_path::<E, T, H, ARITY>(
            proof.proof@,
            self.spec_root(),
            self.spec_height() as nat,
            proof.pos as nat,
        )
    }

    /// Every node in memory on the way to the leaf that `proof` is for has the
    /// digest that `proof` leads to at its height.
    pub open spec fn agrees_with(&self, proof: MerkleProof<E, T>) -> bool {
        self.spec_root().agrees_with::<H, ARITY>(
            self.spec_height() as nat,
            proof.pos as nat,
            path_digests::<E, T, H, ARITY>(proof.proof@, proof.pos as nat),
        )
    }

    /// How `remember` answers: an index that no leaf has is a parameter error;
    /// a proof that is not shaped like a proof for that index in a tree of
    /// this height is a shape error; a proof that does not lead to the root
    /// digest of this tree, or not from the digest of the element, or not
    /// through the digests that this tree holds on the way, is a verification
    /// error.
    pub open spec fn remember_outcome(&self, pos: u64, elem: E, proof: MerkleProof<E, T>) -> Result<
        (),
        PrimitivesError,
    > {
        if pos >= self.spec_num_leaves() {
            Err(PrimitivesError::ParameterError)
        } else if !proof.is_usable::<ARITY>(pos) || proof.proof@.len() != self.spec_height() + 1 {
            Err(PrimitivesError::ProofShapeError)
        } else if proof.root_digest::<H, ARITY>() != self.root_digest() || proof.leaf_digest::<H>()
            != H::leaf_digest(pos, elem) || !self.agrees_with(proof) {
            Err(PrimitivesError::VerificationError)
        } else {
            Ok(())
        }
    }

    /// An empty tree of the given height.
    pub fn new(height: usize) -> (tree: Self)
        requires
            ARITY >= 1,
        ensures
            tree.wf(),
            tree.spec_height() == height,
            tree.spec_num_leaves() == 0,
            tree.spec_root() == MerkleNode::<E, T>::Empty,
            tree.root_digest() == H::empty_digest(),
            tree.commits_to(Seq::empty()),
            forall|i: nat| tree.elem_at(i) is None,
    {
        LightWeightMerkleTree {
            root: MerkleNode::Empty,
            height,
            num_leaves: 0,
            _phantom: PhantomData,
        }
    }

    /// The height of the tree.
    pub fn height(&self) -> (h: usize)
        ensures
            h == self.spec_height(),
    {
        self.height
    }

    /// The number of leaves appended so far.
    pub fn num_leaves(&self) -> (n: u64)
        ensures
            n == self.spec_num_leaves(),
    {
        self.num_leaves
    }

    /// The root node.
    pub fn root(&self) -> (node: &MerkleNode<E, T>)
        ensures
            *node == self.spec_root(),
    {
        &self.root
    }

    /// A tree out of its parts, as they come from storage or from elsewhere:
    /// they are taken if they make a sound tree, and refused if not. Every
    /// digest in memory is computed again; the digests of forgotten subtrees
    /// cannot be, and are taken as they come.
    pub fn from_parts(root: MerkleNode<E, T>, height: usize, num_leaves: u64) -> (r: Result<
        Self,
        PrimitivesError,
    >)
        requires
            ARITY >= 1,
            obeys_concrete_eq::<T>(),
        ensures
            r is Ok <==> num_leaves <= capacity(ARITY as nat, height as nat) && root.wf::<H, ARITY>(
                height as nat,
                0,
                num_leaves as nat,
            ),
            r matches Err(e) ==> e == PrimitivesError::ParameterError,
            r matches Ok(tree) ==> {
                &&& tree.wf()
                &&& tree.spec_root() == root
                &&& tree.spec_height() == height
                &&& tree.spec_num_leaves() == num_leaves
            },
    {
        if num_leaves > 0 && !capacity_exceeds(ARITY, height, num_leaves - 1) {
            return Err(PrimitivesError::ParameterError);
        }
        if !root.is_sound::<H, ARITY>(height, Some(0), num_leaves, Ghost(0)) {
            return Err(PrimitivesError::ParameterError);
        }
        proof {
            lemma_capacity_positive(ARITY as nat, height as nat);
        }
        Ok(LightWeightMerkleTree { root, height, num_leaves, _phantom: PhantomData })
    }

    /// The number of leaves that the tree has room for, `ARITY ^ height`, as
    /// an integer of arbitrary precision.
    pub fn capacity(&self) -> (c: BigUint)
        ensures
            biguint_value(c) == self.spec_capacity(),
    {
        biguint_pow(biguint_from_usize(ARITY), self.height)
    }

    /// The public summary of the tree.
    pub fn commitment(&self) -> (c: MerkleTreeCommitment<T>)
        ensures
            c.spec_digest() == self.root_digest(),
            c.spec_height() == self.spec_height(),
            c.spec_size() == self.spec_num_leaves(),
    {
        MerkleTreeCommitment::new(self.root.value::<H>(), self.height, self.num_leaves)
    }

    /// Appends one element and forgets every leaf before it. A full tree
    /// refuses it and stays as it is.
    pub fn push(&mut self, elem: E) -> (r: Result<(), PrimitivesError>)
        requires
            old(self).wf(),
        ensures
            final(self).wf(),
            final(self).spec_height() == old(self).spec_height(),
            old(self).spec_num_leaves() < old(self).leaf_limit() ==> {
                &&& r is Ok
                &&& final(self).spec_num_leaves() == old(self).spec_num_leaves() + 1
                &&& forall|i: nat|
                    #[trigger] final(self).elem_at(i) == if i == old(self).spec_num_leaves() {
                        Some(elem)
                    } else {
                        None
                    }
                &&& forall|s: Seq<E>| #[trigger]
                    old(self).commits_to(s) ==> final(self).commits_to(s.push(elem))
            },
            old(self).spec_num_leaves() >= old(self).leaf_limit() ==> {
                &&& r == Err::<(), PrimitivesError>(PrimitivesError::ParameterError)
                &&& *final(self) == *old(self)
            },
    {
        if self.num_leaves == u64::MAX || !capacity_exceeds(ARITY, self.height, self.num_leaves) {
            return Err(PrimitivesError::ParameterError);
        }
        let path: Vec<usize> = to_traversal_path(self.num_leaves, ARITY, self.height);
        proof {
            lemma_block_start_root(self.num_leaves as nat, ARITY as nat, self.height as nat);
        }
        self.root.insert::<H, ARITY>(self.height, &path, self.num_leaves, elem, true);
        self.num_leaves = self.num_leaves + 1;
        Ok(())
    }

    /// Appends the elements in order, as many as the tree has room for, and
    /// forgets every leaf before the last one placed. If some are left over it
    /// reports an error, and those that were placed stay in the tree.
    pub fn extend(&mut self, elems: &[E]) -> (r: Result<(), PrimitivesError>)
        requires
            old(self).wf(),
        ensures
            final(self).wf(),
            final(self).spec_height() == old(self).spec_height(),
            ({
                let k = placed(
                    elems@.len(),
                    (old(self).leaf_limit() - old(self).spec_num_leaves()) as nat,
                );
                &&& final(self).spec_num_leaves() == old(self).spec_num_leaves() + k
                &&& r == if k == elems@.len() {
                    Ok::<(), PrimitivesError>(())
                } else {
                    Err::<(), PrimitivesError>(PrimitivesError::ParameterError)
                }
                &&& forall|s: Seq<E>| #[trigger]
                    old(self).commits_to(s) ==> final(self).commits_to(s + elems@.take(k as int))
                &&& k > 0 ==> forall|i: nat|
                    #[trigger] final(self).elem_at(i) == if i + 1 == final(self).spec_num_leaves() {
                        Some(elems@[k - 1])
                    } else {
                        None
                    }
                &&& k == 0 ==> *final(self) == *old(self)
            }),
    {
        let mut done: usize = 0;
        proof {
            assert forall|s: Seq<E>| #[trigger] self.commits_to(s) implies self.commits_to(
                s + elems@.take(0),
            ) by {
                assert(s + elems@.take(0) =~= s);
            }
        }
        while done < elems.len()
            invariant
                self.wf(),
                old(self).wf(),
                self.spec_height() == old(self).spec_height(),
                done <= elems@.len(),
                self.spec_num_leaves() == old(self).spec_num_leaves() + done,
                forall|s: Seq<E>| #[trigger]
                    old(self).commits_to(s) ==> self.commits_to(s + elems@.take(done as int)),
                done > 0 ==> forall|i: nat|
                    #[trigger] self.elem_at(i) == if i + 1 == self.spec_num_leaves() {
                        Some(elems@[done - 1])
                    } else {
                        None
                    },
                done == 0 ==> *self == *old(self),
            decreases elems@.len() - done,
        {
            let ghost before = *self;
            match self.push(elems[done]) {
                Err(e) => {
                    return Err(e);
                },
                Ok(()) => {},
            }
            proof {
                assert forall|s: Seq<E>| #[trigger] old(self).commits_to(s) implies self.commits_to(
                    s + elems@.take(done + 1),
                ) by {
                    assert(before.commits_to(s + elems@.take(done as int)));
                    assert((s + elems@.take(done as int)).push(elems@[done as int]) =~= s
                        + elems@.take(done + 1));
                }
            }
            done = done + 1;
        }
        Ok(())
    }

    /// Builds a tree over the given elements, appended in order, with only
    /// the last of them in memory. With no height given, the tree has the
    /// least height, at least one, at which the elements fit; with a height
    /// given, the elements must fit at that height.
    pub fn from_elems(height: Option<usize>, elems: &[E]) -> (r: Result<Self, PrimitivesError>)
        requires
            ARITY >= 1,
            height is None ==> ARITY >= 2,
        ensures
            r is Ok <==> can_build::<ARITY>(height, elems@.len()),
            r matches Err(e) ==> e == PrimitivesError::ParameterError,
            r matches Ok(tree) ==> {
                &&& tree.wf()
                &&& match height {
                    Some(h) => tree.spec_height() == h,
                    None => is_minimal_height(
                        ARITY as nat,
                        elems@.len(),
                        tree.spec_height() as nat,
                    ),
                }
                &&& tree.spec_num_leaves() == elems@.len()
                &&& tree.commits_to(elems@)
                &&& forall|i: nat|
                    #[trigger] tree.elem_at(i) == if i + 1 == elems@.len() {
                        Some(elems@[i as int])
                    } else {
                        None
                    }
            },
    {
        let len: u64 = elems.len() as u64;
        let height: usize = match height {
            Some(h) => h,
            None => minimal_height(ARITY, len),
        };
        if len > 0 && !capacity_exceeds(ARITY, height, len - 1) {
            return Err(PrimitivesError::ParameterError);
        }
        proof {
            lemma_capacity_positive(ARITY as nat, height as nat);
            lemma_block_start_root(0, ARITY as nat, height as nat);
        }
        let root = MerkleNode::build::<H, ARITY>(elems, height, 0, true);
        Ok(LightWeightMerkleTree { root, height, num_leaves: len, _phantom: PhantomData })
    }

    /// Looks up the leaf at position `pos`. The result is `NotFound` for a
    /// position that no leaf has yet, `NotInMemory` for a leaf that was
    /// forgotten, and otherwise the element with a membership proof, which
    /// verifies against the root digest of this tree.
    pub fn lookup(&self, pos: u64) -> (r: LookupResult<&E, MerkleProof<E, T>, ()>)
        requires
            self.wf(),
        ensures
            pos >= self.spec_num_leaves() ==> r is NotFound,
            pos < self.spec_num_leaves() ==> match self.elem_at(pos as nat) {
                Some(e) => {
                    &&& r matches LookupResult::Found(found, proof)
                    &&& *found == e
                    &&& proof.pos == pos
                    &&& self.gives_proof(proof)
                    &&& verification::<E, T, H, ARITY>(self.root_digest(), pos, proof) == Ok::<
                        VerificationResult,
                        PrimitivesError,
                    >(VerificationResult::Valid)
                    &&& self.remember_outcome(pos, e, proof) == Ok::<(), PrimitivesError>(())
                    &&& forall|s: Seq<E>| #[trigger]
                        self.commits_to(s) ==> proof.is_genuine_for::<H, ARITY>(s)
                },
                None => r is NotInMemory,
            },
    {
        if pos >= self.num_leaves {
            return LookupResult::NotFound(());
        }
        let path: Vec<usize> = to_traversal_path(pos, ARITY, self.height);
        proof {
            lemma_block_start_root(pos as nat, ARITY as nat, self.height as nat);
        }
        match self.root.lookup::<H, ARITY>(self.height, &path, pos, Ghost(self.num_leaves as nat)) {
            LookupResult::Found(found, nodes) => {
                proof {
                    lemma_membership_path_verifies::<E, T, H, ARITY>(
                        nodes@,
                        self.root,
                        self.height as nat,
                        0,
                        self.num_leaves as nat,
                        pos as nat,
                    );
                    assert(nodes@.take(self.height + 1 as int) =~= nodes@);
                    assert(nodes@.take(1)[0] == nodes@[0]);
                    lemma_membership_path_agrees::<E, T, H, ARITY>(
                        nodes@,
                        nodes@,
                        self.root,
                        self.height as nat,
                        0,
                        self.num_leaves as nat,
                        pos as nat,
                    );
                    assert forall|s: Seq<E>| #[trigger] self.commits_to(s) implies is_genuine_path::<
                        E,
                        T,
                        H,
                        ARITY,
                    >(nodes@, s, pos as nat) by {
                        lemma_membership_path_is_genuine::<E, T, H, ARITY>(
                            nodes@,
                            self.root,
                            s,
                            self.height as nat,
                            pos as nat,
                        );
                    }
                }
                LookupResult::Found(found, MerkleProof::new(pos, nodes))
            },
            LookupResult::NotInMemory => LookupResult::NotInMemory,
            LookupResult::NotFound(_) => LookupResult::NotFound(()),
        }
    }

    /// Forgets the leaf at position `pos`, and with it every branch above it
    /// whose children are then all forgotten. The tree still commits to the
    /// same elements, with the same root digest. Where the leaf was in memory
    /// the result holds its element, with a membership proof that verifies
    /// against the root digest.
    pub fn forget(&mut self, pos: u64) -> (r: LookupResult<E, MerkleProof<E, T>, ()>)
        requires
            old(self).wf(),
        ensures
            final(self).wf(),
            final(self).spec_height() == old(self).spec_height(),
            final(self).spec_num_leaves() == old(self).spec_num_leaves(),
            final(self).root_digest() == old(self).root_digest(),
            forall|s: Seq<E>| #[trigger] old(self).commits_to(s) ==> final(self).commits_to(s),
            forall|other: MerkleProof<E, T>| #[trigger]
                old(self).agrees_with(other) ==> final(self).agrees_with(other),
            final(self).elem_at(pos as nat) is None,
            forall|i: nat| i != pos ==> #[trigger] final(self).elem_at(i) == old(self).elem_at(i),
            match old(self).elem_at(pos as nat) {
                Some(e) => {
                    &&& r matches LookupResult::Found(found, proof)
                    &&& found == e
                    &&& proof.pos == pos
                    &&& old(self).gives_proof(proof)
                    &&& verification::<E, T, H, ARITY>(old(self).root_digest(), pos, proof) == Ok::<
                        VerificationResult,
                        PrimitivesError,
                    >(VerificationResult::Valid)
                    &&& final(self).remember_outcome(pos, e, proof) == Ok::<(), PrimitivesError>(())
                    &&& forall|s: Seq<E>| #[trigger]
                        old(self).commits_to(s) ==> proof.is_genuine_for::<H, ARITY>(s)
                },
                None => {
                    &&& *final(self) == *old(self)
                    &&& r == if pos < old(self).spec_num_leaves() {
                        LookupResult::<E, MerkleProof<E, T>, ()>::NotInMemory
                    } else {
                        LookupResult::<E, MerkleProof<E, T>, ()>::NotFound(())
                    }
                },
            },
    {
        let path: Vec<usize> = to_traversal_path(pos, ARITY, self.height);
        if !self.root.holds::<ARITY>(self.height, &path, pos) {
            if pos < self.num_leaves {
                return LookupResult::NotInMemory;
            }
            return LookupResult::NotFound(());
        }
        proof {
            lemma_elem_at_is_element::<E, T, H, ARITY>(
                self.root,
                Seq::empty(),
                self.height as nat,
                0,
                self.num_leaves as nat,
                pos as nat,
            );
            lemma_block_start_root(pos as nat, ARITY as nat, self.height as nat);
        }
        match self.root.forget::<H, ARITY>(self.height, &path, pos, Ghost(self.num_leaves as nat)) {
            LookupResult::Found(found, nodes) => {
                proof {
                    lemma_membership_path_verifies::<E, T, H, ARITY>(
                        nodes@,
                        old(self).root,
                        self.height as nat,
                        0,
                        self.num_leaves as nat,
                        pos as nat,
                    );
                    assert(nodes@.take(self.height + 1 as int) =~= nodes@);
                    assert(nodes@.take(1)[0] == nodes@[0]);
                    lemma_membership_path_agrees::<E, T, H, ARITY>(
                        nodes@,
                        nodes@,
                        old(self).root,
                        self.height as nat,
                        0,
                        self.num_leaves as nat,
                        pos as nat,
                    );
                    assert forall|s: Seq<E>| #[trigger] old(self).commits_to(s) implies is_genuine_path::<
                        E,
                        T,
                        H,
                        ARITY,
                    >(nodes@, s, pos as nat) by {
                        lemma_membership_path_is_genuine::<E, T, H, ARITY>(
                            nodes@,
                            old(self).root,
                            s,
                            self.height as nat,
                            pos as nat,
                        );
                    }
                }
                LookupResult::Found(found, MerkleProof::new(pos, nodes))
            },
            LookupResult::NotInMemory => LookupResult::NotInMemory,
            LookupResult::NotFound(_) => LookupResult::NotFound(()),
        }
    }

    /// Brings the leaf at position `pos` back into memory, with the element
    /// `elem`, on the strength of `proof`. The proof is checked first, against
    /// the root digest and against every digest that the tree holds on the way
    /// to the leaf, and so is the digest of `elem`: nothing enters the tree
    /// that does not lead to its root digest. Where the way to the leaf was
    /// forgotten, the siblings beside it come back as forgotten subtrees with
    /// the digests that the proof records. A refused call leaves the tree as
    /// it is.
    pub fn remember(&mut self, pos: u64, elem: E, proof: &MerkleProof<E, T>) -> (r: Result<
        (),
        PrimitivesError,
    >)
        requires
            old(self).wf(),
            obeys_concrete_eq::<T>(),
        ensures
            r == old(self).remember_outcome(pos, elem, *proof),
            final(self).wf(),
            final(self).spec_height() == old(self).spec_height(),
            final(self).spec_num_leaves() == old(self).spec_num_leaves(),
            final(self).root_digest() == old(self).root_digest(),
            r is Err ==> *final(self) == *old(self),
            r is Ok ==> {
                &&& final(self).elem_at(pos as nat) == match old(self).elem_at(pos as nat) {
                    Some(e) => Some(e),
                    None => Some(elem),
                }
                &&& forall|i: nat|
                    i != pos ==> #[trigger] final(self).elem_at(i) == old(self).elem_at(i)
                &&& forall|s: Seq<E>| #[trigger]
                    old(self).commits_to(s) && proof.is_genuine_for::<H, ARITY>(s) && s[pos as int]
                        == elem ==> final(self).commits_to(s)
            },
    {
        if pos >= self.num_leaves {
            return Err(PrimitivesError::ParameterError);
        }
        if !is_usable_proof::<E, T, ARITY>(pos, proof) || proof.proof.len() - 1 != self.height {
            return Err(PrimitivesError::ProofShapeError);
        }
        let values: Vec<T> = path_values::<E, T, H, ARITY>(pos, &proof.proof);
        let leaf: T = H::digest_leaf(pos, &elem);
        let path: Vec<usize> = to_traversal_path(pos, ARITY, self.height);
        proof {
            reveal(obeys_concrete_eq);
            assert(proof.proof@.take(proof.proof@.len() as int) =~= proof.proof@);
            assert(proof.proof@.take(1).len() == 1);
            assert(proof.proof@.take(1)[0] == proof.proof@[0]);
            lemma_block_start_root(pos as nat, ARITY as nat, self.height as nat);
        }
        if !(values[0] == leaf) || !self.root.agrees::<H, ARITY>(self.height, &path, pos, &values) {
            return Err(PrimitivesError::VerificationError);
        }
        self.root.remember::<H, ARITY>(
            self.height,
            &path,
            pos,
            elem,
            &proof.proof,
            &values,
            Ghost(self.num_leaves as nat),
        );
        Ok(())
    }

    /// The number of leaves never exceeds the capacity.
    pub proof fn lemma_num_leaves_bounded(&self)
        requires
            self.wf(),
        ensures
            self.spec_num_leaves() <= self.leaf_limit(),
    {
    }

    /// A leaf in memory is one of the leaves appended so far.
    pub proof fn lemma_elem_at_bounded(&self, index: nat)
        requires
            self.wf(),
            self.elem_at(index) is Some,
        ensures
            index < self.spec_num_leaves(),
    {
        lemma_elem_at_is_element::<E, T, H, ARITY>(
            self.root,
            Seq::empty(),
            self.height as nat,
            0,
            self.num_leaves as nat,
            index,
        );
    }

    /// A tree commits to one sequence per leaf count: as many elements as it
    /// has leaves, and the element at each position in memory is the element
    /// of that position.
    pub proof fn lemma_commits_to_elements(&self, s: Seq<E>, index: nat)
        requires
            self.wf(),
            self.commits_to(s),
        ensures
            s.len() == self.spec_num_leaves(),
            self.elem_at(index) matches Some(e) ==> index < s.len() && s[index as int] == e,
    {
        if self.elem_at(index) is Some {
            lemma_elem_at_is_element::<E, T, H, ARITY>(
                self.root,
                s,
                self.height as nat,
                0,
                self.num_leaves as nat,
                index,
            );
        }
    }

    /// A proof that is genuine for the elements that a tree commits to, and
    /// as long as the tree is high, is accepted by `remember` for the element
    /// of its position.
    pub proof fn lemma_remember_accepts_genuine_proof(&self, s: Seq<E>, proof: MerkleProof<E, T>)
        requires
            self.wf(),
            self.commits_to(s),
            proof.is_genuine_for::<H, ARITY>(s),
            proof.proof@.len() == self.spec_height() + 1,
        ensures
            self.remember_outcome(proof.pos, s[proof.pos as int], proof) == Ok::<
                (),
                PrimitivesError,
            >(()),
    {
        let pos = proof.pos as nat;
        let values = path_digests::<E, T, H, ARITY>(proof.proof@, pos);
        lemma_block_start_root(pos, ARITY as nat, self.height as nat);
        assert forall|l: int| 0 <= l <= self.height implies #[trigger] values[l] == subtree_digest::<
            E,
            T,
            H,
            ARITY,
        >(s, l as nat, block_start(pos, ARITY as nat, l as nat)) by {
            lemma_genuine_path_digest::<E, T, H, ARITY>(proof.proof@, s, pos, l as nat);
        }
        lemma_agrees_with_subtree_digests::<E, T, H, ARITY>(
            self.root,
            s,
            self.height as nat,
            pos,
            values,
        );
        lemma_digest_is_subtree_digest::<E, T, H, ARITY>(self.root, s, self.height as nat, 0);
        assert(proof.proof@.take(self.height + 1 as int) =~= proof.proof@);
        assert(proof.proof@.take(1)[0] == proof.proof@[0]);
        assert(values[0] == path_digest::<E, T, H, ARITY>(proof.proof@.take(1), pos));
    }

    /// The root digest of a tree is the Merkle root of the elements that it
    /// commits to, whatever it has forgotten of them.
    pub proof fn lemma_root_digest_is_merkle_root(&self, s: Seq<E>)
        requires
            self.wf(),
            self.commits_to(s),
        ensures
            self.root_digest() == merkle_root::<E, T, H, ARITY>(s, self.spec_height() as nat),
    {
        lemma_digest_is_subtree_digest::<E, T, H, ARITY>(self.root, s, self.height as nat, 0);
    }

    /// Checks `proof` as a proof that the tree with root digest `root` holds
    /// the element that the proof records at position `pos`. A proof that is
    /// not shaped like one is an error; a well-shaped proof is `Valid` if the
    /// digests recomputed from it lead to `root`, and `Invalid` if not.
    pub fn verify(root: &T, pos: u64, proof: &MerkleProof<E, T>) -> (r: Result<
        VerificationResult,
        PrimitivesError,
    >)
        requires
            ARITY >= 1,
            obeys_concrete_eq::<T>(),
        ensures
            r == verification::<E, T, H, ARITY>(*root, pos, *proof),
    {
        verify_proof::<E, T, H, ARITY>(root, pos, proof)
    }
}

} // verus!
