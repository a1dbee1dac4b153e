//! What holds of every tree and of every proof, whichever digest is used.

use crate::append_only::MerkleTree;
use crate::digest::DigestAlgorithm;
use crate::errors::{PrimitivesError, VerificationResult};
use crate::light_weight::LightWeightMerkleTree;
use crate::membership::{verification, MerkleProof};
use crate::lemmas::lemma_sibling_blocks;
use crate::node::{
    child_digests, child_start, is_genuine_path, is_path_shaped, merkle_root, path_digest,
    subtree_child_digests, subtree_digest, MerkleNode,
};
use crate::traversal::{
    block_start, can_build, capacity, lemma_block_bounds, lemma_block_start_leaf,
    lemma_block_start_root, lemma_capacity_one, selector,
};
use vstd::prelude::*;

verus! {

/// The digest has no collisions: two leaves with one digest are one leaf, and
/// two rows of children with one digest are one row.
pub open spec fn collision_free<E, T, H: DigestAlgorithm<E, T>>() -> bool {
    &&& forall|p1: u64, e1: E, p2: u64, e2: E|
        #[trigger] H::leaf_digest(p1, e1) == #[trigger] H::leaf_digest(p2, e2) ==> p1 == p2 && e1
            == e2
    &&& forall|c1: Seq<T>, c2: Seq<T>|
        #[trigger] H::branch_digest(c1) == #[trigger] H::branch_digest(c2) ==> c1 == c2
}

/// A tree of height one holds as many elements as a branch has children: a
/// build at that height succeeds exactly for up to `ARITY` elements.
pub proof fn lemma_build_at_height_one<const ARITY: usize>(len: nat)
    ensures
        can_build::<ARITY>(Some(1usize), len) <==> len <= ARITY,
{
    lemma_capacity_one(ARITY as nat);
}

/// A light-weight tree and a tree that kept its leaves, of one height and over
/// the same elements, have the same root digest: forgetting does not show in a
/// commitment.
pub proof fn lemma_same_elements_same_root<
    E: Copy,
    H: DigestAlgorithm<E, T>,
    T: Copy + PartialEq,
    const ARITY: usize,
>(light: LightWeightMerkleTree<E, H, T, ARITY>, full: MerkleTree<E, H, T, ARITY>, s: Seq<E>)
    requires
        light.wf(),
        full.wf(),
        light.commits_to(s),
        full.commits_to(s),
        light.spec_height() == full.spec_height(),
    ensures
        light.root_digest() == full.root_digest(),
        light.spec_num_leaves() == full.spec_num_leaves(),
{
    light.lemma_root_digest_is_merkle_root(s);
    full.lemma_root_digest_is_merkle_root(s);
}

/// Nodes that are alike have the same digest.
pub proof fn lemma_alike_digest<E, T, H: DigestAlgorithm<E, T>>(
    node: MerkleNode<E, T>,
    other: MerkleNode<E, T>,
)
    requires
        node.alike(other),
    ensures
        node.digest::<H>() == other.digest::<H>(),
{
}

/// Two paths whose nodes are alike one by one are both shaped like a path or
/// neither is, and where they are they lead to the same digest.
pub proof fn lemma_alike_paths<E, T, H: DigestAlgorithm<E, T>, const ARITY: usize>(
    path: Seq<MerkleNode<E, T>>,
    other: Seq<MerkleNode<E, T>>,
    index: nat,
)
    requires
        path.len() == other.len(),
        forall|l: int| 0 <= l < path.len() ==> (#[trigger] path[l]).alike(other[l]),
    ensures
        is_path_shaped::<E, T, ARITY>(path) == is_path_shaped::<E, T, ARITY>(other),
        is_path_shaped::<E, T, ARITY>(path) ==> path_digest::<E, T, H, ARITY>(path, index)
            == path_digest::<E, T, H, ARITY>(other, index),
    decreases path.len(),
{
    if path.len() >= 1 {
        assert(path[0].alike(other[0]));
    }
    if is_path_shaped::<E, T, ARITY>(path) {
        assert forall|l: int| 1 <= l < other.len() implies {
            &&& (#[trigger] other[l]) is Branch
            &&& other[l]->children@.len() == ARITY
        } by {
            assert(path[l].alike(other[l]));
        }
    }
    if is_path_shaped::<E, T, ARITY>(other) {
        assert forall|l: int| 1 <= l < path.len() implies {
            &&& (#[trigger] path[l]) is Branch
            &&& path[l]->children@.len() == ARITY
        } by {
            assert(path[l].alike(other[l]));
        }
    }
    if is_path_shaped::<E, T, ARITY>(path) && path.len() > 1 {
        let last = path.len() - 1;
        assert(path[last].alike(other[last]));
        assert(path.drop_last()[0] == path[0]);
        assert forall|l: int| 1 <= l < path.drop_last().len() implies {
            &&& (#[trigger] path.drop_last()[l]) is Branch
            &&& path.drop_last()[l]->children@.len() == ARITY
        } by {
            assert(path.drop_last()[l] == path[l]);
        }
        assert forall|l: int| 0 <= l < path.drop_last().len() implies (#[trigger] path.drop_last()[l]).alike(
            other.drop_last()[l],
        ) by {
            assert(path[l].alike(other[l]));
        }
        lemma_alike_paths::<E, T, H, ARITY>(path.drop_last(), other.drop_last(), index);
        assert(path[last] is Branch);
        let mine = path[last]->children@;
        let theirs = other[last]->children@;
        assert forall|j: int| 0 <= j < mine.len() implies child_digests::<E, T, H>(mine)[j]
            == child_digests::<E, T, H>(theirs)[j] by {
            assert(mine[j].alike(theirs[j]));
            lemma_alike_digest::<E, T, H>(mine[j], theirs[j]);
        }
        assert(child_digests::<E, T, H>(mine) =~= child_digests::<E, T, H>(theirs));
    }
}

/// A copy of a proof, alike node by node, is checked like the proof itself:
/// what one is against a root digest, the other is.
pub proof fn lemma_alike_proofs_verify_alike<E, T, H: DigestAlgorithm<E, T>, const ARITY: usize>(
    root: T,
    pos: u64,
    proof: MerkleProof<E, T>,
    copy: MerkleProof<E, T>,
)
    requires
        copy.pos == proof.pos,
        copy.proof@.len() == proof.proof@.len(),
        forall|l: int|
            0 <= l < copy.proof@.len() ==> (#[trigger] copy.proof@[l]).alike(proof.proof@[l]),
    ensures
        verification::<E, T, H, ARITY>(root, pos, copy) == verification::<E, T, H, ARITY>(
            root,
            pos,
            proof,
        ),
{
    lemma_alike_paths::<E, T, H, ARITY>(copy.proof@, proof.proof@, pos as nat);
}

/// With a digest that has no collisions, a path that leads to the digest of a
/// subtree over the elements `s` is genuine: it starts with the leaf of its
/// position in `s`, and it records beside its way the digests that the
/// subtrees over `s` have.
pub proof fn lemma_path_to_subtree_digest<E, T, H: DigestAlgorithm<E, T>, const ARITY: usize>(
    path: Seq<MerkleNode<E, T>>,
    s: Seq<E>,
    height: nat,
    index: nat,
)
    requires
        ARITY >= 1,
        collision_free::<E, T, H>(),
        is_path_shaped::<E, T, ARITY>(path),
        path.len() == height + 1,
        index < s.len(),
        index <= u64::MAX,
        path_digest::<E, T, H, ARITY>(path, index) == subtree_digest::<E, T, H, ARITY>(
            s,
            height,
            block_start(index, ARITY as nat, height),
        ),
    ensures
        is_genuine_path::<E, T, H, ARITY>(path, s, index),
    decreases height,
{
    let start = block_start(index, ARITY as nat, height);
    lemma_block_bounds(index, ARITY as nat, height);
    if height == 0 {
        lemma_block_start_leaf(index, ARITY as nat);
    } else {
        let d = selector(index, ARITY as nat, (height - 1) as nat) as int;
        let below = path.drop_last();
        let recorded = child_digests::<E, T, H>(path.last()->children@).update(
            d,
            path_digest::<E, T, H, ARITY>(below, index),
        );
        let expected = subtree_child_digests::<E, T, H, ARITY>(s, height, start);
        assert(path[height as int] is Branch);
        assert(H::branch_digest(recorded) == H::branch_digest(expected));
        assert(recorded == expected);
        lemma_sibling_blocks(index, ARITY as nat, height, d);
        vstd::arithmetic::div_mod::lemma_mod_bound(
            index as int / capacity(ARITY as nat, (height - 1) as nat) as int,
            ARITY as int,
        );
        assert(recorded[d] == expected[d]);
        assert(below[0] == path[0]);
        assert forall|l: int| 1 <= l < below.len() implies {
            &&& (#[trigger] below[l]) is Branch
            &&& below[l]->children@.len() == ARITY
        } by {
            assert(below[l] == path[l]);
        }
        lemma_path_to_subtree_digest::<E, T, H, ARITY>(below, s, (height - 1) as nat, index);
        assert forall|l: int, j: int|
            1 <= l < path.len() && 0 <= j < ARITY && j != selector(
                index,
                ARITY as nat,
                (l - 1) as nat,
            ) implies (#[trigger] path[l]->children@[j]).digest::<H>() == subtree_digest::<
            E,
            T,
            H,
            ARITY,
        >(
            s,
            (l - 1) as nat,
            child_start(block_start(index, ARITY as nat, l as nat), j, ARITY as nat, l as nat),
        ) by {
            if l < height {
                assert(path[l] == below[l]);
                assert(below[l]->children@[j].digest::<H>() == subtree_digest::<E, T, H, ARITY>(
                    s,
                    (l - 1) as nat,
                    child_start(block_start(index, ARITY as nat, l as nat), j, ARITY as nat, l as nat),
                ));
            } else {
                assert(recorded[j] == expected[j]);
            }
        }
    }
}

/// With a digest that has no collisions, a proof that is valid for position
/// `pos` against the Merkle root of the elements `s` is genuine: it records
/// that position and the element of that position, and the digests of the
/// tree over `s` beside them. No other element, no other position and no other
/// sibling digest leads to that root.
pub proof fn lemma_valid_proof_is_genuine<E, T, H: DigestAlgorithm<E, T>, const ARITY: usize>(
    s: Seq<E>,
    height: nat,
    pos: u64,
    proof: MerkleProof<E, T>,
)
    requires
        ARITY >= 1,
        collision_free::<E, T, H>(),
        pos < s.len(),
        proof.proof@.len() == height + 1,
        verification::<E, T, H, ARITY>(merkle_root::<E, T, H, ARITY>(s, height), pos, proof) == Ok::<
            VerificationResult,
            PrimitivesError,
        >(VerificationResult::Valid),
    ensures
        proof.is_genuine_for::<H, ARITY>(s),
        proof.proof@[0]->pos == pos,
        proof.proof@[0]->elem == s[pos as int],
{
    lemma_block_start_root(pos as nat, ARITY as nat, height);
    lemma_path_to_subtree_digest::<E, T, H, ARITY>(proof.proof@, s, height, pos as nat);
}

} // verus!
