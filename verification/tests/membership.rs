use merkle_tree::append_only::MerkleTree;
use merkle_tree::digest::{DigestAlgorithm, MixDigest};
use merkle_tree::membership::{is_usable_proof, path_values, verify_proof, MerkleProof};
use merkle_tree::errors::VerificationResult;
use merkle_tree::node::MerkleNode;

type FullTree = MerkleTree<u64, MixDigest, u64, 3>;

#[test]
fn a_path_leads_from_the_leaf_digest_to_the_root_digest() {
    let data = [5u64, 6, 7, 8, 9, 10, 11];
    let full = FullTree::from_elems(Some(2), &data).unwrap();
    let root = full.commitment().digest();
    for i in 0..7u64 {
        let (_, proof) = full.lookup(i).expect_ok().unwrap();
        assert!(is_usable_proof::<u64, u64, 3>(i, &proof));
        assert!(!is_usable_proof::<u64, u64, 3>(i + 1, &proof));
        let values = path_values::<u64, u64, MixDigest, 3>(i, &proof.proof);
        assert_eq!(values.len(), 3);
        assert_eq!(values[0], MixDigest::digest_leaf(i, &data[i as usize]));
        assert_eq!(values[2], root);
        // the digest in the middle is the digest of the branch of three leaves
        let first = (i / 3) * 3;
        let leaves: Vec<u64> = (first..first + 3)
            .map(|p| {
                if p < 7 {
                    MixDigest::digest_leaf(p, &data[p as usize])
                } else {
                    MixDigest::empty()
                }
            })
            .collect();
        assert_eq!(values[1], MixDigest::digest(&leaves));
        assert_eq!(
            verify_proof::<u64, u64, MixDigest, 3>(&root, i, &proof),
            Ok(VerificationResult::Valid)
        );
    }
}

#[test]
fn a_proof_written_by_hand() {
    // the tree of height one over [4, 5] with three children below the root
    let leaves = vec![
        MixDigest::digest_leaf(0, &4),
        MixDigest::digest_leaf(1, &5),
        MixDigest::empty(),
    ];
    let root = MixDigest::digest(&leaves);
    let proof = MerkleProof::new(
        1,
        vec![
            MerkleNode::Leaf { value: 0, pos: 1, elem: 5 },
            MerkleNode::Branch {
                value: 0,
                children: vec![
                    MerkleNode::ForgottenSubtree { value: leaves[0] },
                    MerkleNode::ForgottenSubtree { value: 777 },
                    MerkleNode::Empty,
                ],
            },
        ],
    );
    assert_eq!(proof.tree_height(), 2);
    assert_eq!(proof.index(), 1);
    assert_eq!(proof.elem(), Some(&5));
    assert_eq!(
        FullTree::verify(&root, 1, &proof),
        Ok(VerificationResult::Valid)
    );
    let copy = proof.clone();
    assert_eq!(copy, proof);
    let nothing: MerkleProof<u64, u64> = MerkleProof::new(0, Vec::new());
    assert_eq!(nothing.elem(), None);
    let no_leaf: MerkleProof<u64, u64> = MerkleProof::new(0, vec![MerkleNode::Empty]);
    assert_eq!(no_leaf.elem(), None);
}
