use merkle_tree::append_only::MerkleTree;
use merkle_tree::digest::MixDigest;
use merkle_tree::errors::{PrimitivesError, VerificationResult};
use merkle_tree::light_weight::LightWeightMerkleTree;
use merkle_tree::membership::{LookupResult, MerkleProof};
use merkle_tree::node::MerkleNode;
use num_bigint::BigUint;

type LightTree = LightWeightMerkleTree<u64, MixDigest, u64, 3>;
type FullTree = MerkleTree<u64, MixDigest, u64, 3>;

#[test]
fn test_light_mt_builder() {
    let arity: usize = LightTree::arity();
    let mut data = vec![0u64; arity];
    assert!(LightTree::from_elems(Some(1), &data).is_ok());
    data.push(0u64);
    assert!(LightTree::from_elems(Some(1), &data).is_err());
}

#[test]
fn test_light_mt_insertion() {
    let mut mt = LightTree::new(2);
    assert_eq!(mt.capacity(), BigUint::from(9u64));
    assert!(mt.push(2u64).is_ok());
    assert!(mt.push(3u64).is_ok());
    assert!(mt.extend(&[0u64; 9]).is_err()); // Will err, but first 7 items will be inserted
    assert_eq!(mt.num_leaves(), 9); // full merkle tree

    // Now unable to insert more data
    assert!(mt.push(0u64).is_err());
    assert!(mt.extend(&[]).is_ok());
    assert!(mt.extend(&[1u64]).is_err());

    // Checks that the prior elements are all forgotten
    (0..8).for_each(|i| assert!(mt.lookup(i).expect_not_in_memory().is_ok()));
    assert!(mt.lookup(8).expect_ok().is_ok());
}

#[test]
fn test_light_mt_lookup() {
    let mut mt = LightTree::from_elems(Some(2), &[3u64, 1u64]).unwrap();
    let mut mock_mt = FullTree::from_elems(Some(2), &[3u64, 1u64]).unwrap();
    assert!(mt.lookup(0).expect_not_in_memory().is_ok());
    assert!(mt.lookup(1).expect_ok().is_ok());
    assert!(mt.extend(&[3u64, 1u64]).is_ok());
    assert!(mock_mt.extend(&[3u64, 1u64]).is_ok());
    assert!(mt.lookup(0).expect_not_in_memory().is_ok());
    assert!(mt.lookup(1).expect_not_in_memory().is_ok());
    assert!(mt.lookup(2).expect_not_in_memory().is_ok());
    assert!(mt.lookup(3).expect_ok().is_ok());
    let (elem, proof) = mock_mt.lookup(0).expect_ok().unwrap();
    assert_eq!(elem, &3u64);
    assert_eq!(proof.tree_height(), 3);
    let root = mt.commitment().digest();
    assert_eq!(
        LightTree::verify(&root, 0, &proof).unwrap(),
        VerificationResult::Valid
    );

    let mut bad_proof = proof.clone();
    if let MerkleNode::Leaf {
        value: _,
        pos: _,
        elem,
    } = &mut bad_proof.proof[0]
    {
        *elem = 4u64;
    } else {
        unreachable!()
    }

    let result = LightTree::verify(&root, 0, &bad_proof);
    assert_eq!(result.unwrap(), VerificationResult::Invalid);

    let mut forge_proof = MerkleProof::new(2, proof.proof);
    if let MerkleNode::Leaf {
        value: _,
        pos,
        elem,
    } = &mut forge_proof.proof[0]
    {
        *pos = 2;
        *elem = 0u64;
    } else {
        unreachable!()
    }
    let result = LightTree::verify(&root, 2, &forge_proof);
    assert_eq!(result.unwrap(), VerificationResult::Invalid);
}

#[test]
fn capacity_is_arity_to_the_height() {
    assert_eq!(LightTree::new(0).capacity(), BigUint::from(1u64));
    assert_eq!(LightTree::new(1).capacity(), BigUint::from(3u64));
    assert_eq!(LightTree::new(2).capacity(), BigUint::from(9u64));
    assert_eq!(FullTree::new(5).capacity(), BigUint::from(243u64));
    assert_eq!(
        LightWeightMerkleTree::<u64, MixDigest, u64, 2>::new(10).capacity(),
        BigUint::from(1024u64)
    );
    // beyond what a machine word holds
    assert_eq!(
        LightTree::new(41).capacity(),
        BigUint::parse_bytes(b"36472996377170786403", 10).unwrap()
    );
}

#[test]
fn builder_picks_the_least_height() {
    let none: [u64; 0] = [];
    assert_eq!(LightTree::from_elems(None, &none).unwrap().height(), 1);
    assert_eq!(LightTree::from_elems(None, &[5u64]).unwrap().height(), 1);
    assert_eq!(LightTree::from_elems(None, &[5u64; 3]).unwrap().height(), 1);
    assert_eq!(LightTree::from_elems(None, &[5u64; 4]).unwrap().height(), 2);
    assert_eq!(LightTree::from_elems(None, &[5u64; 9]).unwrap().height(), 2);
    assert_eq!(LightTree::from_elems(None, &[5u64; 10]).unwrap().height(), 3);
    assert_eq!(FullTree::from_elems(None, &[5u64; 28]).unwrap().height(), 4);
    assert_eq!(FullTree::from_elems(None, &[5u64; 28]).unwrap().num_leaves(), 28);
}

#[test]
fn builder_refuses_what_does_not_fit() {
    let r = LightTree::from_elems(Some(2), &[1u64; 10]);
    assert_eq!(r.err(), Some(PrimitivesError::ParameterError));
    let r = FullTree::from_elems(Some(0), &[1u64; 2]);
    assert_eq!(r.err(), Some(PrimitivesError::ParameterError));
    assert!(FullTree::from_elems(Some(0), &[1u64]).is_ok());
    assert!(LightTree::from_elems(Some(2), &[1u64; 9]).is_ok());
}

#[test]
fn root_digest_is_the_merkle_root() {
    let none: [u64; 0] = [];
    assert_eq!(LightTree::new(2).commitment().digest(), 0);
    assert_eq!(
        LightTree::from_elems(Some(2), &none).unwrap().commitment().digest(),
        0
    );
    assert_eq!(
        LightTree::from_elems(Some(2), &[3u64, 1u64]).unwrap().commitment().digest(),
        9748285517304918715
    );
    assert_eq!(
        LightTree::from_elems(Some(2), &[3u64, 1, 3, 1]).unwrap().commitment().digest(),
        2044871644978431921
    );
    assert_eq!(
        FullTree::from_elems(Some(2), &[3u64, 1, 3, 1]).unwrap().commitment().digest(),
        2044871644978431921
    );
    assert_eq!(
        MerkleTree::<u64, MixDigest, u64, 2>::from_elems(Some(1), &[7u64])
            .unwrap()
            .commitment()
            .digest(),
        13544059523943666597
    );
}

#[test]
fn both_trees_commit_alike() {
    let mut light = LightTree::new(3);
    let mut full = FullTree::new(3);
    assert_eq!(light.commitment().digest(), full.commitment().digest());
    for i in 0..27u64 {
        assert!(light.push(i * 7 + 1).is_ok());
        assert!(full.push(i * 7 + 1).is_ok());
        assert_eq!(light.commitment().digest(), full.commitment().digest());
        assert_eq!(light.commitment().size(), i + 1);
        assert_eq!(light.commitment().height(), 3);
        assert_eq!(light.num_leaves(), full.num_leaves());
    }
    assert_eq!(light.push(0).err(), Some(PrimitivesError::ParameterError));
    assert_eq!(full.push(0).err(), Some(PrimitivesError::ParameterError));
    let batch: Vec<u64> = (0..27u64).map(|i| i * 7 + 1).collect();
    let built = LightTree::from_elems(Some(3), &batch).unwrap();
    assert_eq!(built.commitment().digest(), light.commitment().digest());
}

#[test]
fn appended_elements_take_the_next_index() {
    let mut full = FullTree::new(2);
    let data = [11u64, 22, 33, 44, 55];
    assert!(full.extend(&data).is_ok());
    for (i, e) in data.iter().enumerate() {
        let (found, proof) = full.lookup(i as u64).expect_ok().unwrap();
        assert_eq!(found, e);
        assert_eq!(proof.index(), i as u64);
        assert_eq!(proof.elem(), Some(e));
    }
    let mut light = LightTree::new(2);
    for (i, e) in data.iter().enumerate() {
        assert!(light.push(*e).is_ok());
        let (found, proof) = light.lookup(i as u64).expect_ok().unwrap();
        assert_eq!(found, e);
        assert_eq!(proof.index(), i as u64);
    }
}

#[test]
fn light_tree_keeps_only_the_last_leaf() {
    let mut light = LightTree::new(3);
    for i in 0..27u64 {
        assert!(light.push(i).is_ok());
        for j in 0..i {
            assert_eq!(light.lookup(j), LookupResult::NotInMemory);
        }
        assert!(light.lookup(i).expect_ok().is_ok());
        assert_eq!(light.lookup(i + 1), LookupResult::NotFound(()));
    }
}

#[test]
fn lookup_beyond_the_leaves_finds_nothing() {
    let mut full = FullTree::new(2);
    assert_eq!(full.lookup(0), LookupResult::NotFound(()));
    assert!(full.extend(&[1u64, 2, 3]).is_ok());
    assert_eq!(full.lookup(3), LookupResult::NotFound(()));
    assert_eq!(full.lookup(8), LookupResult::NotFound(()));
    assert_eq!(full.lookup(9), LookupResult::NotFound(()));
    assert_eq!(full.lookup(u64::MAX), LookupResult::NotFound(()));
    let light = LightTree::from_elems(Some(2), &[1u64, 2, 3]).unwrap();
    assert_eq!(light.lookup(3), LookupResult::NotFound(()));
    assert_eq!(light.lookup(9 + 2), LookupResult::NotFound(()));
    assert!(light.lookup(3).expect_not_found().is_ok());
}

#[test]
fn proofs_of_the_full_tree_verify_against_the_light_root() {
    let data: Vec<u64> = (0..20u64).map(|i| i * i + 3).collect();
    let full = FullTree::from_elems(Some(3), &data).unwrap();
    let light = LightTree::from_elems(Some(3), &data).unwrap();
    let root = light.commitment().digest();
    for i in 0..20u64 {
        let (_, proof) = full.lookup(i).expect_ok().unwrap();
        assert_eq!(proof.tree_height(), 4);
        assert_eq!(
            LightTree::verify(&root, i, &proof).unwrap(),
            VerificationResult::Valid
        );
        assert_eq!(
            FullTree::verify(&(root ^ 1), i, &proof).unwrap(),
            VerificationResult::Invalid
        );
        // a proof for one position is no proof for another
        assert_eq!(
            FullTree::verify(&root, (i + 1) % 20, &proof).err(),
            Some(PrimitivesError::ProofShapeError)
        );
    }
}

#[test]
fn changed_proofs_are_invalid() {
    let data: Vec<u64> = (0..9u64).map(|i| 100 + i).collect();
    let full = FullTree::from_elems(Some(2), &data).unwrap();
    let root = full.commitment().digest();
    for i in 0..9u64 {
        let (_, proof) = full.lookup(i).expect_ok().unwrap();
        // the element
        let mut changed = proof.clone();
        if let MerkleNode::Leaf { elem, .. } = &mut changed.proof[0] {
            *elem += 1;
        }
        assert_eq!(
            FullTree::verify(&root, i, &changed).unwrap(),
            VerificationResult::Invalid
        );
        // the recorded position
        let mut changed = proof.clone();
        if let MerkleNode::Leaf { pos, .. } = &mut changed.proof[0] {
            *pos = (*pos + 1) % 9;
        }
        assert_eq!(
            FullTree::verify(&root, i, &changed).unwrap(),
            VerificationResult::Invalid
        );
        // a sibling digest, at each level
        for level in 1..3 {
            let mut changed = proof.clone();
            if let MerkleNode::Branch { children, .. } = &mut changed.proof[level] {
                let other = ((i as usize / if level == 1 { 1 } else { 3 }) % 3 + 1) % 3;
                children[other] = MerkleNode::ForgottenSubtree { value: 12345 };
            }
            assert_eq!(
                FullTree::verify(&root, i, &changed).unwrap(),
                VerificationResult::Invalid
            );
        }
        // the cached digest of the leaf is never trusted
        let mut stale = proof.clone();
        if let MerkleNode::Leaf { value, .. } = &mut stale.proof[0] {
            *value = 0;
        }
        assert_eq!(
            FullTree::verify(&root, i, &stale).unwrap(),
            VerificationResult::Valid
        );
    }
}

#[test]
fn misshapen_proofs_are_errors() {
    let full = FullTree::from_elems(Some(2), &[1u64, 2, 3, 4]).unwrap();
    let root = full.commitment().digest();
    let (_, proof) = full.lookup(1).expect_ok().unwrap();
    let shape_error = Some(PrimitivesError::ProofShapeError);

    // for another position
    assert_eq!(FullTree::verify(&root, 2, &proof).err(), shape_error);
    // no nodes at all
    let empty: MerkleProof<u64, u64> = MerkleProof::new(1, Vec::new());
    assert_eq!(FullTree::verify(&root, 1, &empty).err(), shape_error);
    // no leaf at the start
    let mut no_leaf = proof.clone();
    no_leaf.proof[0] = MerkleNode::Empty;
    assert_eq!(FullTree::verify(&root, 1, &no_leaf).err(), shape_error);
    // a node above the leaf that is no branch
    let mut no_branch = proof.clone();
    no_branch.proof[2] = MerkleNode::ForgottenSubtree { value: root };
    assert_eq!(FullTree::verify(&root, 1, &no_branch).err(), shape_error);
    // a branch of another arity
    let mut short = proof.clone();
    if let MerkleNode::Branch { children, .. } = &mut short.proof[1] {
        children.pop();
    }
    assert_eq!(FullTree::verify(&root, 1, &short).err(), shape_error);
    // a position beyond a tree as high as the proof is long
    let mut far = proof.clone();
    far.pos = 9 + 1;
    assert_eq!(FullTree::verify(&root, 9 + 1, &far).err(), shape_error);
    // a path that is too short for the position
    let mut cut = full.lookup(3).expect_ok().unwrap().1;
    cut.proof.pop();
    assert_eq!(FullTree::verify(&root, 3, &cut).err(), shape_error);
}

#[test]
fn forget_and_remember() {
    let data = [10u64, 20, 30, 40, 50];
    let mut full = FullTree::from_elems(Some(2), &data).unwrap();
    let root = full.commitment().digest();

    let (elem, proof) = full.forget(1).expect_ok().unwrap();
    assert_eq!(elem, 20);
    assert_eq!(proof.index(), 1);
    assert_eq!(
        FullTree::verify(&root, 1, &proof).unwrap(),
        VerificationResult::Valid
    );
    assert_eq!(full.commitment().digest(), root);
    assert_eq!(full.num_leaves(), 5);
    assert_eq!(full.lookup(1), LookupResult::NotInMemory);
    assert!(full.lookup(0).expect_ok().is_ok());
    assert!(full.lookup(2).expect_ok().is_ok());
    assert_eq!(full.forget(1), LookupResult::NotInMemory);
    assert_eq!(full.forget(5), LookupResult::NotFound(()));
    assert_eq!(full.forget(100), LookupResult::NotFound(()));

    // forgetting a whole branch forgets the branch
    assert!(full.forget(0).expect_ok().is_ok());
    let (_, proof_two) = full.forget(2).expect_ok().unwrap();
    assert_eq!(full.lookup(0), LookupResult::NotInMemory);
    assert_eq!(full.lookup(2), LookupResult::NotInMemory);
    assert_eq!(full.commitment().digest(), root);

    // the frontier stays: appending still works
    assert!(full.forget(4).expect_ok().is_ok());
    assert!(full.push(60).is_ok());
    assert!(full.lookup(5).expect_ok().is_ok());
    let grown = full.commitment().digest();
    assert_eq!(
        grown,
        FullTree::from_elems(Some(2), &[10u64, 20, 30, 40, 50, 60])
            .unwrap()
            .commitment()
            .digest()
    );

    // the old proofs no longer lead to the root
    assert_eq!(
        full.remember(1, 20, &proof).err(),
        Some(PrimitivesError::VerificationError)
    );
    assert_eq!(full.lookup(1), LookupResult::NotInMemory);

    // a fresh proof brings the leaf back
    let helper = FullTree::from_elems(Some(2), &[10u64, 20, 30, 40, 50, 60]).unwrap();
    let (_, fresh) = helper.lookup(1).expect_ok().unwrap();
    assert_eq!(full.remember(1, 20, &fresh), Ok(()));
    let (found, again) = full.lookup(1).expect_ok().unwrap();
    assert_eq!(found, &20);
    assert_eq!(
        FullTree::verify(&grown, 1, &again).unwrap(),
        VerificationResult::Valid
    );
    assert_eq!(full.lookup(0), LookupResult::NotInMemory);
    assert_eq!(full.lookup(2), LookupResult::NotInMemory);
    assert_eq!(full.commitment().digest(), grown);
    // once more is no change
    assert_eq!(full.remember(1, 20, &fresh), Ok(()));
    assert_eq!(proof_two.index(), 2);
}

#[test]
fn remember_refuses_what_does_not_verify() {
    let data = [10u64, 20, 30, 40];
    let full = FullTree::from_elems(Some(2), &data).unwrap();
    let mut light = LightTree::from_elems(Some(2), &data).unwrap();
    let root = light.commitment().digest();
    let (_, proof) = full.lookup(1).expect_ok().unwrap();

    // no such leaf
    assert_eq!(
        light.remember(4, 20, &proof).err(),
        Some(PrimitivesError::ParameterError)
    );
    // a proof for another position
    assert_eq!(
        light.remember(2, 20, &proof).err(),
        Some(PrimitivesError::ProofShapeError)
    );
    // a proof for a tree of another height
    let other = FullTree::from_elems(Some(3), &data).unwrap();
    let (_, high) = other.lookup(1).expect_ok().unwrap();
    assert_eq!(
        light.remember(1, 20, &high).err(),
        Some(PrimitivesError::ProofShapeError)
    );
    // another element
    assert_eq!(
        light.remember(1, 21, &proof).err(),
        Some(PrimitivesError::VerificationError)
    );
    // a proof from a tree over other elements
    let stranger = FullTree::from_elems(Some(2), &[10u64, 20, 30, 41]).unwrap();
    let (_, foreign) = stranger.lookup(1).expect_ok().unwrap();
    assert_eq!(
        light.remember(1, 20, &foreign).err(),
        Some(PrimitivesError::VerificationError)
    );
    assert_eq!(light.lookup(1), LookupResult::NotInMemory);
    assert_eq!(light.commitment().digest(), root);

    // the right one
    assert_eq!(light.remember(1, 20, &proof), Ok(()));
    assert_eq!(light.lookup(1).expect_ok().unwrap().0, &20);
    assert_eq!(light.lookup(0), LookupResult::NotInMemory);
    assert_eq!(light.lookup(2), LookupResult::NotInMemory);
    assert!(light.lookup(3).expect_ok().is_ok());
    assert_eq!(light.commitment().digest(), root);

    // appending forgets it again
    assert!(light.push(50).is_ok());
    assert_eq!(light.lookup(1), LookupResult::NotInMemory);
    assert_eq!(light.lookup(3), LookupResult::NotInMemory);
    assert!(light.lookup(4).expect_ok().is_ok());
}

#[test]
fn lookup_results_are_told_apart() {
    let internal = Some(PrimitivesError::InternalError);
    let found: LookupResult<u64, u8, ()> = LookupResult::Found(7, 1);
    let forgotten: LookupResult<u64, u8, ()> = LookupResult::NotInMemory;
    let missing: LookupResult<u64, u8, ()> = LookupResult::NotFound(());
    assert_eq!(found.expect_ok(), Ok((7, 1)));
    assert_eq!(forgotten.expect_not_in_memory(), Ok(()));
    assert_eq!(missing.expect_not_found(), Ok(()));
    let found: LookupResult<u64, u8, ()> = LookupResult::Found(7, 1);
    let forgotten: LookupResult<u64, u8, ()> = LookupResult::NotInMemory;
    let missing: LookupResult<u64, u8, ()> = LookupResult::NotFound(());
    assert_eq!(found.expect_not_found().err(), internal);
    assert_eq!(forgotten.expect_ok().err(), internal);
    assert_eq!(missing.expect_not_in_memory().err(), internal);
}

#[test]
fn a_high_tree_with_few_leaves() {
    let mut light = LightTree::new(64);
    let mut full = FullTree::new(64);
    for i in 0..10u64 {
        assert!(light.push(i).is_ok());
        assert!(full.push(i).is_ok());
    }
    assert_eq!(light.commitment().digest(), full.commitment().digest());
    let (elem, proof) = full.lookup(4).expect_ok().unwrap();
    assert_eq!(elem, &4);
    assert_eq!(proof.tree_height(), 65);
    assert_eq!(
        LightTree::verify(&light.commitment().digest(), 4, &proof).unwrap(),
        VerificationResult::Valid
    );
    assert_eq!(light.lookup(u64::MAX), LookupResult::NotFound(()));
}

#[test]
fn a_tree_of_height_zero_holds_one_leaf() {
    let mut light = LightTree::new(0);
    assert_eq!(light.capacity(), BigUint::from(1u64));
    assert!(light.push(9).is_ok());
    assert_eq!(light.push(9).err(), Some(PrimitivesError::ParameterError));
    let (elem, proof) = light.lookup(0).expect_ok().unwrap();
    assert_eq!(elem, &9);
    assert_eq!(proof.tree_height(), 1);
    assert_eq!(
        LightTree::verify(&light.commitment().digest(), 0, &proof).unwrap(),
        VerificationResult::Valid
    );
}

#[test]
fn a_tree_out_of_its_parts() {
    let data = [10u64, 20, 30, 40, 50];
    let light = LightTree::from_elems(Some(2), &data).unwrap();
    let full = FullTree::from_elems(Some(2), &data).unwrap();

    // the parts of a tree make the tree again
    let again = LightTree::from_parts(light.root().clone(), 2, 5).unwrap();
    assert_eq!(again.root(), light.root());
    assert_eq!(again.commitment(), light.commitment());
    assert_eq!(again.lookup(4).expect_ok().unwrap().0, &50);
    // a light-weight tree can take the parts of a tree that kept its leaves
    let mut converted = LightTree::from_parts(full.root().clone(), 2, 5).unwrap();
    assert_eq!(converted.lookup(1).expect_ok().unwrap().0, &20);
    assert!(converted.push(60).is_ok());
    assert_eq!(converted.lookup(1), LookupResult::NotInMemory);
    assert!(FullTree::from_parts(MerkleNode::Empty, 7, 0).is_ok());
    assert!(FullTree::from_parts(MerkleNode::Empty, 0, 0).is_ok());

    let refused = Some(PrimitivesError::ParameterError);
    // another number of leaves, or another height
    assert_eq!(FullTree::from_parts(full.root().clone(), 2, 4).err(), refused);
    assert_eq!(FullTree::from_parts(full.root().clone(), 2, 6).err(), refused);
    assert_eq!(FullTree::from_parts(full.root().clone(), 3, 5).err(), refused);
    assert_eq!(FullTree::from_parts(full.root().clone(), 1, 5).err(), refused);
    assert_eq!(FullTree::from_parts(MerkleNode::Empty, 2, 1).err(), refused);
    // more leaves than the height has room for
    assert_eq!(FullTree::from_parts(full.root().clone(), 2, 10).err(), refused);
    // a changed element, a changed position, a stale digest
    let mut changed = full.root().clone();
    if let MerkleNode::Branch { children, .. } = &mut changed {
        if let MerkleNode::Branch { children, .. } = &mut children[0] {
            if let MerkleNode::Leaf { elem, .. } = &mut children[1] {
                *elem = 21;
            }
        }
    }
    assert_eq!(FullTree::from_parts(changed, 2, 5).err(), refused);
    let mut changed = full.root().clone();
    if let MerkleNode::Branch { children, .. } = &mut changed {
        if let MerkleNode::Branch { children, .. } = &mut children[1] {
            if let MerkleNode::Leaf { pos, .. } = &mut children[0] {
                *pos = 4;
            }
        }
    }
    assert_eq!(FullTree::from_parts(changed, 2, 5).err(), refused);
    let mut changed = full.root().clone();
    if let MerkleNode::Branch { value, .. } = &mut changed {
        *value ^= 1;
    }
    assert_eq!(FullTree::from_parts(changed, 2, 5).err(), refused);
    // the frontier forgotten, or something stored beyond the leaves
    let mut changed = full.root().clone();
    if let MerkleNode::Branch { children, .. } = &mut changed {
        let value = match &children[1] {
            MerkleNode::Branch { value, .. } => *value,
            _ => unreachable!(),
        };
        children[1] = MerkleNode::ForgottenSubtree { value };
    }
    assert_eq!(FullTree::from_parts(changed, 2, 5).err(), refused);
    // a full subtree may be forgotten
    let mut kept = full.root().clone();
    if let MerkleNode::Branch { children, .. } = &mut kept {
        let value = match &children[0] {
            MerkleNode::Branch { value, .. } => *value,
            _ => unreachable!(),
        };
        children[0] = MerkleNode::ForgottenSubtree { value };
    }
    let partly = FullTree::from_parts(kept, 2, 5).unwrap();
    assert_eq!(partly.commitment(), full.commitment());
    assert_eq!(partly.lookup(0), LookupResult::NotInMemory);
    assert_eq!(partly.lookup(3).expect_ok().unwrap().0, &40);
    // a branch of another arity
    let mut changed = full.root().clone();
    if let MerkleNode::Branch { children, .. } = &mut changed {
        children.push(MerkleNode::Empty);
    }
    assert_eq!(FullTree::from_parts(changed, 2, 5).err(), refused);
}

#[test]
fn building_is_appending() {
    for len in 0..=27usize {
        let data: Vec<u64> = (0..len as u64).map(|i| 1000 + 3 * i).collect();
        let built = LightTree::from_elems(Some(3), &data).unwrap();
        let mut grown = LightTree::new(3);
        assert!(grown.extend(&data).is_ok());
        assert_eq!(built.root(), grown.root());
        assert_eq!(built.commitment(), grown.commitment());
        assert_eq!(built.num_leaves(), len as u64);

        let built = FullTree::from_elems(Some(3), &data).unwrap();
        let mut grown = FullTree::new(3);
        for e in data.iter() {
            assert!(grown.push(*e).is_ok());
        }
        assert_eq!(built.root(), grown.root());
        assert_eq!(built.commitment(), grown.commitment());
    }
}

#[test]
fn a_full_light_tree_is_root_and_frontier() {
    let data: Vec<u64> = (0..9u64).collect();
    let light = LightTree::from_elems(Some(2), &data).unwrap();
    match light.root() {
        MerkleNode::Branch { children, .. } => {
            assert_eq!(children.len(), 3);
            assert!(children[0].is_forgotten());
            assert!(children[1].is_forgotten());
            match &children[2] {
                MerkleNode::Branch { children, .. } => {
                    assert!(children[0].is_forgotten());
                    assert!(children[1].is_forgotten());
                    assert_eq!(
                        children[2],
                        MerkleNode::Leaf {
                            value: children[2].value::<MixDigest>(),
                            pos: 8,
                            elem: 8
                        }
                    );
                },
                _ => unreachable!(),
            }
        },
        _ => unreachable!(),
    }
    assert_eq!(light.root().value::<MixDigest>(), light.commitment().digest());
    assert_eq!(MerkleNode::<u64, u64>::Empty.value::<MixDigest>(), 0);
}

#[test]
fn height_one_holds_one_branch() {
    for arity_many in 0..=3usize {
        let data = vec![1u64; arity_many];
        assert!(LightTree::from_elems(Some(1), &data).is_ok());
        assert!(FullTree::from_elems(Some(1), &data).is_ok());
    }
    assert!(LightTree::from_elems(Some(1), &[1u64; 4]).is_err());
    assert!(MerkleTree::<u64, MixDigest, u64, 2>::from_elems(Some(1), &[1u64; 2]).is_ok());
    assert!(MerkleTree::<u64, MixDigest, u64, 2>::from_elems(Some(1), &[1u64; 3]).is_err());
    assert_eq!(MerkleTree::<u64, MixDigest, u64, 2>::arity(), 2);
}

#[test]
fn extend_places_what_fits() {
    let mut full = FullTree::new(2);
    assert!(full.extend(&[1u64, 2]).is_ok());
    assert_eq!(
        full.extend(&[3u64, 4, 5, 6, 7, 8, 9, 10, 11]).err(),
        Some(PrimitivesError::ParameterError)
    );
    assert_eq!(full.num_leaves(), 9);
    for i in 0..9u64 {
        assert_eq!(full.lookup(i).expect_ok().unwrap().0, &(i + 1));
    }
    assert_eq!(
        full.commitment().digest(),
        FullTree::from_elems(Some(2), &[1u64, 2, 3, 4, 5, 6, 7, 8, 9])
            .unwrap()
            .commitment()
            .digest()
    );
    let before = full.commitment();
    assert!(full.extend(&[]).is_ok());
    assert_eq!(full.extend(&[1u64]).err(), Some(PrimitivesError::ParameterError));
    assert_eq!(full.commitment(), before);
}
