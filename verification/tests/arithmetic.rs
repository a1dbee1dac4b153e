use merkle_tree::digest::{DigestAlgorithm, MixDigest};
use merkle_tree::traversal::{
    capacity_checked, capacity_exceeds, minimal_height, to_traversal_path,
};

#[test]
fn traversal_path_is_most_significant_first() {
    assert_eq!(to_traversal_path(5, 3, 3), vec![0, 1, 2]);
    assert_eq!(to_traversal_path(5, 3, 2), vec![1, 2]);
    assert_eq!(to_traversal_path(0, 3, 2), vec![0, 0]);
    assert_eq!(to_traversal_path(8, 3, 2), vec![2, 2]);
    assert_eq!(to_traversal_path(6, 2, 3), vec![1, 1, 0]);
    assert_eq!(to_traversal_path(7, 10, 0), Vec::<usize>::new());
    // digits beyond the height are dropped
    assert_eq!(to_traversal_path(9 + 5, 3, 2), vec![1, 2]);
    assert_eq!(to_traversal_path(u64::MAX, 2, 3), vec![1, 1, 1]);
    assert_eq!(to_traversal_path(1234, 10, 6), vec![0, 0, 1, 2, 3, 4]);
}

#[test]
fn capacity_is_compared_without_overflow() {
    assert!(capacity_exceeds(3, 2, 8));
    assert!(!capacity_exceeds(3, 2, 9));
    assert!(capacity_exceeds(3, 0, 0));
    assert!(!capacity_exceeds(3, 0, 1));
    assert!(capacity_exceeds(2, 64, u64::MAX));
    assert!(!capacity_exceeds(2, 63, u64::MAX));
    assert!(capacity_exceeds(2, 63, (1u64 << 63) - 1));
    assert!(!capacity_exceeds(2, 63, 1u64 << 63));
    assert!(capacity_exceeds(3, 1_000_000, u64::MAX));
    assert!(!capacity_exceeds(1, 1000, 1));
    assert!(capacity_exceeds(1, 1000, 0));
}

#[test]
fn minimal_height_is_at_least_one() {
    assert_eq!(minimal_height(3, 0), 1);
    assert_eq!(minimal_height(3, 1), 1);
    assert_eq!(minimal_height(3, 3), 1);
    assert_eq!(minimal_height(3, 4), 2);
    assert_eq!(minimal_height(3, 27), 3);
    assert_eq!(minimal_height(3, 28), 4);
    assert_eq!(minimal_height(2, u64::MAX), 64);
    assert_eq!(minimal_height(2, 1u64 << 63), 63);
    assert_eq!(minimal_height(3, u64::MAX), 41);
}

#[test]
fn mix_digest_values() {
    assert_eq!(MixDigest::empty(), 0);
    assert_eq!(MixDigest::digest_leaf(0, &3), 590680769285548756);
    assert_eq!(MixDigest::digest_leaf(1, &1), 589728592215707255);
    assert_eq!(MixDigest::digest(&Vec::new()), 11400714819323198485);
    assert_eq!(MixDigest::digest(&vec![1, 2, 3]), 14486892916111212027);
    // the order of the children counts, and so does the position of a leaf
    assert_ne!(MixDigest::digest(&vec![3, 2, 1]), 14486892916111212027);
    assert_ne!(MixDigest::digest_leaf(1, &3), 590680769285548756);
}

#[test]
fn capacity_in_a_machine_word() {
    assert_eq!(capacity_checked(3, 0), Some(1));
    assert_eq!(capacity_checked(3, 2), Some(9));
    assert_eq!(capacity_checked(2, 63), Some(1u64 << 63));
    assert_eq!(capacity_checked(2, 64), None);
    assert_eq!(capacity_checked(3, 40), Some(12157665459056928801));
    assert_eq!(capacity_checked(3, 41), None);
    assert_eq!(capacity_checked(1, 500), Some(1));
}
