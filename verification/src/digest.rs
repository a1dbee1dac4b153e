//! The digest that a tree is built on.

use vstd::prelude::*;

verus! {

/// A digest over elements of type `E`, with digests of type `T`.
///
/// Each operation is a function of its arguments: the specification functions
/// name the digests, and the executable ones compute them. Everything that
/// this crate proves about a tree is stated over these names, so it holds for
/// an implementation exactly as far as its executable functions keep to them.
pub trait DigestAlgorithm<E, T> {
    /// The digest of the leaf that holds `elem` at position `pos`.
    spec fn leaf_digest(pos: u64, elem: E) -> T;

    /// The digest of a branch, from the digests of its children in order.
    spec fn branch_digest(children: Seq<T>) -> T;

    /// The digest of every empty slot.
    spec fn empty_digest() -> T;

    /// Computes the digest of a leaf.
    fn digest_leaf(pos: u64, elem: &E) -> (d: T)
        ensures
            d == Self::leaf_digest(pos, *elem),
    ;

    /// Computes the digest of a branch.
    fn digest(data: &Vec<T>) -> (d: T)
        ensures
            d == Self::branch_digest(data@),
    ;

    /// The digest of an empty slot.
    fn empty() -> (d: T)
        ensures
            d == Self::empty_digest(),
    ;
}

/// A small multiply-and-xor digest over 64-bit words, for examples and tests.
/// It is fast and deterministic, and it is not collision resistant.
pub struct MixDigest;

/// The multiplier of the 64-bit FNV hash.
pub const MIX_PRIME: u64 = 0x0000_0100_0000_01b3;

/// The state that the digest of a leaf starts from.
pub const MIX_LEAF_SEED: u64 = 0xcbf2_9ce4_8422_2325;

/// The state that the digest of a branch starts from.
pub const MIX_BRANCH_SEED: u64 = 0x9e37_79b9_7f4a_7c15;

/// Folds one word into a state.
pub open spec fn mix(state: u64, word: u64) -> u64 {
    (state ^ word).wrapping_mul(MIX_PRIME)
}

/// Folds a sequence of words into a state, the first word first.
pub open spec fn mix_all(state: u64, words: Seq<u64>) -> u64
    decreases words.len(),
{
    if words.len() == 0 {
        state
    } else {
        mix(mix_all(state, words.drop_last()), words.last())
    }
}

fn mix_word(state: u64, word: u64) -> (next: u64)
    ensures
        next == mix(state, word),
{
    (state ^ word).wrapping_mul(MIX_PRIME)
}

impl DigestAlgorithm<u64, u64> for MixDigest {
    open spec fn leaf_digest(pos: u64, elem: u64) -> u64 {
        mix(mix(MIX_LEAF_SEED, pos), elem)
    }

    open spec fn branch_digest(children: Seq<u64>) -> u64 {
        mix_all(MIX_BRANCH_SEED, children)
    }

    open spec fn empty_digest() -> u64 {
        0
    }

    fn digest_leaf(pos: u64, elem: &u64) -> (d: u64) {
        mix_word(mix_word(MIX_LEAF_SEED, pos), *elem)
    }

    fn digest(data: &Vec<u64>) -> (d: u64) {
        let mut state: u64 = MIX_BRANCH_SEED;
        let mut i: usize = 0;
        while i < data.len()
            invariant
                i <= data@.len(),
                state == mix_all(MIX_BRANCH_SEED, data@.take(i as int)),
            decreases data@.len() - i,
        {
            assert(data@.take(i + 1).drop_last() =~= data@.take(i as int));
            state = mix_word(state, data[i]);
            i = i + 1;
        }
        assert(data@.take(i as int) =~= data@);
        state
    }

    fn empty() -> (d: u64) {
        0
    }
}

} // verus!
