//! An append-only Merkle tree that can keep only its frontier, the right-most
//! path, in memory, together with membership proofs and their verification.
//!
//! Every executable function in this crate is verified against its contract.
//! The contracts speak of three things: the shape of a tree (`wf`), the leaves
//! that are still held in memory (`elem_at`), and the sequence of elements that
//! a tree commits to (`commits_to`).
//!
//! - `digest`: the digest that a tree is built on;
//! - `traversal`: capacities, and the way from the root to a leaf;
//! - `node`: the nodes of a tree and what they mean;
//! - `lemmas`, `laws`: what follows;
//! - `engine`: the algorithms on nodes;
//! - `membership`: proofs, lookups, commitments, verification;
//! - `light_weight`, `append_only`: the two trees;
//! - `biguint`: what is taken on trust about arbitrary-precision integers.

pub mod append_only;
pub mod biguint;
pub mod digest;
pub mod engine;
pub mod errors;
pub mod laws;
pub mod lemmas;
pub mod light_weight;
pub mod membership;
pub mod node;
pub mod traversal;
