//! A sparse Merkle tree of fixed depth 256 over a 2^256 key space.
//!
//! Untouched subtrees collapse to a precomputed ladder of default digests,
//! so the store only holds nodes that an insertion has ever written.
//! Inclusion proofs are sequences of 256 sibling digests; verification
//! replays the ascent from the leaf purely from its inputs.

pub mod digest;
pub mod laws;
pub mod model;
pub mod path;
pub mod tree;

pub use digest::combine;
pub use digest::hash_leaf;
pub use digest::Digest;
pub use tree::SparseMerkleTree;
