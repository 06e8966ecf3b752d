//! An incrementally maintained, dynamically growing binary hash tree.
//!
//! The tree commits to an ordered, append-only collection of data items with
//! a single digest, its root. Hashing is injected through the [`Hasher`]
//! capability, so the tree logic is independent of the digest algorithm.

pub mod hasher;
pub mod merkle_tree;

pub use crate::hasher::Hasher;
pub use crate::hasher::PolyHasher;
pub use crate::merkle_tree::MerkleTree;
