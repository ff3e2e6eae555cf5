//! In-memory mirror of the on-chain World Tree: a persistent fixed-depth
//! Poseidon Merkle tree, a bounded cache of historical versions, a decoder
//! for the identity-manager calldata, and an ordered applier of on-chain
//! mutations, serving inclusion proofs against the current or a recent root.

pub mod hash;
pub mod merkle;
pub mod abi;
pub mod tree;
pub mod tree_data;
pub mod world_tree;
