//! Reconstruction of a partial Ethereum world-state trie from Merkle proofs,
//! and the retry loop that assembles a complete execution witness for a block.
//!
//! The verified core replays `eth_getProof`-style proofs into a sparse trie
//! skeleton, merges per-transaction touched state, runs the consistency checks
//! of witness assembly, and drives the grind-and-augment retry step. Hashing,
//! RLP decoding and the canonical trie encoding are capabilities of outside
//! crates, relied on through narrow trusted declarations.

pub mod accounts;
pub mod assemble;
pub mod bytes;
pub mod codes;
pub mod hashing;
pub mod nibbles;
pub mod replay;
pub mod retry;
pub mod rlp_codec;
pub mod skeleton;
pub mod trie_backend;
