//! Arithmetization helpers for a batch of confidential account transfers
//! committed in a Merkle tree: the permutation hash, the tree, the range
//! check, the per-signature sub-trace and the transaction batch.

pub mod hash;
pub mod merkle;
pub mod range;
pub mod sig_trace;
pub mod transactions;
