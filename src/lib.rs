//! An authenticated random-access memory for a commit-and-prove
//! zero-knowledge backend over the field of characteristic `2^61 - 1`.
//!
//! The prover keeps the memory in the clear and commits, by
//! information-theoretic MACs, to every value it reads; the verifier sees
//! only keys. Each access logs one read record and one write record, and a
//! permutation argument at the end shows that the two logs hold the same
//! records, as they do when every read returned the value last written.
//! Challenges come from a BLAKE3 transcript of the channel.
pub mod backend;
pub mod error;
pub mod field;
pub mod homcom;
pub mod plugin;
pub mod ram;
pub mod tx;
