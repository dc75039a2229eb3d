//! The values of the ledger and the proofs of their place in it.

pub mod coin;
pub mod keys;
pub mod merkle;
pub mod merkle_node;
pub mod merkle_spec;
pub mod note;
pub mod nullifier;
pub mod repr;
