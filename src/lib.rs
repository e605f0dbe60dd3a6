//! Proof-of-solvency core: a Merkle tree with membership proofs over
//! (address, value) entries, and the delta accumulator that sums the values
//! an exchange can prove it controls.

pub mod codec;
pub mod entry;
pub mod coin;
pub mod leaves;
pub mod uint_typecast;
pub mod merkle;
pub mod errors;
pub mod position;
pub mod accumulator;
pub mod membership;
pub mod template;
pub mod cli;
