//! A Merkle-tree commitment over ordered byte records, with compact
//! membership proofs, and a block structure that chains such commitments
//! by hash and supports a proof-of-work nonce search.

pub mod block;
pub mod hashing;
pub mod merkle;
