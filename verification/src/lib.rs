//! Poseidon hashing over the Ristretto255 scalar field, with two Merkle
//! accumulators built on it: a small in-memory tree of fixed arity and a sparse
//! tree that tracks empty base ranges and memoizes interior nodes.

pub mod big_merkle;
pub mod constants;
pub mod error;
pub mod mds;
pub mod merkle;
pub mod poseidon;
pub mod scalar;

pub use crate::big_merkle::{BigMerkleTree, BigProof, BigProofItem, MerkleCoord, MerkleRange};
pub use crate::constants::{MERKLE_ARITY, MERKLE_HEIGHT, MERKLE_WIDTH};
pub use crate::error::Error;
pub use crate::merkle::{MerkleTree, Proof};
pub use crate::poseidon::{Poseidon, PoseidonParams};
pub use crate::scalar::Scalar;
