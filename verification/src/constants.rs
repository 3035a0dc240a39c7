//! The parameters that fix the shape of the hasher and of the small tree.

use vstd::prelude::*;

verus! {

/// Number of field elements in the state of the permutation.
pub const WIDTH: usize = 5;

/// Number of rounds that apply the S-box to the whole state.
pub const FULL_ROUNDS: usize = 8;

/// Number of rounds that apply the S-box to the first element only.
pub const PARTIAL_ROUNDS: usize = 59;

/// Arity of the merkle tree, which is the rate of the sponge.
pub const MERKLE_ARITY: usize = 4;

/// Width of the in-memory merkle tree.
pub const MERKLE_WIDTH: usize = 64;

/// Height of the in-memory merkle tree.
pub const MERKLE_HEIGHT: usize = 3;

/// Levels between two memoized rows of the sparse tree.
pub const CACHE_HEIGHT_INTERVAL: usize = 2;

} // verus!
