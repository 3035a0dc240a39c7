//! Coordinates of the nodes of a tree, and their byte keys.

use vstd::prelude::*;
use vstd::bytes::{
    lemma_auto_spec_u64_to_from_le_bytes, spec_u64_from_le_bytes, spec_u64_to_le_bytes,
    u64_from_le_bytes, u64_to_le_bytes,
};
use vstd::slice::slice_subrange;
use crate::big_merkle::power::arity_pow;
use crate::constants::MERKLE_ARITY;
use crate::error::Error;

verus! {

/// Representation of a coordinate inside the tree.
///
/// No tree consistency is performed in this layer. This implies invalid
/// coordinates are possible inside a tree.
#[derive(PartialEq, Eq, Structural, Debug, Copy, Clone)]
pub struct MerkleCoord {
    /// Height position in the tree; the root is at height zero.
    pub height: usize,
    /// Index for the current row of the tree.
    pub idx: usize,
}

/// The byte key of a coordinate: the height, then the index, each as eight
/// little-endian bytes.
pub open spec fn coord_key(c: MerkleCoord) -> Seq<u8> {
    spec_u64_to_le_bytes(c.height as u64) + spec_u64_to_le_bytes(c.idx as u64)
}

/// The number of steps that a coordinate can go up by at most `levels`.
pub open spec fn steps_up(height: nat, levels: nat) -> nat {
    if levels < height {
        levels
    } else {
        height
    }
}

/// The index of the ancestor that stands `levels` rows above a node.
pub open spec fn ancestor_idx(idx: nat, levels: nat) -> nat {
    idx / arity_pow(levels)
}

/// Going up one row divides the ancestor's index by the arity once more.
pub proof fn lemma_ancestor_step(idx: nat, levels: nat)
    ensures
        ancestor_idx(idx, levels + 1) == ancestor_idx(idx, levels) / (MERKLE_ARITY as nat),
{
    let p = arity_pow(levels);
    crate::big_merkle::power::lemma_arity_pow_monotone(0, levels);
    vstd::arithmetic::div_mod::lemma_div_denominator(idx as int, p as int, MERKLE_ARITY as int);
    assert(p * MERKLE_ARITY as nat == MERKLE_ARITY as nat * p) by (nonlinear_arith);
}

impl MerkleCoord {
    /// MerkleCoord constructor
    pub fn new(height: usize, idx: usize) -> (r: MerkleCoord)
        ensures
            r.height == height,
            r.idx == idx,
    {
        MerkleCoord { height, idx }
    }

    /// Moves the coordinate `levels` rows towards the root, to the ancestor
    /// there, and stops at the root.
    pub fn descend(&mut self, levels: usize)
        ensures
            final(self).height == old(self).height - steps_up(
                old(self).height as nat,
                levels as nat,
            ),
            final(self).idx == ancestor_idx(
                old(self).idx as nat,
                steps_up(old(self).height as nat, levels as nat),
            ),
    {
        let mut done: usize = 0;
        proof {
            assert(arity_pow(0) == 1);
        }
        while done < levels && self.height > 0
            invariant
                done <= levels,
                done <= old(self).height,
                self.height == old(self).height - done,
                self.idx == ancestor_idx(old(self).idx as nat, done as nat),
            decreases levels - done,
        {
            proof {
                lemma_ancestor_step(old(self).idx as nat, done as nat);
            }
            self.height = self.height - 1;
            self.idx = self.idx / MERKLE_ARITY;
            done += 1;
        }
    }

    /// The byte key of the coordinate.
    pub fn to_bytes(&self) -> (key: Vec<u8>)
        ensures
            key@ == coord_key(*self),
            key@.len() == 16,
    {
        proof {
            lemma_auto_spec_u64_to_from_le_bytes();
        }
        let mut key = u64_to_le_bytes(self.height as u64);
        let mut tail = u64_to_le_bytes(self.idx as u64);
        key.append(&mut tail);
        key
    }

    /// Reads a coordinate back from its byte key. Anything but sixteen bytes
    /// that hold two machine-sized integers is refused.
    pub fn from_bytes(buf: &[u8]) -> (r: Result<MerkleCoord, Error>)
        ensures
            match r {
                Ok(c) => buf@ == coord_key(c),
                Err(e) => e is Other && forall|c: MerkleCoord| buf@ != coord_key(c),
            },
    {
        proof {
            lemma_auto_spec_u64_to_from_le_bytes();
        }
        if buf.len() != 16 {
            return Err(Error::Other("a coordinate key holds sixteen bytes".to_owned()));
        }
        let height = u64_from_le_bytes(slice_subrange(buf, 0, 8));
        let idx = u64_from_le_bytes(slice_subrange(buf, 8, 16));
        proof {
            assert(buf@ =~= buf@.subrange(0, 8) + buf@.subrange(8, 16));
            assert forall|c: MerkleCoord| buf@ == coord_key(c) implies c.height as u64 == height
                && c.idx as u64 == idx by {
                let a = spec_u64_to_le_bytes(c.height as u64);
                let b = spec_u64_to_le_bytes(c.idx as u64);
                assert((a + b).subrange(0, 8) =~= a);
                assert((a + b).subrange(8, 16) =~= b);
            }
        }
        if height > usize::MAX as u64 || idx > usize::MAX as u64 {
            return Err(Error::Other("a coordinate does not fit the machine word".to_owned()));
        }
        Ok(MerkleCoord { height: height as usize, idx: idx as usize })
    }

    /// Two coordinates with one key are the same coordinate.
    pub proof fn lemma_key_injective(a: MerkleCoord, b: MerkleCoord)
        requires
            coord_key(a) == coord_key(b),
        ensures
            a == b,
    {
        lemma_auto_spec_u64_to_from_le_bytes();
        let a0 = spec_u64_to_le_bytes(a.height as u64);
        let a1 = spec_u64_to_le_bytes(a.idx as u64);
        let b0 = spec_u64_to_le_bytes(b.height as u64);
        let b1 = spec_u64_to_le_bytes(b.idx as u64);
        assert((a0 + a1).subrange(0, 8) =~= a0);
        assert((b0 + b1).subrange(0, 8) =~= b0);
        assert((a0 + a1).subrange(8, 16) =~= a1);
        assert((b0 + b1).subrange(8, 16) =~= b1);
        assert(spec_u64_from_le_bytes(a0) == spec_u64_from_le_bytes(b0));
        assert(spec_u64_from_le_bytes(a1) == spec_u64_from_le_bytes(b1));
    }
}

} // verus!
