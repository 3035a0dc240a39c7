//! Half-open ranges of base indices.

use vstd::prelude::*;
use std::cmp::Ordering;
use vstd::std_specs::cmp::{PartialEqSpecImpl, PartialOrdSpecImpl};
use crate::big_merkle::power::{arity_pow, arity_power, lemma_arity_pow_monotone};

verus! {

/// A half-open range `[start, end)` in the base of the tree.
#[derive(Debug, Clone, Copy)]
pub struct MerkleRange {
    /// The first base index of the range.
    pub start: usize,
    /// The base index behind the last one of the range.
    pub end: usize,
}

impl PartialEq for MerkleRange {
    /// A range equals every range that lies within it. This relation is not
    /// symmetric: it is the containment test of the empty-interval index.
    fn eq(&self, other: &MerkleRange) -> (r: bool) {
        self.contains(other)
    }
}

impl PartialEqSpecImpl for MerkleRange {
    open spec fn obeys_eq_spec() -> bool {
        true
    }

    open spec fn eq_spec(&self, other: &MerkleRange) -> bool {
        self.contains_spec(other)
    }
}

impl PartialOrd for MerkleRange {
    /// Ranges are ordered by their start.
    fn partial_cmp(&self, other: &MerkleRange) -> (r: Option<Ordering>) {
        if self.start < other.start {
            Some(Ordering::Less)
        } else if self.start > other.start {
            Some(Ordering::Greater)
        } else {
            Some(Ordering::Equal)
        }
    }
}

impl PartialOrdSpecImpl for MerkleRange {
    open spec fn obeys_partial_cmp_spec() -> bool {
        true
    }

    open spec fn partial_cmp_spec(&self, other: &MerkleRange) -> Option<Ordering> {
        if self.start < other.start {
            Some(Ordering::Less)
        } else if self.start > other.start {
            Some(Ordering::Greater)
        } else {
            Some(Ordering::Equal)
        }
    }
}

impl MerkleRange {
    /// Whether `other` lies within this range.
    pub open spec fn contains_spec(&self, other: &MerkleRange) -> bool {
        self.start <= other.start && self.end >= other.end
    }

    /// The start of the base range below the node `idx` that stands `levels`
    /// rows above the base.
    pub open spec fn start_of(levels: nat, idx: nat) -> nat {
        arity_pow(levels) * idx
    }

    /// The end of the base range below the node `idx` that stands `levels` rows
    /// above the base.
    pub open spec fn end_of(levels: nat, idx: nat) -> nat {
        arity_pow(levels) * (idx + 1)
    }

    /// The range within the base row that the node at `height` and `idx`
    /// covers, in a tree of height `max_height`.
    pub fn new(max_height: usize, height: usize, idx: usize) -> (r: MerkleRange)
        requires
            height <= max_height,
            MerkleRange::end_of((max_height - height) as nat, idx as nat) <= usize::MAX,
        ensures
            r.start == MerkleRange::start_of((max_height - height) as nat, idx as nat),
            r.end == MerkleRange::end_of((max_height - height) as nat, idx as nat),
    {
        let levels: usize = max_height - height;
        proof {
            let p = arity_pow(levels as nat);
            lemma_arity_pow_monotone(0, levels as nat);
            assert(p <= p * (idx + 1) && p * idx <= p * (idx + 1) && idx + 1 <= p * (idx + 1))
                by (nonlinear_arith)
                requires
                    p >= 1,
                    idx >= 0,
            ;
        }
        let span: usize = arity_power(levels);
        MerkleRange { start: span * idx, end: span * (idx + 1) }
    }

    /// The range `[start, end)`.
    pub fn from_bounds(start: usize, end: usize) -> (r: MerkleRange)
        ensures
            r.start == start,
            r.end == end,
    {
        MerkleRange { start, end }
    }

    /// Whether `other` lies within this range.
    pub fn contains(&self, other: &MerkleRange) -> (r: bool)
        ensures
            r == self.contains_spec(other),
    {
        self.start <= other.start && self.end >= other.end
    }
}

} // verus!
