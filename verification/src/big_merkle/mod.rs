//! The sparse merkle tree: a tree of any width that is a power of the arity,
//! which keeps the leaves that were inserted, the ranges of the base that
//! are empty, and the interior nodes that it has computed on every second row.

pub mod big_proof;
pub mod intervals;
pub mod merkle_coord;
pub mod merkle_range;
pub mod model;
pub mod power;

use std::collections::HashMap;
use vstd::prelude::*;
use crate::big_merkle::intervals::{
    covered, covers, covers_range, empty_at, intervals_wf, release_at, split_at,
};
use crate::big_merkle::merkle_coord::{ancestor_idx, lemma_ancestor_step, steps_up};
use crate::big_merkle::model::{
    child, children, lemma_ancestor_zero, lemma_climb_reaches_ancestor, lemma_node_value_by_marks,
    lemma_node_value_stable, node_value, path, path_row, range_empty,
};
use crate::big_merkle::power::{
    arity_pow, arity_power, height_of_width, lemma_arity_pow_injective, lemma_arity_pow_monotone,
};
use crate::big_merkle::big_proof::{climb, ItemView};
use crate::constants::{CACHE_HEIGHT_INTERVAL, MERKLE_ARITY};
use crate::error::Error;
use crate::poseidon::{option_value, option_values, ParamsView, Poseidon, PoseidonParams};
use crate::scalar::Scalar;

pub use crate::big_merkle::big_proof::{BigProof, BigProofItem};
pub use crate::big_merkle::merkle_coord::MerkleCoord;
pub use crate::big_merkle::merkle_range::MerkleRange;

verus! {

broadcast use vstd::std_specs::hash::group_hash_axioms;

/// Whether a width is a power of the arity.
pub open spec fn is_arity_power(width: nat) -> bool {
    exists|h: nat| arity_pow(h) == width
}

/// The larger of two numbers.
pub open spec fn larger(a: nat, b: nat) -> nat {
    if a >= b {
        a
    } else {
        b
    }
}

/// The number under which the memo keeps the node at a coordinate.
pub open spec fn slot(height: nat, idx: nat) -> u128 {
    (height * 0x1_0000_0000_0000_0000 + idx) as u128
}

fn slot_of(height: usize, idx: usize) -> (r: u128)
    ensures
        r == slot(height as nat, idx as nat),
{
    (height as u128) * 0x1_0000_0000_0000_0000u128 + (idx as u128)
}

/// The coordinates of one row from the first node to the node `last`.
pub open spec fn segment_row(height: nat, last: nat) -> Seq<MerkleCoord> {
    Seq::new(last + 1, |i: int| MerkleCoord { height: height as usize, idx: i as usize })
}

/// The rows that are memoized above a node, each up to the ancestor of that
/// node, from the nearest row to the root.
pub open spec fn segments_from(height: nat, idx: nat) -> Seq<MerkleCoord>
    decreases height,
{
    if height == 0 {
        Seq::empty()
    } else {
        let up = steps_up(height, CACHE_HEIGHT_INTERVAL as nat);
        let above = (height - up) as nat;
        segment_row(above, ancestor_idx(idx, up)) + segments_from(above, ancestor_idx(idx, up))
    }
}

/// The sparse merkle tree.
#[derive(Debug, Clone)]
pub struct BigMerkleTree {
    params: PoseidonParams,
    width: usize,
    height: usize,
    max_idx: usize,
    /// For most cases, this attribute should hold one element that represents
    /// the higher idx to the end of the tree.
    empty_intervals: Vec<MerkleRange>,
    db: HashMap<usize, Scalar>,
    cache: HashMap<u128, Scalar>,
}

impl BigMerkleTree {
    /// The parameters of the hasher of the tree.
    pub closed spec fn params_view(&self) -> ParamsView {
        self.params@
    }

    /// The height of the tree.
    pub closed spec fn spec_height(&self) -> nat {
        self.height as nat
    }

    /// The width of the tree.
    pub closed spec fn spec_width(&self) -> nat {
        self.width as nat
    }

    /// The largest base index that was marked as occupied.
    pub closed spec fn spec_max_idx(&self) -> nat {
        self.max_idx as nat
    }

    /// The empty ranges of the base.
    pub closed spec fn empties(&self) -> Seq<MerkleRange> {
        self.empty_intervals@
    }

    /// The leaves that the tree holds, by their base index.
    pub closed spec fn leaves(&self) -> Map<nat, nat> {
        Map::new(
            |i: nat| i <= usize::MAX && self.db@.contains_key(i as usize),
            |i: nat| self.db@[i as usize]@,
        )
    }

    /// The memoized node at a coordinate, if there is one.
    pub closed spec fn cached(&self, height: nat, idx: nat) -> Option<nat> {
        if self.cache@.contains_key(slot(height, idx)) {
            Some(self.cache@[slot(height, idx)]@)
        } else {
            None
        }
    }

    /// Whether the base index counts as empty.
    pub open spec fn is_empty_index(&self, idx: nat) -> bool {
        empty_at(self.empties(), idx as int)
    }

    /// Whether the coordinate names a node of the tree.
    pub open spec fn valid_coord(&self, height: nat, idx: nat) -> bool {
        height <= self.spec_height() && idx < arity_pow(height)
    }

    /// The node at a coordinate, as the leaves and the empty ranges fix it.
    pub open spec fn node_spec(&self, height: nat, idx: nat) -> Option<nat> {
        node_value(
            self.params_view(),
            self.leaves(),
            self.empties(),
            (self.spec_height() - height) as nat,
            idx,
        )
    }

    /// The membership proof of a base index, as the leaves and the empty
    /// ranges fix it.
    pub open spec fn path_spec(&self, needle: nat) -> Seq<ItemView> {
        path(self.params_view(), self.leaves(), self.empties(), needle, self.spec_height())
    }

    /// The invariant of the tree: the width is the arity to the power of the
    /// height, the empty ranges are disjoint, apart and within the base, and
    /// every memoized node is the node that the leaves and the empty ranges
    /// fix at its coordinate.
    pub closed spec fn wf(&self) -> bool {
        &&& self.params.wf()
        &&& self.width == arity_pow(self.height as nat)
        &&& self.max_idx < self.width
        &&& intervals_wf(self.empty_intervals@, self.width as int)
        &&& forall|h: nat, i: nat|
            h < self.height && i < arity_pow(h) && self.cache@.contains_key(#[trigger] slot(h, i))
                ==> Some(self.cache@[slot(h, i)]@) == self.node_spec(h, i)
    }

    /// Whether two trees have the same shape, leaves and empty ranges.
    pub open spec fn same_tree(&self, other: &BigMerkleTree) -> bool {
        &&& self.params_view() == other.params_view()
        &&& self.spec_height() == other.spec_height()
        &&& self.spec_width() == other.spec_width()
        &&& self.spec_max_idx() == other.spec_max_idx()
        &&& self.empties() == other.empties()
        &&& self.leaves() == other.leaves()
    }

    /// Whether the memo of this tree holds nothing but what `before` held.
    pub open spec fn memo_within(&self, before: &BigMerkleTree) -> bool {
        forall|h: nat, i: nat| #[trigger]
            self.cached(h, i) is Some ==> self.cached(h, i) == before.cached(h, i)
    }

    /// Whether the node at a coordinate is one that the memo keeps once it is
    /// computed: a node above the base, on a row that is a multiple of the
    /// memo interval, over a range that is not empty.
    pub open spec fn memo_row(&self, height: nat, idx: nat) -> bool {
        &&& height < self.spec_height()
        &&& height % (CACHE_HEIGHT_INTERVAL as nat) == 0
        &&& !range_empty(self.empties(), (self.spec_height() - height) as nat, idx)
    }

    /// Whether the memo holds the node at a coordinate of `before`, if that
    /// node is one that the memo keeps.
    pub open spec fn warmed(&self, before: &BigMerkleTree, at: MerkleCoord) -> bool {
        before.valid_coord(at.height as nat, at.idx as nat) && before.memo_row(
            at.height as nat,
            at.idx as nat,
        ) ==> self.cached(at.height as nat, at.idx as nat) == before.node_spec(
            at.height as nat,
            at.idx as nat,
        )
    }

    /// Whether the memo holds no node above the base index.
    pub open spec fn memo_clear_above(&self, idx: nat) -> bool {
        forall|h: nat|
            h < self.spec_height() ==> #[trigger] self.cached(
                h,
                ancestor_idx(idx, (self.spec_height() - h) as nat),
            ) is None
    }

    /// Whether this tree is `before` with the mark of one base index changed:
    /// that index is empty or not as `empty` says, every other index is as it
    /// was, and the memo lost the nodes above the index and gained nothing.
    pub open spec fn marked_from(&self, before: &BigMerkleTree, idx: nat, empty: bool) -> bool {
        &&& self.params_view() == before.params_view()
        &&& self.spec_height() == before.spec_height()
        &&& self.spec_width() == before.spec_width()
        &&& self.is_empty_index(idx) == empty
        &&& forall|i: nat| i != idx ==> #[trigger] self.is_empty_index(i) == before.is_empty_index(i)
        &&& self.memo_clear_above(idx)
        &&& self.memo_within(before)
    }

    /// Whether a change was refused for its index: the tree is as it was.
    pub open spec fn refused_from(&self, before: &BigMerkleTree, r: Result<(), Error>) -> bool {
        &&& r is Err
        &&& r->Err_0 is IndexOutOfBounds
        &&& self.same_tree(before)
        &&& self.memo_within(before)
    }

    /// Every memoized node is the node that a fresh computation gives.
    pub proof fn lemma_memo_is_correct(&self, height: nat, idx: nat)
        requires
            self.wf(),
            height < self.spec_height(),
            idx < arity_pow(height),
            self.cached(height, idx) is Some,
        ensures
            self.cached(height, idx) == self.node_spec(height, idx),
    {
        assert(self.cache@.contains_key(slot(height, idx)));
    }

    /// The membership proof of a base index that holds a leaf and does not
    /// count as empty leads from that leaf to the root of the tree.
    pub proof fn lemma_proof_verifies(&self, idx: nat)
        requires
            self.wf(),
            idx < self.spec_width(),
            self.leaves().contains_key(idx),
            !self.is_empty_index(idx),
        ensures
            self.path_spec(idx).len() == self.spec_height(),
            self.node_spec(0, 0) == Some(
                climb(
                    self.params_view(),
                    self.path_spec(idx),
                    self.leaves()[idx],
                    self.spec_height(),
                ),
            ),
    {
        lemma_climb_reaches_ancestor(
            self.params_view(),
            self.leaves(),
            self.empties(),
            idx,
            self.spec_height(),
            self.spec_height(),
        );
        vstd::arithmetic::div_mod::lemma_basic_div(idx as int, self.width as int);
    }

    /// The root depends on nothing but the parameters, the width, the leaves
    /// and the base indices that count as empty: two trees that agree on
    /// these have the same root, in whatever order they were loaded.
    pub proof fn lemma_root_is_determined(&self, other: &BigMerkleTree)
        requires
            self.wf(),
            other.wf(),
            self.params_view() == other.params_view(),
            self.spec_width() == other.spec_width(),
            self.leaves() == other.leaves(),
            forall|i: nat| #[trigger] self.is_empty_index(i) == other.is_empty_index(i),
        ensures
            self.spec_height() == other.spec_height(),
            self.node_spec(0, 0) == other.node_spec(0, 0),
    {
        lemma_arity_pow_injective(self.spec_height(), other.spec_height());
        assert forall|i: int| #[trigger]
            empty_at(self.empties(), i) == empty_at(other.empties(), i) by {
            if i >= 0 {
                assert(self.is_empty_index(i as nat) == other.is_empty_index(i as nat));
            } else {
                assert forall|k: int| 0 <= k < self.empties().len() implies !#[trigger] covers(
                    self.empties()[k],
                    i,
                    i + 1,
                ) by {}
                assert forall|k: int| 0 <= k < other.empties().len() implies !#[trigger] covers(
                    other.empties()[k],
                    i,
                    i + 1,
                ) by {}
            }
        }
        lemma_node_value_by_marks(
            self.params_view(),
            self.leaves(),
            self.empties(),
            other.empties(),
            self.width as int,
            self.spec_height(),
            0,
        );
    }

    /// Two leaves inserted at different base indices give the same leaves in
    /// whichever order they are inserted.
    pub proof fn lemma_inserts_commute(leaves: Map<nat, nat>, i: nat, a: nat, j: nat, b: nat)
        requires
            i != j,
        ensures
            leaves.insert(i, a).insert(j, b) == leaves.insert(j, b).insert(i, a),
    {
        assert(leaves.insert(i, a).insert(j, b) =~= leaves.insert(j, b).insert(i, a));
    }

    /// The shape of a well-formed tree, and what its empty ranges are.
    pub proof fn lemma_shape(&self)
        requires
            self.wf(),
        ensures
            self.spec_width() == arity_pow(self.spec_height()),
            self.spec_max_idx() < self.spec_width(),
            intervals_wf(self.empties(), self.spec_width() as int),
    {
    }

    /// `BigMerkleTree` constructor: an empty tree of the given width, which is
    /// a power of the arity.
    pub fn new(params: PoseidonParams, width: usize) -> (r: BigMerkleTree)
        requires
            params.wf(),
            is_arity_power(width as nat),
        ensures
            r.wf(),
            r.params_view() == params@,
            r.spec_width() == width,
            arity_pow(r.spec_height()) == width,
            r.spec_max_idx() == 0,
            r.leaves() == Map::<nat, nat>::empty(),
            r.empties() == seq![MerkleRange { start: 0, end: width }],
            forall|i: nat| #[trigger] r.is_empty_index(i) == (i < width),
            forall|h: nat, i: nat| r.cached(h, i) is None,
    {
        let found = height_of_width(width);
        let height: usize = match found {
            Some(h) => h,
            None => 0,
        };
        let mut empty_intervals: Vec<MerkleRange> = Vec::new();
        empty_intervals.push(MerkleRange::from_bounds(0, width));
        let r = BigMerkleTree {
            params,
            width,
            height,
            max_idx: 0,
            empty_intervals,
            db: HashMap::new(),
            cache: HashMap::new(),
        };
        proof {
            lemma_arity_pow_monotone(0, height as nat);
            assert(r.leaves() =~= Map::<nat, nat>::empty());
            assert(r.empties() =~= seq![MerkleRange { start: 0, end: width }]);
            assert forall|i: nat| #[trigger] r.is_empty_index(i) == (i < width) by {
                if i < width {
                    assert(covers(r.empties()[0], i as int, i + 1int));
                }
            }
        }
        r
    }

    /// The parameters of the hasher of the tree.
    pub fn params(&self) -> (r: &PoseidonParams)
        requires
            self.wf(),
        ensures
            r.wf(),
            r@ == self.params_view(),
    {
        &self.params
    }

    /// The largest base index that was marked as occupied.
    pub fn max_idx(&self) -> (r: usize)
        ensures
            r == self.spec_max_idx(),
    {
        self.max_idx
    }

    /// Height of the tree
    pub fn height(&self) -> (r: usize)
        ensures
            r == self.spec_height(),
    {
        self.height
    }

    /// Arity of the tree
    pub fn arity(&self) -> (r: usize)
        ensures
            r == MERKLE_ARITY,
    {
        MERKLE_ARITY
    }

    /// Width of the tree
    pub fn width(&self) -> (r: usize)
        ensures
            r == self.spec_width(),
    {
        self.width
    }

    /// The empty ranges of the base.
    pub fn empty_intervals(&self) -> (r: &Vec<MerkleRange>)
        ensures
            r@ == self.empties(),
    {
        &self.empty_intervals
    }

    /// Divide the tree into a parallelizable path to the root
    pub fn segments(&self) -> (r: Vec<MerkleCoord>)
        requires
            self.wf(),
        ensures
            r@ == segments_from(self.spec_height(), self.spec_max_idx()),
    {
        let mut coords: Vec<MerkleCoord> = Vec::new();
        let mut coord = MerkleCoord::new(self.height, self.max_idx);
        while coord.height > 0
            invariant
                coord.idx < usize::MAX,
                coords@ + segments_from(coord.height as nat, coord.idx as nat) == segments_from(
                    self.height as nat,
                    self.max_idx as nat,
                ),
            decreases coord.height,
        {
            let ghost done = coords@;
            let ghost below = coord;
            coord.descend(CACHE_HEIGHT_INTERVAL);
            proof {
                lemma_arity_pow_monotone(
                    0,
                    steps_up(below.height as nat, CACHE_HEIGHT_INTERVAL as nat),
                );
                vstd::arithmetic::div_mod::lemma_div_is_ordered_by_denominator(
                    below.idx as int,
                    1,
                    arity_pow(steps_up(below.height as nat, CACHE_HEIGHT_INTERVAL as nat)) as int,
                );
            }
            let mut i: usize = 0;
            while i < coord.idx + 1
                invariant
                    i <= coord.idx + 1,
                    coord.idx < usize::MAX,
                    coords@ == done + segment_row(coord.height as nat, coord.idx as nat).take(
                        i as int,
                    ),
                decreases coord.idx + 1 - i,
            {
                coords.push(MerkleCoord::new(coord.height, i));
                proof {
                    let row = segment_row(coord.height as nat, coord.idx as nat);
                    assert(row.take(i + 1) =~= row.take(i as int).push(row[i as int]));
                }
                i += 1;
            }
            proof {
                let row = segment_row(coord.height as nat, coord.idx as nat);
                assert(row.take(coord.idx + 1) =~= row);
                let rest = segments_from(coord.height as nat, coord.idx as nat);
                assert((done + row) + rest =~= done + (row + rest));
            }
        }
        proof {
            assert(coords@ + Seq::<MerkleCoord>::empty() =~= coords@);
        }
        coords
    }

    /// Check if the node in the provided height and index belongs to an empty super tree.
    pub fn node_is_empty(&self, height: usize, idx: usize) -> (r: bool)
        requires
            self.wf(),
            height <= self.spec_height(),
        ensures
            r == range_empty(self.empties(), (self.spec_height() - height) as nat, idx as nat),
    {
        let levels: usize = self.height - height;
        proof {
            lemma_arity_pow_monotone(levels as nat, self.height as nat);
        }
        let span: usize = arity_power(levels);
        let ghost lo = MerkleRange::start_of(levels as nat, idx as nat) as int;
        let ghost hi = MerkleRange::end_of(levels as nat, idx as nat) as int;
        if idx >= self.width / span {
            proof {
                let w = self.width as int;
                let s = span as int;
                vstd::arithmetic::div_mod::lemma_fundamental_div_mod(w, s);
                assert(s * (idx + 1) > w) by (nonlinear_arith)
                    requires
                        idx >= w / s,
                        w == s * (w / s) + w % s,
                        0 <= w % s < s,
                ;
                assert forall|k: int| 0 <= k < self.empty_intervals@.len() implies !#[trigger] covers(
                    self.empty_intervals@[k],
                    lo,
                    hi,
                ) by {
                    assert(self.empty_intervals@[k].end <= w);
                }
            }
            return false;
        }
        proof {
            let w = self.width as int;
            let s = span as int;
            vstd::arithmetic::div_mod::lemma_fundamental_div_mod(w, s);
            assert(s * (idx + 1) <= w && s * idx <= s * (idx + 1)) by (nonlinear_arith)
                requires
                    0 <= idx < w / s,
                    w == s * (w / s) + w % s,
                    0 <= w % s < s,
            ;
        }
        let range = MerkleRange::from_bounds(span * idx, span * (idx + 1));
        covers_range(&self.empty_intervals, &range)
    }

    /// Takes the nodes above a base index out of the memo.
    fn modified(&mut self, idx: usize)
        requires
            old(self).wf(),
        ensures
            final(self).wf(),
            final(self).same_tree(old(self)),
            final(self).memo_clear_above(idx as nat),
            final(self).memo_within(old(self)),
    {
        let mut coord = MerkleCoord::new(self.height, idx);
        proof {
            lemma_ancestor_zero(idx as nat);
        }
        while coord.height > 0
            invariant
                self.wf(),
                self.same_tree(old(self)),
                self.memo_within(old(self)),
                coord.height <= self.height,
                coord.idx == ancestor_idx(idx as nat, (self.height - coord.height) as nat),
                forall|h: nat|
                    coord.height <= h < self.height ==> #[trigger] self.cached(
                        h,
                        ancestor_idx(idx as nat, (self.height - h) as nat),
                    ) is None,
            decreases coord.height,
        {
            let ghost levels = (self.height - coord.height) as nat;
            let ghost prev = *self;
            let ghost below = coord;
            proof {
                lemma_ancestor_step(idx as nat, levels);
                lemma_ancestor_zero(coord.idx as nat);
                lemma_ancestor_step(coord.idx as nat, 0);
            }
            coord.descend(1);
            proof {
                assert(steps_up(below.height as nat, 1) == 1);
                assert(coord.idx == ancestor_idx(idx as nat, levels + 1));
            }
            let key = slot_of(coord.height, coord.idx);
            self.cache.remove(&key);
            proof {
                assert(self.cache@ == prev.cache@.remove(key));
                assert(self.leaves() =~= old(self).leaves());
                assert forall|h: nat, i: nat| #[trigger]
                    self.cached(h, i) is Some implies self.cached(h, i) == old(self).cached(
                    h,
                    i,
                ) by {
                    assert(prev.cached(h, i) is Some);
                }
                assert forall|h: nat| coord.height <= h < self.height implies #[trigger] self.cached(
                    h,
                    ancestor_idx(idx as nat, (self.height - h) as nat),
                ) is None by {
                    if h > coord.height {
                        assert(prev.cached(h, ancestor_idx(idx as nat, (self.height - h) as nat))
                            is None);
                    }
                }
                assert forall|h: nat, i: nat|
                    h < self.height && i < arity_pow(h) && self.cache@.contains_key(
                        #[trigger] slot(h, i),
                    ) implies Some(self.cache@[slot(h, i)]@) == self.node_spec(h, i) by {
                    assert(prev.cache@.contains_key(slot(h, i)));
                    assert(Some(prev.cache@[slot(h, i)]@) == prev.node_spec(h, i));
                }
            }
        }
    }

    /// Changes the mark of a base index whose ancestors are not memoized.
    fn reshape(&mut self, idx: usize, occupy: bool)
        requires
            old(self).wf(),
            idx < old(self).spec_width(),
            old(self).memo_clear_above(idx as nat),
        ensures
            final(self).wf(),
            final(self).leaves() == old(self).leaves(),
            final(self).marked_from(old(self), idx as nat, !occupy),
            final(self).spec_max_idx() == if occupy {
                larger(old(self).spec_max_idx(), idx as nat)
            } else {
                old(self).spec_max_idx()
            },
    {
        if occupy {
            if idx > self.max_idx {
                self.max_idx = idx;
            }
            split_at(&mut self.empty_intervals, self.width, idx);
        } else {
            release_at(&mut self.empty_intervals, self.width, idx);
        }
        proof {
            lemma_change_keeps_memo(old(self), self, idx as nat);
            assert forall|i: nat| i != idx implies #[trigger] self.is_empty_index(i) == old(
                self,
            ).is_empty_index(i) by {
                assert(covered(self.empties(), i as int, i + 1int) == covered(
                    old(self).empties(),
                    i as int,
                    i + 1int,
                ));
            }
        }
    }

    /// Insert the provided leaf on the provided index
    pub fn insert(&mut self, idx: usize, leaf: Scalar) -> (r: Result<(), Error>)
        requires
            old(self).wf(),
        ensures
            final(self).wf(),
            idx >= old(self).spec_width() ==> final(self).refused_from(old(self), r),
            idx < old(self).spec_width() ==> r is Ok,
            idx < old(self).spec_width() ==> final(self).leaves() == old(self).leaves().insert(
                idx as nat,
                leaf@,
            ),
            idx < old(self).spec_width() ==> final(self).marked_from(old(self), idx as nat, false),
            idx < old(self).spec_width() ==> final(self).spec_max_idx() == larger(
                old(self).spec_max_idx(),
                idx as nat,
            ),
    {
        if idx >= self.width {
            return Err(Error::IndexOutOfBounds);
        }
        self.modified(idx);
        let ghost cleared = *self;
        self.db.insert(idx, leaf);
        proof {
            assert(self.leaves() =~= cleared.leaves().insert(idx as nat, leaf@));
            lemma_change_keeps_memo(&cleared, self, idx as nat);
        }
        let ghost written = *self;
        self.reshape(idx, true);
        proof {
            assert(written.memo_within(old(self)));
        }
        Ok(())
    }

    /// Flag the provided index as inserted in the structure.
    ///
    /// This will reorganize the empty intervals.
    pub fn inserted(&mut self, idx: usize) -> (r: Result<(), Error>)
        requires
            old(self).wf(),
        ensures
            final(self).wf(),
            idx >= old(self).spec_width() ==> final(self).refused_from(old(self), r),
            idx < old(self).spec_width() ==> r is Ok,
            idx < old(self).spec_width() ==> final(self).leaves() == old(self).leaves(),
            idx < old(self).spec_width() ==> final(self).marked_from(old(self), idx as nat, false),
            idx < old(self).spec_width() ==> final(self).spec_max_idx() == larger(
                old(self).spec_max_idx(),
                idx as nat,
            ),
    {
        if idx >= self.width {
            return Err(Error::IndexOutOfBounds);
        }
        self.modified(idx);
        self.reshape(idx, true);
        Ok(())
    }

    /// Set the provided leaf index as absent for the hash calculation.
    pub fn remove(&mut self, idx: usize) -> (r: Result<(), Error>)
        requires
            old(self).wf(),
        ensures
            final(self).wf(),
            idx >= old(self).spec_width() ==> final(self).refused_from(old(self), r),
            idx < old(self).spec_width() ==> r is Ok,
            idx < old(self).spec_width() ==> final(self).leaves() == old(self).leaves().remove(
                idx as nat,
            ),
            idx < old(self).spec_width() ==> final(self).marked_from(old(self), idx as nat, true),
            idx < old(self).spec_width() ==> final(self).spec_max_idx() == old(self).spec_max_idx(),
    {
        if idx >= self.width {
            return Err(Error::IndexOutOfBounds);
        }
        self.modified(idx);
        let ghost cleared = *self;
        self.db.remove(&idx);
        proof {
            assert(self.leaves() =~= cleared.leaves().remove(idx as nat));
            lemma_change_keeps_memo(&cleared, self, idx as nat);
        }
        let ghost written = *self;
        self.reshape(idx, false);
        proof {
            assert(written.memo_within(old(self)));
        }
        Ok(())
    }

    /// Flag the provided index as absent.
    ///
    /// This will reorganize the empty intervals.
    pub fn removed(&mut self, idx: usize) -> (r: Result<(), Error>)
        requires
            old(self).wf(),
        ensures
            final(self).wf(),
            idx >= old(self).spec_width() ==> final(self).refused_from(old(self), r),
            idx < old(self).spec_width() ==> r is Ok,
            idx < old(self).spec_width() ==> final(self).leaves() == old(self).leaves(),
            idx < old(self).spec_width() ==> final(self).marked_from(old(self), idx as nat, true),
            idx < old(self).spec_width() ==> final(self).spec_max_idx() == old(self).spec_max_idx(),
    {
        if idx >= self.width {
            return Err(Error::IndexOutOfBounds);
        }
        self.modified(idx);
        self.reshape(idx, false);
        Ok(())
    }

    /// Computes the node at a coordinate of the tree.
    fn node_at(&mut self, height: usize, idx: usize) -> (r: Option<Scalar>)
        requires
            old(self).wf(),
            height <= old(self).spec_height(),
            idx < arity_pow(height as nat),
        ensures
            final(self).wf(),
            final(self).same_tree(old(self)),
            old(self).memo_within(final(self)),
            old(self).memo_row(height as nat, idx as nat) ==> final(self).cached(
                height as nat,
                idx as nat,
            ) == old(self).node_spec(height as nat, idx as nat),
            option_value(r) == old(self).node_spec(height as nat, idx as nat),
        decreases old(self).spec_height() - height,
    {
        if height == self.height {
            let found = match self.db.get(&idx) {
                Some(leaf) => Some(*leaf),
                None => None,
            };
            return found;
        }
        if self.node_is_empty(height, idx) {
            return Some(Scalar::zero());
        }
        let should_cache = height % CACHE_HEIGHT_INTERVAL == 0;
        let key = slot_of(height, idx);
        if should_cache {
            match self.cache.get(&key) {
                Some(node) => {
                    return Some(*node);
                },
                None => {},
            }
        }
        let ghost levels = (self.height - height) as nat;
        proof {
            lemma_arity_pow_monotone((height + 1) as nat, self.height as nat);
            let q = arity_pow(height as nat) as int;
            assert(arity_pow((height + 1) as nat) == MERKLE_ARITY * q);
            assert(idx * MERKLE_ARITY + MERKLE_ARITY <= MERKLE_ARITY * q) by (nonlinear_arith)
                requires
                    idx + 1 <= q,
            ;
        }
        let mut row: [Option<Scalar>; MERKLE_ARITY] = [None, None, None, None];
        let mut c: usize = 0;
        while c < MERKLE_ARITY
            invariant
                c <= MERKLE_ARITY,
                self.wf(),
                self.same_tree(old(self)),
                old(self).memo_within(self),
                should_cache ==> !old(self).cache@.contains_key(key),
                key == slot(height as nat, idx as nat),
                height < self.height,
                self.height == old(self).height,
                levels == self.height - height,
                idx * MERKLE_ARITY + MERKLE_ARITY <= arity_pow((height + 1) as nat) <= usize::MAX,
                forall|k: int|
                    0 <= k < c ==> option_value(#[trigger] row@[k]) == child(
                        old(self).params_view(),
                        old(self).leaves(),
                        old(self).empties(),
                        levels,
                        idx as nat,
                        k,
                    ),
            decreases MERKLE_ARITY - c,
        {
            let node = self.node_at(height + 1, idx * MERKLE_ARITY + c);
            row[c] = node;
            c += 1;
        }
        let mut h = Poseidon::new();
        h.replace_row(&row);
        let node = h.hash(&self.params);
        proof {
            assert(option_values(row@) =~= children(
                old(self).params_view(),
                old(self).leaves(),
                old(self).empties(),
                levels,
                idx as nat,
            ));
        }
        if should_cache {
            let ghost before = *self;
            self.cache.insert(key, node);
            proof {
                assert(self.leaves() =~= before.leaves());
                assert forall|h: nat, i: nat|
                    h < self.height && i < arity_pow(h) && self.cache@.contains_key(
                        #[trigger] slot(h, i),
                    ) implies Some(self.cache@[slot(h, i)]@) == self.node_spec(h, i) by {
                    if slot(h, i) != key {
                        assert(before.cache@.contains_key(slot(h, i)));
                    } else {
                        lemma_arity_pow_monotone(h, self.height as nat);
                        assert(h == height && i == idx);
                    }
                }
            }
        }
        Some(node)
    }

    /// Fetch a node of the tree for the provided coordinates
    pub fn node(&mut self, height: usize, idx: usize) -> (r: Result<Option<Scalar>, Error>)
        requires
            old(self).wf(),
        ensures
            final(self).wf(),
            final(self).same_tree(old(self)),
            old(self).memo_within(final(self)),
            old(self).valid_coord(height as nat, idx as nat) ==> r is Ok && option_value(r->Ok_0)
                == old(self).node_spec(height as nat, idx as nat) && (old(self).memo_row(
                height as nat,
                idx as nat,
            ) ==> final(self).cached(height as nat, idx as nat) == old(self).node_spec(
                height as nat,
                idx as nat,
            )),
            !old(self).valid_coord(height as nat, idx as nat) ==> r is Err && r->Err_0
                is IndexOutOfBounds,
    {
        if height > self.height {
            return Err(Error::IndexOutOfBounds);
        }
        proof {
            lemma_arity_pow_monotone(height as nat, self.height as nat);
        }
        if idx >= arity_power(height) {
            return Err(Error::IndexOutOfBounds);
        }
        Ok(self.node_at(height, idx))
    }

    /// Generate a proof of membership for the provided leaf index
    pub fn prove(&mut self, needle: usize) -> (r: Result<BigProof, Error>)
        requires
            old(self).wf(),
        ensures
            final(self).wf(),
            final(self).same_tree(old(self)),
            old(self).memo_within(final(self)),
            needle < old(self).spec_width() ==> r is Ok && r->Ok_0@ == old(self).path_spec(
                needle as nat,
            ),
            needle >= old(self).spec_width() ==> r is Err && r->Err_0 is IndexOutOfBounds,
    {
        if needle >= self.width {
            return Err(Error::IndexOutOfBounds);
        }
        let mut rows = BigProof::new(Vec::new());
        let mut at: usize = needle;
        let mut row: usize = 0;
        let ghost p = self.params_view();
        let ghost leaves = self.leaves();
        let ghost empties = self.empties();
        proof {
            lemma_ancestor_zero(needle as nat);
            assert(rows@ =~= path(p, leaves, empties, needle as nat, self.height as nat).take(0));
        }
        while row < self.height
            invariant
                row <= self.height,
                self.wf(),
                self.same_tree(old(self)),
                old(self).memo_within(self),
                p == self.params_view(),
                leaves == self.leaves(),
                empties == self.empties(),
                at == ancestor_idx(needle as nat, row as nat),
                at < arity_pow((self.height - row) as nat),
                rows@ == path(p, leaves, empties, needle as nat, self.height as nat).take(
                    row as int,
                ),
            decreases self.height - row,
        {
            let from: usize = MERKLE_ARITY * (at / MERKLE_ARITY);
            let idx: usize = at % MERKLE_ARITY;
            let ghost up = (self.height - row - 1) as nat;
            proof {
                lemma_arity_pow_monotone((up + 1) as nat, self.height as nat);
                lemma_ancestor_step(needle as nat, row as nat);
                assert(arity_pow((up + 1) as nat) == MERKLE_ARITY * arity_pow(up));
            }
            let mut siblings: [Option<Scalar>; MERKLE_ARITY] = [None, None, None, None];
            let mut c: usize = 0;
            while c < MERKLE_ARITY
                invariant
                    c <= MERKLE_ARITY,
                    row < self.height,
                    self.wf(),
                    self.same_tree(old(self)),
                    old(self).memo_within(self),
                    p == self.params_view(),
                    leaves == self.leaves(),
                    empties == self.empties(),
                    from == MERKLE_ARITY * (at / MERKLE_ARITY),
                    at < arity_pow((self.height - row) as nat),
                    arity_pow((self.height - row) as nat) == MERKLE_ARITY * arity_pow(
                        (self.height - row - 1) as nat,
                    ),
                    arity_pow((self.height - row) as nat) <= usize::MAX,
                    forall|k: int|
                        0 <= k < c ==> option_value(#[trigger] siblings@[k]) == child(
                            p,
                            leaves,
                            empties,
                            (row + 1) as nat,
                            (at / MERKLE_ARITY) as nat,
                            k,
                        ),
                decreases MERKLE_ARITY - c,
            {
                let node = self.node_at(self.height - row, from + c);
                siblings[c] = node;
                c += 1;
            }
            proof {
                assert(option_values(siblings@) =~= children(
                    p,
                    leaves,
                    empties,
                    (row + 1) as nat,
                    (at / MERKLE_ARITY) as nat,
                ));
                let whole = path(p, leaves, empties, needle as nat, self.height as nat);
                assert(whole[row as int] == path_row(p, leaves, empties, needle as nat, row as nat));
                assert(whole.take(row + 1) =~= whole.take(row as int).push(whole[row as int]));
            }
            rows.push(idx, siblings);
            at = at / MERKLE_ARITY;
            row += 1;
        }
        proof {
            let whole = path(p, leaves, empties, needle as nat, self.height as nat);
            assert(whole.take(self.height as int) =~= whole);
        }
        Ok(rows)
    }

    /// Calculate and return the root of the merkle tree.
    pub fn root(&mut self) -> (r: Result<Scalar, Error>)
        requires
            old(self).wf(),
        ensures
            final(self).wf(),
            final(self).same_tree(old(self)),
            old(self).memo_within(final(self)),
            old(self).memo_row(0, 0) ==> final(self).cached(0, 0) == old(self).node_spec(0, 0),
            forall|k: int|
                0 <= k < segments_from(old(self).spec_height(), old(self).spec_max_idx()).len()
                    ==> final(self).warmed(
                    old(self),
                    #[trigger] segments_from(old(self).spec_height(), old(self).spec_max_idx())[k],
                ),
            match r {
                Ok(root) => old(self).node_spec(0, 0) == Some(root@),
                Err(e) => e is Other && old(self).node_spec(0, 0) is None,
            },
    {
        let segments = self.segments();
        let mut k: usize = 0;
        while k < segments.len()
            invariant
                k <= segments@.len(),
                self.wf(),
                self.same_tree(old(self)),
                old(self).memo_within(self),
                forall|n: int| 0 <= n < k ==> self.warmed(old(self), #[trigger] segments@[n]),
            decreases segments@.len() - k,
        {
            let coord = segments[k];
            let ghost prev = *self;
            let _ = self.node(coord.height, coord.idx);
            proof {
                assert forall|n: int| 0 <= n < k + 1 implies self.warmed(
                    old(self),
                    #[trigger] segments@[n],
                ) by {
                    let at = segments@[n];
                    if n < k {
                        assert(prev.warmed(old(self), at));
                        if old(self).valid_coord(at.height as nat, at.idx as nat) && old(
                            self,
                        ).memo_row(at.height as nat, at.idx as nat) {
                            assert(prev.cached(at.height as nat, at.idx as nat) is Some);
                        }
                    }
                }
            }
            k += 1;
        }
        proof {
            assert(arity_pow(0) == 1);
        }
        let ghost warm = *self;
        let top = self.node_at(0, 0);
        proof {
            assert forall|n: int| 0 <= n < segments@.len() implies self.warmed(
                old(self),
                #[trigger] segments@[n],
            ) by {
                let at = segments@[n];
                assert(warm.warmed(old(self), at));
                if old(self).valid_coord(at.height as nat, at.idx as nat) && old(self).memo_row(
                    at.height as nat,
                    at.idx as nat,
                ) {
                    assert(warm.cached(at.height as nat, at.idx as nat) is Some);
                }
            }
        }
        match top {
            Some(root) => Ok(root),
            None => Err(
                Error::Other(
                    "It was not possible to obtain the root node from the merkle tree.".to_owned(),
                ),
            ),
        }
    }
}

/// A tree that changed the leaf at one base index, and its empty ranges
/// around that index only, and that memoized no node above that index, is
/// well formed again.
proof fn lemma_change_keeps_memo(before: &BigMerkleTree, after: &BigMerkleTree, idx: nat)
    requires
        before.wf(),
        before.memo_clear_above(idx),
        after.params == before.params,
        after.width == before.width,
        after.height == before.height,
        after.cache == before.cache,
        after.max_idx < after.width,
        intervals_wf(after.empty_intervals@, after.width as int),
        forall|i: nat|
            i != idx ==> (#[trigger] before.leaves().contains_key(i)) == after.leaves().contains_key(
                i,
            ) && (before.leaves().contains_key(i) ==> before.leaves()[i] == after.leaves()[i]),
        forall|lo: int, hi: int|
            lo < hi && !(lo <= idx < hi) ==> #[trigger] covered(after.empty_intervals@, lo, hi)
                == covered(before.empty_intervals@, lo, hi),
    ensures
        after.wf(),
        after.memo_clear_above(idx),
        after.memo_within(before),
        before.memo_within(after),
{
    assert forall|h: nat, i: nat|
        h < after.height && i < arity_pow(h) && after.cache@.contains_key(
            #[trigger] slot(h, i),
        ) implies Some(after.cache@[slot(h, i)]@) == after.node_spec(h, i) by {
        let levels = (after.height - h) as nat;
        assert(before.cached(h, i) is Some);
        assert(before.cached(h, ancestor_idx(idx, levels)) is None);
        lemma_node_value_stable(
            before.params_view(),
            before.leaves(),
            after.leaves(),
            before.empties(),
            after.empties(),
            levels,
            i,
            idx,
        );
    }
    assert forall|h: nat| h < after.spec_height() implies #[trigger] after.cached(
        h,
        ancestor_idx(idx, (after.spec_height() - h) as nat),
    ) is None by {
        assert(before.cached(h, ancestor_idx(idx, (before.spec_height() - h) as nat)) is None);
    }
}

} // verus!
