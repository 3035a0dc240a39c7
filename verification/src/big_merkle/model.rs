//! What the nodes of a tree are, as a function of its leaves and of its empty
//! ranges, and what a membership proof holds.

use vstd::prelude::*;
use vstd::arithmetic::div_mod::{lemma_fundamental_div_mod, lemma_fundamental_div_mod_converse};
use crate::big_merkle::big_proof::{climb, ItemView};
use crate::big_merkle::intervals::{
    covered, covers, empty_at, intervals_wf, lemma_empty_run_is_covered,
};
use crate::big_merkle::merkle_coord::{ancestor_idx, lemma_ancestor_step};
use crate::big_merkle::merkle_range::MerkleRange;
use crate::big_merkle::power::{arity_pow, lemma_arity_pow_monotone};
use crate::constants::MERKLE_ARITY;
use crate::poseidon::{absorbed, digest, ParamsView};

verus! {

/// Whether the base range below the node `idx`, `levels` rows above the base,
/// lies in one of the empty ranges.
pub open spec fn range_empty(empties: Seq<MerkleRange>, levels: nat, idx: nat) -> bool {
    covered(
        empties,
        MerkleRange::start_of(levels, idx) as int,
        MerkleRange::end_of(levels, idx) as int,
    )
}

/// The node `idx` of the row that stands `levels` rows above the base: a leaf
/// where there is one, zero for a node over an empty range, and else the
/// digest of its children, an absent child counting as zero.
pub open spec fn node_value(
    p: ParamsView,
    leaves: Map<nat, nat>,
    empties: Seq<MerkleRange>,
    levels: nat,
    idx: nat,
) -> Option<nat>
    decreases levels, 2nat,
{
    if levels == 0 {
        if leaves.contains_key(idx) {
            Some(leaves[idx])
        } else {
            None
        }
    } else if range_empty(empties, levels, idx) {
        Some(0)
    } else {
        Some(digest(p, absorbed(children(p, leaves, empties, levels, idx))))
    }
}

/// The children of the node `idx` of the row that stands `levels` rows above
/// the base.
pub open spec fn children(
    p: ParamsView,
    leaves: Map<nat, nat>,
    empties: Seq<MerkleRange>,
    levels: nat,
    idx: nat,
) -> Seq<Option<nat>>
    decreases levels, 1nat,
{
    Seq::new(MERKLE_ARITY as nat, |c: int| child(p, leaves, empties, levels, idx, c))
}

/// The child at position `c` of the node `idx` of the row that stands `levels`
/// rows above the base.
pub open spec fn child(
    p: ParamsView,
    leaves: Map<nat, nat>,
    empties: Seq<MerkleRange>,
    levels: nat,
    idx: nat,
    c: int,
) -> Option<nat>
    decreases levels, 0nat,
{
    if levels == 0 {
        None
    } else {
        node_value(p, leaves, empties, (levels - 1) as nat, (idx * MERKLE_ARITY + c) as nat)
    }
}

/// The row of a membership proof for the base index `needle` that is taken
/// `row` rows above the base: the node of the path there, among its siblings.
pub open spec fn path_row(
    p: ParamsView,
    leaves: Map<nat, nat>,
    empties: Seq<MerkleRange>,
    needle: nat,
    row: nat,
) -> ItemView {
    let at = ancestor_idx(needle, row);
    ItemView {
        idx: at % (MERKLE_ARITY as nat),
        leaves: children(p, leaves, empties, row + 1, at / (MERKLE_ARITY as nat)),
    }
}

/// The membership proof for the base index `needle` in a tree of the given
/// height: one row for each level, from the base up.
pub open spec fn path(
    p: ParamsView,
    leaves: Map<nat, nat>,
    empties: Seq<MerkleRange>,
    needle: nat,
    height: nat,
) -> Seq<ItemView> {
    Seq::new(height, |row: int| path_row(p, leaves, empties, needle, row as nat))
}

/// The base range below a node is not empty, and it holds a base index exactly
/// if the node is the ancestor of that index in its row.
pub proof fn lemma_range_of_ancestor(levels: nat, j: nat, idx: nat)
    ensures
        MerkleRange::start_of(levels, j) < MerkleRange::end_of(levels, j),
        (MerkleRange::start_of(levels, j) <= idx < MerkleRange::end_of(levels, j)) <==> j
            == ancestor_idx(idx, levels),
{
    let p = arity_pow(levels) as int;
    lemma_arity_pow_monotone(0, levels);
    assert(p * j < p * (j + 1)) by (nonlinear_arith)
        requires
            p >= 1,
    ;
    lemma_fundamental_div_mod(idx as int, p);
    if p * j <= idx < p * (j + 1) {
        let r = idx - p * j;
        assert(p * (j + 1) == p * j + p) by (nonlinear_arith);
        lemma_fundamental_div_mod_converse(idx as int, p, j as int, r);
    }
    if j == ancestor_idx(idx, levels) {
        assert(p * (j + 1) == p * j + p) by (nonlinear_arith);
        assert(0 <= (idx as int) % p < p);
    }
}

/// A node is its own ancestor in its own row.
pub proof fn lemma_ancestor_zero(idx: nat)
    ensures
        ancestor_idx(idx, 0) == idx,
{
    assert(arity_pow(0) == 1);
    assert(idx / 1 == idx);
}

/// The base range below a child lies within the base range below its parent.
pub proof fn lemma_child_range(levels: nat, j: nat, c: nat)
    requires
        levels >= 1,
        c < MERKLE_ARITY,
    ensures
        MerkleRange::start_of(levels, j) <= MerkleRange::start_of(
            (levels - 1) as nat,
            (j * MERKLE_ARITY + c) as nat,
        ),
        MerkleRange::end_of((levels - 1) as nat, (j * MERKLE_ARITY + c) as nat)
            <= MerkleRange::end_of(levels, j),
{
    let q = arity_pow((levels - 1) as nat) as int;
    let a = MERKLE_ARITY as int;
    assert(arity_pow(levels) == a * q);
    assert((a * q) * j <= q * (j * a + c)) by (nonlinear_arith)
        requires
            q >= 0,
            c >= 0,
    ;
    assert(q * (j * a + c + 1) <= (a * q) * (j + 1)) by (nonlinear_arith)
        requires
            q >= 0,
            c + 1 <= a,
    ;
}

/// A change of the leaf at one base index, and of the empty ranges around that
/// index only, leaves every node as it was that is not above that index.
pub proof fn lemma_node_value_stable(
    p: ParamsView,
    leaves: Map<nat, nat>,
    leaves2: Map<nat, nat>,
    empties: Seq<MerkleRange>,
    empties2: Seq<MerkleRange>,
    levels: nat,
    j: nat,
    idx: nat,
)
    requires
        forall|i: nat|
            i != idx ==> (#[trigger] leaves.contains_key(i)) == leaves2.contains_key(i) && (
            leaves.contains_key(i) ==> leaves[i] == leaves2[i]),
        forall|lo: int, hi: int|
            lo < hi && !(lo <= idx < hi) ==> #[trigger] covered(empties2, lo, hi) == covered(
                empties,
                lo,
                hi,
            ),
        j != ancestor_idx(idx, levels),
    ensures
        node_value(p, leaves, empties, levels, j) == node_value(p, leaves2, empties2, levels, j),
    decreases levels,
{
    lemma_range_of_ancestor(levels, j, idx);
    if levels == 0 {
        lemma_ancestor_zero(idx);
        assert(leaves.contains_key(j) == leaves2.contains_key(j));
    } else {
        let lo = MerkleRange::start_of(levels, j) as int;
        let hi = MerkleRange::end_of(levels, j) as int;
        assert(covered(empties2, lo, hi) == covered(empties, lo, hi));
        let down = (levels - 1) as nat;
        assert forall|c: int| 0 <= c < MERKLE_ARITY implies #[trigger] child(
            p,
            leaves,
            empties,
            levels,
            j,
            c,
        ) == child(p, leaves2, empties2, levels, j, c) by {
            let child = (j * MERKLE_ARITY + c) as nat;
            lemma_child_range(levels, j, c as nat);
            lemma_range_of_ancestor(down, child, idx);
            lemma_node_value_stable(p, leaves, leaves2, empties, empties2, down, child, idx);
        }
        let before = children(p, leaves, empties, levels, j);
        let after = children(p, leaves2, empties2, levels, j);
        assert(before.len() == after.len());
        assert forall|c: int| 0 <= c < before.len() implies before[c] == after[c] by {
            assert(before[c] == child(p, leaves, empties, levels, j, c));
            assert(after[c] == child(p, leaves2, empties2, levels, j, c));
        }
        assert(before =~= after);
    }
}

/// Two sets of empty ranges that mark the same base indices as empty hold the
/// same ranges.
pub proof fn lemma_covered_by_marks(
    first: Seq<MerkleRange>,
    second: Seq<MerkleRange>,
    width: int,
    lo: int,
    hi: int,
)
    requires
        intervals_wf(first, width),
        intervals_wf(second, width),
        lo < hi,
        forall|i: int| #[trigger] empty_at(first, i) == empty_at(second, i),
    ensures
        covered(first, lo, hi) == covered(second, lo, hi),
{
    if covered(first, lo, hi) {
        let k = choose|k: int| 0 <= k < first.len() && #[trigger] covers(first[k], lo, hi);
        assert forall|i: int| lo <= i < hi implies #[trigger] empty_at(second, i) by {
            assert(covers(first[k], i, i + 1));
            assert(empty_at(first, i));
        }
        lemma_empty_run_is_covered(second, width, lo, hi);
    }
    if covered(second, lo, hi) {
        let k = choose|k: int| 0 <= k < second.len() && #[trigger] covers(second[k], lo, hi);
        assert forall|i: int| lo <= i < hi implies #[trigger] empty_at(first, i) by {
            assert(covers(second[k], i, i + 1));
            assert(empty_at(second, i));
        }
        lemma_empty_run_is_covered(first, width, lo, hi);
    }
}

/// The nodes of a tree depend on its empty ranges only through the base
/// indices that they mark as empty.
pub proof fn lemma_node_value_by_marks(
    p: ParamsView,
    leaves: Map<nat, nat>,
    first: Seq<MerkleRange>,
    second: Seq<MerkleRange>,
    width: int,
    levels: nat,
    j: nat,
)
    requires
        intervals_wf(first, width),
        intervals_wf(second, width),
        forall|i: int| #[trigger] empty_at(first, i) == empty_at(second, i),
    ensures
        node_value(p, leaves, first, levels, j) == node_value(p, leaves, second, levels, j),
    decreases levels,
{
    if levels > 0 {
        lemma_range_of_ancestor(levels, j, 0);
        lemma_covered_by_marks(
            first,
            second,
            width,
            MerkleRange::start_of(levels, j) as int,
            MerkleRange::end_of(levels, j) as int,
        );
        let before = children(p, leaves, first, levels, j);
        let after = children(p, leaves, second, levels, j);
        assert forall|c: int| 0 <= c < before.len() implies before[c] == after[c] by {
            assert(before[c] == child(p, leaves, first, levels, j, c));
            assert(after[c] == child(p, leaves, second, levels, j, c));
            lemma_node_value_by_marks(
                p,
                leaves,
                first,
                second,
                width,
                (levels - 1) as nat,
                (j * MERKLE_ARITY + c) as nat,
            );
        }
        assert(before =~= after);
    }
}

/// Writing a present child once more at its position changes nothing.
pub proof fn lemma_absorbed_holds_child(row: Seq<Option<nat>>, at: nat, leaf: nat)
    requires
        row.len() == MERKLE_ARITY,
        at < MERKLE_ARITY,
        row[at as int] == Some(leaf),
    ensures
        absorbed(row).update(at + 1int, leaf) == absorbed(row),
{
    assert(absorbed(row).update(at + 1int, leaf) =~= absorbed(row));
}

/// A node above a base index that is not empty is the digest of its children.
pub proof fn lemma_occupied_node(
    p: ParamsView,
    leaves: Map<nat, nat>,
    empties: Seq<MerkleRange>,
    levels: nat,
    needle: nat,
)
    requires
        levels >= 1,
        !covered(empties, needle as int, needle + 1int),
    ensures
        node_value(p, leaves, empties, levels, ancestor_idx(needle, levels)) == Some(
            digest(
                p,
                absorbed(children(p, leaves, empties, levels, ancestor_idx(needle, levels))),
            ),
        ),
{
    let j = ancestor_idx(needle, levels);
    lemma_range_of_ancestor(levels, j, needle);
    let lo = MerkleRange::start_of(levels, j) as int;
    let hi = MerkleRange::end_of(levels, j) as int;
    if covered(empties, lo, hi) {
        let k = choose|k: int| 0 <= k < empties.len() && #[trigger] covers(empties[k], lo, hi);
        assert(covers(empties[k], needle as int, needle + 1int));
    }
}

/// The path from a present leaf that is not counted as empty reaches, after
/// `rows` rows of its proof, the ancestor of the leaf in that row.
pub proof fn lemma_climb_reaches_ancestor(
    p: ParamsView,
    leaves: Map<nat, nat>,
    empties: Seq<MerkleRange>,
    needle: nat,
    height: nat,
    rows: nat,
)
    requires
        rows <= height,
        leaves.contains_key(needle),
        !covered(empties, needle as int, needle + 1int),
    ensures
        node_value(p, leaves, empties, rows, ancestor_idx(needle, rows)) == Some(
            climb(p, path(p, leaves, empties, needle, height), leaves[needle], rows),
        ),
    decreases rows,
{
    if rows == 0 {
        lemma_ancestor_zero(needle);
    } else {
        let below = (rows - 1) as nat;
        lemma_climb_reaches_ancestor(p, leaves, empties, needle, height, below);
        let at = ancestor_idx(needle, below);
        let a = MERKLE_ARITY as nat;
        lemma_ancestor_step(needle, below);
        let row = path(p, leaves, empties, needle, height)[below as int];
        assert(row == path_row(p, leaves, empties, needle, below));
        let reached = climb(p, path(p, leaves, empties, needle, height), leaves[needle], below);
        lemma_fundamental_div_mod(at as int, a as int);
        assert((at / a) * a + at % a == at) by (nonlinear_arith)
            requires
                at == a * (at / a) + at % a,
        ;
        assert(row.leaves[(at % a) as int] == node_value(p, leaves, empties, below, at));
        lemma_absorbed_holds_child(row.leaves, at % a, reached);
        lemma_occupied_node(p, leaves, empties, rows, needle);
    }
}

} // verus!
