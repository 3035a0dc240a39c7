//! The in-memory merkle tree of `MERKLE_WIDTH` leaves.

use vstd::prelude::*;
use vstd::slice::slice_subrange;
use crate::big_merkle::big_proof::{climb, BigProof, ItemView};
use crate::big_merkle::merkle_coord::{ancestor_idx, lemma_ancestor_step};
use crate::big_merkle::merkle_range::MerkleRange;
use crate::big_merkle::model::{
    child, children, lemma_ancestor_zero, lemma_climb_reaches_ancestor, node_value, path, path_row,
};
use crate::big_merkle::power::{arity_pow, lemma_arity_pow_monotone};
use crate::constants::{MERKLE_ARITY, MERKLE_HEIGHT, MERKLE_WIDTH};
use crate::error::Error;
use crate::poseidon::{
    absorbed, digest, option_value, option_values, ParamsView, Poseidon, PoseidonParams,
};
use crate::scalar::Scalar;

verus! {

/// The leaves that are present, by their index.
pub open spec fn leaf_map(leaves: Seq<Option<nat>>) -> Map<nat, nat> {
    Map::new(|i: nat| i < leaves.len() && leaves[i as int] is Some, |i: nat| leaves[i as int]->0)
}

/// The node `idx` of the row that stands `levels` rows above the leaves.
pub open spec fn small_node(p: ParamsView, leaves: Seq<Option<nat>>, levels: nat, idx: nat) -> Option<
    nat,
> {
    node_value(p, leaf_map(leaves), Seq::<MerkleRange>::empty(), levels, idx)
}

/// The root of the tree over the given leaves.
pub open spec fn small_root(p: ParamsView, leaves: Seq<Option<nat>>) -> nat {
    small_node(p, leaves, MERKLE_HEIGHT as nat, 0)->0
}

/// The membership proof of the leaf at `needle`.
pub open spec fn small_path(p: ParamsView, leaves: Seq<Option<nat>>, needle: nat) -> Seq<ItemView> {
    path(p, leaf_map(leaves), Seq::<MerkleRange>::empty(), needle, MERKLE_HEIGHT as nat)
}

/// Whether the leaf stands at `idx` and nowhere before it.
pub open spec fn first_at(leaves: Seq<Option<nat>>, leaf: nat, idx: int) -> bool {
    &&& 0 <= idx < leaves.len()
    &&& leaves[idx] == Some(leaf)
    &&& forall|k: int| 0 <= k < idx ==> leaves[k] != Some(leaf)
}

/// The width of the tree is the arity to the power of its height.
pub proof fn lemma_small_width()
    ensures
        arity_pow(MERKLE_HEIGHT as nat) == MERKLE_WIDTH,
{
    assert(arity_pow(0) == 1);
    assert(arity_pow(1) == 4);
    assert(arity_pow(2) == 16);
    assert(arity_pow(3) == 64);
}

/// A node above the leaves is the digest of its children.
pub proof fn lemma_small_node_unfold(p: ParamsView, leaves: Seq<Option<nat>>, levels: nat, idx: nat)
    requires
        levels >= 1,
    ensures
        small_node(p, leaves, levels, idx) == Some(
            digest(
                p,
                absorbed(
                    children(p, leaf_map(leaves), Seq::<MerkleRange>::empty(), levels, idx),
                ),
            ),
        ),
{
}

/// The membership proof of a present leaf leads from the leaf to the root.
pub proof fn lemma_small_proof_verifies(p: ParamsView, leaves: Seq<Option<nat>>, idx: nat, leaf: nat)
    requires
        leaves.len() == MERKLE_WIDTH,
        idx < MERKLE_WIDTH,
        leaves[idx as int] == Some(leaf),
    ensures
        climb(p, small_path(p, leaves, idx), leaf, MERKLE_HEIGHT as nat) == small_root(p, leaves),
{
    lemma_small_width();
    lemma_climb_reaches_ancestor(
        p,
        leaf_map(leaves),
        Seq::<MerkleRange>::empty(),
        idx,
        MERKLE_HEIGHT as nat,
        MERKLE_HEIGHT as nat,
    );
    vstd::arithmetic::div_mod::lemma_basic_div(idx as int, MERKLE_WIDTH as int);
}

/// Two leaves written at different indices give the same leaves, and so the
/// same root, in whichever order they are written.
pub proof fn lemma_small_inserts_commute(
    p: ParamsView,
    leaves: Seq<Option<nat>>,
    i: int,
    a: Option<nat>,
    j: int,
    b: Option<nat>,
)
    requires
        0 <= i < leaves.len(),
        0 <= j < leaves.len(),
        i != j,
    ensures
        leaves.update(i, a).update(j, b) == leaves.update(j, b).update(i, a),
        small_root(p, leaves.update(i, a).update(j, b)) == small_root(
            p,
            leaves.update(j, b).update(i, a),
        ),
{
    assert(leaves.update(i, a).update(j, b) =~= leaves.update(j, b).update(i, a));
}

/// A membership proof of the in-memory tree.
pub type Proof = BigProof;

/// The merkle tree will accept up to `MERKLE_WIDTH` leaves.
#[derive(Debug, Clone)]
pub struct MerkleTree {
    params: PoseidonParams,
    root: Option<Scalar>,
    leaves: [Option<Scalar>; MERKLE_WIDTH],
    raw: Vec<Vec<Option<Scalar>>>,
}

impl MerkleTree {
    /// The parameters of the hasher of the tree.
    pub closed spec fn params_view(&self) -> ParamsView {
        self.params@
    }

    /// The leaves of the tree, where they are present.
    pub closed spec fn leaf_values(&self) -> Seq<Option<nat>> {
        option_values(self.leaves@)
    }

    /// The rows of nodes that the tree keeps once its root is computed.
    spec fn grid_ok(&self, rows: nat) -> bool {
        &&& self.raw@.len() >= rows
        &&& forall|r: int|
            0 <= r < rows ==> (#[trigger] self.raw@[r])@.len() == MERKLE_WIDTH
        &&& forall|r: int, j: int|
            0 <= r < rows && 0 <= j && j * arity_pow(r as nat) < MERKLE_WIDTH ==> option_value(
                #[trigger] self.raw@[r]@[j],
            ) == small_node(self.params@, self.leaf_values(), r as nat, j as nat)
    }

    /// The invariant of the tree: a root that is kept is the root of the
    /// leaves, and the rows below it are the nodes of the tree.
    pub closed spec fn wf(&self) -> bool {
        &&& self.params.wf()
        &&& self.root is Some ==> self.raw@.len() == MERKLE_HEIGHT + 1 && self.grid_ok(
            (MERKLE_HEIGHT + 1) as nat,
        ) && self.root == self.raw@[MERKLE_HEIGHT as int]@[0]
    }

    /// There are always `MERKLE_WIDTH` leaves.
    pub proof fn lemma_leaf_count(&self)
        ensures
            self.leaf_values().len() == MERKLE_WIDTH,
    {
    }

    /// An empty tree.
    pub fn new(params: PoseidonParams) -> (r: MerkleTree)
        requires
            params.wf(),
        ensures
            r.wf(),
            r.params_view() == params@,
            r.leaf_values() == Seq::new(MERKLE_WIDTH as nat, |i: int| None::<nat>),
    {
        let r = MerkleTree { params, root: None, leaves: [None;64], raw: Vec::new() };
        proof {
            assert(r.leaf_values() =~= Seq::new(MERKLE_WIDTH as nat, |i: int| None::<nat>));
        }
        r
    }

    /// The parameters of the hasher of the tree.
    pub fn params(&self) -> (r: &PoseidonParams)
        requires
            self.wf(),
        ensures
            r.wf(),
            r@ == self.params_view(),
    {
        &self.params
    }

    /// Return a reference to the provided leaves
    pub fn leaves(&self) -> (r: &[Option<Scalar>; MERKLE_WIDTH])
        ensures
            option_values(r@) == self.leaf_values(),
    {
        &self.leaves
    }

    /// Insert the provided leaf in the defined position.
    pub fn insert_unchecked(&mut self, index: usize, leaf: Scalar)
        requires
            old(self).wf(),
            index < MERKLE_WIDTH,
        ensures
            final(self).wf(),
            final(self).params_view() == old(self).params_view(),
            final(self).leaf_values() == old(self).leaf_values().update(
                index as int,
                Some(leaf@),
            ),
    {
        self.root = None;
        self.leaves[index] = Some(leaf);
        proof {
            assert(self.leaf_values() =~= old(self).leaf_values().update(
                index as int,
                Some(leaf@),
            ));
        }
    }

    /// Set the provided leaf index as absent for the hash calculation.
    pub fn remove_unchecked(&mut self, index: usize) -> (r: Option<Scalar>)
        requires
            old(self).wf(),
            index < MERKLE_WIDTH,
        ensures
            final(self).wf(),
            final(self).params_view() == old(self).params_view(),
            option_value(r) == old(self).leaf_values()[index as int],
            final(self).leaf_values() == old(self).leaf_values().update(index as int, None),
    {
        self.root = None;
        let before = self.leaves[index];
        self.leaves[index] = None;
        proof {
            assert(self.leaf_values() =~= old(self).leaf_values().update(index as int, None));
        }
        before
    }

    /// The row of nodes above a row.
    fn row_above(&self, below: &Vec<Option<Scalar>>, levels: usize, count: usize) -> (row: Vec<
        Option<Scalar>,
    >)
        requires
            self.params.wf(),
            1 <= levels <= MERKLE_HEIGHT,
            below@.len() == MERKLE_WIDTH,
            count * arity_pow(levels as nat) == MERKLE_WIDTH,
            forall|j: int|
                0 <= j && j * arity_pow((levels - 1) as nat) < MERKLE_WIDTH ==> option_value(
                    #[trigger] below@[j],
                ) == small_node(self.params@, self.leaf_values(), (levels - 1) as nat, j as nat),
        ensures
            row@.len() == MERKLE_WIDTH,
            forall|j: int|
                0 <= j && j * arity_pow(levels as nat) < MERKLE_WIDTH ==> option_value(
                    #[trigger] row@[j],
                ) == small_node(self.params@, self.leaf_values(), levels as nat, j as nat),
    {
        let ghost p = self.params@;
        let ghost leaves = self.leaf_values();
        let ghost span = arity_pow(levels as nat) as int;
        let ghost small = arity_pow((levels - 1) as nat) as int;
        proof {
            lemma_arity_pow_monotone(0, (levels - 1) as nat);
            assert(span == MERKLE_ARITY * small);
            assert(count <= MERKLE_WIDTH) by (nonlinear_arith)
                requires
                    count * span == MERKLE_WIDTH,
                    span >= 1,
                    count >= 0,
            ;
        }
        let mut row: Vec<Option<Scalar>> = Vec::new();
        let mut h = Poseidon::new();
        let mut j: usize = 0;
        while j < count
            invariant
                j <= count,
                count <= MERKLE_WIDTH,
                self.params.wf(),
                p == self.params@,
                leaves == self.leaf_values(),
                1 <= levels <= MERKLE_HEIGHT,
                span == arity_pow(levels as nat),
                small == arity_pow((levels - 1) as nat),
                span == MERKLE_ARITY * small,
                small >= 1,
                count * span == MERKLE_WIDTH,
                below@.len() == MERKLE_WIDTH,
                row@.len() == j,
                forall|k: int|
                    0 <= k && k * small < MERKLE_WIDTH ==> option_value(#[trigger] below@[k])
                        == small_node(p, leaves, (levels - 1) as nat, k as nat),
                forall|k: int|
                    0 <= k < j ==> option_value(#[trigger] row@[k]) == small_node(
                        p,
                        leaves,
                        levels as nat,
                        k as nat,
                    ),
            decreases count - j,
        {
            proof {
                assert((j * MERKLE_ARITY + MERKLE_ARITY) * small <= MERKLE_WIDTH)
                    by (nonlinear_arith)
                    requires
                        j + 1 <= count,
                        count * span == MERKLE_WIDTH,
                        span == MERKLE_ARITY * small,
                        small >= 1,
                ;
                assert(j * MERKLE_ARITY + MERKLE_ARITY <= MERKLE_WIDTH) by (nonlinear_arith)
                    requires
                        (j * MERKLE_ARITY + MERKLE_ARITY) * small <= MERKLE_WIDTH,
                        small >= 1,
                ;
            }
            let from: usize = j * MERKLE_ARITY;
            let group = slice_subrange(below.as_slice(), from, from + MERKLE_ARITY);
            let loaded = h.replace(group);
            proof {
                let kids = children(
                    p,
                    leaf_map(leaves),
                    Seq::<MerkleRange>::empty(),
                    levels as nat,
                    j as nat,
                );
                crate::poseidon::lemma_count_present_bound(
                    option_values(group@),
                    MERKLE_ARITY as nat,
                );
                assert(option_values(group@).take(MERKLE_ARITY as int) =~= option_values(group@));
                assert forall|c: int| 0 <= c < MERKLE_ARITY implies option_values(group@)[c]
                    == kids[c] by {
                    assert((from + c) * small < MERKLE_WIDTH) by (nonlinear_arith)
                        requires
                            (from + MERKLE_ARITY) * small <= MERKLE_WIDTH,
                            c < MERKLE_ARITY,
                            small >= 1,
                    ;
                    assert(group@[c] == below@[from + c]);
                    assert(kids[c] == child(
                        p,
                        leaf_map(leaves),
                        Seq::<MerkleRange>::empty(),
                        levels as nat,
                        j as nat,
                        c,
                    ));
                }
                assert(option_values(group@) =~= kids);
                lemma_small_node_unfold(p, leaves, levels as nat, j as nat);
            }
            let node = h.hash(&self.params);
            row.push(Some(node));
            j += 1;
        }
        while j < MERKLE_WIDTH
            invariant
                count <= j <= MERKLE_WIDTH,
                row@.len() == j,
                span >= 1,
                count * span == MERKLE_WIDTH,
                forall|k: int|
                    0 <= k < count ==> option_value(#[trigger] row@[k]) == small_node(
                        p,
                        leaves,
                        levels as nat,
                        k as nat,
                    ),
            decreases MERKLE_WIDTH - j,
        {
            row.push(None);
            j += 1;
        }
        proof {
            assert forall|k: int| 0 <= k && k * span < MERKLE_WIDTH implies option_value(
                #[trigger] row@[k],
            ) == small_node(p, leaves, levels as nat, k as nat) by {
                assert(k < count) by (nonlinear_arith)
                    requires
                        k * span < count * span,
                        span >= 1,
                ;
            }
        }
        row
    }

    /// Computes the rows of the tree from the leaves up.
    fn fill(&mut self)
        requires
            old(self).params.wf(),
        ensures
            final(self).wf(),
            final(self).root is Some,
            final(self).params == old(self).params,
            final(self).leaves == old(self).leaves,
    {
        let mut base: Vec<Option<Scalar>> = Vec::new();
        let mut i: usize = 0;
        while i < MERKLE_WIDTH
            invariant
                i <= MERKLE_WIDTH,
                base@.len() == i,
                forall|k: int| 0 <= k < i ==> base@[k] == self.leaves@[k],
            decreases MERKLE_WIDTH - i,
        {
            base.push(self.leaves[i]);
            i += 1;
        }
        let mut grid: Vec<Vec<Option<Scalar>>> = Vec::new();
        grid.push(base);
        self.raw = grid;
        let mut count: usize = MERKLE_WIDTH;
        let mut levels: usize = 1;
        proof {
            assert(arity_pow(0) == 1);
            assert(count * arity_pow(0) == MERKLE_WIDTH);
            assert forall|r: int, j: int|
                0 <= r < 1 && 0 <= j && j * arity_pow(r as nat) < MERKLE_WIDTH implies option_value(
                #[trigger] self.raw@[r]@[j],
            ) == small_node(self.params@, self.leaf_values(), r as nat, j as nat) by {
                assert(j * 1 == j);
                assert(self.leaf_values()[j] == option_value(self.leaves@[j]));
            }
        }
        while levels <= MERKLE_HEIGHT
            invariant
                1 <= levels <= MERKLE_HEIGHT + 1,
                self.params.wf(),
                self.params == old(self).params,
                self.leaves == old(self).leaves,
                self.raw@.len() == levels,
                self.grid_ok(levels as nat),
                count * arity_pow((levels - 1) as nat) == MERKLE_WIDTH,
            decreases MERKLE_HEIGHT + 1 - levels,
        {
            proof {
                lemma_small_width();
                lemma_arity_pow_monotone(levels as nat, MERKLE_HEIGHT as nat);
                let small = arity_pow((levels - 1) as nat) as int;
                assert(arity_pow(levels as nat) == MERKLE_ARITY * small);
                crate::big_merkle::power::lemma_arity_pow_sum(
                    (MERKLE_HEIGHT - levels + 1) as nat,
                    (levels - 1) as nat,
                );
                lemma_divides(count as int, small, (MERKLE_HEIGHT - levels) as nat);
            }
            count = count / MERKLE_ARITY;
            let row = self.row_above(&self.raw[levels - 1], levels, count);
            let ghost before = *self;
            self.raw.push(row);
            proof {
                assert forall|r: int, j: int|
                    0 <= r < levels + 1 && 0 <= j && j * arity_pow(r as nat)
                        < MERKLE_WIDTH implies option_value(#[trigger] self.raw@[r]@[j])
                    == small_node(self.params@, self.leaf_values(), r as nat, j as nat) by {
                    if r < levels {
                        assert(self.raw@[r] == before.raw@[r]);
                    }
                }
            }
            levels += 1;
        }
        self.root = self.raw[MERKLE_HEIGHT][0];
        proof {
            assert(0 * arity_pow(MERKLE_HEIGHT as nat) < MERKLE_WIDTH);
            lemma_small_node_unfold(self.params@, self.leaf_values(), MERKLE_HEIGHT as nat, 0);
        }
    }

    /// Calculate and return the root of the merkle tree.
    pub fn root(&mut self) -> (r: Scalar)
        requires
            old(self).wf(),
        ensures
            final(self).wf(),
            final(self).params_view() == old(self).params_view(),
            final(self).leaf_values() == old(self).leaf_values(),
            r@ == small_root(old(self).params_view(), old(self).leaf_values()),
    {
        if self.root.is_none() {
            self.fill();
        }
        proof {
            assert(0 * arity_pow(MERKLE_HEIGHT as nat) < MERKLE_WIDTH);
            lemma_small_node_unfold(self.params@, self.leaf_values(), MERKLE_HEIGHT as nat, 0);
        }
        match self.root {
            Some(root) => root,
            None => Scalar::zero(),
        }
    }

    /// The first index that holds the leaf, if one does.
    pub fn index_of(&self, leaf: &Scalar) -> (r: Option<usize>)
        ensures
            match r {
                Some(i) => first_at(self.leaf_values(), leaf@, i as int),
                None => forall|k: int|
                    0 <= k < MERKLE_WIDTH ==> self.leaf_values()[k] != Some(leaf@),
            },
    {
        let mut i: usize = 0;
        while i < MERKLE_WIDTH
            invariant
                i <= MERKLE_WIDTH,
                forall|k: int| 0 <= k < i ==> self.leaf_values()[k] != Some(leaf@),
            decreases MERKLE_WIDTH - i,
        {
            if let Some(held) = self.leaves[i] {
                if held.equals(leaf) {
                    return Some(i);
                }
            }
            i += 1;
        }
        None
    }

    /// Generate a proof of membership for the provided leaf
    pub fn prove(&mut self, leaf: &Scalar) -> (r: Result<Proof, Error>)
        requires
            old(self).wf(),
        ensures
            final(self).wf(),
            final(self).params_view() == old(self).params_view(),
            final(self).leaf_values() == old(self).leaf_values(),
            match r {
                Ok(rows) => exists|i: int|
                    first_at(old(self).leaf_values(), leaf@, i) && rows@ == small_path(
                        old(self).params_view(),
                        old(self).leaf_values(),
                        i as nat,
                    ),
                Err(e) => e is LeafNotFound && forall|k: int|
                    0 <= k < MERKLE_WIDTH ==> old(self).leaf_values()[k] != Some(leaf@),
            },
    {
        match self.index_of(leaf) {
            Some(i) => {
                let rows = self.proof_index(i);
                assert(first_at(old(self).leaf_values(), leaf@, i as int));
                Ok(rows)
            },
            None => Err(Error::LeafNotFound),
        }
    }

    /// Generate a proof of membership for the provided leaf index
    pub fn proof_index(&mut self, needle: usize) -> (r: Proof)
        requires
            old(self).wf(),
            needle < MERKLE_WIDTH,
        ensures
            final(self).wf(),
            final(self).params_view() == old(self).params_view(),
            final(self).leaf_values() == old(self).leaf_values(),
            r@ == small_path(old(self).params_view(), old(self).leaf_values(), needle as nat),
    {
        if self.root.is_none() {
            self.fill();
        }
        let mut rows = BigProof::new(Vec::new());
        let mut at: usize = needle;
        let mut row: usize = 0;
        let ghost p = self.params@;
        let ghost leaves = self.leaf_values();
        let ghost whole = small_path(p, leaves, needle as nat);
        proof {
            lemma_small_width();
            lemma_ancestor_zero(needle as nat);
            assert(rows@ =~= whole.take(0));
        }
        while row < MERKLE_HEIGHT
            invariant
                row <= MERKLE_HEIGHT,
                self.wf(),
                self.root is Some,
                p == self.params@,
                leaves == self.leaf_values(),
                whole == small_path(p, leaves, needle as nat),
                at == ancestor_idx(needle as nat, row as nat),
                at < arity_pow((MERKLE_HEIGHT - row) as nat),
                rows@ == whole.take(row as int),
            decreases MERKLE_HEIGHT - row,
        {
            let from: usize = MERKLE_ARITY * (at / MERKLE_ARITY);
            let idx: usize = at % MERKLE_ARITY;
            let ghost up = arity_pow((MERKLE_HEIGHT - row - 1) as nat) as int;
            let ghost span = arity_pow(row as nat) as int;
            proof {
                lemma_arity_pow_monotone(0, row as nat);
                lemma_ancestor_step(needle as nat, row as nat);
                assert(arity_pow((MERKLE_HEIGHT - row) as nat) == MERKLE_ARITY * up);
                crate::big_merkle::power::lemma_arity_pow_sum(
                    (MERKLE_HEIGHT - row) as nat,
                    row as nat,
                );
                assert((from + MERKLE_ARITY) * span <= MERKLE_WIDTH) by (nonlinear_arith)
                    requires
                        from + MERKLE_ARITY <= MERKLE_ARITY * up,
                        (MERKLE_ARITY * up) * span == MERKLE_WIDTH,
                        span >= 1,
                ;
                assert(from + MERKLE_ARITY <= MERKLE_WIDTH) by (nonlinear_arith)
                    requires
                        (from + MERKLE_ARITY) * span <= MERKLE_WIDTH,
                        span >= 1,
                ;
            }
            let line = &self.raw[row];
            let siblings: [Option<Scalar>; MERKLE_ARITY] = [
                line[from],
                line[from + 1],
                line[from + 2],
                line[from + 3],
            ];
            proof {
                let kids = children(
                    p,
                    leaf_map(leaves),
                    Seq::<MerkleRange>::empty(),
                    (row + 1) as nat,
                    (at / MERKLE_ARITY) as nat,
                );
                assert forall|c: int| 0 <= c < MERKLE_ARITY implies option_values(siblings@)[c]
                    == kids[c] by {
                    assert((from + c) * span < MERKLE_WIDTH) by (nonlinear_arith)
                        requires
                            (from + MERKLE_ARITY) * span <= MERKLE_WIDTH,
                            c < MERKLE_ARITY,
                            span >= 1,
                    ;
                    assert(siblings@[c] == self.raw@[row as int]@[from + c]);
                    assert(kids[c] == child(
                        p,
                        leaf_map(leaves),
                        Seq::<MerkleRange>::empty(),
                        (row + 1) as nat,
                        (at / MERKLE_ARITY) as nat,
                        c,
                    ));
                }
                assert(option_values(siblings@) =~= kids);
                assert(whole[row as int] == path_row(
                    p,
                    leaf_map(leaves),
                    Seq::<MerkleRange>::empty(),
                    needle as nat,
                    row as nat,
                ));
                assert(whole.take(row + 1) =~= whole.take(row as int).push(whole[row as int]));
            }
            rows.push(idx, siblings);
            at = at / MERKLE_ARITY;
            row += 1;
        }
        proof {
            assert(whole.take(MERKLE_HEIGHT as int) =~= whole);
        }
        rows
    }
}

/// A count of nodes times a power of the arity that is a smaller power of the
/// arity is a multiple of the arity.
proof fn lemma_divides(count: int, small: int, rest: nat)
    requires
        count >= 0,
        small >= 1,
        count * small == arity_pow(rest + 1) * small,
    ensures
        (count / (MERKLE_ARITY as int)) * (MERKLE_ARITY * small) == count * small,
{
    let q = arity_pow(rest) as int;
    assert(arity_pow(rest + 1) == MERKLE_ARITY * q);
    assert(count == MERKLE_ARITY * q) by (nonlinear_arith)
        requires
            count * small == (MERKLE_ARITY * q) * small,
            small >= 1,
    ;
    assert(count / (MERKLE_ARITY as int) == q);
    assert(q * (MERKLE_ARITY * small) == (MERKLE_ARITY * q) * small) by (nonlinear_arith);
}

} // verus!
