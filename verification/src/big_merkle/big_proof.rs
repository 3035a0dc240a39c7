//! Membership proofs: for each row of the tree the children of one node and
//! the position among them of the child that the path goes through.

use vstd::prelude::*;
use vstd::bytes::{spec_u64_to_le_bytes, u64_to_le_bytes};
use vstd::std_specs::cmp::PartialEqSpecImpl;
use crate::constants::MERKLE_ARITY;
use crate::poseidon::{
    absorbed, digest, option_value, option_values, ParamsView, Poseidon, PoseidonParams,
};
use crate::scalar::Scalar;

verus! {

/// One row of a proof, as numbers.
pub struct ItemView {
    /// The position of the child on the path.
    pub idx: nat,
    /// The children of the node, where they are present.
    pub leaves: Seq<Option<nat>>,
}

/// The digest of one row, with the child on the path put at its position.
pub open spec fn level_digest(p: ParamsView, item: ItemView, leaf: nat) -> nat {
    digest(p, absorbed(item.leaves).update(item.idx + 1int, leaf))
}

/// The node that the path reaches from `leaf` through the first `n` rows.
pub open spec fn climb(p: ParamsView, items: Seq<ItemView>, leaf: nat, n: nat) -> nat
    decreases n,
{
    if n == 0 {
        leaf
    } else {
        level_digest(p, items[n - 1], climb(p, items, leaf, (n - 1) as nat))
    }
}

/// The leaf that the first row of a proof holds on the path, zero if it is
/// absent.
pub open spec fn claimed_leaf(items: Seq<ItemView>) -> nat {
    match items[0].leaves[items[0].idx as int] {
        Some(x) => x,
        None => 0,
    }
}

/// The bytes of an optional leaf: a zero byte for an absent one, a one byte
/// and the 32 bytes of the element for a present one.
pub open spec fn leaf_bytes(leaf: Option<Scalar>) -> Seq<u8> {
    match leaf {
        Some(x) => seq![1u8] + x.encoding(),
        None => seq![0u8],
    }
}

/// The bytes of the first `n` leaves of a row, one behind the other.
pub open spec fn leaves_bytes(leaves: Seq<Option<Scalar>>, n: nat) -> Seq<u8>
    decreases n,
{
    if n == 0 {
        Seq::empty()
    } else {
        leaves_bytes(leaves, (n - 1) as nat) + leaf_bytes(leaves[n - 1])
    }
}

/// The bytes of the first `n` rows of a proof, one behind the other.
pub open spec fn rows_bytes(rows: Seq<BigProofItem>, n: nat) -> Seq<u8>
    decreases n,
{
    if n == 0 {
        Seq::empty()
    } else {
        rows_bytes(rows, (n - 1) as nat) + rows[n - 1].encoding()
    }
}

/// One row of a proof.
#[derive(Debug, Clone, Copy)]
pub struct BigProofItem {
    idx: usize,
    leaves: [Option<Scalar>; MERKLE_ARITY],
}

impl View for BigProofItem {
    type V = ItemView;

    closed spec fn view(&self) -> ItemView {
        ItemView { idx: self.idx as nat, leaves: option_values(self.leaves@) }
    }
}

impl BigProofItem {
    #[verifier::type_invariant]
    spec fn in_row(self) -> bool {
        self.idx < MERKLE_ARITY
    }

    /// A row with the path at position `idx` among `leaves`.
    pub fn new(idx: usize, leaves: [Option<Scalar>; MERKLE_ARITY]) -> (r: BigProofItem)
        requires
            idx < MERKLE_ARITY,
        ensures
            r@ == (ItemView { idx: idx as nat, leaves: option_values(leaves@) }),
    {
        BigProofItem { idx, leaves }
    }

    /// The position of the path in the row.
    pub fn idx(&self) -> (r: &usize)
        ensures
            *r == self@.idx,
            *r < MERKLE_ARITY,
    {
        proof {
            use_type_invariant(self);
        }
        &self.idx
    }

    /// The children of the row.
    pub fn leaves(&self) -> (r: &[Option<Scalar>; MERKLE_ARITY])
        ensures
            option_values(r@) == self@.leaves,
    {
        &self.leaves
    }

    /// The bytes of the row: the position as eight little-endian bytes, then
    /// the leaves.
    pub closed spec fn encoding(&self) -> Seq<u8> {
        spec_u64_to_le_bytes(self.idx as u64) + leaves_bytes(self.leaves@, MERKLE_ARITY as nat)
    }

    /// Appends the bytes of the row to a buffer.
    pub fn write_to(&self, out: &mut Vec<u8>)
        ensures
            final(out)@ == old(out)@ + self.encoding(),
    {
        let ghost start = out@;
        let mut head = u64_to_le_bytes(self.idx as u64);
        out.append(&mut head);
        let mut c: usize = 0;
        proof {
            assert(out@ =~= start + (spec_u64_to_le_bytes(self.idx as u64) + leaves_bytes(
                self.leaves@,
                0,
            )));
        }
        while c < MERKLE_ARITY
            invariant
                c <= MERKLE_ARITY,
                out@ == start + (spec_u64_to_le_bytes(self.idx as u64) + leaves_bytes(
                    self.leaves@,
                    c as nat,
                )),
            decreases MERKLE_ARITY - c,
        {
            let ghost before = out@;
            match self.leaves[c] {
                Some(leaf) => {
                    out.push(1u8);
                    let bytes = leaf.to_bytes();
                    let mut k: usize = 0;
                    while k < 32
                        invariant
                            k <= 32,
                            bytes@ == leaf.encoding(),
                            bytes@.len() == 32,
                            out@ == before + seq![1u8] + bytes@.take(k as int),
                        decreases 32 - k,
                    {
                        out.push(bytes[k]);
                        proof {
                            assert(bytes@.take(k + 1) =~= bytes@.take(k as int).push(
                                bytes@[k as int],
                            ));
                        }
                        k += 1;
                    }
                    proof {
                        assert(bytes@.take(32) =~= bytes@);
                    }
                },
                None => {
                    out.push(0u8);
                },
            }
            proof {
                assert(out@ =~= before + leaf_bytes(self.leaves@[c as int]));
                assert(out@ =~= start + (spec_u64_to_le_bytes(self.idx as u64) + leaves_bytes(
                    self.leaves@,
                    (c + 1) as nat,
                )));
            }
            c += 1;
        }
    }

    /// Whether two rows hold the same position and the same children.
    pub fn same_as(&self, other: &BigProofItem) -> (r: bool)
        ensures
            r == (self@ == other@),
    {
        if self.idx != other.idx {
            return false;
        }
        let mut c: usize = 0;
        while c < MERKLE_ARITY
            invariant
                c <= MERKLE_ARITY,
                self.idx == other.idx,
                forall|k: int|
                    0 <= k < c ==> option_value(self.leaves@[k]) == option_value(other.leaves@[k]),
            decreases MERKLE_ARITY - c,
        {
            let same = match (self.leaves[c], other.leaves[c]) {
                (Some(a), Some(b)) => a.equals(&b),
                (None, None) => true,
                _ => false,
            };
            if !same {
                proof {
                    assert(self@.leaves[c as int] == option_value(self.leaves@[c as int]));
                    assert(other@.leaves[c as int] == option_value(other.leaves@[c as int]));
                }
                return false;
            }
            c += 1;
        }
        proof {
            assert(self@.leaves =~= other@.leaves);
        }
        true
    }

    /// The digest of the row with `leaf` at the position of the path.
    pub fn digest_with(&self, params: &PoseidonParams, leaf: Scalar) -> (r: Scalar)
        requires
            params.wf(),
        ensures
            r@ == level_digest(params@, self@, leaf@),
    {
        proof {
            use_type_invariant(self);
        }
        let mut h = Poseidon::new();
        h.replace_row(&self.leaves);
        h.insert_unchecked(self.idx, leaf);
        h.hash(params)
    }
}

/// The views of the rows of a proof.
pub open spec fn item_views(items: Seq<BigProofItem>) -> Seq<ItemView> {
    Seq::new(items.len(), |i: int| items[i]@)
}

/// Set of pairs (idx, leaves) to reconstruct the merkle root.
///
/// For every level of the tree, there is an index, and a row of leaves. The
/// index is the position in which the previously calculated digest is
/// inserted; the leaves are the other elements hashed on that level.
#[derive(Debug, Clone)]
pub struct BigProof {
    data: Vec<BigProofItem>,
}

impl View for BigProof {
    type V = Seq<ItemView>;

    closed spec fn view(&self) -> Seq<ItemView> {
        item_views(self.data@)
    }
}

impl PartialEq for BigProof {
    /// Two proofs are equal if their rows are.
    fn eq(&self, rhs: &BigProof) -> (r: bool) {
        if self.data.len() != rhs.data.len() {
            proof {
                assert(self@.len() != rhs@.len());
            }
            return false;
        }
        let mut i: usize = 0;
        while i < self.data.len()
            invariant
                i <= self.data@.len(),
                self.data@.len() == rhs.data@.len(),
                forall|k: int| 0 <= k < i ==> self.data@[k]@ == rhs.data@[k]@,
            decreases self.data@.len() - i,
        {
            if !self.data[i].same_as(&rhs.data[i]) {
                proof {
                    assert(self@[i as int] == self.data@[i as int]@);
                    assert(rhs@[i as int] == rhs.data@[i as int]@);
                }
                return false;
            }
            i += 1;
        }
        proof {
            assert(self@ =~= rhs@);
        }
        true
    }
}

impl PartialEqSpecImpl for BigProof {
    open spec fn obeys_eq_spec() -> bool {
        true
    }

    open spec fn eq_spec(&self, rhs: &BigProof) -> bool {
        self@ == rhs@
    }
}

impl Default for BigProof {
    fn default() -> (r: BigProof)
        ensures
            r@ == Seq::<ItemView>::empty(),
    {
        BigProof::new(Vec::new())
    }
}

impl BigProof {
    /// BigProof constructor
    pub fn new(data: Vec<BigProofItem>) -> (r: BigProof)
        ensures
            r@ == item_views(data@),
    {
        BigProof { data }
    }

    /// Appends a row.
    pub fn push(&mut self, idx: usize, leaves: [Option<Scalar>; MERKLE_ARITY])
        requires
            idx < MERKLE_ARITY,
        ensures
            final(self)@ == old(self)@.push(
                ItemView { idx: idx as nat, leaves: option_values(leaves@) },
            ),
    {
        self.data.push(BigProofItem::new(idx, leaves));
        proof {
            assert(self@ =~= old(self)@.push(
                ItemView { idx: idx as nat, leaves: option_values(leaves@) },
            ));
        }
    }

    /// The bytes of the proof: the number of rows as eight little-endian
    /// bytes, then the rows.
    pub closed spec fn encoding(&self) -> Seq<u8> {
        spec_u64_to_le_bytes(self.data@.len() as u64) + rows_bytes(self.data@, self.data@.len())
    }

    /// The bytes of the proof, for transport.
    pub fn to_bytes(&self) -> (out: Vec<u8>)
        ensures
            out@ == self.encoding(),
    {
        let mut out = u64_to_le_bytes(self.data.len() as u64);
        let ghost head = out@;
        let mut i: usize = 0;
        proof {
            assert(out@ =~= head + rows_bytes(self.data@, 0));
        }
        while i < self.data.len()
            invariant
                i <= self.data@.len(),
                head == spec_u64_to_le_bytes(self.data@.len() as u64),
                out@ == head + rows_bytes(self.data@, i as nat),
            decreases self.data@.len() - i,
        {
            self.data[i].write_to(&mut out);
            proof {
                assert(out@ =~= head + rows_bytes(self.data@, (i + 1) as nat));
            }
            i += 1;
        }
        out
    }

    /// Return the raw proof data
    pub fn data(&self) -> (r: &Vec<BigProofItem>)
        ensures
            item_views(r@) == self@,
    {
        &self.data
    }

    /// The node that the path reaches from `leaf` through all the rows.
    pub fn climb_from(&self, params: &PoseidonParams, leaf: Scalar) -> (r: Scalar)
        requires
            params.wf(),
        ensures
            r@ == climb(params@, self@, leaf@, self@.len()),
    {
        let mut node = leaf;
        let mut i: usize = 0;
        while i < self.data.len()
            invariant
                i <= self.data@.len(),
                params.wf(),
                node@ == climb(params@, self@, leaf@, i as nat),
            decreases self.data@.len() - i,
        {
            node = self.data[i].digest_with(params, node);
            i += 1;
        }
        node
    }

    /// Recreate the root based on the proof
    pub fn root(&self, params: &PoseidonParams) -> (r: Scalar)
        requires
            params.wf(),
            self@.len() > 0,
        ensures
            r@ == climb(params@, self@, claimed_leaf(self@), self@.len()),
    {
        let first = &self.data[0];
        proof {
            use_type_invariant(first);
        }
        let leaf = match first.leaves[first.idx] {
            Some(x) => x,
            None => Scalar::zero(),
        };
        self.climb_from(params, leaf)
    }

    /// Verify if the provided leaf corresponds to the proof in the merkle construction
    pub fn verify(&self, params: &PoseidonParams, leaf: &Scalar, root: &Scalar) -> (r: bool)
        requires
            params.wf(),
        ensures
            r == (climb(params@, self@, leaf@, self@.len()) == root@),
    {
        let top = self.climb_from(params, *leaf);
        top.equals(root)
    }
}

} // verus!
