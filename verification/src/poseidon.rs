//! The Poseidon permutation and the sponge that absorbs up to `MERKLE_ARITY`
//! leaves and squeezes one digest.

use vstd::prelude::*;
use crate::constants::{FULL_ROUNDS, MERKLE_ARITY, PARTIAL_ROUNDS, WIDTH};
use crate::error::Error;
use crate::scalar::{field_add, field_mul, field_order, le_value, Scalar};

verus! {

/// The values of a sequence of field elements.
pub open spec fn values(s: Seq<Scalar>) -> Seq<nat> {
    Seq::new(s.len(), |i: int| s[i]@)
}

/// The value of an optional field element.
pub open spec fn option_value(x: Option<Scalar>) -> Option<nat> {
    match x {
        Some(x) => Some(x@),
        None => None,
    }
}

/// The values of a sequence of optional field elements.
pub open spec fn option_values(s: Seq<Option<Scalar>>) -> Seq<Option<nat>> {
    Seq::new(s.len(), |i: int| option_value(s[i]))
}

/// The round constants and the mixing matrix, as numbers.
pub struct ParamsView {
    /// The round constants, one row of `WIDTH` per round.
    pub ark: Seq<nat>,
    /// The rows of the mixing matrix.
    pub mds: Seq<Seq<nat>>,
}

/// The S-box: the fifth power in the field.
pub open spec fn quintic(x: nat) -> nat {
    field_mul(field_mul(field_mul(x, x), field_mul(x, x)), x)
}

/// The S-box is the fifth power, reduced modulo the field order.
pub proof fn lemma_quintic_is_fifth_power(x: nat)
    ensures
        quintic(x) == (x * x * x * x * x) % field_order(),
{
    let l = field_order() as int;
    let v = x as int;
    let s = v * v;
    let q = s * s;
    vstd::arithmetic::div_mod::lemma_mul_mod_noop(s, s, l);
    vstd::arithmetic::div_mod::lemma_mul_mod_noop_left(q, v, l);
    assert(q * v == v * v * v * v * v) by (nonlinear_arith)
        requires
            q == s * s,
            s == v * v,
    ;
    assert(field_mul(x, x) == s % l);
    assert(field_mul(field_mul(x, x), field_mul(x, x)) == q % l);
    assert(quintic(x) == ((q % l) * v) % l);
}

/// Whether the S-box of a round covers the whole state.
pub open spec fn is_full_round(round: nat) -> bool {
    round < FULL_ROUNDS / 2 || round >= FULL_ROUNDS / 2 + PARTIAL_ROUNDS
}

/// The state after the round constants of a round were added.
pub open spec fn add_round_constants(ark: Seq<nat>, round: nat, state: Seq<nat>) -> Seq<nat> {
    Seq::new(WIDTH as nat, |i: int| field_add(state[i], ark[round * WIDTH + i]))
}

/// The state after the S-box layer of a round.
pub open spec fn sbox_layer(round: nat, state: Seq<nat>) -> Seq<nat> {
    Seq::new(
        WIDTH as nat,
        |i: int|
            if is_full_round(round) || i == 0 {
                quintic(state[i])
            } else {
                state[i]
            },
    )
}

/// The inner product of the first `n` entries of a matrix row and the state.
pub open spec fn dot(row: Seq<nat>, state: Seq<nat>, n: nat) -> nat
    decreases n,
{
    if n == 0 {
        0
    } else {
        field_add(dot(row, state, (n - 1) as nat), field_mul(row[n - 1], state[n - 1]))
    }
}

/// The product of the mixing matrix and the state.
pub open spec fn mix(mds: Seq<Seq<nat>>, state: Seq<nat>) -> Seq<nat> {
    Seq::new(WIDTH as nat, |i: int| dot(mds[i], state, WIDTH as nat))
}

/// One round: constants, S-box, mix.
pub open spec fn round_step(p: ParamsView, round: nat, state: Seq<nat>) -> Seq<nat> {
    mix(p.mds, sbox_layer(round, add_round_constants(p.ark, round, state)))
}

/// The state after the first `rounds` rounds.
pub open spec fn rounds_applied(p: ParamsView, state: Seq<nat>, rounds: nat) -> Seq<nat>
    decreases rounds,
{
    if rounds == 0 {
        state
    } else {
        round_step(p, (rounds - 1) as nat, rounds_applied(p, state, (rounds - 1) as nat))
    }
}

/// The Poseidon permutation: half the full rounds, the partial rounds, the
/// other half of the full rounds.
pub open spec fn permutation(p: ParamsView, state: Seq<nat>) -> Seq<nat> {
    rounds_applied(p, state, (FULL_ROUNDS + PARTIAL_ROUNDS) as nat)
}

/// The digest of a state: the first rate element after the permutation.
pub open spec fn digest(p: ParamsView, state: Seq<nat>) -> nat {
    permutation(p, state)[1]
}

/// The state that holds the given optional leaves at their positions, and zero
/// for the capacity element and for every absent leaf.
pub open spec fn absorbed(leaves: Seq<Option<nat>>) -> Seq<nat> {
    Seq::new(
        WIDTH as nat,
        |j: int|
            if 1 <= j && j - 1 < leaves.len() && leaves[j - 1] is Some {
                leaves[j - 1]->0
            } else {
                0
            },
    )
}

/// How many of the first `n` entries are present.
pub open spec fn count_present(leaves: Seq<Option<nat>>, n: nat) -> nat
    decreases n,
{
    if n == 0 {
        0
    } else {
        count_present(leaves, (n - 1) as nat) + if leaves[n - 1] is Some {
            1nat
        } else {
            0nat
        }
    }
}

/// No more entries are present than there are.
pub proof fn lemma_count_present_bound(leaves: Seq<Option<nat>>, n: nat)
    ensures
        count_present(leaves, n) <= n,
    decreases n,
{
    if n > 0 {
        lemma_count_present_bound(leaves, (n - 1) as nat);
    }
}

/// One more than the position of the last present entry among the first `n`.
pub open spec fn end_of_present(leaves: Seq<Option<nat>>, n: nat) -> nat
    decreases n,
{
    if n == 0 {
        0
    } else if leaves[n - 1] is Some {
        n
    } else {
        end_of_present(leaves, (n - 1) as nat)
    }
}

/// The number of leaf positions of a slice that a sponge can take.
pub open spec fn rate_prefix(len: nat) -> nat {
    if len < MERKLE_ARITY {
        len
    } else {
        MERKLE_ARITY as nat
    }
}

/// The round constants and the mixing matrix of the permutation.
#[derive(Debug, Clone)]
pub struct PoseidonParams {
    ark: Vec<Scalar>,
    mds: Vec<Vec<Scalar>>,
}

impl View for PoseidonParams {
    type V = ParamsView;

    closed spec fn view(&self) -> ParamsView {
        ParamsView {
            ark: values(self.ark@),
            mds: Seq::new(self.mds@.len(), |i: int| values(self.mds@[i]@)),
        }
    }
}

/// The 32 bytes of a blob that encode its `k`-th field element.
pub open spec fn chunk(blob: Seq<u8>, k: int) -> Seq<u8> {
    blob.subrange(32 * k, 32 * k + 32)
}

/// The field element that the `k`-th chunk of a blob stands for.
pub open spec fn chunk_value(blob: Seq<u8>, k: int) -> nat {
    le_value(chunk(blob, k)) % field_order()
}

fn read_chunk(blob: &[u8], k: usize) -> (r: Scalar)
    requires
        32 * k + 32 <= blob@.len(),
    ensures
        r@ == chunk_value(blob@, k as int),
{
    let mut bytes: [u8; 32] = [0u8; 32];
    let len: usize = blob.len();
    let mut i: usize = 0;
    while i < 32
        invariant
            i <= 32,
            len == blob@.len(),
            32 * k + 32 <= blob@.len(),
            forall|j: int| 0 <= j < i ==> bytes@[j] == blob@[32 * k + j],
        decreases 32 - i,
    {
        bytes[i] = blob[32 * k + i];
        i += 1;
    }
    proof {
        assert(bytes@ =~= chunk(blob@, k as int));
    }
    Scalar::from_bytes_mod_order(bytes)
}

fn read_constants(ark: &[u8]) -> (constants: Vec<Scalar>)
    ensures
        constants@.len() == ark@.len() / 32,
        forall|n: int| 0 <= n < constants@.len() ==> constants@[n]@ == chunk_value(ark@, n),
{
    let count: usize = ark.len() / 32;
    let mut constants: Vec<Scalar> = Vec::new();
    let mut k: usize = 0;
    while k < count
        invariant
            k <= count,
            count == ark@.len() / 32,
            constants@.len() == k,
            forall|n: int| 0 <= n < k ==> constants@[n]@ == chunk_value(ark@, n),
        decreases count - k,
    {
        constants.push(read_chunk(ark, k));
        k += 1;
    }
    constants
}

fn read_matrix(mds: &[u8]) -> (rows: Vec<Vec<Scalar>>)
    requires
        mds@.len() == 32 * WIDTH * WIDTH,
    ensures
        rows@.len() == WIDTH,
        forall|a: int| 0 <= a < WIDTH ==> (#[trigger] rows@[a])@.len() == WIDTH,
        forall|a: int, b: int|
            0 <= a < WIDTH && 0 <= b < WIDTH ==> rows@[a]@[b]@ == chunk_value(mds@, a * WIDTH + b),
{
    let mut rows: Vec<Vec<Scalar>> = Vec::new();
    let mut i: usize = 0;
    while i < WIDTH
        invariant
            i <= WIDTH,
            mds@.len() == 32 * WIDTH * WIDTH,
            rows@.len() == i,
            forall|a: int| 0 <= a < i ==> (#[trigger] rows@[a])@.len() == WIDTH,
            forall|a: int, b: int|
                0 <= a < i && 0 <= b < WIDTH ==> rows@[a]@[b]@ == chunk_value(mds@, a * WIDTH + b),
        decreases WIDTH - i,
    {
        let mut row: Vec<Scalar> = Vec::new();
        let mut j: usize = 0;
        while j < WIDTH
            invariant
                i < WIDTH,
                j <= WIDTH,
                mds@.len() == 32 * WIDTH * WIDTH,
                row@.len() == j,
                forall|b: int| 0 <= b < j ==> row@[b]@ == chunk_value(mds@, i * WIDTH + b),
            decreases WIDTH - j,
        {
            row.push(read_chunk(mds, i * WIDTH + j));
            j += 1;
        }
        rows.push(row);
        i += 1;
    }
    rows
}

impl PoseidonParams {
    /// The shape that the permutation needs: a row of round constants for each
    /// round, and a square mixing matrix.
    pub closed spec fn wf(&self) -> bool {
        &&& self.ark@.len() >= WIDTH * (FULL_ROUNDS + PARTIAL_ROUNDS)
        &&& self.mds@.len() == WIDTH
        &&& forall|i: int| 0 <= i < WIDTH ==> (#[trigger] self.mds@[i])@.len() == WIDTH
    }

    /// Loads the parameters from the two blobs: the round constants and the
    /// row-major mixing matrix, each element as 32 little-endian bytes.
    pub fn from_bytes(ark: &[u8], mds: &[u8]) -> (r: PoseidonParams)
        requires
            ark@.len() >= 32 * WIDTH * (FULL_ROUNDS + PARTIAL_ROUNDS),
            mds@.len() == 32 * WIDTH * WIDTH,
        ensures
            r.wf(),
            r@.ark.len() == ark@.len() / 32,
            forall|k: int| 0 <= k < r@.ark.len() ==> r@.ark[k] == chunk_value(ark@, k),
            forall|i: int, j: int|
                0 <= i < WIDTH && 0 <= j < WIDTH ==> r@.mds[i][j] == chunk_value(
                    mds@,
                    i * WIDTH + j,
                ),
    {
        let constants = read_constants(ark);
        let rows = read_matrix(mds);
        proof {
            assert(32 * WIDTH * (FULL_ROUNDS + PARTIAL_ROUNDS) == 32 * (WIDTH * (FULL_ROUNDS
                + PARTIAL_ROUNDS))) by (nonlinear_arith);
        }
        PoseidonParams { ark: constants, mds: rows }
    }

    /// Whether two blobs have the lengths of the round constants and of the
    /// mixing matrix.
    pub open spec fn blobs_fit(ark: Seq<u8>, mds: Seq<u8>) -> bool {
        ark.len() >= 32 * WIDTH * (FULL_ROUNDS + PARTIAL_ROUNDS) && mds.len() == 32 * WIDTH * WIDTH
    }

    /// Loads the parameters from the two blobs if these have the lengths that
    /// the permutation needs, and refuses them otherwise.
    pub fn load(ark: &[u8], mds: &[u8]) -> (r: Option<PoseidonParams>)
        ensures
            r is Some <==> PoseidonParams::blobs_fit(ark@, mds@),
            r is Some ==> r->0.wf() && r->0@.ark.len() == ark@.len() / 32 && (forall|k: int|
                0 <= k < r->0@.ark.len() ==> r->0@.ark[k] == chunk_value(ark@, k)) && (forall|
                i: int,
                j: int,
            |
                0 <= i < WIDTH && 0 <= j < WIDTH ==> r->0@.mds[i][j] == chunk_value(
                    mds@,
                    i * WIDTH + j,
                )),
    {
        if ark.len() < 32 * WIDTH * (FULL_ROUNDS + PARTIAL_ROUNDS) || mds.len() != 32 * WIDTH
            * WIDTH {
            return None;
        }
        Some(PoseidonParams::from_bytes(ark, mds))
    }

    /// The number of round constants that the parameters hold.
    pub fn ark_len(&self) -> (r: usize)
        ensures
            r == self@.ark.len(),
    {
        self.ark.len()
    }

    /// Builds the parameters from round constants and matrix rows.
    pub fn new(ark: Vec<Scalar>, mds: Vec<Vec<Scalar>>) -> (r: PoseidonParams)
        requires
            ark@.len() >= WIDTH * (FULL_ROUNDS + PARTIAL_ROUNDS),
            mds@.len() == WIDTH,
            forall|i: int| 0 <= i < WIDTH ==> (#[trigger] mds@[i])@.len() == WIDTH,
        ensures
            r.wf(),
            r@.ark == values(ark@),
            r@.mds == Seq::new(WIDTH as nat, |i: int| values(mds@[i]@)),
    {
        let r = PoseidonParams { ark, mds };
        proof {
            assert(r@.mds =~= Seq::new(WIDTH as nat, |i: int| values(mds@[i]@)));
        }
        r
    }

    fn add_constants(&self, round: usize, state: &[Scalar; WIDTH]) -> (out: [Scalar; WIDTH])
        requires
            self.wf(),
            round < FULL_ROUNDS + PARTIAL_ROUNDS,
        ensures
            values(out@) == add_round_constants(self@.ark, round as nat, values(state@)),
    {
        let mut out: [Scalar; WIDTH] = *state;
        let mut i: usize = 0;
        while i < WIDTH
            invariant
                i <= WIDTH,
                self.wf(),
                round < FULL_ROUNDS + PARTIAL_ROUNDS,
                forall|k: int|
                    0 <= k < i ==> out@[k]@ == field_add(state@[k]@, self.ark@[round * WIDTH + k]@),
            decreases WIDTH - i,
        {
            out[i] = state[i].add(&self.ark[round * WIDTH + i]);
            i += 1;
        }
        proof {
            assert(values(out@) =~= add_round_constants(
                self@.ark,
                round as nat,
                values(state@),
            ));
        }
        out
    }

    fn mix_state(&self, state: &[Scalar; WIDTH]) -> (out: [Scalar; WIDTH])
        requires
            self.wf(),
        ensures
            values(out@) == mix(self@.mds, values(state@)),
    {
        let mut out: [Scalar; WIDTH] = *state;
        let mut i: usize = 0;
        while i < WIDTH
            invariant
                i <= WIDTH,
                self.wf(),
                forall|k: int|
                    0 <= k < i ==> out@[k]@ == dot(self@.mds[k], values(state@), WIDTH as nat),
            decreases WIDTH - i,
        {
            let mut acc = Scalar::zero();
            let mut j: usize = 0;
            while j < WIDTH
                invariant
                    i < WIDTH,
                    j <= WIDTH,
                    self.wf(),
                    acc@ == dot(self@.mds[i as int], values(state@), j as nat),
                decreases WIDTH - j,
            {
                let term = self.mds[i][j].mul(&state[j]);
                acc = acc.add(&term);
                j += 1;
            }
            out[i] = acc;
            i += 1;
        }
        proof {
            assert(values(out@) =~= mix(self@.mds, values(state@)));
        }
        out
    }

    /// Runs the permutation on a state.
    pub fn permute(&self, state: &[Scalar; WIDTH]) -> (out: [Scalar; WIDTH])
        requires
            self.wf(),
        ensures
            values(out@) == permutation(self@, values(state@)),
    {
        let mut out: [Scalar; WIDTH] = *state;
        let mut round: usize = 0;
        proof {
            assert(values(out@) =~= values(state@));
        }
        while round < FULL_ROUNDS + PARTIAL_ROUNDS
            invariant
                round <= FULL_ROUNDS + PARTIAL_ROUNDS,
                self.wf(),
                values(out@) == rounds_applied(self@, values(state@), round as nat),
            decreases FULL_ROUNDS + PARTIAL_ROUNDS - round,
        {
            let added = self.add_constants(round, &out);
            let full = round < FULL_ROUNDS / 2 || round >= FULL_ROUNDS / 2 + PARTIAL_ROUNDS;
            let boxed = apply_sbox(full, &added);
            out = self.mix_state(&boxed);
            proof {
                assert(values(boxed@) =~= sbox_layer(round as nat, values(added@)));
            }
            round += 1;
        }
        out
    }
}

/// The fifth power of a field element.
fn quintic_of(x: &Scalar) -> (r: Scalar)
    ensures
        r@ == quintic(x@),
{
    let x2 = x.mul(x);
    let x4 = x2.mul(&x2);
    x4.mul(x)
}

fn apply_sbox(full: bool, state: &[Scalar; WIDTH]) -> (out: [Scalar; WIDTH])
    ensures
        forall|k: int|
            0 <= k < WIDTH ==> out@[k]@ == if full || k == 0 {
                quintic(state@[k]@)
            } else {
                state@[k]@
            },
{
    let mut out: [Scalar; WIDTH] = *state;
    let mut i: usize = 0;
    while i < WIDTH
        invariant
            i <= WIDTH,
            forall|k: int|
                0 <= k < i ==> out@[k]@ == if full || k == 0 {
                    quintic(state@[k]@)
                } else {
                    state@[k]@
                },
            forall|k: int| i <= k < WIDTH ==> out@[k] == state@[k],
        decreases WIDTH - i,
    {
        if full || i == 0 {
            out[i] = quintic_of(&state[i]);
        }
        i += 1;
    }
    out
}

/// The state of a sponge, as numbers.
pub struct PoseidonView {
    /// The `WIDTH` elements of the state; the first is the capacity element.
    pub state: Seq<nat>,
    /// The number of leaf positions that were taken.
    pub cursor: nat,
}

/// The state of a fresh sponge: all zero, nothing absorbed.
pub open spec fn fresh_sponge() -> PoseidonView {
    PoseidonView { state: Seq::new(WIDTH as nat, |i: int| 0nat), cursor: 0 }
}

/// A sponge that absorbs up to `MERKLE_ARITY` leaves and emits one digest.
#[derive(Clone, Copy, Debug)]
pub struct Poseidon {
    state: [Scalar; WIDTH],
    cursor: usize,
}

impl View for Poseidon {
    type V = PoseidonView;

    closed spec fn view(&self) -> PoseidonView {
        PoseidonView { state: values(self.state@), cursor: self.cursor as nat }
    }
}

impl Default for Poseidon {
    fn default() -> (r: Poseidon)
        ensures
            r@ == fresh_sponge(),
    {
        Poseidon::new()
    }
}

impl Poseidon {
    /// A fresh sponge: the state all zero, the cursor at the first leaf.
    pub fn new() -> (r: Poseidon)
        ensures
            r@ == fresh_sponge(),
    {
        let z = Scalar::zero();
        let r = Poseidon { state: [z, z, z, z, z], cursor: 0 };
        proof {
            assert(r@.state =~= fresh_sponge().state);
        }
        r
    }

    /// Puts the sponge back into the state of a fresh one.
    pub fn reset(&mut self)
        ensures
            final(self)@ == fresh_sponge(),
    {
        *self = Poseidon::new();
    }

    /// Absorbs a leaf at the cursor. A sponge that holds `MERKLE_ARITY` leaves
    /// is full and stays as it is.
    pub fn push(&mut self, leaf: Scalar) -> (r: Result<(), Error>)
        ensures
            old(self)@.cursor >= MERKLE_ARITY ==> r is Err && r->Err_0 is FullBuffer && final(self)@
                == old(self)@,
            old(self)@.cursor < MERKLE_ARITY ==> r is Ok && final(self)@ == (PoseidonView {
                state: old(self)@.state.update(old(self)@.cursor + 1int, leaf@),
                cursor: old(self)@.cursor + 1,
            }),
    {
        if self.cursor >= MERKLE_ARITY {
            return Err(Error::FullBuffer);
        }
        self.state[self.cursor + 1] = leaf;
        self.cursor = self.cursor + 1;
        proof {
            assert(self@.state =~= old(self)@.state.update(old(self)@.cursor + 1int, leaf@));
        }
        Ok(())
    }

    /// Writes a leaf at position `index`, whatever stood there, and moves the
    /// cursor behind it unless it is further on already.
    pub fn insert_unchecked(&mut self, index: usize, leaf: Scalar)
        requires
            index < MERKLE_ARITY,
        ensures
            final(self)@ == (PoseidonView {
                state: old(self)@.state.update(index + 1, leaf@),
                cursor: if old(self)@.cursor > index {
                    old(self)@.cursor
                } else {
                    (index + 1) as nat
                },
            }),
    {
        self.state[index + 1] = leaf;
        if self.cursor < index + 1 {
            self.cursor = index + 1;
        }
        proof {
            assert(self@.state =~= old(self)@.state.update(index + 1, leaf@));
        }
    }

    /// Resets the sponge and loads the present leaves of the slice, each at its
    /// own position; an absent leaf leaves zero there. A slice with more than
    /// `MERKLE_ARITY` present leaves is refused, and the sponge is left fresh.
    pub fn replace(&mut self, leaves: &[Option<Scalar>]) -> (r: Result<(), Error>)
        ensures
            count_present(option_values(leaves@), leaves@.len()) > MERKLE_ARITY ==> r is Err
                && r->Err_0 is FullBuffer && final(self)@ == fresh_sponge(),
            count_present(option_values(leaves@), leaves@.len()) <= MERKLE_ARITY ==> r is Ok
                && final(self)@ == (PoseidonView {
                state: absorbed(option_values(leaves@).take(rate_prefix(leaves@.len()) as int)),
                cursor: end_of_present(option_values(leaves@), rate_prefix(leaves@.len())),
            }),
    {
        let ghost view = option_values(leaves@);
        let mut present: usize = 0;
        let mut i: usize = 0;
        while i < leaves.len()
            invariant
                i <= leaves@.len(),
                view == option_values(leaves@),
                present == count_present(view, i as nat),
                present <= i,
            decreases leaves@.len() - i,
        {
            if leaves[i].is_some() {
                present += 1;
            }
            i += 1;
        }
        *self = Poseidon::new();
        if present > MERKLE_ARITY {
            return Err(Error::FullBuffer);
        }
        proof {
            assert forall|k: int| 0 <= k < WIDTH implies (#[trigger] self.state@[k])@ == 0 by {
                assert(self@.state[k] == 0);
            }
        }
        let limit: usize = if leaves.len() < MERKLE_ARITY {
            leaves.len()
        } else {
            MERKLE_ARITY
        };
        let mut j: usize = 0;
        while j < limit
            invariant
                j <= limit,
                limit == rate_prefix(leaves@.len()),
                limit <= leaves@.len(),
                view == option_values(leaves@),
                self.cursor == end_of_present(view, j as nat),
                self.state@[0]@ == 0,
                forall|k: int|
                    1 <= k <= j ==> (#[trigger] self.state@[k])@ == if view[k - 1] is Some {
                        view[k - 1]->0
                    } else {
                        0
                    },
                forall|k: int| j < k < WIDTH ==> (#[trigger] self.state@[k])@ == 0,
            decreases limit - j,
        {
            if let Some(leaf) = leaves[j] {
                self.state[j + 1] = leaf;
                self.cursor = j + 1;
            }
            j += 1;
        }
        proof {
            assert(self@.state =~= absorbed(view.take(limit as int)));
        }
        Ok(())
    }

    /// Resets the sponge and loads one row of children, each at its position.
    pub fn replace_row(&mut self, row: &[Option<Scalar>; MERKLE_ARITY])
        ensures
            final(self)@.state == absorbed(option_values(row@)),
            final(self)@.cursor == end_of_present(option_values(row@), MERKLE_ARITY as nat),
    {
        proof {
            lemma_count_present_bound(option_values(row@), MERKLE_ARITY as nat);
            assert(option_values(row@).take(MERKLE_ARITY as int) =~= option_values(row@));
        }
        let loaded = self.replace(row.as_slice());
        assert(loaded is Ok);
    }

    /// Runs the permutation on the state and returns the first rate element.
    /// The sponge keeps the permuted state.
    pub fn hash(&mut self, params: &PoseidonParams) -> (r: Scalar)
        requires
            params.wf(),
        ensures
            final(self)@.state == permutation(params@, old(self)@.state),
            final(self)@.cursor == old(self)@.cursor,
            r@ == digest(params@, old(self)@.state),
    {
        self.state = params.permute(&self.state);
        self.state[1]
    }
}

} // verus!
