//! The mixing matrix of the permutation: a Cauchy matrix, of which every
//! square submatrix is invertible.

use vstd::prelude::*;
use crate::scalar::{field_mul, field_order, Scalar};

verus! {

/// The denominator of the entry in row `i` and column `j` of the matrix of
/// size `t`: the sum of the `i`-th of the numbers `0, 1, ..` and the `j`-th of
/// the numbers `t, t + 1, ..`.
pub open spec fn cauchy_denominator(t: nat, i: nat, j: nat) -> nat {
    i + (j + t)
}

/// Whether the matrix is the Cauchy matrix of size `t`: square, with the
/// inverse of its denominator at each entry.
pub open spec fn is_cauchy(matrix: Seq<Vec<Scalar>>, t: nat) -> bool {
    &&& matrix.len() == t
    &&& forall|i: int| 0 <= i < t ==> (#[trigger] matrix[i])@.len() == t
    &&& forall|i: int, j: int|
        0 <= i < t && 0 <= j < t ==> (#[trigger] matrix[i]@[j])@ < field_order() && field_mul(
            matrix[i]@[j]@,
            cauchy_denominator(t, i as nat, j as nat),
        ) == 1
}

/// Generates the Cauchy matrix of size `t`.
pub fn generate(t: usize) -> (matrix: Vec<Vec<Scalar>>)
    requires
        2 * t <= usize::MAX,
    ensures
        is_cauchy(matrix@, t as nat),
{
    let mut xs: Vec<Scalar> = Vec::new();
    let mut ys: Vec<Scalar> = Vec::new();
    let mut k: usize = 0;
    while k < t
        invariant
            k <= t,
            2 * t <= usize::MAX,
            xs@.len() == k,
            ys@.len() == k,
            forall|n: int| 0 <= n < k ==> (#[trigger] xs@[n])@ == n,
            forall|n: int| 0 <= n < k ==> (#[trigger] ys@[n])@ == n + t,
        decreases t - k,
    {
        xs.push(Scalar::from_u64(k as u64));
        ys.push(Scalar::from_u64((k + t) as u64));
        k += 1;
    }
    let mut matrix: Vec<Vec<Scalar>> = Vec::new();
    let mut i: usize = 0;
    while i < t
        invariant
            i <= t,
            2 * t <= usize::MAX,
            xs@.len() == t,
            ys@.len() == t,
            forall|n: int| 0 <= n < t ==> (#[trigger] xs@[n])@ == n,
            forall|n: int| 0 <= n < t ==> (#[trigger] ys@[n])@ == n + t,
            is_cauchy_rows(matrix@, t as nat, i as nat),
        decreases t - i,
    {
        let mut row: Vec<Scalar> = Vec::new();
        let mut j: usize = 0;
        while j < t
            invariant
                i < t,
                j <= t,
                2 * t <= usize::MAX,
                xs@.len() == t,
                ys@.len() == t,
                forall|n: int| 0 <= n < t ==> (#[trigger] xs@[n])@ == n,
                forall|n: int| 0 <= n < t ==> (#[trigger] ys@[n])@ == n + t,
                row@.len() == j,
                forall|n: int|
                    0 <= n < j ==> (#[trigger] row@[n])@ < field_order() && field_mul(
                        row@[n]@,
                        cauchy_denominator(t as nat, i as nat, n as nat),
                    ) == 1,
            decreases t - j,
        {
            let sum = xs[i].add(&ys[j]);
            proof {
                vstd::arithmetic::div_mod::lemma_small_mod((i + (j + t)) as nat, field_order());
            }
            let entry = sum.invert();
            row.push(entry);
            j += 1;
        }
        matrix.push(row);
        i += 1;
    }
    matrix
}

/// Whether the first `rows` rows of a matrix are those of the Cauchy matrix of
/// size `t`.
pub open spec fn is_cauchy_rows(matrix: Seq<Vec<Scalar>>, t: nat, rows: nat) -> bool {
    &&& matrix.len() == rows
    &&& forall|i: int| 0 <= i < rows ==> (#[trigger] matrix[i])@.len() == t
    &&& forall|i: int, j: int|
        0 <= i < rows && 0 <= j < t ==> (#[trigger] matrix[i]@[j])@ < field_order() && field_mul(
            matrix[i]@[j]@,
            cauchy_denominator(t, i as nat, j as nat),
        ) == 1
}

} // verus!
