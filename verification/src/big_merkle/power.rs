//! Powers of the arity: the number of base leaves below a node.

use vstd::prelude::*;
use crate::constants::MERKLE_ARITY;

verus! {

/// `MERKLE_ARITY` to the power `e`.
pub open spec fn arity_pow(e: nat) -> nat
    decreases e,
{
    if e == 0 {
        1
    } else {
        MERKLE_ARITY as nat * arity_pow((e - 1) as nat)
    }
}

/// Powers of the arity are positive and grow with the exponent.
pub proof fn lemma_arity_pow_monotone(a: nat, b: nat)
    requires
        a <= b,
    ensures
        1 <= arity_pow(a) <= arity_pow(b),
    decreases b,
{
    if b == 0 {
    } else if a == b {
        lemma_arity_pow_monotone(0, (b - 1) as nat);
    } else {
        lemma_arity_pow_monotone(a, (b - 1) as nat);
    }
}

/// Two exponents with one power of the arity are equal.
pub proof fn lemma_arity_pow_injective(a: nat, b: nat)
    requires
        arity_pow(a) == arity_pow(b),
    ensures
        a == b,
{
    if a < b {
        lemma_arity_pow_monotone(a + 1, b);
        lemma_arity_pow_monotone(0, a);
    } else if b < a {
        lemma_arity_pow_monotone(b + 1, a);
        lemma_arity_pow_monotone(0, b);
    }
}

/// A power of the arity splits into the powers of two exponents.
pub proof fn lemma_arity_pow_sum(a: nat, b: nat)
    ensures
        arity_pow(a + b) == arity_pow(a) * arity_pow(b),
    decreases a,
{
    if a == 0 {
        assert(arity_pow(0) * arity_pow(b) == arity_pow(b)) by (nonlinear_arith)
            requires
                arity_pow(0) == 1,
        ;
    } else {
        lemma_arity_pow_sum((a - 1) as nat, b);
        let x = arity_pow((a - 1) as nat);
        let y = arity_pow(b);
        assert(arity_pow(a + b) == MERKLE_ARITY as nat * arity_pow((a - 1 + b) as nat));
        assert((MERKLE_ARITY as nat * x) * y == MERKLE_ARITY as nat * (x * y))
            by (nonlinear_arith);
    }
}

/// Computes a power of the arity that fits the machine word.
pub fn arity_power(e: usize) -> (r: usize)
    requires
        arity_pow(e as nat) <= usize::MAX,
    ensures
        r == arity_pow(e as nat),
{
    let mut r: usize = 1;
    let mut k: usize = 0;
    while k < e
        invariant
            k <= e,
            r == arity_pow(k as nat),
            arity_pow(e as nat) <= usize::MAX,
        decreases e - k,
    {
        proof {
            lemma_arity_pow_monotone((k + 1) as nat, e as nat);
        }
        r = r * MERKLE_ARITY;
        k += 1;
    }
    r
}

/// The exponent of a width that is a power of the arity, if it is one.
pub fn height_of_width(width: usize) -> (r: Option<usize>)
    ensures
        match r {
            Some(h) => arity_pow(h as nat) == width,
            None => forall|h: nat| arity_pow(h) != width,
        },
{
    let mut rest: usize = width;
    let mut h: usize = 0;
    if width == 0 {
        proof {
            assert forall|e: nat| arity_pow(e) != width by {
                lemma_arity_pow_monotone(0, e);
            }
        }
        return None;
    }
    proof {
        assert(rest * arity_pow(0) == width) by (nonlinear_arith)
            requires
                arity_pow(0) == 1,
                rest == width,
        ;
    }
    while rest % MERKLE_ARITY == 0
        invariant
            rest >= 1,
            h <= width,
            rest * arity_pow(h as nat) == width,
        decreases rest,
    {
        proof {
            let q = (rest / MERKLE_ARITY) as nat;
            let p = arity_pow(h as nat);
            lemma_arity_pow_monotone(0, h as nat);
            assert(rest == MERKLE_ARITY * q);
            assert((MERKLE_ARITY * q) * p == q * (MERKLE_ARITY as nat * p)) by (nonlinear_arith);
            lemma_pow_exceeds((h + 1) as nat);
            assert(q * arity_pow((h + 1) as nat) >= arity_pow((h + 1) as nat)) by (nonlinear_arith)
                requires
                    q >= 1,
            ;
        }
        rest = rest / MERKLE_ARITY;
        h += 1;
    }
    if rest == 1 {
        proof {
            assert(1 * arity_pow(h as nat) == arity_pow(h as nat));
        }
        Some(h)
    } else {
        proof {
            assert forall|e: nat| arity_pow(e) != width by {
                if arity_pow(e) == width {
                    lemma_not_a_power(rest as nat, h as nat, e);
                }
            }
        }
        None
    }
}

/// A power of the arity exceeds its exponent.
pub proof fn lemma_pow_exceeds(e: nat)
    ensures
        arity_pow(e) > e,
    decreases e,
{
    if e > 0 {
        lemma_pow_exceeds((e - 1) as nat);
    }
}

/// A multiple of a power by a factor that the arity does not divide is a
/// power only if the factor is one.
proof fn lemma_not_a_power(rest: nat, h: nat, e: nat)
    requires
        rest >= 1,
        rest % (MERKLE_ARITY as nat) != 0,
        rest * arity_pow(h) == arity_pow(e),
    ensures
        rest == 1,
    decreases h,
{
    if h == 0 {
        assert(rest * 1 == rest);
        if e > 0 {
            let x = arity_pow((e - 1) as nat);
            assert((MERKLE_ARITY as nat * x) % (MERKLE_ARITY as nat) == 0) by (nonlinear_arith);
        }
    } else {
        let p = arity_pow((h - 1) as nat);
        lemma_arity_pow_monotone(0, (h - 1) as nat);
        if e == 0 {
            assert(rest * (MERKLE_ARITY as nat * p) >= 4) by (nonlinear_arith)
                requires
                    rest >= 1,
                    p >= 1,
                    MERKLE_ARITY == 4,
            ;
        } else {
            let x = arity_pow((e - 1) as nat);
            assert(rest * p == x) by (nonlinear_arith)
                requires
                    rest * (MERKLE_ARITY as nat * p) == MERKLE_ARITY as nat * x,
                    MERKLE_ARITY == 4,
            ;
            lemma_not_a_power(rest, (h - 1) as nat, (e - 1) as nat);
        }
    }
}

} // verus!
