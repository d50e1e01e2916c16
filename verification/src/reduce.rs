//! Remainders by a short chain of conditional subtractions of multiples of
//! the modulus, and the ranges on which a chain gives the true remainder.
use vstd::prelude::*;
use vstd::arithmetic::div_mod::{lemma_mod_multiples_vanish, lemma_small_mod};

verus! {

/// One conditional subtraction: `v - d` when `v >= d`, else `v` unchanged.
pub open spec fn sub_if_ge(v: int, d: int) -> int {
    if v >= d {
        v - d
    } else {
        v
    }
}

/// Conditional subtractions of `8m`, `4m`, `2m` and `m`, in that order.
pub open spec fn reduce_8421(v: int, m: int) -> int {
    sub_if_ge(sub_if_ge(sub_if_ge(sub_if_ge(v, 8 * m), 4 * m), 2 * m), m)
}

/// Conditional subtractions of `4m`, `4m`, `2m` and `m`, in that order.
pub open spec fn reduce_4421(v: int, m: int) -> int {
    sub_if_ge(sub_if_ge(sub_if_ge(sub_if_ge(v, 4 * m), 4 * m), 2 * m), m)
}

/// Subtracting a multiple of `m` keeps the residue modulo `m`.
pub proof fn lemma_sub_if_ge_mod(v: int, c: int, m: int)
    requires
        m > 0,
        c >= 0,
    ensures
        sub_if_ge(v, c * m) % m == v % m,
{
    if v >= c * m {
        lemma_mod_multiples_vanish(c, v - c * m, m);
        assert(m * c == c * m) by (nonlinear_arith);
    }
}

/// Below `16m`, the 8-4-2-1 chain computes the remainder modulo `m`.
pub proof fn lemma_reduce_8421(v: int, m: int)
    requires
        m > 0,
        0 <= v < 16 * m,
    ensures
        reduce_8421(v, m) == v % m,
{
    let a = sub_if_ge(v, 8 * m);
    let b = sub_if_ge(a, 4 * m);
    let c = sub_if_ge(b, 2 * m);
    let d = sub_if_ge(c, m);
    lemma_sub_if_ge_mod(v, 8, m);
    lemma_sub_if_ge_mod(a, 4, m);
    lemma_sub_if_ge_mod(b, 2, m);
    lemma_sub_if_ge_mod(c, 1, m);
    assert(0 <= d < m);
    lemma_small_mod(d as nat, m as nat);
}

/// Below `12m`, the 4-4-2-1 chain computes the remainder modulo `m`.
pub proof fn lemma_reduce_4421(v: int, m: int)
    requires
        m > 0,
        0 <= v < 12 * m,
    ensures
        reduce_4421(v, m) == v % m,
{
    let a = sub_if_ge(v, 4 * m);
    let b = sub_if_ge(a, 4 * m);
    let c = sub_if_ge(b, 2 * m);
    let d = sub_if_ge(c, m);
    lemma_sub_if_ge_mod(v, 4, m);
    lemma_sub_if_ge_mod(a, 4, m);
    lemma_sub_if_ge_mod(b, 2, m);
    lemma_sub_if_ge_mod(c, 1, m);
    assert(0 <= d < m);
    lemma_small_mod(d as nat, m as nat);
}

/// Below `12m` the two chains agree: either build reduces a lane the same way.
pub proof fn lemma_chains_agree(v: int, m: int)
    requires
        m > 0,
        0 <= v < 12 * m,
    ensures
        reduce_4421(v, m) == reduce_8421(v, m),
{
    lemma_reduce_4421(v, m);
    lemma_reduce_8421(v, m);
}

/// With `m == 0` every step of either chain subtracts nothing.
pub proof fn lemma_reduce_zero_modulus(v: int)
    requires
        v >= 0,
    ensures
        reduce_8421(v, 0) == v,
        reduce_4421(v, 0) == v,
{
}

} // verus!
