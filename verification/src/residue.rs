//! The arithmetic behind finding a multiple of `m` among the suffixes of a
//! digit stream: weighted prefix sums with the inverse of ten.
use vstd::prelude::*;
use vstd::arithmetic::div_mod::{
    lemma_fundamental_div_mod,
    lemma_mod_multiples_basic,
    lemma_mul_mod_noop_left,
    lemma_mul_mod_noop_right,
    lemma_small_mod,
};

verus! {

/// `b` to the power `e`.
pub open spec fn power(b: nat, e: nat) -> nat
    decreases e,
{
    if e == 0 {
        1
    } else {
        b * power(b, (e - 1) as nat)
    }
}

/// The number written by a sequence of decimal digits, most significant first.
pub open spec fn digits_value(s: Seq<u8>) -> nat
    decreases s.len(),
{
    if s.len() == 0 {
        0
    } else {
        digits_value(s.drop_last()) * 10 + s.last() as nat
    }
}

/// The prefix residue of a digit sequence: the sum over positions `j = 1..=len`
/// of `s[j-1] * r^j`, modulo `m`.
///
/// With `r` the inverse of ten modulo `m`, two prefixes have equal residues
/// exactly when the digits between them form a multiple of `m`.
pub open spec fn residue(s: Seq<u8>, r: nat, m: nat) -> nat
    decreases s.len(),
{
    if s.len() == 0 {
        0
    } else {
        (residue(s.drop_last(), r, m) + s.last() as nat * power(r, s.len())) % m
    }
}

/// `r` is the inverse of ten modulo `m`.
pub open spec fn inverse_of_ten(r: nat, m: nat) -> bool {
    m > 1 && (10 * r) % m == 1
}

proof fn lemma_multiple_mod(x: int, k: int, m: int)
    requires
        m > 0,
        x == k * m,
    ensures
        x % m == 0,
{
    lemma_mod_multiples_basic(k, m);
}

proof fn lemma_mod_zero_multiple(x: int, m: int)
    requires
        m > 0,
        x % m == 0,
    ensures
        x == (x / m) * m,
{
    lemma_fundamental_div_mod(x, m);
    assert(m * (x / m) == (x / m) * m) by (nonlinear_arith);
}

/// Residues stay below the modulus.
pub proof fn lemma_residue_bound(s: Seq<u8>, r: nat, m: nat)
    requires
        m > 0,
    ensures
        residue(s, r, m) < m,
{
    if s.len() > 0 {
        let x = residue(s.drop_last(), r, m) + s.last() as nat * power(r, s.len());
        assert(x % m < m) by {
            vstd::arithmetic::div_mod::lemma_mod_bound(x as int, m as int);
        }
    }
}

proof fn lemma_power_mul(a: nat, b: nat, n: nat)
    ensures
        power(a, n) * power(b, n) == power(a * b, n),
    decreases n,
{
    if n > 0 {
        lemma_power_mul(a, b, (n - 1) as nat);
        let pa = power(a, (n - 1) as nat);
        let pb = power(b, (n - 1) as nat);
        assert(power(a, n) == a * pa);
        assert(power(b, n) == b * pb);
        assert(power(a * b, n) == (a * b) * power(a * b, (n - 1) as nat));
        let pab = power(a * b, (n - 1) as nat);
        assert((a * pa) * (b * pb) == (a * b) * pab) by (nonlinear_arith)
            requires
                pa * pb == pab,
        ;
        assert(power(a, n) * power(b, n) == (a * pa) * (b * pb));
        assert(power(a, n) * power(b, n) == power(a * b, n));
    } else {
        assert(power(a, n) == 1);
        assert(power(b, n) == 1);
        assert(power(a * b, n) == 1);
    }
}

proof fn lemma_power_one_mod(c: nat, m: nat, n: nat)
    requires
        m > 1,
        c % m == 1,
    ensures
        power(c, n) % m == 1,
    decreases n,
{
    if n == 0 {
        lemma_small_mod(1, m);
    } else {
        lemma_power_one_mod(c, m, (n - 1) as nat);
        let p = power(c, (n - 1) as nat);
        lemma_mul_mod_noop_left(c as int, p as int, m as int);
        lemma_mul_mod_noop_right(1, p as int, m as int);
        lemma_small_mod(1, m);
    }
}

/// The difference of two prefix residues is `r^n` times the number written
/// between them, modulo `m`.
pub proof fn lemma_residue_difference(s: Seq<u8>, a: nat, r: nat, m: nat)
    requires
        inverse_of_ten(r, m),
        a <= s.len(),
    ensures
        (residue(s, r, m) - residue(s.take(a as int), r, m) - power(r, s.len()) * digits_value(
            s.skip(a as int),
        )) % (m as int) == 0,
    decreases s.len(),
{
    let wa = residue(s.take(a as int), r, m) as int;
    if s.len() == a {
        assert(s.take(a as int) =~= s);
        assert(s.skip(a as int) =~= Seq::<u8>::empty());
        assert(digits_value(s.skip(a as int)) == 0);
        assert(power(r, s.len()) * 0 == 0);
        assert(0int % (m as int) == 0);
    } else {
        let t = s.drop_last();
        let n = s.len();
        assert(t.take(a as int) =~= s.take(a as int));
        assert(s.skip(a as int).drop_last() =~= t.skip(a as int));
        assert(s.skip(a as int).last() == s.last());
        lemma_residue_difference(t, a, r, m);
        let d = s.last() as int;
        let p1 = power(r, (n - 1) as nat) as int;
        let pn = power(r, n) as int;
        let d1 = digits_value(t.skip(a as int)) as int;
        let dn = digits_value(s.skip(a as int)) as int;
        let w1 = residue(t, r, m) as int;
        let wn = residue(s, r, m) as int;
        let mi = m as int;
        assert(pn == r * p1);
        assert(dn == d1 * 10 + d);
        let a_term = w1 - wa - p1 * d1;
        lemma_mod_zero_multiple(a_term, mi);
        let ka = a_term / mi;
        let c = 10 * r as int - 1;
        lemma_fundamental_div_mod(10 * r as int, mi);
        let kc = (10 * r as int) / mi;
        assert(c == kc * mi) by (nonlinear_arith)
            requires
                10 * r as int == mi * kc + 1,
                c == 10 * r as int - 1,
        ;
        let x = w1 + d * pn;
        lemma_fundamental_div_mod(x, mi);
        let q = x / mi;
        assert(wn == x % mi);
        let target = wn - wa - pn * dn;
        assert(target == (ka - kc * p1 * d1 - q) * mi) by (nonlinear_arith)
            requires
                target == wn - wa - pn * dn,
                wn == x - mi * q,
                x == w1 + d * pn,
                pn == r * p1,
                dn == d1 * 10 + d,
                a_term == w1 - wa - p1 * d1,
                a_term == ka * mi,
                c == 10 * r - 1,
                c == kc * mi,
        ;
        lemma_multiple_mod(target, ka - kc * p1 * d1 - q, mi);
    }
}

/// Equal prefix residues mean the digits between the prefixes form a multiple of `m`.
pub proof fn lemma_equal_residues_divisible(s: Seq<u8>, a: nat, r: nat, m: nat)
    requires
        inverse_of_ten(r, m),
        a <= s.len(),
        residue(s, r, m) == residue(s.take(a as int), r, m),
    ensures
        digits_value(s.skip(a as int)) % m == 0,
{
    let n = s.len();
    let mi = m as int;
    let pn = power(r, n) as int;
    let dv = digits_value(s.skip(a as int)) as int;
    lemma_residue_difference(s, a, r, m);
    assert((-(pn * dv)) % mi == 0);
    lemma_mod_zero_multiple(-(pn * dv), mi);
    let k = (-(pn * dv)) / mi;
    assert(pn * dv == (-k) * mi) by (nonlinear_arith)
        requires
            -(pn * dv) == k * mi,
    ;
    let tn = power(10, n) as int;
    lemma_power_mul(10, r, n);
    lemma_power_one_mod(10 * r, m, n);
    let c = power(10 * r, n) as int;
    assert(c * dv == (tn * (-k)) * mi) by (nonlinear_arith)
        requires
            c == tn * pn,
            pn * dv == (-k) * mi,
    ;
    lemma_multiple_mod(c * dv, tn * (-k), mi);
    lemma_mul_mod_noop_left(c, dv, mi);
    assert(1 * dv == dv);
}

/// Conversely, a multiple of `m` between two prefixes gives them equal residues.
pub proof fn lemma_divisible_equal_residues(s: Seq<u8>, a: nat, r: nat, m: nat)
    requires
        inverse_of_ten(r, m),
        a <= s.len(),
        digits_value(s.skip(a as int)) % m == 0,
    ensures
        residue(s, r, m) == residue(s.take(a as int), r, m),
{
    let mi = m as int;
    let pn = power(r, s.len()) as int;
    let dv = digits_value(s.skip(a as int)) as int;
    let wn = residue(s, r, m) as int;
    let wa = residue(s.take(a as int), r, m) as int;
    lemma_residue_difference(s, a, r, m);
    lemma_mod_zero_multiple(wn - wa - pn * dv, mi);
    lemma_mod_zero_multiple(dv, mi);
    let k1 = (wn - wa - pn * dv) / mi;
    let k2 = dv / mi;
    assert(wn - wa == (k1 + pn * k2) * mi) by (nonlinear_arith)
        requires
            wn - wa - pn * dv == k1 * mi,
            dv == k2 * mi,
    ;
    lemma_residue_bound(s, r, m);
    lemma_residue_bound(s.take(a as int), r, m);
    assert(wn - wa == 0) by (nonlinear_arith)
        requires
            wn - wa == (k1 + pn * k2) * mi,
            0 <= wn < mi,
            0 <= wa < mi,
    ;
}

/// One more digit moves the prefix residue by the digit times `r^n`.
pub proof fn lemma_residue_push(s: Seq<u8>, x: u8, r: nat, m: nat)
    ensures
        residue(s.push(x), r, m) == (residue(s, r, m) + x as nat * power(r, s.len() + 1)) % m,
{
    assert(s.push(x).drop_last() =~= s);
}

} // verus!
