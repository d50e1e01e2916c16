//! The moduli, and the remainder routines that bring a value just above a
//! multiple of one of them back below it.
use vstd::prelude::*;
use vstd::arithmetic::div_mod::lemma_fundamental_div_mod_converse;
use crate::reduce::{sub_if_ge, reduce_8421, reduce_4421, lemma_reduce_8421, lemma_reduce_4421};
use crate::u192::{U192, pow192};
use crate::u192x8::U192x8;

verus! {

/// Length of the sliding window of digits that the scanners look back over.
pub const N: usize = 256;
/// First modulus: 2 * 5 * 431 * 46589 * 100699.
pub const M1: u64 = 20220217214410;
/// The factor 431 * 46589 of `M1`.
pub const M1_1: u32 = 431 * 46589;
/// The factor 2 * 5 * 100699 of `M1`.
pub const M1_2: u32 = 2 * 5 * 100699;
/// Second modulus, a prime.
pub const M2: u128 = 104648257118348370704723119;
/// First prime factor of the third modulus.
pub const M3_1: u64 = 500000000000000147;
/// Second prime factor of the third modulus.
pub const M3_2: u64 = 500000000000000207;
/// Third prime factor of the third modulus.
pub const M3_3: u64 = 500000000000000209;
/// 3^50, a factor of the fourth modulus.
pub const M4_3: u128 = 717897987691852588770249;
/// 7^30, a factor of the fourth modulus.
pub const M4_7: u128 = 22539340290692258087863249;
/// 11^20, a factor of the fourth modulus.
pub const M4_11: u128 = 672749994932560009201;
/// 3^16, a fast pre-filter for the fourth modulus.
pub const M4_TEST: u32 = 43046721;

/// The value of the earlier third modulus.
pub open spec fn m3_value() -> nat {
    125000000000000064750000000000009507500000000000294357nat
}

/// What the ten-way remainder returns: `x - 9m` from `9m` on, else `x % m`.
pub open spec fn rem_below_ten(x: nat, m: nat) -> nat {
    if x >= 9 * m {
        (x - 9 * m) as nat
    } else {
        x % m
    }
}

proof fn lemma_rem_window(x: int, m: int, k: int)
    requires
        m > 0,
        0 <= k,
        k * m <= x < (k + 1) * m,
    ensures
        x % m == x - k * m,
{
    assert((k + 1) * m == k * m + m) by (nonlinear_arith);
    lemma_fundamental_div_mod_converse(x, m, k, x - k * m);
}

/// Reduces `x` by the largest multiple `k * m` with `k <= 9` that it reaches.
///
/// For `x < 10 * m` this is `x % m`.
pub fn rem_u128(x: u128, m: u128) -> (r: u128)
    requires
        5 * m <= u128::MAX,
        x >= 5 * m ==> 7 * m <= u128::MAX,
        x >= 7 * m ==> 9 * m <= u128::MAX,
    ensures
        r == rem_below_ten(x as nat, m as nat),
        m > 0 && x < 10 * m ==> r == x % m,
{
    proof {
        if m > 0 && 9 * m <= x < 10 * m {
            lemma_rem_window(x as int, m as int, 9);
        }
    }
    if x >= m * 5 {
        if x >= m * 7 {
            if x >= m * 9 {
                x - m * 9
            } else if x >= m * 8 {
                proof { lemma_rem_window(x as int, m as int, 8); }
                x - m * 8
            } else {
                proof { lemma_rem_window(x as int, m as int, 7); }
                x - m * 7
            }
        } else {
            if x >= m * 6 {
                proof { lemma_rem_window(x as int, m as int, 6); }
                x - m * 6
            } else {
                proof { lemma_rem_window(x as int, m as int, 5); }
                x - m * 5
            }
        }
    } else {
        if x >= m * 2 {
            if x >= m * 4 {
                proof { lemma_rem_window(x as int, m as int, 4); }
                x - m * 4
            } else if x >= m * 3 {
                proof { lemma_rem_window(x as int, m as int, 3); }
                x - m * 3
            } else {
                proof { lemma_rem_window(x as int, m as int, 2); }
                x - m * 2
            }
        } else {
            if x >= m * 1 {
                proof { lemma_rem_window(x as int, m as int, 1); }
                x - m * 1
            } else {
                proof { lemma_rem_window(x as int, m as int, 0); }
                x
            }
        }
    }
}

/// The third modulus in its earlier form, built from its little-endian 64-bit limbs.
pub fn m3() -> (r: U192)
    ensures
        r.value() == m3_value(),
{
    U192([0x32b9c8672a627dd5, 0x959989af0854b90, 0x14e1878814c9d])
}

/// `k` times the earlier third modulus, for `k <= 9`.
pub fn m3_times(k: u64) -> (r: U192)
    requires
        k <= 9,
    ensures
        r.value() == m3_value() * k,
{
    let m = m3();
    assert(m3_value() * k < pow192()) by (nonlinear_arith)
        requires
            k <= 9,
            m3_value() < 200000000000000000000000000000000000000000000000000000nat,
            200000000000000000000000000000000000000000000000000000nat * 9 < pow192(),
    ;
    m.mul(k)
}

/// Reduces a 192-bit `x` by the largest multiple `k * M3` with `k <= 9` that it reaches.
///
/// For `x < 10 * M3` this is `x % M3`.
pub fn rem_u192_m3(x: U192) -> (r: U192)
    ensures
        r.value() == rem_below_ten(x.value(), m3_value()),
        x.value() < 10 * m3_value() ==> r.value() == x.value() % m3_value(),
{
    proof {
        if 9 * m3_value() <= x.value() < 10 * m3_value() {
            lemma_rem_window(x.value() as int, m3_value() as int, 9);
        }
    }
    let ghost m = m3_value() as int;
    let ghost v = x.value() as int;
    if x.ge(&m3_times(5)) {
        if x.ge(&m3_times(7)) {
            if x.ge(&m3_times(9)) {
                x.sub(m3_times(9))
            } else if x.ge(&m3_times(8)) {
                proof { lemma_rem_window(v, m, 8); }
                x.sub(m3_times(8))
            } else {
                proof { lemma_rem_window(v, m, 7); }
                x.sub(m3_times(7))
            }
        } else {
            if x.ge(&m3_times(6)) {
                proof { lemma_rem_window(v, m, 6); }
                x.sub(m3_times(6))
            } else {
                proof { lemma_rem_window(v, m, 5); }
                x.sub(m3_times(5))
            }
        }
    } else {
        if x.ge(&m3_times(2)) {
            if x.ge(&m3_times(4)) {
                proof { lemma_rem_window(v, m, 4); }
                x.sub(m3_times(4))
            } else if x.ge(&m3_times(3)) {
                proof { lemma_rem_window(v, m, 3); }
                x.sub(m3_times(3))
            } else {
                proof { lemma_rem_window(v, m, 2); }
                x.sub(m3_times(2))
            }
        } else {
            if x.ge(&m3_times(1)) {
                proof { lemma_rem_window(v, m, 1); }
                x.sub(m3_times(1))
            } else {
                proof { lemma_rem_window(v, m, 0); }
                x
            }
        }
    }
}

/// Reduces each 192-bit lane by conditional subtraction of `8 * M3`, `4 * M3`, `2 * M3` and `M3`.
///
/// Each lane below `16 * M3` ends as its remainder modulo `M3`.
pub fn rem_u192x8_m3(x: U192x8) -> (r: U192x8)
    ensures
        forall|i: int|
            0 <= i < 8 ==> #[trigger] r.lane(i) == reduce_8421(x.lane(i) as int, m3_value() as int),
        forall|i: int|
            0 <= i < 8 && x.lane(i) < 16 * m3_value() ==> #[trigger] r.lane(i) == x.lane(i)
                % m3_value(),
{
    let mx8 = U192x8::splat(m3_times(8).0);
    let mx4 = U192x8::splat(m3_times(4).0);
    let mx2 = U192x8::splat(m3_times(2).0);
    let mx1 = U192x8::splat(m3_times(1).0);
    let mut y = x;
    y = y.sub_on_ge(mx8);
    y = y.sub_on_ge(mx4);
    y = y.sub_on_ge(mx2);
    y = y.sub_on_ge(mx1);
    proof {
        assert forall|i: int| 0 <= i < 8 && x.lane(i) < 16 * m3_value() implies #[trigger] y.lane(
            i,
        ) == x.lane(i) % m3_value() by {
            lemma_reduce_8421(x.lane(i) as int, m3_value() as int);
        }
    }
    y
}

/// Lane-wise `min(x, x - d)` with wrapping subtraction: subtracts `d` from each lane that reaches it.
fn min_sub_u32x16(x: [u32; 16], d: u32) -> (r: [u32; 16])
    ensures
        forall|j: int| 0 <= j < 16 ==> r[j] as int == sub_if_ge(x[j] as int, d as int),
{
    let mut r = x;
    let mut i: usize = 0;
    while i < 16
        invariant
            0 <= i <= 16,
            forall|j: int| 0 <= j < i ==> r[j] as int == sub_if_ge(x[j] as int, d as int),
            forall|j: int| i <= j < 16 ==> r[j] == x[j],
        decreases 16 - i,
    {
        let y = r[i].wrapping_sub(d);
        if y < r[i] {
            r[i] = y;
        }
        i += 1;
    }
    r
}

/// Lane-wise `min(x, x - d)` with wrapping subtraction: subtracts `d` from each lane that reaches it.
fn min_sub_u64x8(x: [u64; 8], d: u64) -> (r: [u64; 8])
    ensures
        forall|j: int| 0 <= j < 8 ==> r[j] as int == sub_if_ge(x[j] as int, d as int),
{
    let mut r = x;
    let mut i: usize = 0;
    while i < 8
        invariant
            0 <= i <= 8,
            forall|j: int| 0 <= j < i ==> r[j] as int == sub_if_ge(x[j] as int, d as int),
            forall|j: int| i <= j < 8 ==> r[j] == x[j],
        decreases 8 - i,
    {
        let y = r[i].wrapping_sub(d);
        if y < r[i] {
            r[i] = y;
        }
        i += 1;
    }
    r
}

/// Reduces each of sixteen lanes by conditional subtraction of `8m`, `4m`, `2m` and `m`.
///
/// Each lane below `16 * m` ends as its remainder modulo `m`.
pub fn rem_u32x16(x: [u32; 16], m: u32) -> (r: [u32; 16])
    requires
        8 * m <= u32::MAX,
    ensures
        forall|j: int| 0 <= j < 16 ==> r[j] as int == reduce_8421(x[j] as int, m as int),
        forall|j: int| 0 <= j < 16 && m > 0 && x[j] < 16 * m ==> r[j] == x[j] % m,
{
    let mut y = x;
    y = min_sub_u32x16(y, m * 8);
    y = min_sub_u32x16(y, m * 4);
    y = min_sub_u32x16(y, m * 2);
    y = min_sub_u32x16(y, m * 1);
    proof {
        assert forall|j: int| 0 <= j < 16 && m > 0 && x[j] < 16 * m implies y[j] == x[j] % m by {
            lemma_reduce_8421(x[j] as int, m as int);
        }
    }
    y
}

/// Reduces each of eight lanes by conditional subtraction of `8m`, `4m`, `2m` and `m`.
///
/// Each lane below `16 * m` ends as its remainder modulo `m`.
pub fn rem_u64x8(x: [u64; 8], m: u64) -> (r: [u64; 8])
    requires
        8 * m <= u64::MAX,
    ensures
        forall|j: int| 0 <= j < 8 ==> r[j] as int == reduce_8421(x[j] as int, m as int),
        forall|j: int| 0 <= j < 8 && m > 0 && x[j] < 16 * m ==> r[j] == x[j] % m,
{
    let mut y = x;
    y = min_sub_u64x8(y, m * 8);
    y = min_sub_u64x8(y, m * 4);
    y = min_sub_u64x8(y, m * 2);
    y = min_sub_u64x8(y, m * 1);
    proof {
        assert forall|j: int| 0 <= j < 8 && m > 0 && x[j] < 16 * m implies y[j] == x[j] % m by {
            lemma_reduce_8421(x[j] as int, m as int);
        }
    }
    y
}

/// Reduces each of sixteen lanes by conditional subtraction of `4m`, `4m`,
/// `2m` and `m`, the chain that builds with AVX-512 run.
///
/// Each lane below `12 * m` ends as its remainder modulo `m`.
pub fn rem_u32x16_4421(x: [u32; 16], m: u32) -> (r: [u32; 16])
    requires
        4 * m <= u32::MAX,
    ensures
        forall|j: int| 0 <= j < 16 ==> r[j] as int == reduce_4421(x[j] as int, m as int),
        forall|j: int| 0 <= j < 16 && m > 0 && x[j] < 12 * m ==> r[j] == x[j] % m,
{
    let mut y = x;
    y = min_sub_u32x16(y, m * 4);
    y = min_sub_u32x16(y, m * 4);
    y = min_sub_u32x16(y, m * 2);
    y = min_sub_u32x16(y, m * 1);
    proof {
        assert forall|j: int| 0 <= j < 16 && m > 0 && x[j] < 12 * m implies y[j] == x[j] % m by {
            lemma_reduce_4421(x[j] as int, m as int);
        }
    }
    y
}

/// Reduces each of eight lanes by conditional subtraction of `4m`, `4m`,
/// `2m` and `m`, the chain that builds with AVX-512 run.
///
/// Each lane below `12 * m` ends as its remainder modulo `m`.
pub fn rem_u64x8_4421(x: [u64; 8], m: u64) -> (r: [u64; 8])
    requires
        4 * m <= u64::MAX,
    ensures
        forall|j: int| 0 <= j < 8 ==> r[j] as int == reduce_4421(x[j] as int, m as int),
        forall|j: int| 0 <= j < 8 && m > 0 && x[j] < 12 * m ==> r[j] == x[j] % m,
{
    let mut y = x;
    y = min_sub_u64x8(y, m * 4);
    y = min_sub_u64x8(y, m * 4);
    y = min_sub_u64x8(y, m * 2);
    y = min_sub_u64x8(y, m * 1);
    proof {
        assert forall|j: int| 0 <= j < 8 && m > 0 && x[j] < 12 * m implies y[j] == x[j] % m by {
            lemma_reduce_4421(x[j] as int, m as int);
        }
    }
    y
}

} // verus!
