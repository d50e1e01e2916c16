//! Scanners that keep, for each of the last `N` start positions of a digit
//! stream, the residue of the number written from there to the latest digit,
//! all lanes updated at once, and report the start slots whose residue is zero.
use vstd::prelude::*;
use vstd::arithmetic::div_mod::{lemma_add_mod_noop, lemma_mul_mod_noop_left, lemma_small_mod};
use crate::rem::{
    rem_u32x16, rem_u64x8, rem_u128, rem_below_ten, N, M1, M1_1, M1_2, M2, M3_1, M3_2, M3_3, M4_3, M4_7,
    M4_11, M4_TEST,
};
use crate::residue::power;
use crate::residue::digits_value;
use crate::u128x8::{U128x8, pow60, pow63};

verus! {

/// Lane `p` of sixteen-lane groups.
pub open spec fn lane_of_u32x16(f: Seq<[u32; 16]>, p: int) -> u32 {
    f[p / 16][p % 16]
}

/// Lane `p` of eight-lane groups.
pub open spec fn lane_of_u64x8(f: Seq<[u64; 8]>, p: int) -> u64 {
    f[p / 8][p % 8]
}

/// What pushing digit `x` at position `len` makes of lane `p`, reduced modulo
/// `m`: the lane of that position starts afresh at zero, every lane then
/// takes one more digit.
pub open spec fn pushed_lane(old_lane: nat, p: int, x: u8, len: int, m: nat) -> nat {
    ((if p == len % (N as int) {
        0
    } else {
        old_lane
    }) * 10 + x as nat) % m
}

/// Lane `p` sits in group `p / g` at place `p % g`.
pub proof fn lemma_lane_place(p: int, g: int)
    requires
        0 <= p,
        g > 0,
    ensures
        p == g * (p / g) + p % g,
        0 <= p % g < g,
{
    vstd::arithmetic::div_mod::lemma_fundamental_div_mod(p, g);
}

/// Place `l` of group `q` is lane `g * q + l`.
pub proof fn lemma_place_lane(q: int, l: int, g: int)
    requires
        0 <= q,
        0 <= l < g,
    ensures
        (g * q + l) / g == q,
        (g * q + l) % g == l,
{
    assert(g * q == q * g) by (nonlinear_arith);
    vstd::arithmetic::div_mod::lemma_fundamental_div_mod_converse(g * q + l, g, q, l);
}

/// Pushes digit `x` at position `len` into sixteen-lane groups of residues modulo `m`.
///
/// The lane of slot `len % N` starts afresh; the groups up to the one after
/// the group of `len` then take the digit, and later groups, whose lanes all
/// lie beyond `len`, are left as they are.
fn push_u32x16(f: &mut Vec<[u32; 16]>, x: u8, len: usize, m: u32) -> (zs: Vec<u16>)
    requires
        old(f)@.len() == 16,
        0 < m,
        10 * m + 10 <= u32::MAX,
        x < 10,
        forall|q: int, l: int| 0 <= q < 16 && 0 <= l < 16 ==> #[trigger] old(f)@[q][l] < m,
    ensures
        final(f)@.len() == 16,
        forall|q: int, l: int|
            0 <= q < 16 && 0 <= l < 16 ==> #[trigger] final(f)@[q][l] as nat == if q <= len / 16
                + 1 {
                pushed_lane(old(f)@[q][l] as nat, 16 * q + l, x, len as int, m as nat)
            } else {
                old(f)@[q][l] as nat
            },
        forall|q: int, l: int| 0 <= q < 16 && 0 <= l < 16 ==> #[trigger] final(f)@[q][l] < m,
        forall|k: int|
            0 <= k < zs@.len() ==> #[trigger] zs@[k] < N && zs@[k] <= len && final(f)@[zs@[k]
                as int / 16][zs@[k] as int % 16] == 0,
        forall|a: int, b: int| 0 <= a < b < zs@.len() ==> zs@[a] < zs@[b],
        forall|p: int|
            0 <= p < N && p <= len && #[trigger] final(f)@[p / 16][p % 16] == 0 ==> exists|k: int|
                0 <= k < zs@.len() && zs@[k] == p,
{
    let ghost f0 = f@;
    let slot = len % N;
    let mut g = f[slot / 16];
    g[slot % 16] = 0;
    f.set(slot / 16, g);
    let ghost reset = f@;
    proof {
        lemma_lane_place(slot as int, 16);
        assert forall|q: int, l: int| 0 <= q < 16 && 0 <= l < 16 implies #[trigger] reset[q][l]
            == if 16 * q + l == slot { 0 } else { f0[q][l] } by {
            lemma_place_lane(q, l, 16);
        }
    }
    // Groups past the one after the group of `len` have not started yet.
    let ngroups: usize = if len / 16 + 2 < 16 {
        len / 16 + 2
    } else {
        16
    };
    let mut zs: Vec<u16> = Vec::new();
    let mut i: usize = 0;
    while i < ngroups
        invariant
            0 <= i <= ngroups <= 16,
            ngroups == if len / 16 + 2 < 16 { len / 16 + 2 } else { 16 },
            f@.len() == 16,
            0 < m,
            10 * m + 10 <= u32::MAX,
            x < 10,
            forall|q: int, l: int| 0 <= q < 16 && 0 <= l < 16 ==> #[trigger] reset[q][l] < m,
            forall|q: int, l: int|
                0 <= q < i && 0 <= l < 16 ==> #[trigger] f@[q][l] as nat == (reset[q][l] as nat
                    * 10 + x as nat) % (m as nat) && f@[q][l] < m,
            forall|q: int| i <= q < 16 ==> #[trigger] f@[q] == reset[q],
            forall|k: int|
                0 <= k < zs@.len() ==> #[trigger] zs@[k] < i * 16 && zs@[k] <= len && f@[zs@[k]
                    as int / 16][zs@[k] as int % 16] == 0,
            forall|a: int, b: int| 0 <= a < b < zs@.len() ==> zs@[a] < zs@[b],
            forall|q: int, l: int|
                0 <= q < i && 0 <= l < 16 && 16 * q + l <= len && #[trigger] f@[q][l] == 0
                    ==> exists|k: int| 0 <= k < zs@.len() && zs@[k] == 16 * q + l,
        decreases ngroups - i,
    {
        let f1 = f[i];
        let mut v = [0u32; 16];
        let mut j: usize = 0;
        while j < 16
            invariant
                0 <= j <= 16,
                0 < m,
                10 * m + 10 <= u32::MAX,
                x < 10,
                forall|l: int| 0 <= l < 16 ==> #[trigger] f1[l] < m,
                forall|l: int| 0 <= l < j ==> #[trigger] v[l] == f1[l] * 10 + x,
            decreases 16 - j,
        {
            v[j] = f1[j] * 10 + x as u32;
            j += 1;
        }
        let ff1 = rem_u32x16(v, m);
        proof {
            assert forall|l: int| 0 <= l < 16 implies #[trigger] ff1[l] as nat == (f1[l] as nat
                * 10 + x as nat) % (m as nat) && ff1[l] < m by {
                assert(v[l] < 16 * m);
            }
        }
        let ghost fprev = f@;
        f.set(i, ff1);
        let ghost before = zs@;
        let mut j: usize = 0;
        while j < 16
            invariant
                0 <= j <= 16,
                i < 16,
                f@[i as int] == ff1,
                forall|k: int|
                    0 <= k < before.len() ==> #[trigger] before[k] < i * 16 && before[k] <= len,
                forall|a: int, b: int| 0 <= a < b < before.len() ==> before[a] < before[b],
                zs@.len() >= before.len(),
                forall|k: int| 0 <= k < before.len() ==> #[trigger] zs@[k] == before[k],
                forall|k: int|
                    before.len() <= k < zs@.len() ==> #[trigger] zs@[k] < i * 16 + j && zs@[k]
                        >= i * 16 && zs@[k] <= len && ff1[zs@[k] - i * 16] == 0,
                forall|a: int, b: int| 0 <= a < b < zs@.len() ==> zs@[a] < zs@[b],
                forall|l: int|
                    0 <= l < j && i * 16 + l <= len && #[trigger] ff1[l] == 0 ==> exists|k: int|
                        before.len() <= k < zs@.len() && zs@[k] == i * 16 + l,
            decreases 16 - j,
        {
            let ghost zprev = zs@;
            if ff1[j] == 0 && i * 16 + j <= len {
                zs.push((i * 16 + j) as u16);
                assert(zs@[zs@.len() - 1] == i * 16 + j);
            }
            proof {
                assert forall|l: int|
                    0 <= l < j + 1 && i * 16 + l <= len && #[trigger] ff1[l] == 0 implies exists|k: int|
                        before.len() <= k < zs@.len() && zs@[k] == i * 16 + l by {
                    if l < j {
                        let k = choose|k: int| before.len() <= k < zprev.len() && zprev[k] == i * 16 + l;
                        assert(zs@[k] == zprev[k]);
                    } else {
                        assert(zs@[zs@.len() - 1] == i * 16 + l);
                    }
                }
            }
            j += 1;
        }
        proof {
            assert forall|k: int| 0 <= k < zs@.len() implies #[trigger] zs@[k] < (i + 1) * 16
                && zs@[k] <= len && f@[zs@[k] as int / 16][zs@[k] as int % 16] == 0 by {
                lemma_lane_place(zs@[k] as int, 16);
                if k < before.len() {
                    assert(fprev[zs@[k] as int / 16][zs@[k] as int % 16] == 0);
                    assert(zs@[k] as int / 16 < i);
                } else {
                    lemma_place_lane(i as int, zs@[k] - i * 16, 16);
                }
            }
            assert forall|q: int, l: int|
                0 <= q < i + 1 && 0 <= l < 16 && 16 * q + l <= len && #[trigger] f@[q][l] == 0
                    implies exists|k: int| 0 <= k < zs@.len() && zs@[k] == 16 * q + l by {
                if q < i {
                    assert(fprev[q][l] == 0);
                    let k = choose|k: int| 0 <= k < before.len() && before[k] == 16 * q + l;
                    assert(zs@[k] == 16 * q + l);
                } else {
                    assert(ff1[l] == 0);
                }
            }
            assert forall|q: int, l: int|
                0 <= q < i + 1 && 0 <= l < 16 implies #[trigger] f@[q][l] as nat == (reset[q][l] as nat
                    * 10 + x as nat) % (m as nat) && f@[q][l] < m by {
                if q < i {
                    assert(f@[q] == fprev[q]);
                }
            }
        }
        i += 1;
    }
    proof {
        assert forall|q: int, l: int|
            0 <= q < 16 && 0 <= l < 16 implies #[trigger] f@[q][l] as nat == if q <= len / 16 + 1 {
                pushed_lane(f0[q][l] as nat, 16 * q + l, x, len as int, m as nat)
            } else {
                f0[q][l] as nat
            } by {
            if q <= len / 16 + 1 {
                assert(q < ngroups);
            } else {
                assert(16 * q + l != slot);
            }
        }
        assert forall|p: int|
            0 <= p < N && p <= len && #[trigger] f@[p / 16][p % 16] == 0 implies exists|k: int|
                0 <= k < zs@.len() && zs@[k] == p by {
            lemma_lane_place(p, 16);
            assert(p / 16 < ngroups);
            assert(f@[p / 16][p % 16] == 0);
        }
    }
    zs
}

/// Pushes digit `x` at position `len` into eight-lane groups of residues modulo `m`.
///
/// The lane of slot `len % N` starts afresh; the groups up to the one after
/// the group of `len` then take the digit, and later groups, whose lanes all
/// lie beyond `len`, are left as they are.
fn push_u64x8(f: &mut Vec<[u64; 8]>, x: u8, len: usize, m: u64) -> (zs: Vec<u16>)
    requires
        old(f)@.len() == 32,
        0 < m,
        10 * m + 10 <= u64::MAX,
        x < 10,
        forall|q: int, l: int| 0 <= q < 32 && 0 <= l < 8 ==> #[trigger] old(f)@[q][l] < m,
    ensures
        final(f)@.len() == 32,
        forall|q: int, l: int|
            0 <= q < 32 && 0 <= l < 8 ==> #[trigger] final(f)@[q][l] as nat == if q <= len / 8
                + 1 {
                pushed_lane(old(f)@[q][l] as nat, 8 * q + l, x, len as int, m as nat)
            } else {
                old(f)@[q][l] as nat
            },
        forall|q: int, l: int| 0 <= q < 32 && 0 <= l < 8 ==> #[trigger] final(f)@[q][l] < m,
        forall|k: int|
            0 <= k < zs@.len() ==> #[trigger] zs@[k] < N && zs@[k] <= len && final(f)@[zs@[k]
                as int / 8][zs@[k] as int % 8] == 0,
        forall|a: int, b: int| 0 <= a < b < zs@.len() ==> zs@[a] < zs@[b],
        forall|p: int|
            0 <= p < N && p <= len && #[trigger] final(f)@[p / 8][p % 8] == 0 ==> exists|k: int|
                0 <= k < zs@.len() && zs@[k] == p,
{
    let ghost f0 = f@;
    let slot = len % N;
    let mut g = f[slot / 8];
    g[slot % 8] = 0;
    f.set(slot / 8, g);
    let ghost reset = f@;
    proof {
        lemma_lane_place(slot as int, 8);
        assert forall|q: int, l: int| 0 <= q < 32 && 0 <= l < 8 implies #[trigger] reset[q][l]
            == if 8 * q + l == slot { 0 } else { f0[q][l] } by {
            lemma_place_lane(q, l, 8);
        }
    }
    // Groups past the one after the group of `len` have not started yet.
    let ngroups: usize = if len / 8 + 2 < 32 {
        len / 8 + 2
    } else {
        32
    };
    let mut zs: Vec<u16> = Vec::new();
    let mut i: usize = 0;
    while i < ngroups
        invariant
            0 <= i <= ngroups <= 32,
            ngroups == if len / 8 + 2 < 32 { len / 8 + 2 } else { 32 },
            f@.len() == 32,
            0 < m,
            10 * m + 10 <= u64::MAX,
            x < 10,
            forall|q: int, l: int| 0 <= q < 32 && 0 <= l < 8 ==> #[trigger] reset[q][l] < m,
            forall|q: int, l: int|
                0 <= q < i && 0 <= l < 8 ==> #[trigger] f@[q][l] as nat == (reset[q][l] as nat
                    * 10 + x as nat) % (m as nat) && f@[q][l] < m,
            forall|q: int| i <= q < 32 ==> #[trigger] f@[q] == reset[q],
            forall|k: int|
                0 <= k < zs@.len() ==> #[trigger] zs@[k] < i * 8 && zs@[k] <= len && f@[zs@[k]
                    as int / 8][zs@[k] as int % 8] == 0,
            forall|a: int, b: int| 0 <= a < b < zs@.len() ==> zs@[a] < zs@[b],
            forall|q: int, l: int|
                0 <= q < i && 0 <= l < 8 && 8 * q + l <= len && #[trigger] f@[q][l] == 0
                    ==> exists|k: int| 0 <= k < zs@.len() && zs@[k] == 8 * q + l,
        decreases ngroups - i,
    {
        let f1 = f[i];
        let mut v = [0u64; 8];
        let mut j: usize = 0;
        while j < 8
            invariant
                0 <= j <= 8,
                0 < m,
                10 * m + 10 <= u64::MAX,
                x < 10,
                forall|l: int| 0 <= l < 8 ==> #[trigger] f1[l] < m,
                forall|l: int| 0 <= l < j ==> #[trigger] v[l] == f1[l] * 10 + x,
            decreases 8 - j,
        {
            v[j] = f1[j] * 10 + x as u64;
            j += 1;
        }
        let ff1 = rem_u64x8(v, m);
        proof {
            assert forall|l: int| 0 <= l < 8 implies #[trigger] ff1[l] as nat == (f1[l] as nat
                * 10 + x as nat) % (m as nat) && ff1[l] < m by {
                assert(v[l] < 16 * m);
            }
        }
        let ghost fprev = f@;
        f.set(i, ff1);
        let ghost before = zs@;
        let mut j: usize = 0;
        while j < 8
            invariant
                0 <= j <= 8,
                i < 32,
                f@[i as int] == ff1,
                forall|k: int|
                    0 <= k < before.len() ==> #[trigger] before[k] < i * 8 && before[k] <= len,
                forall|a: int, b: int| 0 <= a < b < before.len() ==> before[a] < before[b],
                zs@.len() >= before.len(),
                forall|k: int| 0 <= k < before.len() ==> #[trigger] zs@[k] == before[k],
                forall|k: int|
                    before.len() <= k < zs@.len() ==> #[trigger] zs@[k] < i * 8 + j && zs@[k]
                        >= i * 8 && zs@[k] <= len && ff1[zs@[k] - i * 8] == 0,
                forall|a: int, b: int| 0 <= a < b < zs@.len() ==> zs@[a] < zs@[b],
                forall|l: int|
                    0 <= l < j && i * 8 + l <= len && #[trigger] ff1[l] == 0 ==> exists|k: int|
                        before.len() <= k < zs@.len() && zs@[k] == i * 8 + l,
            decreases 8 - j,
        {
            let ghost zprev = zs@;
            if ff1[j] == 0 && i * 8 + j <= len {
                zs.push((i * 8 + j) as u16);
                assert(zs@[zs@.len() - 1] == i * 8 + j);
            }
            proof {
                assert forall|l: int|
                    0 <= l < j + 1 && i * 8 + l <= len && #[trigger] ff1[l] == 0 implies exists|k: int|
                        before.len() <= k < zs@.len() && zs@[k] == i * 8 + l by {
                    if l < j {
                        let k = choose|k: int| before.len() <= k < zprev.len() && zprev[k] == i * 8 + l;
                        assert(zs@[k] == zprev[k]);
                    } else {
                        assert(zs@[zs@.len() - 1] == i * 8 + l);
                    }
                }
            }
            j += 1;
        }
        proof {
            assert forall|k: int| 0 <= k < zs@.len() implies #[trigger] zs@[k] < (i + 1) * 8
                && zs@[k] <= len && f@[zs@[k] as int / 8][zs@[k] as int % 8] == 0 by {
                lemma_lane_place(zs@[k] as int, 8);
                if k < before.len() {
                    assert(fprev[zs@[k] as int / 8][zs@[k] as int % 8] == 0);
                    assert(zs@[k] as int / 8 < i);
                } else {
                    lemma_place_lane(i as int, zs@[k] - i * 8, 8);
                }
            }
            assert forall|q: int, l: int|
                0 <= q < i + 1 && 0 <= l < 8 && 8 * q + l <= len && #[trigger] f@[q][l] == 0
                    implies exists|k: int| 0 <= k < zs@.len() && zs@[k] == 8 * q + l by {
                if q < i {
                    assert(fprev[q][l] == 0);
                    let k = choose|k: int| 0 <= k < before.len() && before[k] == 8 * q + l;
                    assert(zs@[k] == 8 * q + l);
                } else {
                    assert(ff1[l] == 0);
                }
            }
            assert forall|q: int, l: int|
                0 <= q < i + 1 && 0 <= l < 8 implies #[trigger] f@[q][l] as nat == (reset[q][l] as nat
                    * 10 + x as nat) % (m as nat) && f@[q][l] < m by {
                if q < i {
                    assert(f@[q] == fprev[q]);
                }
            }
        }
        i += 1;
    }
    proof {
        assert forall|q: int, l: int|
            0 <= q < 32 && 0 <= l < 8 implies #[trigger] f@[q][l] as nat == if q <= len / 8 + 1 {
                pushed_lane(f0[q][l] as nat, 8 * q + l, x, len as int, m as nat)
            } else {
                f0[q][l] as nat
            } by {
            if q <= len / 8 + 1 {
                assert(q < ngroups);
            } else {
                assert(8 * q + l != slot);
            }
        }
        assert forall|p: int|
            0 <= p < N && p <= len && #[trigger] f@[p / 8][p % 8] == 0 implies exists|k: int|
                0 <= k < zs@.len() && zs@[k] == p by {
            lemma_lane_place(p, 8);
            assert(p / 8 < ngroups);
            assert(f@[p / 8][p % 8] == 0);
        }
    }
    zs
}

/// Pushes digit `x` at position `len` into eight-lane groups of 124-bit residues modulo `M2`.
///
/// The lane of slot `len % N` starts afresh; the groups up to the one after
/// the group of `len` then take the digit, and later groups are left as they are.
fn push_u128x8(f: &mut Vec<U128x8>, x: u8, len: usize) -> (zs: Vec<u16>)
    requires
        old(f)@.len() == 32,
        x < 10,
        forall|q: int| 0 <= q < 32 ==> (#[trigger] old(f)@[q]).in_range(),
        forall|q: int, l: int| 0 <= q < 32 && 0 <= l < 8 ==> #[trigger] old(f)@[q].lane(l) < M2,
    ensures
        final(f)@.len() == 32,
        forall|q: int| 0 <= q < 32 ==> (#[trigger] final(f)@[q]).in_range(),
        forall|q: int, l: int|
            0 <= q < 32 && 0 <= l < 8 ==> #[trigger] final(f)@[q].lane(l) == if q <= len / 8 + 1 {
                pushed_lane(old(f)@[q].lane(l), 8 * q + l, x, len as int, M2 as nat)
            } else {
                old(f)@[q].lane(l)
            },
        forall|q: int, l: int| 0 <= q < 32 && 0 <= l < 8 ==> #[trigger] final(f)@[q].lane(l) < M2,
        forall|k: int|
            0 <= k < zs@.len() ==> #[trigger] zs@[k] < N && zs@[k] <= len && final(f)@[zs@[k]
                as int / 8].lane(zs@[k] as int % 8) == 0,
        forall|a: int, b: int| 0 <= a < b < zs@.len() ==> zs@[a] < zs@[b],
        forall|p: int|
            0 <= p < N && p <= len && #[trigger] final(f)@[p / 8].lane(p % 8) == 0 ==> exists|k: int|
                0 <= k < zs@.len() && zs@[k] == p,
{
    let ghost f0 = f@;
    let slot = len % N;
    let mut g = f[slot / 8];
    g.set(slot % 8, 0);
    f.set(slot / 8, g);
    let ghost reset = f@;
    proof {
        lemma_lane_place(slot as int, 8);
        assert forall|q: int, l: int| 0 <= q < 32 && 0 <= l < 8 implies #[trigger] reset[q].lane(l)
            == if 8 * q + l == slot { 0 } else { f0[q].lane(l) } by {
            lemma_place_lane(q, l, 8);
        }
        assert forall|q: int| 0 <= q < 32 implies (#[trigger] reset[q]).in_range() by {
            if q == slot / 8 {
                assert((0u128 >> 124u128) as u8 == 0u8) by (bit_vector);
                assert((0u128 >> 60u128) as u64 == 0u64) by (bit_vector);
                assert(((0u128 as u64) & crate::u128x8::MASK) == 0u64) by (bit_vector);
                assert forall|l: int| 0 <= l < 8 implies crate::u128x8::lane_in_range(
                    #[trigger] reset[q].limbs(l),
                ) && reset[q].top(l) == 0 by {
                    let fq = f0[q];
                    assert(fq.in_range());
                    assert(crate::u128x8::lane_in_range(fq.limbs(l)));
                    assert(fq.top(l) == 0);
                    if l != slot % 8 {
                        assert(reset[q].limbs(l) == fq.limbs(l) && reset[q].top(l) == fq.top(l));
                    }
                }
            }
        }
    }
    let ngroups: usize = if len / 8 + 2 < 32 {
        len / 8 + 2
    } else {
        32
    };
    let mut zs: Vec<u16> = Vec::new();
    let mut i: usize = 0;
    while i < ngroups
        invariant
            0 <= i <= ngroups <= 32,
            ngroups == if len / 8 + 2 < 32 { len / 8 + 2 } else { 32 },
            f@.len() == 32,
            x < 10,
            forall|q: int| 0 <= q < 32 ==> (#[trigger] reset[q]).in_range(),
            forall|q: int, l: int| 0 <= q < 32 && 0 <= l < 8 ==> #[trigger] reset[q].lane(l) < M2,
            forall|q: int| 0 <= q < 32 ==> (#[trigger] f@[q]).in_range(),
            forall|q: int, l: int|
                0 <= q < i && 0 <= l < 8 ==> #[trigger] f@[q].lane(l) == (reset[q].lane(l) * 10
                    + x as nat) % (M2 as nat) && f@[q].lane(l) < M2,
            forall|q: int| i <= q < 32 ==> #[trigger] f@[q] == reset[q],
            forall|k: int|
                0 <= k < zs@.len() ==> #[trigger] zs@[k] < i * 8 && zs@[k] <= len && f@[zs@[k]
                    as int / 8].lane(zs@[k] as int % 8) == 0,
            forall|a: int, b: int| 0 <= a < b < zs@.len() ==> zs@[a] < zs@[b],
            forall|q: int, l: int|
                0 <= q < i && 0 <= l < 8 && 8 * q + l <= len && #[trigger] f@[q].lane(l) == 0
                    ==> exists|k: int| 0 <= k < zs@.len() && zs@[k] == 8 * q + l,
        decreases ngroups - i,
    {
        let f1 = f[i];
        let t = f1.mul10_add(x as u64);
        proof {
            assert forall|l: int| 0 <= l < 8 implies #[trigger] t.lane(l) == 10 * f1.lane(l) + x
                && crate::u128x8::lane_in_range(t.limbs(l)) by {
                let (sh, sl) = f1.limbs(l);
                assert(f1 == reset[i as int]);
                assert(f1.lane(l) < M2);
                assert(crate::u128x8::lane_in_range(f1.limbs(l)));
                assert(sh < 0x1000_0000);
                assert(sl * 10 + x <= u64::MAX);
                assert((sl * 10 + x) / pow60() as int <= 10);
                assert(sh * 10 + (sl * 10 + x) / pow60() as int <= u64::MAX);
                assert(t.limbs(l).1 < pow60());
                assert(t.lane(l) == 10 * f1.lane(l) + x);
                assert(t.limbs(l).0 < pow63());
            }
            assert(t.in_range()) by {
                assert forall|l: int| 0 <= l < 8 implies crate::u128x8::lane_in_range(
                    #[trigger] t.limbs(l),
                ) by {
                    assert(t.lane(l) == 10 * f1.lane(l) + x);
                }
            }
            assert(4 * M2 < crate::u128x8::pow124() / 2);
        }
        let ff = t.rem10(M2);
        let zeros = ff.is_zero();
        proof {
            assert forall|l: int| 0 <= l < 8 implies #[trigger] ff.lane(l) == (f1.lane(l) * 10
                + x as nat) % (M2 as nat) && ff.lane(l) < M2 by {
                assert(t.lane(l) == 10 * f1.lane(l) + x);
                assert(ff.lane(l) == crate::reduce::reduce_4421(t.lane(l) as int, M2 as int));
                crate::reduce::lemma_reduce_4421(t.lane(l) as int, M2 as int);
            }
        }
        let ghost fprev = f@;
        f.set(i, ff);
        let ghost before = zs@;
        let mut j: usize = 0;
        while j < 8
            invariant
                0 <= j <= 8,
                i < 32,
                f@[i as int] == ff,
                forall|k: int|
                    0 <= k < before.len() ==> #[trigger] before[k] < i * 8 && before[k] <= len,
                forall|a: int, b: int| 0 <= a < b < before.len() ==> before[a] < before[b],
                zs@.len() >= before.len(),
                forall|k: int| 0 <= k < before.len() ==> #[trigger] zs@[k] == before[k],
                forall|k: int|
                    before.len() <= k < zs@.len() ==> #[trigger] zs@[k] < i * 8 + j && zs@[k]
                        >= i * 8 && zs@[k] <= len && zeros[zs@[k] - i * 8],
                forall|a: int, b: int| 0 <= a < b < zs@.len() ==> zs@[a] < zs@[b],
                forall|l: int|
                    0 <= l < j && i * 8 + l <= len && #[trigger] zeros[l] ==> exists|k: int|
                        before.len() <= k < zs@.len() && zs@[k] == i * 8 + l,
            decreases 8 - j,
        {
            let ghost zprev = zs@;
            if zeros[j] && i * 8 + j <= len {
                zs.push((i * 8 + j) as u16);
                assert(zs@[zs@.len() - 1] == i * 8 + j);
            }
            proof {
                assert forall|l: int|
                    0 <= l < j + 1 && i * 8 + l <= len && #[trigger] zeros[l] implies exists|k: int|
                        before.len() <= k < zs@.len() && zs@[k] == i * 8 + l by {
                    if l < j {
                        let k = choose|k: int| before.len() <= k < zprev.len() && zprev[k] == i * 8 + l;
                        assert(zs@[k] == zprev[k]);
                    } else {
                        assert(zs@[zs@.len() - 1] == i * 8 + l);
                    }
                }
            }
            j += 1;
        }
        proof {
            assert forall|k: int| 0 <= k < zs@.len() implies #[trigger] zs@[k] < (i + 1) * 8
                && zs@[k] <= len && f@[zs@[k] as int / 8].lane(zs@[k] as int % 8) == 0 by {
                lemma_lane_place(zs@[k] as int, 8);
                if k < before.len() {
                    assert(fprev[zs@[k] as int / 8].lane(zs@[k] as int % 8) == 0);
                    assert(zs@[k] as int / 8 < i);
                } else {
                    lemma_place_lane(i as int, zs@[k] - i * 8, 8);
                    assert(zeros[zs@[k] - i * 8]);
                }
            }
            assert forall|q: int, l: int|
                0 <= q < i + 1 && 0 <= l < 8 && 8 * q + l <= len && #[trigger] f@[q].lane(l) == 0
                    implies exists|k: int| 0 <= k < zs@.len() && zs@[k] == 8 * q + l by {
                if q < i {
                    assert(fprev[q].lane(l) == 0);
                    let k = choose|k: int| 0 <= k < before.len() && before[k] == 8 * q + l;
                    assert(zs@[k] == 8 * q + l);
                } else {
                    assert(zeros[l]);
                }
            }
            assert forall|q: int, l: int|
                0 <= q < i + 1 && 0 <= l < 8 implies #[trigger] f@[q].lane(l) == (reset[q].lane(l)
                    * 10 + x as nat) % (M2 as nat) && f@[q].lane(l) < M2 by {
                if q < i {
                    assert(f@[q] == fprev[q]);
                }
            }
        }
        i += 1;
    }
    proof {
        assert forall|q: int, l: int|
            0 <= q < 32 && 0 <= l < 8 implies #[trigger] f@[q].lane(l) == if q <= len / 8 + 1 {
                pushed_lane(f0[q].lane(l), 8 * q + l, x, len as int, M2 as nat)
            } else {
                f0[q].lane(l)
            } by {
            if q <= len / 8 + 1 {
                assert(q < ngroups);
            } else {
                assert(8 * q + l != slot);
            }
        }
        assert forall|p: int|
            0 <= p < N && p <= len && #[trigger] f@[p / 8].lane(p % 8) == 0 implies exists|k: int|
                0 <= k < zs@.len() && zs@[k] == p by {
            lemma_lane_place(p, 8);
            assert(p / 8 < ngroups);
        }
    }
    zs
}

/// `digits_value` read one digit further.
pub proof fn lemma_digits_value_step(s: Seq<u8>, k: int)
    requires
        0 <= k < s.len(),
    ensures
        digits_value(s.take(k + 1)) == digits_value(s.take(k)) * 10 + s[k],
{
    assert(s.take(k + 1).drop_last() =~= s.take(k));
}

/// One more digit keeps a residue: `(v % m) * 10 + x` and `v * 10 + x` agree modulo `m`.
pub proof fn lemma_residue_step(v: nat, x: nat, m: nat)
    requires
        m > 0,
    ensures
        ((v % m) * 10 + x) % m == (v * 10 + x) % m,
{
    lemma_mul_mod_noop_left(v as int, 10, m as int);
    lemma_add_mod_noop((v % m * 10) as int, x as int, m as int);
    lemma_add_mod_noop((v * 10) as int, x as int, m as int);
    vstd::arithmetic::div_mod::lemma_mod_twice((v * 10) as int, m as int);
}

/// The value of `digits` modulo `m`, computed digit by digit in 32 bits.
fn digits_mod_u32(digits: &[u8], m: u32) -> (r: u32)
    requires
        m > 0,
        10 * m + 256 <= u32::MAX,
    ensures
        r as nat == digits_value(digits@) % (m as nat),
{
    let mut f: u32 = 0;
    let mut k: usize = 0;
    assert(digits@.take(0) =~= Seq::<u8>::empty());
    while k < digits.len()
        invariant
            0 <= k <= digits.len(),
            m > 0,
            10 * m + 256 <= u32::MAX,
            f < m,
            f as nat == digits_value(digits@.take(k as int)) % (m as nat),
        decreases digits.len() - k,
    {
        proof {
            lemma_digits_value_step(digits@, k as int);
            lemma_residue_step(digits_value(digits@.take(k as int)), digits@[k as int] as nat, m as nat);
        }
        f = (f * 10 + digits[k] as u32) % m;
        k += 1;
    }
    proof {
        assert(digits@.take(digits@.len() as int) =~= digits@);
    }
    f
}

/// The value of `digits` modulo `m`, computed digit by digit with `rem_u128`.
fn digits_mod_u128(digits: &[u8], m: u128) -> (r: u128)
    requires
        m > 0,
        10 * m <= u128::MAX,
        forall|k: int| 0 <= k < digits.len() ==> #[trigger] digits@[k] < 10,
    ensures
        r as nat == digits_value(digits@) % (m as nat),
{
    let mut f: u128 = 0;
    let mut k: usize = 0;
    proof {
        assert(digits@.take(0) =~= Seq::<u8>::empty());
        assert(digits_value(digits@.take(0)) == 0);
        vstd::arithmetic::div_mod::lemma_small_mod(0, m as nat);
    }
    while k < digits.len()
        invariant
            0 <= k <= digits.len(),
            m > 0,
            10 * m <= u128::MAX,
            forall|j: int| 0 <= j < digits.len() ==> #[trigger] digits@[j] < 10,
            f < m,
            f as nat == digits_value(digits@.take(k as int)) % (m as nat),
        decreases digits.len() - k,
    {
        proof {
            lemma_digits_value_step(digits@, k as int);
            lemma_residue_step(digits_value(digits@.take(k as int)), digits@[k as int] as nat, m as nat);
            assert(f * 10 + digits@[k as int] < 10 * m);
        }
        let v = f * 10 + digits[k] as u128;
        f = rem_u128(v, m);
        proof {
            if v >= 9 * m {
                vstd::arithmetic::div_mod::lemma_fundamental_div_mod_converse(v as int, m as int, 9, v - 9 * m);
            }
        }
        k += 1;
    }
    proof {
        assert(digits@.take(digits@.len() as int) =~= digits@);
    }
    f
}

/// A row of sixteen zero lanes.
fn zero_row_u32x16() -> (r: [u32; 16])
    ensures
        forall|l: int| 0 <= l < 16 ==> #[trigger] r[l] == 0,
{
    let r = [0u32, 0, 0, 0, 0, 0, 0, 0, 0, 0, 0, 0, 0, 0, 0, 0];
    proof {
        assert(r@ =~= seq![0u32, 0, 0, 0, 0, 0, 0, 0, 0, 0, 0, 0, 0, 0, 0, 0]);
    }
    r
}

/// A row of eight zero lanes.
fn zero_row_u64x8() -> (r: [u64; 8])
    ensures
        forall|l: int| 0 <= l < 8 ==> #[trigger] r[l] == 0,
{
    let r = [0u64, 0, 0, 0, 0, 0, 0, 0];
    proof {
        assert(r@ =~= seq![0u64, 0, 0, 0, 0, 0, 0, 0]);
    }
    r
}

/// A scanner of the residues, modulo a fixed number, of the numbers written
/// from each of the last `N` start positions to the latest digit.
pub trait Data: Sized {
    /// The internal invariant.
    spec fn wf(&self) -> bool;

    /// The residue held for start slot `p`.
    spec fn lane(&self, p: int) -> nat;

    /// The modulus the lanes are kept by.
    spec fn modulus() -> nat;

    /// What `check` says of a number the lanes found divisible.
    spec fn accepts(v: nat) -> bool;

    /// The lanes' modulus is more than one.
    proof fn lemma_modulus()
        ensures
            Self::modulus() > 1,
    ;

    /// A scanner with every lane zero.
    fn new() -> (r: Self)
        ensures
            r.wf(),
    ;

    /// Takes digit `x` at position `len`: the lane of slot `len % N` starts
    /// afresh, every started lane takes the digit, and the slots up to `len`
    /// whose lanes become zero are returned in increasing order.
    fn push(&mut self, x: u8, len: usize) -> (zs: Vec<u16>)
        requires
            old(self).wf(),
            x < 10,
        ensures
            final(self).wf(),
            forall|p: int|
                0 <= p < N && p <= len ==> #[trigger] final(self).lane(p) == pushed_lane(
                    old(self).lane(p),
                    p,
                    x,
                    len as int,
                    Self::modulus(),
                ),
            forall|p: int| 0 <= p < N ==> #[trigger] final(self).lane(p) < Self::modulus(),
            forall|k: int|
                0 <= k < zs@.len() ==> #[trigger] zs@[k] < N && zs@[k] <= len && final(self).lane(
                    zs@[k] as int,
                ) == 0,
            forall|a: int, b: int| 0 <= a < b < zs@.len() ==> zs@[a] < zs@[b],
            forall|p: int|
                0 <= p < N && p <= len && #[trigger] final(self).lane(p) == 0 ==> exists|k: int|
                    0 <= k < zs@.len() && zs@[k] == p,
    ;

    /// Tests a number the lanes found divisible against the rest of the
    /// detector's modulus.
    fn check(&self, digits: &[u8]) -> (r: bool)
        requires
            forall|k: int| 0 <= k < digits.len() ==> #[trigger] digits@[k] < 10,
        ensures
            r == Self::accepts(digits_value(digits@)),
    ;
}

/// Finds multiples of `M1_1 * M1_2`: lanes modulo `M1_1`, checked modulo `M1_2`.
pub struct M1Data {
    f: Vec<[u32; 16]>,
}

impl Data for M1Data {
    closed spec fn wf(&self) -> bool {
        &&& self.f@.len() == 16
        &&& forall|q: int, l: int| 0 <= q < 16 && 0 <= l < 16 ==> #[trigger] self.f@[q][l] < M1_1
    }

    closed spec fn lane(&self, p: int) -> nat {
        self.f@[p / 16][p % 16] as nat
    }

    open spec fn modulus() -> nat {
        M1_1 as nat
    }

    open spec fn accepts(v: nat) -> bool {
        v % (M1_2 as nat) == 0
    }

    proof fn lemma_modulus() {
    }

    fn new() -> (r: Self) {
        let mut f: Vec<[u32; 16]> = Vec::new();
        let mut k: usize = 0;
        while k < 16
            invariant
                0 <= k <= 16,
                f@.len() == k,
                forall|q: int, l: int| 0 <= q < k && 0 <= l < 16 ==> #[trigger] f@[q][l] == 0,
            decreases 16 - k,
        {
            f.push(zero_row_u32x16());
            k += 1;
        }
        M1Data { f }
    }

    fn push(&mut self, x: u8, len: usize) -> (zs: Vec<u16>)
        ensures
            forall|p: int|
                0 <= p < N && p > len ==> #[trigger] final(self).lane(p) == if p / 16 <= len / 16
                    + 1 {
                    pushed_lane(old(self).lane(p), p, x, len as int, Self::modulus())
                } else {
                    old(self).lane(p)
                },
    {
        let zs = push_u32x16(&mut self.f, x, len, M1_1);
        proof {
            assert forall|p: int| 0 <= p < N implies #[trigger] self.lane(p) == if p / 16 <= len
                / 16 + 1 {
                pushed_lane(old(self).lane(p), p, x, len as int, Self::modulus())
            } else {
                old(self).lane(p)
            } && self.lane(p) < Self::modulus() by {
                lemma_lane_place(p, 16);
                assert(self.f@[p / 16][p % 16] < M1_1);
            }

        }
        zs
    }

    fn check(&self, digits: &[u8]) -> (r: bool) {
        digits_mod_u32(digits, M1_2) == 0
    }
}

/// Finds multiples of `M4_TEST`, `M4_3`, `M4_7` and `M4_11`: lanes modulo
/// `M4_TEST`, the three prime powers checked.
pub struct M4Data {
    f: Vec<[u32; 16]>,
}

impl Data for M4Data {
    closed spec fn wf(&self) -> bool {
        &&& self.f@.len() == 16
        &&& forall|q: int, l: int| 0 <= q < 16 && 0 <= l < 16 ==> #[trigger] self.f@[q][l] < M4_TEST
    }

    closed spec fn lane(&self, p: int) -> nat {
        self.f@[p / 16][p % 16] as nat
    }

    open spec fn modulus() -> nat {
        M4_TEST as nat
    }

    open spec fn accepts(v: nat) -> bool {
        &&& v % (M4_3 as nat) == 0
        &&& v % (M4_7 as nat) == 0
        &&& v % (M4_11 as nat) == 0
    }

    proof fn lemma_modulus() {
    }

    fn new() -> (r: Self) {
        let mut f: Vec<[u32; 16]> = Vec::new();
        let mut k: usize = 0;
        while k < 16
            invariant
                0 <= k <= 16,
                f@.len() == k,
                forall|q: int, l: int| 0 <= q < k && 0 <= l < 16 ==> #[trigger] f@[q][l] == 0,
            decreases 16 - k,
        {
            f.push(zero_row_u32x16());
            k += 1;
        }
        M4Data { f }
    }

    fn push(&mut self, x: u8, len: usize) -> (zs: Vec<u16>)
        ensures
            forall|p: int|
                0 <= p < N && p > len ==> #[trigger] final(self).lane(p) == if p / 16 <= len / 16
                    + 1 {
                    pushed_lane(old(self).lane(p), p, x, len as int, Self::modulus())
                } else {
                    old(self).lane(p)
                },
    {
        let zs = push_u32x16(&mut self.f, x, len, M4_TEST);
        proof {
            assert forall|p: int| 0 <= p < N implies #[trigger] self.lane(p) == if p / 16 <= len
                / 16 + 1 {
                pushed_lane(old(self).lane(p), p, x, len as int, Self::modulus())
            } else {
                old(self).lane(p)
            } && self.lane(p) < Self::modulus() by {
                lemma_lane_place(p, 16);
                assert(self.f@[p / 16][p % 16] < M4_TEST);
            }

        }
        zs
    }

    fn check(&self, digits: &[u8]) -> (r: bool) {
        // The three prime powers are checked one after another.
        let f1 = digits_mod_u128(digits, M4_3);
        let f2 = digits_mod_u128(digits, M4_7);
        let f3 = digits_mod_u128(digits, M4_11);
        f1 == 0 && f2 == 0 && f3 == 0
    }
}

/// Finds multiples of `M3_1`: eight-lane groups of residues modulo `M3_1`,
/// with nothing further checked.
pub struct M3Data {
    f: Vec<[u64; 8]>,
}

impl M3Data {
    /// Whether the number written by `digits` is also a multiple of the
    /// other two prime factors, `M3_2` and `M3_3`; `check` leaves this out.
    pub fn check_cofactors(&self, digits: &[u8]) -> (r: bool)
        requires
            forall|k: int| 0 <= k < digits.len() ==> #[trigger] digits@[k] < 10,
        ensures
            r == (digits_value(digits@) % (M3_2 as nat) == 0 && digits_value(digits@) % (M3_3 as nat)
                == 0),
    {
        let f2 = digits_mod_u128(digits, M3_2 as u128);
        let f3 = digits_mod_u128(digits, M3_3 as u128);
        f2 == 0 && f3 == 0
    }
}

impl Data for M3Data {
    closed spec fn wf(&self) -> bool {
        &&& self.f@.len() == 32
        &&& forall|q: int, l: int| 0 <= q < 32 && 0 <= l < 8 ==> #[trigger] self.f@[q][l] < M3_1
    }

    closed spec fn lane(&self, p: int) -> nat {
        self.f@[p / 8][p % 8] as nat
    }

    open spec fn modulus() -> nat {
        M3_1 as nat
    }

    open spec fn accepts(v: nat) -> bool {
        true
    }

    proof fn lemma_modulus() {
    }

    fn new() -> (r: Self) {
        let mut f: Vec<[u64; 8]> = Vec::new();
        let mut k: usize = 0;
        while k < 32
            invariant
                0 <= k <= 32,
                f@.len() == k,
                forall|q: int, l: int| 0 <= q < k && 0 <= l < 8 ==> #[trigger] f@[q][l] == 0,
            decreases 32 - k,
        {
            f.push(zero_row_u64x8());
            k += 1;
        }
        M3Data { f }
    }

    fn push(&mut self, x: u8, len: usize) -> (zs: Vec<u16>)
        ensures
            forall|p: int|
                0 <= p < N && p > len ==> #[trigger] final(self).lane(p) == if p / 8 <= len / 8
                    + 1 {
                    pushed_lane(old(self).lane(p), p, x, len as int, Self::modulus())
                } else {
                    old(self).lane(p)
                },
    {
        let zs = push_u64x8(&mut self.f, x, len, M3_1);
        proof {
            assert forall|p: int| 0 <= p < N implies #[trigger] self.lane(p) == if p / 8 <= len
                / 8 + 1 {
                pushed_lane(old(self).lane(p), p, x, len as int, Self::modulus())
            } else {
                old(self).lane(p)
            } && self.lane(p) < Self::modulus() by {
                lemma_lane_place(p, 8);
                assert(self.f@[p / 8][p % 8] < M3_1);
            }

        }
        zs
    }

    fn check(&self, digits: &[u8]) -> (r: bool) {
        true
    }
}

/// Finds multiples of `M2`: eight-lane groups of 124-bit residues, with
/// nothing further checked.
pub struct M2Data {
    f: Vec<U128x8>,
}

impl Data for M2Data {
    closed spec fn wf(&self) -> bool {
        &&& self.f@.len() == 32
        &&& forall|q: int| 0 <= q < 32 ==> (#[trigger] self.f@[q]).in_range()
        &&& forall|q: int, l: int| 0 <= q < 32 && 0 <= l < 8 ==> #[trigger] self.f@[q].lane(l) < M2
    }

    closed spec fn lane(&self, p: int) -> nat {
        self.f@[p / 8].lane(p % 8)
    }

    open spec fn modulus() -> nat {
        M2 as nat
    }

    open spec fn accepts(v: nat) -> bool {
        true
    }

    proof fn lemma_modulus() {
    }

    fn new() -> (r: Self) {
        let mut f: Vec<U128x8> = Vec::new();
        let mut k: usize = 0;
        while k < 32
            invariant
                0 <= k <= 32,
                f@.len() == k,
                forall|q: int| 0 <= q < k ==> (#[trigger] f@[q]).in_range(),
                forall|q: int, l: int| 0 <= q < k && 0 <= l < 8 ==> #[trigger] f@[q].lane(l) == 0,
            decreases 32 - k,
        {
            let z = U128x8::zero();
            f.push(z);
            k += 1;
        }
        M2Data { f }
    }

    fn push(&mut self, x: u8, len: usize) -> (zs: Vec<u16>)
        ensures
            forall|p: int|
                0 <= p < N && p > len ==> #[trigger] final(self).lane(p) == if p / 8 <= len / 8
                    + 1 {
                    pushed_lane(old(self).lane(p), p, x, len as int, Self::modulus())
                } else {
                    old(self).lane(p)
                },
    {
        let zs = push_u128x8(&mut self.f, x, len);
        proof {
            assert forall|p: int| 0 <= p < N implies #[trigger] self.lane(p) == if p / 8 <= len
                / 8 + 1 {
                pushed_lane(old(self).lane(p), p, x, len as int, Self::modulus())
            } else {
                old(self).lane(p)
            } && self.lane(p) < Self::modulus() by {
                lemma_lane_place(p, 8);
                assert(self.f@[p / 8].lane(p % 8) < M2);
            }

        }
        zs
    }

    fn check(&self, digits: &[u8]) -> (r: bool) {
        true
    }
}

/// Finds multiples of the whole third modulus: the lanes of `M3Data`,
/// modulo `M3_1`, with every number found checked against `M3_2` and `M3_3`.
pub struct M3FullData {
    inner: M3Data,
}

impl Data for M3FullData {
    closed spec fn wf(&self) -> bool {
        self.inner.wf()
    }

    closed spec fn lane(&self, p: int) -> nat {
        self.inner.lane(p)
    }

    open spec fn modulus() -> nat {
        M3_1 as nat
    }

    open spec fn accepts(v: nat) -> bool {
        v % (M3_2 as nat) == 0 && v % (M3_3 as nat) == 0
    }

    proof fn lemma_modulus() {
    }

    fn new() -> (r: Self) {
        M3FullData { inner: M3Data::new() }
    }

    fn push(&mut self, x: u8, len: usize) -> (zs: Vec<u16>) {
        self.inner.push(x, len)
    }

    fn check(&self, digits: &[u8]) -> (r: bool) {
        self.inner.check_cofactors(digits)
    }
}

/// A multiple of two numbers with Bezout coefficients `u`, `w`
/// (`u * a + w * b == 1`) is a multiple of their product, and conversely.
pub proof fn lemma_coprime_multiple(v: int, a: int, b: int, u: int, w: int)
    requires
        a > 0,
        b > 0,
        u * a + w * b == 1,
    ensures
        (v % a == 0 && v % b == 0) <==> v % (a * b) == 0,
{
    assert(a * b > 0) by (nonlinear_arith)
        requires
            a > 0,
            b > 0,
    ;
    vstd::arithmetic::div_mod::lemma_fundamental_div_mod(v, a);
    vstd::arithmetic::div_mod::lemma_fundamental_div_mod(v, b);
    vstd::arithmetic::div_mod::lemma_fundamental_div_mod(v, a * b);
    let k1 = v / a;
    let k2 = v / b;
    if v % a == 0 && v % b == 0 {
        let k = u * k2 + w * k1;
        assert(v == (a * b) * k) by (nonlinear_arith)
            requires
                v == a * k1,
                v == b * k2,
                u * a + w * b == 1,
                k == u * k2 + w * k1,
        ;
        vstd::arithmetic::div_mod::lemma_mod_multiples_basic(k, a * b);
        assert(k * (a * b) == (a * b) * k) by (nonlinear_arith);
    }
    if v % (a * b) == 0 {
        let k = v / (a * b);
        assert(v == a * (b * k)) by (nonlinear_arith)
            requires
                v == (a * b) * k + 0,
        ;
        assert(v == b * (a * k)) by (nonlinear_arith)
            requires
                v == (a * b) * k + 0,
        ;
        vstd::arithmetic::div_mod::lemma_mod_multiples_basic(b * k, a);
        assert((b * k) * a == a * (b * k)) by (nonlinear_arith);
        vstd::arithmetic::div_mod::lemma_mod_multiples_basic(a * k, b);
        assert((a * k) * b == b * (a * k)) by (nonlinear_arith);
    }
}

/// The factors of the fourth modulus are the prime powers 3^50, 7^30 and
/// 11^20, and the lanes' modulus is 3^16.
pub proof fn lemma_m4_factors()
    ensures
        M4_3 == power(3, 50),
        M4_7 == power(7, 30),
        M4_11 == power(11, 20),
        M4_TEST == power(3, 16),
{
    reveal_with_fuel(power, 51);
    assert(power(3, 16) == 43046721);
    assert(power(3, 50) == 717897987691852588770249);
    assert(power(7, 30) == 22539340290692258087863249);
    assert(power(11, 20) == 672749994932560009201);
}

/// The first scanner finds exactly the multiples of `M1`: a number whose
/// lane is zero and that its check accepts is a multiple of
/// `M1 = M1_1 * M1_2`, and every multiple of `M1` is one.
pub proof fn lemma_m1_finds_multiples(v: nat)
    ensures
        (v % M1Data::modulus() == 0 && M1Data::accepts(v)) <==> v % (M1 as nat) == 0,
{
    assert(M1_1 == 20079859 && M1_2 == 1006990);
    assert(20079859int * 1006990int == 20220217214410int) by (nonlinear_arith);
    lemma_coprime_multiple(v as int, M1_1 as int, M1_2 as int, 160689, -3204215);
}

/// The check of the fourth scanner accepts a number exactly when it is a
/// multiple of each of 3^50, 7^30 and 11^20.
pub proof fn lemma_m4_accepts_prime_powers(v: nat)
    ensures
        M4Data::accepts(v) <==> (v % power(3, 50) == 0 && v % power(7, 30) == 0 && v % power(
            11,
            20,
        ) == 0),
{
    lemma_m4_factors();
}

/// The check of the fourth scanner accepts exactly the multiples of the
/// whole fourth modulus `3^50 * 7^30 * 11^20`.
pub proof fn lemma_m4_accepts(v: nat)
    ensures
        M4Data::accepts(v) <==> v % (M4_3 as nat * M4_7 as nat * M4_11 as nat) == 0,
{
    let a = M4_3 as int;
    let b = M4_7 as int;
    let c = M4_11 as int;
    lemma_coprime_multiple(v as int, a, b, -4101183229304598308940491, 130626324883571720552740);
    lemma_coprime_multiple(
        v as int,
        a * b,
        c,
        271999411978006518697,
        -6542115366622797533470696524624380467751878618496,
    );
    assert((v as int % a == 0 && v as int % b == 0 && v as int % c == 0) <==> v as int % (a * b
        * c) == 0);
}

/// The fourth scanner finds exactly the multiples of the fourth modulus
/// `3^50 * 7^30 * 11^20`: its lanes test 3^16, and its check the three prime
/// powers.
pub proof fn lemma_m4_finds_multiples(v: nat)
    ensures
        (v % M4Data::modulus() == 0 && M4Data::accepts(v)) <==> v % (M4_3 as nat * M4_7 as nat
            * M4_11 as nat) == 0,
{
    let a = M4_3 as int;
    lemma_m4_accepts(v);
    // 3^16 divides 3^50.
    assert(a == (M4_TEST as int) * 16677181699666569);
    if v as int % a == 0 {
        let k = v as int / a;
        vstd::arithmetic::div_mod::lemma_fundamental_div_mod(v as int, a);
        assert(v as int == (M4_TEST as int) * (16677181699666569 * k)) by (nonlinear_arith)
            requires
                v as int == a * k + 0,
                a == (M4_TEST as int) * 16677181699666569,
        ;
        vstd::arithmetic::div_mod::lemma_mod_multiples_basic(16677181699666569 * k, M4_TEST as int);
        assert((16677181699666569 * k) * (M4_TEST as int) == (M4_TEST as int) * (16677181699666569
            * k)) by (nonlinear_arith);
    }
}

/// With its full check, the third scanner finds exactly the multiples of
/// the whole third modulus `M3_1 * M3_2 * M3_3`.
pub proof fn lemma_m3_full_finds_multiples(v: nat)
    ensures
        (v % M3FullData::modulus() == 0 && M3FullData::accepts(v)) <==> v % (M3_1 as nat
            * M3_2 as nat * M3_3 as nat) == 0,
{
    let a = M3_1 as int;
    let b = M3_2 as int;
    let c = M3_3 as int;
    lemma_coprime_multiple(v as int, b, c, 250000000000000104, -250000000000000103);
    lemma_coprime_multiple(
        v as int,
        a,
        b * c,
        -123454301075268919918413978494645020,
        246908602150537707,
    );
    assert(a * (b * c) == a * b * c) by (nonlinear_arith);
}

} // verus!
