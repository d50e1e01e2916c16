//! Eight lanes of 192-bit unsigned integers, each held as three 64-bit limbs,
//! with wrapping lane-wise arithmetic.
use vstd::prelude::*;
use vstd::arithmetic::div_mod::lemma_fundamental_div_mod_converse;
use vstd::arithmetic::power2::pow2;
use vstd::bits::lemma_u64_shl_is_mul;
use crate::reduce::sub_if_ge;
use crate::u192::{limbs_value, lemma_limbs_order, pow64, pow128, pow192};

verus! {

/// The number held by a lane given as (high, middle, low) limbs.
pub open spec fn lane3_value(l: (u64, u64, u64)) -> nat {
    limbs_value(l.2, l.1, l.0)
}

/// `(a - b) mod 2^192`.
pub open spec fn wrap192_sub(a: nat, b: nat) -> nat {
    ((a - b) % (pow192() as int)) as nat
}

/// `(a + b) mod 2^192`.
pub open spec fn wrap192_add(a: nat, b: nat) -> nat {
    (a + b) % pow192()
}

proof fn lemma_wrap192(x: int, k: int, r: int)
    requires
        0 <= r < pow192(),
        x == r + k * pow192(),
    ensures
        r == x % (pow192() as int),
{
    lemma_fundamental_div_mod_converse(x, pow192() as int, k, r);
}

/// Subtracting `b` undoes adding it: for every 192-bit `a`,
/// `(a + b) - b == a` modulo 2^192.
pub proof fn lemma_sub_undoes_add(a: nat, b: nat)
    requires
        a < pow192(),
    ensures
        wrap192_sub(wrap192_add(a, b), b) == a,
{
    let m = pow192() as int;
    let s = wrap192_add(a, b) as int;
    vstd::arithmetic::div_mod::lemma_fundamental_div_mod((a + b) as int, m);
    let q = (a + b) as int / m;
    assert(s - b == a - q * m);
    lemma_wrap192(s - b, -q, a as int);
}

/// Adding `b` undoes subtracting it: for every 192-bit `a`,
/// `(a - b) + b == a` modulo 2^192.
pub proof fn lemma_add_undoes_sub(a: nat, b: nat)
    requires
        a < pow192(),
    ensures
        wrap192_add(wrap192_sub(a, b), b) == a,
{
    let m = pow192() as int;
    let d = wrap192_sub(a, b) as int;
    vstd::arithmetic::div_mod::lemma_fundamental_div_mod(a - b, m);
    let q = (a - b) / m;
    vstd::arithmetic::div_mod::lemma_mod_bound(a - b, m);
    assert(d + b == a - q * m);
    lemma_wrap192(d + b, -q, a as int);
}

/// Lane difference with borrows carried up through the limbs.
fn sub_lane(s: (u64, u64, u64), o: (u64, u64, u64)) -> (r: (u64, u64, u64))
    ensures
        lane3_value(r) == wrap192_sub(lane3_value(s), lane3_value(o)),
{
    let (sh, sm, sl) = s;
    let (oh, om, ol) = o;
    let lo = sl.wrapping_sub(ol);
    let lo_carry = sl < ol;
    let lo_mask: u64 = if lo_carry { u64::MAX } else { 0 };
    let mi = sm.wrapping_sub(om).wrapping_add(lo_mask);
    let mi_carry = sm < om || (sm == om && lo_carry);
    let mi_mask: u64 = if mi_carry { u64::MAX } else { 0 };
    let hi = sh.wrapping_sub(oh).wrapping_add(mi_mask);
    proof {
        let bl: int = if lo_carry { 1 } else { 0 };
        let bm: int = if mi_carry { 1 } else { 0 };
        let bh: int = if sh - oh - bm < 0 { 1 } else { 0 };
        assert(lo == sl - ol + bl * pow64());
        assert(mi == sm - om - bl + bm * pow64());
        assert(hi == sh - oh - bm + bh * pow64());
        let x = lane3_value(s) as int - lane3_value(o) as int;
        assert(lane3_value((hi, mi, lo)) == x + bh * pow192());
        lemma_wrap192(x, -bh, lane3_value((hi, mi, lo)) as int);
    }
    (hi, mi, lo)
}

/// Lane sum with carries taken up through the limbs.
fn add_lane(s: (u64, u64, u64), o: (u64, u64, u64)) -> (r: (u64, u64, u64))
    ensures
        lane3_value(r) == wrap192_add(lane3_value(s), lane3_value(o)),
{
    let (sh, sm, sl) = s;
    let (oh, om, ol) = o;
    let lo = sl.wrapping_add(ol);
    let lo_carry = lo < ol;
    let lo_mask: u64 = if lo_carry { u64::MAX } else { 0 };
    let mi = sm.wrapping_add(om).wrapping_sub(lo_mask);
    let mi_carry = mi < om || (sm == u64::MAX && lo_carry);
    let mi_mask: u64 = if mi_carry { u64::MAX } else { 0 };
    let hi = sh.wrapping_add(oh).wrapping_sub(mi_mask);
    proof {
        let cl: int = if sl + ol > u64::MAX { 1 } else { 0 };
        assert(lo == sl + ol - cl * pow64());
        assert(lo_carry == (cl == 1));
        let cm: int = if sm + om + cl > u64::MAX { 1 } else { 0 };
        assert(mi == sm + om + cl - cm * pow64());
        assert(mi_carry == (cm == 1));
        let ch: int = if sh + oh + cm > u64::MAX { 1 } else { 0 };
        assert(hi == sh + oh + cm - ch * pow64());
        let x = lane3_value(s) as int + lane3_value(o) as int;
        assert(lane3_value((hi, mi, lo)) == x - ch * pow192());
        lemma_wrap192(x, ch, lane3_value((hi, mi, lo)) as int);
    }
    (hi, mi, lo)
}

/// One lane of `shl`: each limb shifted left, with the bits pushed out of the
/// limb below brought in; shift amounts wrap at 64 as vector shifts do.
pub open spec fn shl_lane(s: (u64, u64, u64), rhs: u8) -> (u64, u64, u64) {
    let l = (rhs as u64) % 64;
    let r = ((64 - rhs) as u64) % 64;
    ((s.0 << l) | (s.1 >> r), (s.1 << l) | (s.2 >> r), s.2 << l)
}

proof fn lemma_shift_split(a: u64, k: u64, j: u64)
    by (bit_vector)
    requires
        1 <= k < 64,
        j == 64 - k,
    ensures
        ((a << k) as u128) + (((a >> j) as u128) << 64u128) == (a as u128) * ((1u64 << k) as u128),
        (a >> j) < (1u64 << k),
{
}

proof fn lemma_shift_join(b: u64, a: u64, k: u64, j: u64)
    by (bit_vector)
    requires
        1 <= k < 64,
        j == 64 - k,
    ensures
        ((b << k) | (a >> j)) == (b << k) + (a >> j),
{
}

/// For shifts of 1 to 63 bits, `shl_lane` multiplies the lane by `2^rhs` modulo 2^192.
pub proof fn lemma_shl_lane(s: (u64, u64, u64), rhs: u8)
    requires
        1 <= rhs <= 63,
    ensures
        lane3_value(shl_lane(s, rhs)) == (lane3_value(s) * pow2(rhs as nat)) % pow192(),
{
    let k = rhs as u64;
    let j = (64 - rhs) as u64;
    assert(k % 64 == k && j % 64 == j);
    vstd::bits::lemma_u64_pow2_no_overflow(k as nat);
    lemma_u64_shl_is_mul(1, k);
    let p = (1u64 << k) as int;
    assert(p == pow2(k as nat));
    let (h, m, l) = s;
    lemma_shift_split(h, k, j);
    lemma_shift_split(m, k, j);
    lemma_shift_split(l, k, j);
    lemma_shift_join(h, m, k, j);
    lemma_shift_join(m, l, k, j);
    let c2 = (h >> j) as int;
    let c1 = (m >> j) as int;
    let c0 = (l >> j) as int;
    assert(((l << k) as u128) + ((c0 as u128) << 64u128) == (l as u128) * (p as u128));
    let c0u = l >> j;
    let c1u = m >> j;
    let c2u = h >> j;
    assert(((c0u as u128) << 64u128) == (c0u as u128) * 0x1_0000_0000_0000_0000u128)
        by (bit_vector);
    assert(((c1u as u128) << 64u128) == (c1u as u128) * 0x1_0000_0000_0000_0000u128)
        by (bit_vector);
    assert(((c2u as u128) << 64u128) == (c2u as u128) * 0x1_0000_0000_0000_0000u128)
        by (bit_vector);
    let lo2 = (l << k) as int;
    let mi2 = (m << k) as int + c0;
    let hi2 = (h << k) as int + c1;
    assert(lo2 == l * p - c0 * pow64());
    assert(mi2 == m * p - c1 * pow64() + c0);
    assert(hi2 == h * p - c2 * pow64() + c1);
    let v = lane3_value(s) as int;
    assert(lo2 + mi2 * pow64() + hi2 * pow128() == v * p - c2 * pow192()) by (nonlinear_arith)
        requires
            lo2 == l * p - c0 * pow64(),
            mi2 == m * p - c1 * pow64() + c0,
            hi2 == h * p - c2 * pow64() + c1,
            v == l + m * pow64() + h * pow128(),
            pow128() == pow64() * pow64(),
            pow192() == pow128() * pow64(),
    ;
    assert(lane3_value(shl_lane(s, rhs)) == lo2 + mi2 * pow64() + hi2 * pow128());
    let r = lane3_value(shl_lane(s, rhs)) as int;
    crate::u192::lemma_limbs_bound(shl_lane(s, rhs).2, shl_lane(s, rhs).1, shl_lane(s, rhs).0);
    lemma_wrap192(v * p, c2, r);
}

/// Vector of eight unsigned 192-bit lanes, each kept as three 64-bit limbs.
#[derive(Clone, Copy, Debug)]
pub struct U192x8 {
    hi: [u64; 8],
    mi: [u64; 8],
    lo: [u64; 8],
}

impl U192x8 {
    /// The (high, middle, low) limbs of lane `i`.
    pub closed spec fn limbs(self, i: int) -> (u64, u64, u64) {
        (self.hi[i], self.mi[i], self.lo[i])
    }

    /// The number held by lane `i`.
    pub open spec fn lane(self, i: int) -> nat {
        lane3_value(self.limbs(i))
    }

    fn get_lane(&self, i: usize) -> (r: (u64, u64, u64))
        requires
            i < 8,
        ensures
            r == self.limbs(i as int),
    {
        (self.hi[i], self.mi[i], self.lo[i])
    }

    fn set_lane(&mut self, i: usize, l: (u64, u64, u64))
        requires
            i < 8,
        ensures
            final(self).limbs(i as int) == l,
            forall|j: int|
                0 <= j < 8 && j != i ==> #[trigger] final(self).limbs(j) == old(self).limbs(j),
    {
        self.hi[i] = l.0;
        self.mi[i] = l.1;
        self.lo[i] = l.2;
        assert(forall|j: int|
            0 <= j < 8 && j != i ==> #[trigger] self.limbs(j) == old(self).limbs(j));
    }

    /// Eight lanes holding the eight given 128-bit values.
    pub fn from_array(x: [u128; 8]) -> (r: Self)
        ensures
            forall|i: int| 0 <= i < 8 ==> #[trigger] r.lane(i) == x[i],
            forall|i: int|
                0 <= i < 8 ==> #[trigger] r.limbs(i) == (0u64, (x[i] >> 64u128) as u64, x[i] as u64),
    {
        let mut r = U192x8 { hi: [0; 8], mi: [0; 8], lo: [0; 8] };
        let mut i: usize = 0;
        while i < 8
            invariant
                0 <= i <= 8,
                forall|j: int|
                    0 <= j < i ==> #[trigger] r.limbs(j) == (0u64, (x[j] >> 64u128) as u64,
                        x[j] as u64),
                forall|j: int| 0 <= j < i ==> lane3_value(#[trigger] r.limbs(j)) == x[j],
            decreases 8 - i,
        {
            let v = x[i];
            proof {
                crate::u192::lemma_split_u128(v);
            }
            r.set_lane(i, (0, (v >> 64u128) as u64, v as u64));
            i += 1;
        }
        r
    }

    /// Eight lanes of zero.
    pub fn zero() -> (r: Self)
        ensures
            forall|i: int| 0 <= i < 8 ==> #[trigger] r.limbs(i) == (0u64, 0u64, 0u64),
            forall|i: int| 0 <= i < 8 ==> #[trigger] r.lane(i) == 0,
    {
        let r = U192x8::splat([0, 0, 0]);
        proof {
            assert forall|i: int| 0 <= i < 8 implies #[trigger] r.lane(i) == 0 by {
                assert(r.limbs(i) == (0u64, 0u64, 0u64));
            }
        }
        r
    }

    /// Eight lanes of 2^192 - 1, every limb all ones.
    pub fn max() -> (r: Self)
        ensures
            forall|i: int| 0 <= i < 8 ==> #[trigger] r.limbs(i) == (u64::MAX, u64::MAX, u64::MAX),
            forall|i: int| 0 <= i < 8 ==> #[trigger] r.lane(i) == pow192() - 1,
    {
        let r = U192x8::splat([u64::MAX, u64::MAX, u64::MAX]);
        proof {
            assert forall|i: int| 0 <= i < 8 implies #[trigger] r.lane(i) == pow192() - 1 by {
                assert(r.limbs(i) == (u64::MAX, u64::MAX, u64::MAX));
            }
        }
        r
    }

    /// All eight lanes set to the value of the little-endian limbs `x`.
    pub fn splat(x: [u64; 3]) -> (r: Self)
        ensures
            forall|i: int| 0 <= i < 8 ==> #[trigger] r.limbs(i) == (x[2], x[1], x[0]),
            forall|i: int| 0 <= i < 8 ==> #[trigger] r.lane(i) == limbs_value(x[0], x[1], x[2]),
    {
        let (a, b, c) = (x[2], x[1], x[0]);
        let r = U192x8 {
            hi: [a, a, a, a, a, a, a, a],
            mi: [b, b, b, b, b, b, b, b],
            lo: [c, c, c, c, c, c, c, c],
        };
        proof {
            assert(r.hi@ =~= seq![a, a, a, a, a, a, a, a]);
            assert(r.mi@ =~= seq![b, b, b, b, b, b, b, b]);
            assert(r.lo@ =~= seq![c, c, c, c, c, c, c, c]);
            assert forall|i: int| 0 <= i < 8 implies #[trigger] r.limbs(i) == (x[2], x[1], x[0]) by {
                assert(r.hi@[i] == a && r.mi@[i] == b && r.lo@[i] == c);
            }
        }
        r
    }

    /// Which lanes of `self` exceed the matching lane of `other`.
    pub fn lanes_gt(self, other: Self) -> (r: [bool; 8])
        ensures
            forall|i: int| 0 <= i < 8 ==> r[i] == (self.lane(i) > other.lane(i)),
    {
        let mut r = [false; 8];
        let mut i: usize = 0;
        while i < 8
            invariant
                0 <= i <= 8,
                forall|j: int| 0 <= j < i ==> r[j] == (self.lane(j) > other.lane(j)),
            decreases 8 - i,
        {
            let (sh, sm, sl) = self.get_lane(i);
            let (oh, om, ol) = other.get_lane(i);
            proof {
                lemma_limbs_order([sl, sm, sh], [ol, om, oh]);
                lemma_limbs_order([ol, om, oh], [sl, sm, sh]);
            }
            let hi_eq = sh == oh;
            let mi_eq = sm == om;
            let hi_gt = sh > oh;
            let mi_gt = sm > om;
            let lo_gt = sl > ol;
            r[i] = if hi_eq {
                if mi_eq {
                    lo_gt
                } else {
                    mi_gt
                }
            } else {
                hi_gt
            };
            i += 1;
        }
        r
    }

    /// Lane-wise `self - other` where `self >= other`, and `self` unchanged elsewhere.
    pub fn sub_on_ge(self, other: Self) -> (r: Self)
        ensures
            forall|i: int|
                0 <= i < 8 ==> #[trigger] r.lane(i) == sub_if_ge(
                    self.lane(i) as int,
                    other.lane(i) as int,
                ),
    {
        let c = self.sub(other);
        let underflow = other.lanes_gt(self);
        let mut r = self;
        let mut i: usize = 0;
        while i < 8
            invariant
                0 <= i <= 8,
                forall|j: int| 0 <= j < 8 ==> underflow[j] == (other.lane(j) > self.lane(j)),
                forall|j: int|
                    0 <= j < 8 ==> #[trigger] c.lane(j) == wrap192_sub(self.lane(j), other.lane(j)),
                forall|j: int|
                    0 <= j < i ==> lane3_value(#[trigger] r.limbs(j)) == sub_if_ge(
                        self.lane(j) as int,
                        other.lane(j) as int,
                    ),
            decreases 8 - i,
        {
            proof {
                let (sh, sm, sl) = self.limbs(i as int);
                crate::u192::lemma_limbs_bound(sl, sm, sh);
                let a = self.lane(i as int);
                let b = other.lane(i as int);
                assert(underflow[i as int] == (b > a));
                assert(c.lane(i as int) == wrap192_sub(a, b));
                if a >= b {
                    lemma_wrap192(a - b, 0, a - b);
                }
            }
            if underflow[i] {
                let l = self.get_lane(i);
                r.set_lane(i, l);
            } else {
                let l = c.get_lane(i);
                r.set_lane(i, l);
            }
            i += 1;
        }
        r
    }

    /// Lane-wise sum modulo 2^192.
    pub fn add(self, rhs: Self) -> (r: Self)
        ensures
            forall|i: int|
                0 <= i < 8 ==> #[trigger] r.lane(i) == wrap192_add(self.lane(i), rhs.lane(i)),
    {
        let mut r = self;
        let mut i: usize = 0;
        while i < 8
            invariant
                0 <= i <= 8,
                forall|j: int|
                    0 <= j < i ==> lane3_value(#[trigger] r.limbs(j)) == wrap192_add(self.lane(j), rhs.lane(j)),
            decreases 8 - i,
        {
            let l = add_lane(self.get_lane(i), rhs.get_lane(i));
            r.set_lane(i, l);
            i += 1;
        }
        r
    }

    /// Adds the small value `rhs` to every lane, modulo 2^192.
    pub fn add_u8(self, rhs: u8) -> (r: Self)
        ensures
            forall|i: int|
                0 <= i < 8 ==> #[trigger] r.lane(i) == wrap192_add(self.lane(i), rhs as nat),
    {
        self.add(U192x8::splat([rhs as u64, 0, 0]))
    }

    /// Lane-wise difference modulo 2^192.
    pub fn sub(self, rhs: Self) -> (r: Self)
        ensures
            forall|i: int|
                0 <= i < 8 ==> #[trigger] r.lane(i) == wrap192_sub(self.lane(i), rhs.lane(i)),
    {
        let mut r = self;
        let mut i: usize = 0;
        while i < 8
            invariant
                0 <= i <= 8,
                forall|j: int|
                    0 <= j < i ==> lane3_value(#[trigger] r.limbs(j)) == wrap192_sub(self.lane(j), rhs.lane(j)),
            decreases 8 - i,
        {
            let l = sub_lane(self.get_lane(i), rhs.get_lane(i));
            r.set_lane(i, l);
            i += 1;
        }
        r
    }

    /// Lane-wise left shift of the 192-bit values by `rhs` bits.
    ///
    /// Shift amounts wrap at 64 within each limb, as vector shifts do, so that
    /// for `1 <= rhs <= 63` each lane is multiplied by `2^rhs` modulo 2^192.
    pub fn shl(self, rhs: u8) -> (r: Self)
        requires
            rhs <= 64,
        ensures
            forall|i: int| 0 <= i < 8 ==> #[trigger] r.limbs(i) == shl_lane(self.limbs(i), rhs),
            1 <= rhs <= 63 ==> forall|i: int|
                0 <= i < 8 ==> #[trigger] r.lane(i) == (self.lane(i) * pow2(rhs as nat)) % pow192(),
    {
        let lbit: u64 = (rhs as u64) % 64;
        let rbit: u64 = (64 - rhs as u64) % 64;
        let mut r = self;
        let mut i: usize = 0;
        while i < 8
            invariant
                0 <= i <= 8,
                lbit == (rhs as u64) % 64,
                rbit == ((64 - rhs) as u64) % 64,
                forall|j: int|
                    0 <= j < i ==> #[trigger] r.limbs(j) == shl_lane(self.limbs(j), rhs),
            decreases 8 - i,
        {
            let (sh, sm, sl) = self.get_lane(i);
            let lo = sl << lbit;
            let mi = (sm << lbit) | (sl >> rbit);
            let hi = (sh << lbit) | (sm >> rbit);
            r.set_lane(i, (hi, mi, lo));
            i += 1;
        }
        proof {
            if 1 <= rhs <= 63 {
                assert forall|i: int| 0 <= i < 8 implies #[trigger] r.lane(i) == (self.lane(i)
                    * pow2(rhs as nat)) % pow192() by {
                    lemma_shl_lane(self.limbs(i), rhs);
                }
            }
        }
        r
    }

    /// Lane-wise bitwise and of the limbs.
    pub fn bitand(self, rhs: Self) -> (r: Self)
        ensures
            forall|i: int|
                0 <= i < 8 ==> #[trigger] r.limbs(i) == (self.limbs(i).0 & rhs.limbs(i).0,
                    self.limbs(i).1 & rhs.limbs(i).1, self.limbs(i).2 & rhs.limbs(i).2),
    {
        let mut r = self;
        let mut i: usize = 0;
        while i < 8
            invariant
                0 <= i <= 8,
                forall|j: int|
                    0 <= j < i ==> #[trigger] r.limbs(j) == (self.limbs(j).0 & rhs.limbs(j).0,
                        self.limbs(j).1 & rhs.limbs(j).1, self.limbs(j).2 & rhs.limbs(j).2),
            decreases 8 - i,
        {
            let (sh, sm, sl) = self.get_lane(i);
            let (oh, om, ol) = rhs.get_lane(i);
            r.set_lane(i, (sh & oh, sm & om, sl & ol));
            i += 1;
        }
        r
    }

    /// Lane-wise bitwise or of the limbs.
    pub fn bitor(self, rhs: Self) -> (r: Self)
        ensures
            forall|i: int|
                0 <= i < 8 ==> #[trigger] r.limbs(i) == (self.limbs(i).0 | rhs.limbs(i).0,
                    self.limbs(i).1 | rhs.limbs(i).1, self.limbs(i).2 | rhs.limbs(i).2),
    {
        let mut r = self;
        let mut i: usize = 0;
        while i < 8
            invariant
                0 <= i <= 8,
                forall|j: int|
                    0 <= j < i ==> #[trigger] r.limbs(j) == (self.limbs(j).0 | rhs.limbs(j).0,
                        self.limbs(j).1 | rhs.limbs(j).1, self.limbs(j).2 | rhs.limbs(j).2),
            decreases 8 - i,
        {
            let (sh, sm, sl) = self.get_lane(i);
            let (oh, om, ol) = rhs.get_lane(i);
            r.set_lane(i, (sh | oh, sm | om, sl | ol));
            i += 1;
        }
        r
    }
}

impl Default for U192x8 {
    /// All lanes zero.
    fn default() -> (r: Self)
        ensures
            forall|i: int| 0 <= i < 8 ==> #[trigger] r.limbs(i) == (0u64, 0u64, 0u64),
    {
        let z: [u64; 8] = [0, 0, 0, 0, 0, 0, 0, 0];
        let r = U192x8 { hi: z, mi: z, lo: z };
        proof {
            assert(z@ =~= seq![0u64, 0, 0, 0, 0, 0, 0, 0]);
        }
        r
    }
}

/// A lane mask as integers: all ones where the mask is set, zero elsewhere.
pub fn to_u64x8(mask: [bool; 8]) -> (r: [u64; 8])
    ensures
        forall|i: int| 0 <= i < 8 ==> r[i] == if mask[i] { u64::MAX } else { 0u64 },
{
    let mut r = [0u64; 8];
    let mut i: usize = 0;
    while i < 8
        invariant
            0 <= i <= 8,
            forall|j: int| 0 <= j < i ==> r[j] == if mask[j] { u64::MAX } else { 0u64 },
        decreases 8 - i,
    {
        r[i] = if mask[i] { u64::MAX } else { 0 };
        i += 1;
    }
    r
}

} // verus!
