//! Eight lanes of `u128` values, each held as a 64-bit high limb over a
//! 60-bit low limb, with the four top bits apart, and the lane-wise
//! arithmetic of the scanners.
//!
//! The arithmetic works on the two limbs, 124 bits: the four spare bits of
//! the low limb take the carry of `mul10_add`, and the top bit of a limb
//! difference tells the borrow in `sub_on_ge`. The scanners keep lanes below
//! `10 * M2 + 10`, far under 2^124, where the top bits are zero; the
//! arithmetic carries them through unchanged.
use vstd::prelude::*;
use vstd::wrapping::u64_specs::{wrapping_add, wrapping_mul, wrapping_sub};
use crate::reduce::{sub_if_ge, reduce_4421};

verus! {

/// Mask of the low 60 bits, the part of a lane kept in its low limb.
pub const MASK: u64 = 0x0fff_ffff_ffff_ffff;

/// 2^60, the weight of a lane's high limb.
pub open spec fn pow60() -> nat {
    1152921504606846976nat
}

/// 2^63, the bound below which high limbs compare correctly.
pub open spec fn pow63() -> nat {
    9223372036854775808nat
}

/// 2^124, the weight of a lane's top bits and the range of its two limbs.
pub open spec fn pow124() -> nat {
    21267647932558653966460912964485513216nat
}

/// The number held by a lane given as (high limb, low limb).
pub open spec fn lane_value(l: (u64, u64)) -> nat {
    l.0 as nat * pow60() + l.1 as nat
}

/// The limbs that `splat` and `set` write for `x`.
pub open spec fn splat_lane(x: u128) -> (u64, u64) {
    ((x >> 60u128) as u64, (x as u64) & MASK)
}

/// One lane of `sub_on_ge`: the limb-wise wrapping difference, kept when the
/// sign tests say `s >= o`, else `s` unchanged.
pub open spec fn sub_on_ge_lane(s: (u64, u64), o: (u64, u64)) -> (u64, u64) {
    let c_lo = wrapping_sub(s.1, o.1);
    let c_hi = wrapping_sub(s.0, o.0);
    let hi_eq = c_hi == 0;
    let hi_ge = (c_hi & 0x8000_0000_0000_0000u64) == 0;
    let lo_ge = (c_lo >> 63u64) == 0;
    let ge = if hi_eq {
        lo_ge
    } else {
        hi_ge
    };
    if ge {
        (wrapping_sub(c_hi, c_lo >> 63u64), c_lo & MASK)
    } else {
        s
    }
}

/// One lane of `mul10_add`: wrapping `10 * lo + b` carried into `10 * hi`.
pub open spec fn mul10_add_lane(s: (u64, u64), b: u64) -> (u64, u64) {
    let lo = wrapping_add(wrapping_mul(s.1, 10), b);
    (wrapping_add(wrapping_mul(s.0, 10), lo >> 60u64), lo & MASK)
}

/// One lane of `rem10`: `sub_on_ge` against `4m`, `4m`, `2m`, then `m`.
pub open spec fn rem10_lane(s: (u64, u64), m: u128) -> (u64, u64) {
    sub_on_ge_lane(
        sub_on_ge_lane(
            sub_on_ge_lane(
                sub_on_ge_lane(s, splat_lane((4 * m) as u128)),
                splat_lane((4 * m) as u128),
            ),
            splat_lane((2 * m) as u128),
        ),
        splat_lane(m),
    )
}

/// A lane is in range when its low limb uses only 60 bits and its high limb
/// stays below 2^63, so that sign tests on limb differences are exact.
pub open spec fn lane_in_range(l: (u64, u64)) -> bool {
    l.1 < pow60() && l.0 < pow63()
}

proof fn lemma_splat_lane(x: u128)
    ensures
        lane_value(splat_lane(x)) == x as nat % pow124(),
        splat_lane(x).1 < pow60(),
        x < pow124() ==> lane_value(splat_lane(x)) == x,
        x < pow124() / 2 ==> lane_in_range(splat_lane(x)),
{
    assert((((x >> 60u128) as u64) as u128) * 0x1000_0000_0000_0000u128 + (((x as u64)
        & 0x0fff_ffff_ffff_ffffu64) as u128) == x % 0x1000_0000_0000_0000_0000_0000_0000_0000u128)
        by (bit_vector);
    assert(((x as u64) & 0x0fff_ffff_ffff_ffffu64) < 0x1000_0000_0000_0000u64) by (bit_vector);
    assert(x < 0x0800_0000_0000_0000_0000_0000_0000_0000u128 ==> ((x >> 60u128) as u64)
        < 0x8000_0000_0000_0000u64) by (bit_vector);
}

proof fn lemma_top_bits(x: u128)
    ensures
        ((x >> 124u128) as u8) < 16,
        ((x >> 124u128) as u8) as nat * pow124() + x as nat % pow124() == x,
{
    assert(((x >> 124u128) as u8) < 16u8) by (bit_vector);
    assert(((x >> 124u128) as u8) as u128 == x / 0x1000_0000_0000_0000_0000_0000_0000_0000u128)
        by (bit_vector);
    vstd::arithmetic::div_mod::lemma_fundamental_div_mod(x as int, pow124() as int);
}

proof fn lemma_compare_hi(sh: u64, oh: u64)
    requires
        sh < 0x8000_0000_0000_0000u64,
        oh < 0x8000_0000_0000_0000u64,
    ensures
        (wrapping_sub(sh, oh) == 0) == (sh == oh),
        ((wrapping_sub(sh, oh) & 0x8000_0000_0000_0000u64) == 0) == (sh >= oh),
        sh >= oh ==> wrapping_sub(sh, oh) == sh - oh,
{
    let c = wrapping_sub(sh, oh);
    assert(sh >= oh ==> c == sh - oh);
    assert(sh < oh ==> c == sh - oh + 0x1_0000_0000_0000_0000);
    assert((c & 0x8000_0000_0000_0000u64) == 0 <==> c < 0x8000_0000_0000_0000u64)
        by (bit_vector);
}

proof fn lemma_compare_lo(sl: u64, ol: u64)
    requires
        sl < 0x1000_0000_0000_0000u64,
        ol < 0x1000_0000_0000_0000u64,
    ensures
        ((wrapping_sub(sl, ol) >> 63u64) == 0) == (sl >= ol),
        (wrapping_sub(sl, ol) >> 63u64) <= 1,
        sl >= ol ==> (wrapping_sub(sl, ol) >> 63u64) == 0 && (wrapping_sub(sl, ol) & MASK) == sl
            - ol,
        sl < ol ==> (wrapping_sub(sl, ol) >> 63u64) == 1 && (wrapping_sub(sl, ol) & MASK) == sl
            - ol + 0x1000_0000_0000_0000,
{
    let c = wrapping_sub(sl, ol);
    assert(c >> 63u64 <= 1) by (bit_vector);
    if sl >= ol {
        assert(c == sl - ol);
        assert(c < 0x1000_0000_0000_0000u64 ==> (c >> 63u64) == 0 && (c
            & 0x0fff_ffff_ffff_ffffu64) == c) by (bit_vector);
    } else {
        assert(c == sl - ol + 0x1_0000_0000_0000_0000);
        lemma_borrowed_low(sl, ol, c);
    }
}

proof fn lemma_borrowed_low(sl: u64, ol: u64, c: u64)
    by (bit_vector)
    requires
        sl < ol,
        ol < 0x1000_0000_0000_0000u64,
        c == sl - ol + 0x1_0000_0000_0000_0000,
    ensures
        (c >> 63u64) == 1,
        (c & 0x0fff_ffff_ffff_ffffu64) == sl - ol + 0x1000_0000_0000_0000,
{
}

/// In range, `sub_on_ge_lane` subtracts exactly when the lane is at least the other.
pub proof fn lemma_sub_on_ge_lane(s: (u64, u64), o: (u64, u64))
    requires
        lane_in_range(s),
        lane_in_range(o),
    ensures
        lane_value(sub_on_ge_lane(s, o)) == sub_if_ge(lane_value(s) as int, lane_value(o) as int),
        lane_in_range(sub_on_ge_lane(s, o)),
        sub_on_ge_lane(s, o).0 <= s.0,
{
    lemma_compare_hi(s.0, o.0);
    lemma_compare_lo(s.1, o.1);
    let c_lo = wrapping_sub(s.1, o.1);
    let c_hi = wrapping_sub(s.0, o.0);
    if s.0 > o.0 {
        assert(c_hi >= 1);
        assert(wrapping_sub(c_hi, c_lo >> 63u64) == c_hi - (c_lo >> 63u64));
    } else if s.0 == o.0 && s.1 >= o.1 {
        assert(wrapping_sub(c_hi, c_lo >> 63u64) == 0);
    }
}

/// Within 124 bits the lane-level 4-4-2-1 chain is `reduce_4421` on values.
pub proof fn lemma_rem10_lane(s: (u64, u64), m: u128)
    requires
        lane_in_range(s),
        4 * m < pow124() / 2,
    ensures
        lane_value(rem10_lane(s, m)) == reduce_4421(lane_value(s) as int, m as int),
        lane_in_range(rem10_lane(s, m)),
{
    let m4 = splat_lane((4 * m) as u128);
    let m2 = splat_lane((2 * m) as u128);
    let m1 = splat_lane(m);
    lemma_splat_lane((4 * m) as u128);
    lemma_splat_lane((2 * m) as u128);
    lemma_splat_lane(m);
    let a = sub_on_ge_lane(s, m4);
    lemma_sub_on_ge_lane(s, m4);
    let b = sub_on_ge_lane(a, m4);
    lemma_sub_on_ge_lane(a, m4);
    let c = sub_on_ge_lane(b, m2);
    lemma_sub_on_ge_lane(b, m2);
    lemma_sub_on_ge_lane(c, m1);
}

/// Vector of eight `u128` values: lane `i` holds
/// `top[i] * 2^124 + hi[i] * 2^60 + lo[i]`, with a 60-bit low limb and the
/// four top bits in `top`.
#[derive(Clone, Copy, Debug)]
pub struct U128x8 {
    top: [u8; 8],
    hi: [u64; 8],
    lo: [u64; 8],
}

impl U128x8 {
    /// The (high limb, low limb) pair of lane `i`.
    pub closed spec fn limbs(self, i: int) -> (u64, u64) {
        (self.hi[i], self.lo[i])
    }

    /// The four top bits of lane `i`.
    pub closed spec fn top(self, i: int) -> u8 {
        self.top[i]
    }

    /// The number held by lane `i`.
    pub open spec fn lane(self, i: int) -> nat {
        self.top(i) as nat * pow124() + lane_value(self.limbs(i))
    }

    /// Every low limb uses only its 60 bits, and the top part only four.
    pub open spec fn wf(self) -> bool {
        forall|i: int| 0 <= i < 8 ==> #[trigger] self.limbs(i).1 < pow60() && self.top(i) < 16
    }

    /// Every lane is in range for the arithmetic: no top bits, and limbs in range.
    pub open spec fn in_range(self) -> bool {
        forall|i: int| 0 <= i < 8 ==> lane_in_range(#[trigger] self.limbs(i)) && self.top(i) == 0
    }

    /// Which lanes hold zero.
    pub fn is_zero(self) -> (r: [bool; 8])
        ensures
            forall|i: int| 0 <= i < 8 ==> r[i] == (self.lane(i) == 0),
    {
        let mut r = [false; 8];
        let mut i: usize = 0;
        while i < 8
            invariant
                0 <= i <= 8,
                forall|j: int| 0 <= j < i ==> r[j] == (self.lane(j) == 0),
            decreases 8 - i,
        {
            let h = self.hi[i];
            let l = self.lo[i];
            proof {
                assert(((h | l) == 0) == (h == 0 && l == 0)) by (bit_vector);
            }
            r[i] = (h | l) == 0 && self.top[i] == 0;
            i += 1;
        }
        r
    }

    /// Eight lanes of zero.
    pub fn zero() -> (r: Self)
        ensures
            forall|i: int| 0 <= i < 8 ==> #[trigger] r.lane(i) == 0,
            r.wf(),
            r.in_range(),
    {
        let r = U128x8::splat(0);
        proof {
            assert forall|i: int| 0 <= i < 8 implies lane_in_range(#[trigger] r.limbs(i)) && r.top(i) == 0 by {
                assert(r.lane(i) == 0);
            }
        }
        r
    }

    /// Eight lanes of `u128::MAX`.
    pub fn max() -> (r: Self)
        ensures
            forall|i: int| 0 <= i < 8 ==> #[trigger] r.lane(i) == u128::MAX,
            r.wf(),
    {
        U128x8::splat(u128::MAX)
    }

    /// All eight lanes set to `x`.
    pub fn splat(x: u128) -> (r: Self)
        ensures
            forall|i: int| 0 <= i < 8 ==> #[trigger] r.lane(i) == x,
            forall|i: int| 0 <= i < 8 ==> #[trigger] r.limbs(i) == splat_lane(x),
            forall|i: int| 0 <= i < 8 ==> #[trigger] r.top(i) == (x >> 124u128) as u8,
            r.wf(),
    {
        proof {
            lemma_splat_lane(x);
            lemma_top_bits(x);
        }
        let t = (x >> 124u128) as u8;
        let h = (x >> 60u128) as u64;
        let l = (x as u64) & MASK;
        let r = U128x8 {
            top: [t, t, t, t, t, t, t, t],
            hi: [h, h, h, h, h, h, h, h],
            lo: [l, l, l, l, l, l, l, l],
        };
        proof {
            assert(r.top@ =~= seq![t, t, t, t, t, t, t, t]);
            assert(r.hi@ =~= seq![h, h, h, h, h, h, h, h]);
            assert(r.lo@ =~= seq![l, l, l, l, l, l, l, l]);
            assert forall|i: int| 0 <= i < 8 implies #[trigger] r.limbs(i) == splat_lane(x)
                && r.top(i) == t by {
                assert(r.hi@[i] == h && r.lo@[i] == l && r.top@[i] == t);
            }
        }
        r
    }

    /// All eight lanes set to `x` with its top four bits dropped: the
    /// subtrahends of `rem10`, which work on the two limbs alone.
    fn splat_limbs(x: u128) -> (r: Self)
        ensures
            forall|i: int| 0 <= i < 8 ==> #[trigger] r.limbs(i) == splat_lane(x),
            forall|i: int| 0 <= i < 8 ==> #[trigger] r.top(i) == 0,
    {
        let h = (x >> 60u128) as u64;
        let l = (x as u64) & MASK;
        let r = U128x8 {
            top: [0, 0, 0, 0, 0, 0, 0, 0],
            hi: [h, h, h, h, h, h, h, h],
            lo: [l, l, l, l, l, l, l, l],
        };
        proof {
            assert(r.top@ =~= seq![0u8, 0, 0, 0, 0, 0, 0, 0]);
            assert(r.hi@ =~= seq![h, h, h, h, h, h, h, h]);
            assert(r.lo@ =~= seq![l, l, l, l, l, l, l, l]);
            assert forall|i: int| 0 <= i < 8 implies #[trigger] r.limbs(i) == splat_lane(x)
                && r.top(i) == 0 by {
                assert(r.hi@[i] == h && r.lo@[i] == l && r.top@[i] == 0);
            }
        }
        r
    }

    /// Lane-wise `self - other` where `self >= other`, and `self` unchanged elsewhere.
    ///
    /// The test is made on the limbs' differences, which is exact while every
    /// lane of both vectors is in range.
    pub fn sub_on_ge(self, other: Self) -> (r: Self)
        ensures
            forall|i: int|
                0 <= i < 8 ==> #[trigger] r.limbs(i) == sub_on_ge_lane(
                    self.limbs(i),
                    other.limbs(i),
                ),
            forall|i: int| 0 <= i < 8 ==> #[trigger] r.top(i) == self.top(i),
            self.in_range() && other.in_range() ==> r.in_range(),
            self.in_range() && other.in_range() ==> forall|i: int|
                0 <= i < 8 ==> #[trigger] r.lane(i) == sub_if_ge(
                    self.lane(i) as int,
                    other.lane(i) as int,
                ),
    {
        let mut r = self;
        let mut i: usize = 0;
        while i < 8
            invariant
                0 <= i <= 8,
                forall|j: int|
                    0 <= j < i ==> #[trigger] r.limbs(j) == sub_on_ge_lane(
                        self.limbs(j),
                        other.limbs(j),
                    ),
                r.top == self.top,
            decreases 8 - i,
        {
            let c_lo = self.lo[i].wrapping_sub(other.lo[i]);
            let c_hi = self.hi[i].wrapping_sub(other.hi[i]);
            let hi_eq = c_hi == 0;
            let hi_ge = (c_hi & 0x8000_0000_0000_0000u64) == 0;
            let lo_ge = (c_lo >> 63u64) == 0;
            let ge = if hi_eq {
                lo_ge
            } else {
                hi_ge
            };
            let ghost prev = r;
            if ge {
                r.hi[i] = c_hi.wrapping_sub(c_lo >> 63u64);
                r.lo[i] = c_lo & MASK;
            } else {
                r.hi[i] = self.hi[i];
                r.lo[i] = self.lo[i];
            }
            assert(forall|j: int| 0 <= j < 8 && j != i ==> #[trigger] r.limbs(j) == prev.limbs(j));
            i += 1;
        }
        proof {
            if self.in_range() && other.in_range() {
                assert forall|i: int| 0 <= i < 8 implies lane_in_range(#[trigger] r.limbs(i))
                    && r.lane(i) == sub_if_ge(self.lane(i) as int, other.lane(i) as int) by {
                    lemma_sub_on_ge_lane(self.limbs(i), other.limbs(i));
                }
            }
        }
        r
    }

    /// Writes `value` into lane `index`.
    pub fn set(&mut self, index: usize, value: u128)
        requires
            index < 8,
        ensures
            final(self).lane(index as int) == value,
            final(self).limbs(index as int) == splat_lane(value),
            final(self).top(index as int) == (value >> 124u128) as u8,
            forall|i: int|
                0 <= i < 8 && i != index ==> #[trigger] final(self).limbs(i) == old(self).limbs(i)
                    && final(self).top(i) == old(self).top(i),
            old(self).wf() ==> final(self).wf(),
    {
        proof {
            lemma_splat_lane(value);
            lemma_top_bits(value);
        }
        self.top[index] = (value >> 124u128) as u8;
        self.hi[index] = (value >> 60u128) as u64;
        self.lo[index] = (value as u64) & MASK;
        assert(forall|j: int| 0 <= j < 8 && j != index ==> #[trigger] self.limbs(j) == old(self).limbs(j)
            && self.top(j) == old(self).top(j));
    }

    /// Lane-wise `10 * self + b`, with the wrapping of 64-bit limb arithmetic.
    ///
    /// Where neither limb overflows, the lane's value becomes `10 * v + b`.
    pub fn mul10_add(self, b: u64) -> (r: Self)
        ensures
            forall|i: int|
                0 <= i < 8 ==> #[trigger] r.limbs(i) == mul10_add_lane(self.limbs(i), b),
            forall|i: int| 0 <= i < 8 ==> #[trigger] r.top(i) == self.top(i),
            self.wf() ==> r.wf(),
            forall|i: int|
                0 <= i < 8 && self.top(i) == 0 && self.limbs(i).1 < pow60() && self.limbs(i).1 * 10 + b
                    <= u64::MAX && self.limbs(i).0 * 10 + (self.limbs(i).1 * 10 + b) / pow60() as int
                    <= u64::MAX ==> #[trigger] r.lane(i) == 10 * self.lane(i) + b,
    {
        let mut r = self;
        let mut i: usize = 0;
        while i < 8
            invariant
                0 <= i <= 8,
                forall|j: int|
                    0 <= j < i ==> #[trigger] r.limbs(j) == mul10_add_lane(self.limbs(j), b),
                r.top == self.top,
            decreases 8 - i,
        {
            let lo = self.lo[i].wrapping_mul(10).wrapping_add(b);
            let hi = self.hi[i].wrapping_mul(10).wrapping_add(lo >> 60u64);
            let ghost prev = r;
            r.hi[i] = hi;
            r.lo[i] = lo & MASK;
            assert(forall|j: int| 0 <= j < 8 && j != i ==> #[trigger] r.limbs(j) == prev.limbs(j));
            i += 1;
        }
        proof {
            assert forall|i: int| 0 <= i < 8 implies #[trigger] r.limbs(i).1 < pow60() by {
                let lo = r.limbs(i).1;
                let t = wrapping_add(wrapping_mul(self.limbs(i).1, 10), b);
                assert(lo == t & MASK);
                assert(t & 0x0fff_ffff_ffff_ffffu64 < 0x1000_0000_0000_0000u64) by (bit_vector);
            }
            assert forall|i: int|
                0 <= i < 8 && self.top(i) == 0 && self.limbs(i).1 < pow60() && self.limbs(i).1 * 10 + b <= u64::MAX
                    && self.limbs(i).0 * 10 + (self.limbs(i).1 * 10 + b) / pow60() as int
                    <= u64::MAX implies #[trigger] r.lane(i) == 10 * self.lane(i) + b by {
                let (sh, sl) = self.limbs(i);
                let t = wrapping_add(wrapping_mul(sl, 10), b);
                assert(wrapping_mul(sl, 10) == sl * 10);
                assert(t == sl * 10 + b);
                assert((t >> 60u64) == t / 0x1000_0000_0000_0000u64) by (bit_vector);
                assert((t & 0x0fff_ffff_ffff_ffffu64) == t % 0x1000_0000_0000_0000u64)
                    by (bit_vector);
                assert(wrapping_mul(sh, 10) == sh * 10);
            }
        }
        r
    }

    /// Lane-wise reduction by conditional subtraction of `4m`, `4m`, `2m` and `m`.
    ///
    /// For lanes in range and `4m < 2^123`, each lane becomes `reduce_4421(v, m)`,
    /// which is `v % m` for `v < 12m`.
    pub fn rem10(self, m: u128) -> (r: Self)
        requires
            4 * m <= u128::MAX,
        ensures
            forall|i: int| 0 <= i < 8 ==> #[trigger] r.limbs(i) == rem10_lane(self.limbs(i), m),
            forall|i: int| 0 <= i < 8 ==> #[trigger] r.top(i) == self.top(i),
            self.in_range() && 4 * m < pow124() / 2 ==> r.in_range(),
            self.in_range() && 4 * m < pow124() / 2 ==> forall|i: int|
                0 <= i < 8 ==> #[trigger] r.lane(i) == reduce_4421(self.lane(i) as int, m as int),
            self.in_range() && 0 < m && 4 * m < pow124() / 2 ==> forall|i: int|
                0 <= i < 8 && self.lane(i) < 12 * m ==> #[trigger] r.lane(i) == self.lane(i) % (m as nat),
    {
        let mut s = self;
        s = s.sub_on_ge(U128x8::splat_limbs(m * 4));
        s = s.sub_on_ge(U128x8::splat_limbs(m * 4));
        s = s.sub_on_ge(U128x8::splat_limbs(m * 2));
        s = s.sub_on_ge(U128x8::splat_limbs(m * 1));
        proof {
            if self.in_range() && 4 * m < pow124() / 2 {
                assert forall|i: int| 0 <= i < 8 implies lane_in_range(#[trigger] s.limbs(i))
                    && s.lane(i) == reduce_4421(self.lane(i) as int, m as int) by {
                    lemma_rem10_lane(self.limbs(i), m);
                }
                if 0 < m {
                    assert forall|i: int| 0 <= i < 8 && self.lane(i) < 12 * m implies #[trigger] s.lane(
                        i,
                    ) == self.lane(i) % (m as nat) by {
                        lemma_rem10_lane(self.limbs(i), m);
                        crate::reduce::lemma_reduce_4421(self.lane(i) as int, m as int);
                    }
                }
            }
        }
        s
    }

    /// Lane-wise bitwise and.
    pub fn bitand(self, rhs: Self) -> (r: Self)
        ensures
            forall|i: int|
                0 <= i < 8 ==> #[trigger] r.limbs(i) == (self.limbs(i).0 & rhs.limbs(i).0,
                    self.limbs(i).1 & rhs.limbs(i).1),
            forall|i: int| 0 <= i < 8 ==> #[trigger] r.top(i) == self.top(i) & rhs.top(i),
    {
        let mut r = self;
        let mut i: usize = 0;
        while i < 8
            invariant
                0 <= i <= 8,
                forall|j: int|
                    0 <= j < i ==> #[trigger] r.limbs(j) == (self.limbs(j).0 & rhs.limbs(j).0,
                        self.limbs(j).1 & rhs.limbs(j).1),
                forall|j: int| 0 <= j < i ==> #[trigger] r.top(j) == self.top(j) & rhs.top(j),
                forall|j: int| i <= j < 8 ==> #[trigger] r.top(j) == self.top(j),
            decreases 8 - i,
        {
            let ghost prev = r;
            r.hi[i] = self.hi[i] & rhs.hi[i];
            r.lo[i] = self.lo[i] & rhs.lo[i];
            r.top[i] = self.top[i] & rhs.top[i];
            assert(forall|j: int| 0 <= j < 8 && j != i ==> #[trigger] r.limbs(j) == prev.limbs(j));
            assert(forall|j: int| 0 <= j < 8 && j != i ==> #[trigger] r.top(j) == prev.top(j));
            i += 1;
        }
        r
    }

    /// Lane-wise bitwise or.
    pub fn bitor(self, rhs: Self) -> (r: Self)
        ensures
            forall|i: int|
                0 <= i < 8 ==> #[trigger] r.limbs(i) == (self.limbs(i).0 | rhs.limbs(i).0,
                    self.limbs(i).1 | rhs.limbs(i).1),
            forall|i: int| 0 <= i < 8 ==> #[trigger] r.top(i) == self.top(i) | rhs.top(i),
    {
        let mut r = self;
        let mut i: usize = 0;
        while i < 8
            invariant
                0 <= i <= 8,
                forall|j: int|
                    0 <= j < i ==> #[trigger] r.limbs(j) == (self.limbs(j).0 | rhs.limbs(j).0,
                        self.limbs(j).1 | rhs.limbs(j).1),
                forall|j: int| 0 <= j < i ==> #[trigger] r.top(j) == self.top(j) | rhs.top(j),
                forall|j: int| i <= j < 8 ==> #[trigger] r.top(j) == self.top(j),
            decreases 8 - i,
        {
            let ghost prev = r;
            r.hi[i] = self.hi[i] | rhs.hi[i];
            r.lo[i] = self.lo[i] | rhs.lo[i];
            r.top[i] = self.top[i] | rhs.top[i];
            assert(forall|j: int| 0 <= j < 8 && j != i ==> #[trigger] r.limbs(j) == prev.limbs(j));
            assert(forall|j: int| 0 <= j < 8 && j != i ==> #[trigger] r.top(j) == prev.top(j));
            i += 1;
        }
        r
    }
}

impl Default for U128x8 {
    /// All lanes zero.
    fn default() -> (r: Self)
        ensures
            forall|i: int| 0 <= i < 8 ==> #[trigger] r.limbs(i) == (0u64, 0u64) && r.top(i) == 0,
            forall|i: int| 0 <= i < 8 ==> #[trigger] r.lane(i) == 0,
    {
        let r = U128x8 {
            top: [0, 0, 0, 0, 0, 0, 0, 0],
            hi: [0, 0, 0, 0, 0, 0, 0, 0],
            lo: [0, 0, 0, 0, 0, 0, 0, 0],
        };
        proof {
            assert(r.top@ =~= seq![0u8, 0, 0, 0, 0, 0, 0, 0]);
            assert(r.hi@ =~= seq![0u64, 0, 0, 0, 0, 0, 0, 0]);
            assert(r.lo@ =~= seq![0u64, 0, 0, 0, 0, 0, 0, 0]);
        }
        r
    }
}

} // verus!
