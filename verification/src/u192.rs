//! Unsigned 192-bit integers held as three 64-bit limbs, least significant first.
use vstd::prelude::*;

verus! {

/// 2^64, the weight of the middle limb.
pub open spec fn pow64() -> nat {
    18446744073709551616nat
}

/// 2^128, the weight of the high limb.
pub open spec fn pow128() -> nat {
    340282366920938463463374607431768211456nat
}

/// 2^192, one past the largest value three limbs can hold.
pub open spec fn pow192() -> nat {
    6277101735386680763835789423207666416102355444464034512896nat
}

/// The number that three little-endian 64-bit limbs stand for.
pub open spec fn limbs_value(lo: u64, mi: u64, hi: u64) -> nat {
    lo as nat + mi as nat * pow64() + hi as nat * pow128()
}

/// An unsigned 192-bit integer kept as three little-endian 64-bit limbs.
#[derive(Clone, Copy)]
pub struct U192(pub [u64; 3]);

/// A 128-bit product splits into its low limb and the carry above it.
pub proof fn lemma_split_u128(p: u128)
    ensures
        p as nat == (p as u64) as nat + (p >> 64u128) as nat * pow64(),
        (p >> 64u128) as nat == p as nat / pow64(),
        (p as u64) as nat == p as nat % pow64(),
{
    assert((p >> 64u128) == p / 0x1_0000_0000_0000_0000u128) by (bit_vector);
    assert((p as u64) as u128 == p % 0x1_0000_0000_0000_0000u128) by (bit_vector);
}

/// Three limbs write a value below 2^192, fixed to within 2^128 by the high limb.
pub proof fn lemma_limbs_bound(lo: u64, mi: u64, hi: u64)
    ensures
        limbs_value(lo, mi, hi) < pow192(),
        limbs_value(lo, mi, hi) >= hi as nat * pow128(),
        limbs_value(lo, mi, hi) < (hi as nat + 1) * pow128(),
{
}

/// Limb-by-limb comparison orders the values: the highest limb that differs decides.
pub proof fn lemma_limbs_order(a: [u64; 3], b: [u64; 3])
    ensures
        (a[2] > b[2]) ==> limbs_value(a[0], a[1], a[2]) > limbs_value(b[0], b[1], b[2]),
        (a[2] == b[2] && a[1] > b[1]) ==> limbs_value(a[0], a[1], a[2]) > limbs_value(
            b[0],
            b[1],
            b[2],
        ),
        (a[2] == b[2] && a[1] == b[1]) ==> (limbs_value(a[0], a[1], a[2]) - limbs_value(
            b[0],
            b[1],
            b[2],
        ) == a[0] - b[0]),
{
}

impl U192 {
    /// The number this value stands for.
    pub open spec fn value(self) -> nat {
        limbs_value(self.0[0], self.0[1], self.0[2])
    }

    /// The value whose limbs are all zero.
    pub fn zero() -> (r: U192)
        ensures
            r.value() == 0,
    {
        U192([0, 0, 0])
    }

    /// Multiplies by a small factor; the product must stay below 2^192.
    pub fn mul(self, k: u64) -> (r: U192)
        requires
            self.value() * k < pow192(),
        ensures
            r.value() == self.value() * k,
    {
        let l0 = self.0[0];
        let l1 = self.0[1];
        let l2 = self.0[2];
        proof {
            assert(l0 as nat * k as nat <= 0xffff_ffff_ffff_ffff * 0xffff_ffff_ffff_ffffnat)
                by (nonlinear_arith);
            assert(l1 as nat * k as nat <= 0xffff_ffff_ffff_ffff * 0xffff_ffff_ffff_ffffnat)
                by (nonlinear_arith);
            assert(l2 as nat * k as nat <= 0xffff_ffff_ffff_ffff * 0xffff_ffff_ffff_ffffnat)
                by (nonlinear_arith);
        }
        let p0: u128 = (l0 as u128) * (k as u128);
        let c0: u128 = p0 >> 64u128;
        proof {
            lemma_split_u128(p0);
        }
        let p1: u128 = (l1 as u128) * (k as u128) + c0;
        let c1: u128 = p1 >> 64u128;
        proof {
            lemma_split_u128(p1);
        }
        let p2: u128 = (l2 as u128) * (k as u128) + c1;
        proof {
            let v = self.value();
            assert(v * k == l0 as nat * k + (l1 as nat * k) * pow64() + (l2 as nat * k)
                * pow128()) by (nonlinear_arith)
                requires
                    v == l0 as nat + l1 as nat * pow64() + l2 as nat * pow128(),
            ;
            assert(v * k == (p0 as u64) as nat + (p1 as u64) as nat * pow64() + p2 as nat
                * pow128()) by (nonlinear_arith)
                requires
                    v * k == l0 as nat * k + (l1 as nat * k) * pow64() + (l2 as nat * k)
                        * pow128(),
                    p0 as nat == (p0 as u64) as nat + c0 as nat * pow64(),
                    p1 as nat == (p1 as u64) as nat + c1 as nat * pow64(),
                    p0 == l0 as nat * k,
                    p1 == l1 as nat * k + c0,
                    p2 == l2 as nat * k + c1,
                    pow128() == pow64() * pow64(),
            ;
            assert(p2 < 0x1_0000_0000_0000_0000u128) by (nonlinear_arith)
                requires
                    v * k == (p0 as u64) as nat + (p1 as u64) as nat * pow64() + p2 as nat
                        * pow128(),
                    v * k < pow192(),
                    pow192() == pow128() * pow64(),
            ;
        }
        U192([p0 as u64, p1 as u64, p2 as u64])
    }

    /// Whether this value is at least `other`.
    pub fn ge(&self, other: &U192) -> (r: bool)
        ensures
            r == (self.value() >= other.value()),
    {
        proof {
            lemma_limbs_order(self.0, other.0);
            lemma_limbs_order(other.0, self.0);
        }
        if self.0[2] != other.0[2] {
            self.0[2] > other.0[2]
        } else if self.0[1] != other.0[1] {
            self.0[1] > other.0[1]
        } else {
            self.0[0] >= other.0[0]
        }
    }

    /// The difference `self - other`, for `other` no larger than `self`.
    pub fn sub(self, other: U192) -> (r: U192)
        requires
            self.value() >= other.value(),
        ensures
            r.value() == self.value() - other.value(),
    {
        let a = self.0;
        let b = other.0;
        let borrow0: u64 = if a[0] < b[0] { 1 } else { 0 };
        let lo = a[0].wrapping_sub(b[0]);
        let mi_t = a[1].wrapping_sub(b[1]);
        let borrow1: u64 = if a[1] < b[1] || (a[1] == b[1] && borrow0 == 1) { 1 } else { 0 };
        let mi = mi_t.wrapping_sub(borrow0);
        proof {
            lemma_limbs_order(a, b);
            lemma_limbs_order(b, a);
            assert(lo as int == a[0] - b[0] + borrow0 * pow64());
            assert(mi as int == a[1] - b[1] - borrow0 + borrow1 * pow64());
            assert(a[2] as int - b[2] - borrow1 >= 0) by {
                if a[2] as int - b[2] - borrow1 < 0 {
                    assert(a[2] <= b[2]);
                    if a[2] < b[2] {
                    } else {
                        assert(borrow1 == 1);
                        if a[1] < b[1] {
                        } else {
                            assert(a[1] == b[1] && borrow0 == 1);
                        }
                    }
                }
            }
        }
        let hi = a[2] - b[2] - borrow1;
        U192([lo, mi, hi])
    }
}

} // verus!
