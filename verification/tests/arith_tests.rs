use most::rem::{m3, m3_times, N};
use most::u192x8::to_u64x8;
use most::rem::{rem_u32x16_4421, rem_u64x8_4421, M3_1, M3_2, M3_3};
use most::scan::{Data, M3Data};
use most::{rem_u128, rem_u192_m3, rem_u192x8_m3, rem_u32x16, rem_u64x8, U128x8, U192, U192x8};

fn u192_of(v: u128) -> U192 {
    U192([v as u64, (v >> 64) as u64, 0])
}

#[test]
fn rem_u128_reduces_below_ten_multiples() {
    assert_eq!(rem_u128(25, 10), 5);
    assert_eq!(rem_u128(95, 10), 5);
    assert_eq!(rem_u128(9, 10), 9);
    assert_eq!(rem_u128(10, 10), 0);
    assert_eq!(rem_u128(123, 10), 33);
    assert_eq!(rem_u128(7, 0), 7);
    let m = 717897987691852588770249u128;
    assert_eq!(rem_u128(m * 6 + 11, m), 11);
}

#[test]
fn u192_arithmetic() {
    let a = U192([u64::MAX, 1, 0]);
    let b = a.mul(3);
    assert_eq!(b.0, [u64::MAX - 2, 5, 0]);
    assert!(b.ge(&a));
    assert!(!a.ge(&b));
    assert!(a.ge(&a));
    let d = b.sub(a);
    assert_eq!(d.0, [u64::MAX - 1, 3, 0]);
    assert_eq!(U192::zero().0, [0, 0, 0]);
    let big = U192([0, 0, 1]);
    let one = U192([1, 0, 0]);
    assert_eq!(big.sub(one).0, [u64::MAX, u64::MAX, 0]);
}

#[test]
fn m3_multiples_and_remainder() {
    assert_eq!(m3().0, [0x32b9c8672a627dd5, 0x959989af0854b90, 0x14e1878814c9d]);
    assert_eq!(
        m3_times(3).0,
        [10965518754018457983, 2021212231488758448, 1102025953895895]
    );
    let x = U192([7139466352333529356, 4716161873473769713, 2571393892423755]);
    assert_eq!(rem_u192_m3(x).0, [12345, 0, 0]);
    let y = U192([14449812188345822338, 6063636694466275345, 3306077861687685]);
    assert_eq!(rem_u192_m3(y).0, [5, 0, 0]);
    assert_eq!(rem_u192_m3(u192_of(77)).0, [77, 0, 0]);
}

#[test]
fn rem_u32x16_lanes() {
    let mut x = [0u32; 16];
    for i in 0..16 {
        x[i] = (i as u32) * 7 + 3;
    }
    let r = rem_u32x16(x, 10);
    for i in 0..16 {
        assert_eq!(r[i], x[i] % 10);
    }
    assert_eq!(rem_u32x16(x, 0), x);
}

#[test]
fn rem_u64x8_lanes() {
    let m = 500000000000000147u64;
    let x = [0, 1, m - 1, m, m + 5, 3 * m + 2, 9 * m + 7, 15 * m + 1];
    let r = rem_u64x8(x, m);
    assert_eq!(r, [0, 1, m - 1, 0, 5, 2, 7, 1]);
}

#[test]
fn u128x8_splat_zero_and_sub() {
    let z = U128x8::splat(0);
    assert_eq!(z.is_zero(), [true; 8]);
    let five = U128x8::splat(5);
    assert_eq!(five.is_zero(), [false; 8]);
    assert_eq!(five.sub_on_ge(five).is_zero(), [true; 8]);
    // 5 - 7 is not taken: the lanes stay 5.
    let seven = U128x8::splat(7);
    let kept = five.sub_on_ge(seven);
    assert_eq!(kept.sub_on_ge(five).is_zero(), [true; 8]);
    // Borrow across the 60-bit limb boundary.
    let big = U128x8::splat(1u128 << 60);
    let one = U128x8::splat(1);
    let d = big.sub_on_ge(one);
    assert_eq!(d.sub_on_ge(U128x8::splat((1u128 << 60) - 1)).is_zero(), [true; 8]);
    let zero = U128x8::default();
    assert_eq!(zero.is_zero(), [true; 8]);
}

#[test]
fn u128x8_set_and_mul10_add() {
    let mut v = U128x8::splat(0);
    v.set(3, 12);
    let z = v.is_zero();
    assert_eq!(z, [true, true, true, false, true, true, true, true]);
    // 10 * 12 + 3 = 123 in lane 3, 3 elsewhere.
    let w = v.mul10_add(3);
    assert_eq!(w.sub_on_ge(U128x8::splat(3)).is_zero(), [true, true, true, false, true, true, true, true]);
    let mut x = w;
    x.set(3, 3);
    assert_eq!(x.sub_on_ge(U128x8::splat(3)).is_zero(), [true; 8]);
    // Carry out of the low limb.
    let c = U128x8::splat((1u128 << 60) - 1).mul10_add(10);
    assert_eq!(c.sub_on_ge(U128x8::splat(10 * (1u128 << 60))).is_zero(), [true; 8]);
}

#[test]
fn u128x8_rem10() {
    let m = 104648257118348370704723119u128;
    let v = U128x8::splat(m * 10 + 9).rem10(m);
    assert_eq!(v.sub_on_ge(U128x8::splat(9)).is_zero(), [true; 8]);
    let w = U128x8::splat(m * 3).rem10(m);
    assert_eq!(w.is_zero(), [true; 8]);
}

#[test]
fn u128x8_bit_ops() {
    let a = U128x8::splat(0b1100);
    let b = U128x8::splat(0b1010);
    assert_eq!(a.bitand(b).sub_on_ge(U128x8::splat(0b1000)).is_zero(), [true; 8]);
    assert_eq!(a.bitor(b).sub_on_ge(U128x8::splat(0b1110)).is_zero(), [true; 8]);
}

fn eq192(a: U192x8, b: U192x8) -> [bool; 8] {
    let g1 = a.lanes_gt(b);
    let g2 = b.lanes_gt(a);
    let mut r = [false; 8];
    for i in 0..8 {
        r[i] = !g1[i] && !g2[i];
    }
    r
}

#[test]
fn u192x8_from_array_and_compare() {
    let x = U192x8::from_array([0, 1, 2, 3, u128::MAX, 5, 6, 7]);
    let y = U192x8::from_array([0, 2, 1, 3, 4, 5, 7, 6]);
    assert_eq!(
        x.lanes_gt(y),
        [false, false, true, false, true, false, false, true]
    );
    let s = U192x8::splat([3, 0, 0]);
    assert_eq!(eq192(s, U192x8::from_array([3; 8])), [true; 8]);
    let hi = U192x8::splat([0, 0, 1]);
    assert_eq!(hi.lanes_gt(U192x8::from_array([u128::MAX; 8])), [true; 8]);
}

#[test]
fn u192x8_add_sub() {
    let a = U192x8::from_array([u128::MAX; 8]);
    let one = U192x8::splat([1, 0, 0]);
    let b = a.add(one);
    assert_eq!(eq192(b, U192x8::splat([0, 0, 1])), [true; 8]);
    assert_eq!(eq192(b.sub(one), a), [true; 8]);
    assert_eq!(eq192(a.add_u8(1), b), [true; 8]);
    // Wrapping below zero.
    let z = U192x8::default();
    let m = z.sub(one);
    assert_eq!(eq192(m, U192x8::splat([u64::MAX; 3])), [true; 8]);
    assert_eq!(eq192(m.add(one), z), [true; 8]);
}

#[test]
fn u192x8_sub_on_ge() {
    let x = U192x8::from_array([10, 3, 7, 0, 100, 5, 6, 9]);
    let r = x.sub_on_ge(U192x8::splat([5, 0, 0]));
    assert_eq!(eq192(r, U192x8::from_array([5, 3, 2, 0, 95, 0, 1, 4])), [true; 8]);
}

#[test]
fn u192x8_shl_and_bits() {
    let x = U192x8::from_array([1, 3, 1u128 << 100, u128::MAX, 0, 5, 6, 7]);
    let y = x.shl(4);
    assert_eq!(
        eq192(y, U192x8::from_array([16, 48, 1u128 << 104, 0, 0, 80, 96, 112])),
        [true, true, true, false, true, true, true, true]
    );
    let top = U192x8::from_array([u128::MAX; 8]).shl(4);
    // u128::MAX << 4 needs 132 bits: the high limb gets 0xf.
    assert_eq!(eq192(top, U192x8::splat([u64::MAX - 15, u64::MAX, 15])), [true; 8]);
    let a = U192x8::splat([0b1100, 0, 1]);
    let b = U192x8::splat([0b1010, 1, 1]);
    assert_eq!(eq192(a.bitand(b), U192x8::splat([0b1000, 0, 1])), [true; 8]);
    assert_eq!(eq192(a.bitor(b), U192x8::splat([0b1110, 1, 1])), [true; 8]);
}

#[test]
fn u192x8_rem_m3() {
    let m = m3().0;
    let mm: u128 = (m[0] as u128) | ((m[1] as u128) << 64);
    // The earlier third modulus needs its high limb; use small lanes and exact multiples.
    let x = U192x8::from_array([0, 1, 2, 3, 4, 5, 6, mm]);
    let r = rem_u192x8_m3(x);
    assert_eq!(eq192(r, x), [true; 8]);
    let m3x = U192x8::splat(m3_times(9).0).add_u8(4);
    assert_eq!(eq192(rem_u192x8_m3(m3x), U192x8::splat([4, 0, 0])), [true; 8]);
    let m15 = U192x8::splat(m3_times(9).0).add(U192x8::splat(m3_times(6).0)).add_u8(2);
    assert_eq!(eq192(rem_u192x8_m3(m15), U192x8::splat([2, 0, 0])), [true; 8]);
}

#[test]
fn mask_to_integers() {
    let r = to_u64x8([true, false, true, false, false, false, false, true]);
    assert_eq!(r, [u64::MAX, 0, u64::MAX, 0, 0, 0, 0, u64::MAX]);
    assert_eq!(N, 256);
}

#[test]
fn rem_4421_chains_agree_below_twelve_multiples() {
    let mut x = [0u32; 16];
    for i in 0..16 {
        x[i] = (i as u32) * 7 + 3;
    }
    // Every lane is below 12 * 10 = 120, so both chains give the remainder.
    let r = rem_u32x16_4421(x, 10);
    assert_eq!(r, rem_u32x16(x, 10));
    for i in 0..16 {
        assert_eq!(r[i], x[i] % 10);
    }
    // From 12m up the chains part: 4-4-2-1 takes off at most 11m.
    let m = 1000u64;
    let y = [0, 999, 1000, 11 * m + 1, 12 * m, 12 * m + 5, 15 * m + 1, 7 * m];
    assert_eq!(rem_u64x8_4421(y, m), [0, 999, 0, 1, m, m + 5, 4 * m + 1, 0]);
    assert_eq!(rem_u64x8(y, m), [0, 999, 0, 1, 0, 5, 1, 0]);
}

#[test]
fn m3_cofactor_check() {
    let m3 = M3Data::new();
    let digits = |v: u128| v.to_string().bytes().map(|b| b - b'0').collect::<Vec<u8>>();
    let both = (M3_2 as u128) * 17;
    assert_eq!(both % (M3_3 as u128) == 0, false);
    assert!(!m3.check_cofactors(&digits(both)));
    assert!(!m3.check_cofactors(&digits(M3_1 as u128)));
    assert!(m3.check_cofactors(&[0]));
    let p = (M3_2 as u128) * (M3_3 as u128);
    assert!(m3.check_cofactors(&digits(p)));
    assert!(!m3.check_cofactors(&digits(p + 1)));
    assert!(m3.check(&digits(5)));
}

#[test]
fn u128x8_lanes_hold_every_u128() {
    let big = U128x8::splat(1u128 << 127);
    assert_eq!(big.is_zero(), [false; 8]);
    // The top bit survives: masking with itself keeps it, with 2^126 clears it.
    assert_eq!(big.bitand(big).is_zero(), [false; 8]);
    assert_eq!(big.bitand(U128x8::splat(1u128 << 126)).is_zero(), [true; 8]);
    assert_eq!(U128x8::splat(1u128 << 124).is_zero(), [false; 8]);
    let mut v = U128x8::zero();
    assert_eq!(v.is_zero(), [true; 8]);
    v.set(3, u128::MAX);
    assert_eq!(v.is_zero(), [true, true, true, false, true, true, true, true]);
    assert_eq!(U128x8::max().bitand(U128x8::splat(1u128 << 125)).is_zero(), [false; 8]);
}

#[test]
fn u192x8_zero_and_max() {
    let z = U192x8::zero();
    let m = U192x8::max();
    assert_eq!(m.lanes_gt(z), [true; 8]);
    assert_eq!(z.lanes_gt(m), [false; 8]);
    assert_eq!(m.add(U192x8::splat([1, 0, 0])).lanes_gt(z), [false; 8]);
}
