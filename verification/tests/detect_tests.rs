use most::detect::{M1, N};
use most::{Data, M1Data, M2Data, M3Data, M4Data};

#[test]
fn m1() {
    let mut state = M1Data::default();
    let m1str = (M1 * 7).to_string();
    for b in m1str[..m1str.len() - 1].bytes() {
        assert_eq!(state.push(b - b'0'), None);
    }
    assert_eq!(
        state.push(m1str.bytes().last().unwrap() - b'0'),
        Some(m1str.len())
    );
}

#[test]
fn m2() {
    let mut state = M2Data::default();
    let m2str = "357608048612464930233730043816992249527720913075773951798";
    for b in m2str[..m2str.len() - 1].bytes() {
        assert_eq!(state.push(b - b'0'), None);
    }
    assert_eq!(
        state.push(m2str.bytes().last().unwrap() - b'0'),
        Some(m2str.len())
    );
}

#[test]
fn window_length_is_256() {
    assert_eq!(N, 256);
}

use most::window::WindowArray;

#[test]
fn window_finds_nearest_equal_value() {
    let mut w = WindowArray::new();
    assert_eq!(w.last(), 0);
    assert_eq!(w.push(5), None);
    assert_eq!(w.push(7), None);
    assert_eq!(w.push(5), Some(2));
    assert_eq!(w.push(9), None);
    assert_eq!(w.push(7), Some(3));
    assert_eq!(w.push(7), Some(1));
    assert_eq!(w.last(), 7);
    // The initial zero sits at position 0.
    assert_eq!(w.push(0), Some(7));
}

#[test]
fn window_forgets_values_that_left_the_ring() {
    let mut w = WindowArray::new();
    assert_eq!(w.push(42), None);
    for v in 1..256u128 {
        assert_eq!(w.push(1000 + v), None);
    }
    // 42 was pushed 256 positions ago and has left the ring.
    assert_eq!(w.push(42), None);
    assert_eq!(w.push(1255), Some(2));
}

#[test]
fn window_buckets_share_by_low_bits() {
    let mut w = WindowArray::new();
    assert_eq!(w.push(3), None);
    // Same bucket as 3: the index now points to this value.
    assert_eq!(w.push(3 + 65536), None);
    assert_eq!(w.push(3), None);
    assert_eq!(w.push(3), Some(1));
}

#[test]
fn m3_finds_cube_of_its_factor() {
    let mut state = M3Data::default();
    let s = "125000000000000165750000000000073261500000000010793861";
    for b in s[..s.len() - 1].bytes() {
        assert_eq!(state.push(b - b'0'), None);
    }
    assert_eq!(state.push(s.bytes().last().unwrap() - b'0'), Some(54));
}

#[test]
fn m4_finds_long_multiple() {
    let mut state = M4Data::default();
    let s = "22371920131156103305297167593189711867257905177607290208988620154925621";
    for b in s[..s.len() - 1].bytes() {
        assert_eq!(state.push(b - b'0'), None);
    }
    assert_eq!(state.push(s.bytes().last().unwrap() - b'0'), Some(71));
}

#[test]
fn m1_rejects_short_and_odd_endings() {
    // 7 * 887 * 24097 is a multiple of M1_1 but shorter than 14 digits.
    let mut state = M1Data::default();
    for b in "149618273".bytes() {
        assert_eq!(state.push(b - b'0'), None);
    }
}

#[test]
fn detection_across_prepare() {
    // Many digits, prepared every 300, then a multiple: found as without prepares.
    let mut a = M1Data::default();
    let mut b = M1Data::default();
    let noise: Vec<u8> = (0..700u32).map(|i| ((i * 7 + 3) % 10) as u8).collect();
    let m = (M1 * 7).to_string();
    let mut count = 0;
    let mut ra = Vec::new();
    let mut rb = Vec::new();
    for &x in noise.iter().chain(m.bytes().map(|c| c - b'0').collect::<Vec<u8>>().iter()) {
        if count % 300 == 299 {
            a.prepare();
        }
        if count % 350 == 349 {
            b.prepare();
        }
        ra.push(a.push(x));
        rb.push(b.push(x));
        count += 1;
    }
    assert_eq!(ra, rb);
    assert_eq!(*ra.last().unwrap(), Some(m.len()));
}

#[test]
fn prepare_nop_keeps_pushing() {
    let mut state = M3Data::default();
    state.prepare_nop();
    for _ in 0..100 {
        state.push(3);
    }
    let mut s1 = M1Data::default();
    s1.prepare_nop();
    s1.push(3);
    let mut s2 = M2Data::default();
    s2.prepare_nop();
    s2.push(3);
    let mut s4 = M4Data::default();
    s4.prepare_nop();
    s4.push(3);
}

#[test]
fn window_keeps_an_occurrence_when_a_bucket_mate_leaves_the_ring() {
    let mut w = WindowArray::new();
    assert_eq!(w.push(5), None);
    assert_eq!(w.push(9), None);
    // Same bucket as 5: the index now records this value at position 3.
    assert_eq!(w.push(5 + 65536), None);
    for p in 4..=257u128 {
        assert_eq!(w.push(1000 + p), None);
    }
    // Position 1 (the 5) has left the ring; the value at position 3 is still known.
    assert_eq!(w.push(5 + 65536), Some(255));
}

#[test]
fn window_finds_the_nearest_after_the_older_copy_leaves() {
    let mut w = WindowArray::new();
    assert_eq!(w.push(7), None);
    for v in 1000..1098u128 {
        assert_eq!(w.push(v), None);
    }
    assert_eq!(w.push(7), Some(99));
    for v in 2000..2156u128 {
        assert_eq!(w.push(v), None);
    }
    // The first 7 leaves the ring as this one arrives; the second is 157 back.
    assert_eq!(w.push(7), Some(157));
}

#[test]
fn window_finds_an_occurrence_still_latest_in_its_bucket() {
    let mut w = WindowArray::new();
    assert_eq!(w.push(5 + 65536), None);
    for p in 2..=255u128 {
        assert_eq!(w.push(1000 + p), None);
    }
    assert_eq!(w.push(5 + 65536), Some(255));
}

#[test]
fn push_all_reports_the_same_after_prepare() {
    let digits: Vec<u8> = (M1 * 7).to_string().bytes().map(|b| b - b'0').collect();
    let mut a = M1Data::default();
    let mut b = M1Data::default();
    assert_eq!(a.push_all(&digits[..7]), vec![None; 7]);
    assert_eq!(b.push_all(&digits[..7]), vec![None; 7]);
    b.prepare();
    let ra = a.push_all(&digits[7..]);
    let rb = b.push_all(&digits[7..]);
    assert_eq!(ra, rb);
    assert_eq!(ra.last(), Some(&Some(digits.len())));
}
