use most::scan::{Data, M1Data, M2Data, M3Data, M4Data};
use most::task::{Found, Task};

#[test]
fn task_m1_finds_multiple_and_counts_zeros() {
    let mut t = Task::<M1Data>::new(1);
    assert_eq!(t.k(), 1);
    let r = t.append(b"12606606516432300007");
    assert_eq!(r, Some(Found { end: 18, start: 2, len: 14, zeros: 3 }));
}

#[test]
fn task_m2_finds_multiple() {
    let mut t = Task::<M2Data>::new(2);
    let r = t.append(b"9115113082830183207775195430905");
    assert_eq!(r, Some(Found { end: 29, start: 1, len: 28, zeros: 1 }));
}

#[test]
fn task_m3_finds_multiple() {
    let mut t = Task::<M3Data>::new(3);
    let r = t.append(b"3125000000000000007351");
    assert_eq!(r, Some(Found { end: 20, start: 2, len: 19, zeros: 0 }));
}

#[test]
fn task_m4_finds_multiple() {
    let mut t = Task::<M4Data>::new(4);
    let s = b"810885732038215355481752285039386319187390558900925053798518152998488201";
    let r = t.append(s);
    assert_eq!(r, Some(Found { end: 71, start: 1, len: 71, zeros: 0 }));
}

#[test]
fn task_none_then_found_across_calls() {
    let mut t = Task::<M2Data>::new(2);
    assert_eq!(t.append(b"91151130828301"), None);
    let r = t.append(b"832077751954309");
    // The number spans both calls: it ends at index 14 of the second.
    assert_eq!(r, Some(Found { end: 14, start: 1, len: 28, zeros: 0 }));
}

#[test]
fn task_clear_forgets_digits() {
    let mut t = Task::<M2Data>::new(2);
    assert_eq!(t.append(b"91151130828301"), None);
    t.clear();
    assert_eq!(t.append(b"832077751954309"), None);
}

#[test]
fn task_long_stream_wraps_ring() {
    let mut t = Task::<M3Data>::new(3);
    let noise: Vec<u8> = (0..600u32).map(|i| b'1' + ((i * 3) % 9) as u8).collect();
    assert_eq!(t.append(&noise), None);
    let r = t.append(b"5000000000000001470");
    // 500000000000000147 * 1 = M3_1 ends at index 17; the last zero is counted.
    assert_eq!(r, Some(Found { end: 18, start: (600 % 256), len: 18, zeros: 1 }));
}

#[test]
fn scanner_checks() {
    let m1 = M1Data::new();
    assert!(m1.check(&[1, 0, 0, 6, 9, 9, 0]));
    assert!(!m1.check(&[1, 2, 3]));
    let m4 = M4Data::new();
    assert!(!m4.check(&[3]));
    let m2 = M2Data::new();
    assert!(m2.check(&[1]));
}
