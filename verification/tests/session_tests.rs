use most::detect::M1;
use most::session::{submission, Report, Session, OUT_CAP, RECV_LEN, SUBMIT_HEADER};

fn receive(bytes: &[u8]) -> Vec<u8> {
    let mut buf = vec![0u8; RECV_LEN];
    buf[..bytes.len()].copy_from_slice(bytes);
    buf
}

fn request(body: &str) -> String {
    format!("{}{}\r\n\r\n{}", SUBMIT_HEADER, body.len(), body)
}

#[test]
fn submission_posts_the_number_then_each_zero_count() {
    let out = submission(3, 1, b"12", b"3450").unwrap();
    let expected = request("345") + &request("3450");
    assert_eq!(out, expected.into_bytes());
}

#[test]
fn submission_takes_the_start_of_the_number_from_prev() {
    let out = submission(4, 0, b"98765", b"43").unwrap();
    assert_eq!(out, request("6543").into_bytes());
}

#[test]
fn submission_writes_two_digit_lengths() {
    let digits = "141542177860006";
    let out = submission(15, 0, b"", digits.as_bytes()).unwrap();
    let text = String::from_utf8(out).unwrap();
    assert!(text.contains("Content-Length: 15\r\n\r\n141542177860006"));
    assert_eq!(text, request(digits));
}

#[test]
fn submission_refuses_more_than_the_output_capacity() {
    let prev = vec![b'7'; 100];
    let mut buf = vec![b'7'; 10];
    buf.extend(vec![b'0'; 50]);
    assert_eq!(submission(100, 50, &prev, &buf), None);
    // A single short request fits.
    let out = submission(10, 0, &prev, &buf[..10]).unwrap();
    assert!(out.len() <= OUT_CAP);
    assert_eq!(out, request("7777777777").into_bytes());
}

#[test]
fn session_reports_a_number_inside_one_buffer_without_zeros() {
    let digits = (M1 * 7).to_string();
    assert_eq!(digits, "141542177860006");
    let mut stream = digits.clone().into_bytes();
    stream.extend_from_slice(b"001");
    let buf = receive(&stream);
    let mut s = Session::new();
    for i in 0..stream.len() {
        let found = s.push_next(&buf);
        if i == digits.len() - 1 {
            // The zeros after it are counted only while the index stays below
            // the number's length, which it already reached.
            assert_eq!(found, vec![Report { k: 1, len: 15, zeros: 0, end: 14 }]);
        } else {
            assert_eq!(found, vec![]);
        }
    }
    s.finish();
    assert_eq!(s.prev(), &stream[..]);
}

#[test]
fn session_counts_zeros_of_a_number_begun_in_an_earlier_buffer() {
    let first = b"1415421778";
    let second = b"600060011";
    let mut s = Session::new();
    let buf = receive(first);
    for _ in 0..first.len() {
        assert_eq!(s.push_next(&buf), vec![]);
    }
    s.finish();
    assert_eq!(s.prev(), &first[..]);
    let buf = receive(second);
    let mut reports = Vec::new();
    for i in 0..second.len() {
        for f in s.push_next(&buf) {
            reports.push((i, f));
        }
    }
    assert_eq!(reports, vec![(4, Report { k: 1, len: 15, zeros: 2, end: 6 })]);
    let f = reports[0].1;
    let out = submission(f.len, f.zeros, s.prev(), &buf[..=f.end]).unwrap();
    let expected = request("141542177860006")
        + &request("1415421778600060")
        + &request("14154217786000600");
    assert_eq!(String::from_utf8(out).unwrap(), expected);
    s.finish();
    let mut all = first.to_vec();
    all.extend_from_slice(second);
    assert_eq!(s.prev(), &all[..]);
}

#[test]
fn session_keeps_the_last_256_bytes() {
    let mut s = Session::new();
    let buf = receive(&[b'1'; 200]);
    for _ in 0..200 {
        assert_eq!(s.push_next(&buf), vec![]);
    }
    s.finish();
    assert_eq!(s.prev().len(), 200);
    let mut bytes = vec![b'2'; 99];
    bytes.push(b'3');
    let buf = receive(&bytes);
    for _ in 0..100 {
        s.push_next(&buf);
    }
    s.finish();
    let kept = s.prev();
    assert_eq!(kept.len(), 256);
    assert!(kept[..156].iter().all(|&b| b == b'1'));
    assert!(kept[156..255].iter().all(|&b| b == b'2'));
    assert_eq!(kept[255], b'3');
}
