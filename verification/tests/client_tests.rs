use most::client::{CheckedClient, Client};
use most::task::Found;

const M1_STREAM: &[u8] = b"12606606516432300007";
const M4_STREAM: &[u8] =
    b"810885732038215355481752285039386319187390558900925053798518152998488201";

#[test]
fn client_reports_the_first_task_that_finds() {
    let mut c = Client::new();
    let h = c.append(M1_STREAM).unwrap();
    assert_eq!(h.k, 1);
    assert_eq!(h.found, Found { end: 18, start: 2, len: 14, zeros: 3 });
    assert_eq!(h.number, b"60660651643230".to_vec());
    // Every task starts afresh after a number is found.
    assert_eq!(c.len(), 0);
}

#[test]
fn client_tries_task_four_before_the_others() {
    let mut c = Client::new();
    let mut bytes = M1_STREAM.to_vec();
    bytes.extend_from_slice(M4_STREAM);
    let h = c.append(&bytes).unwrap();
    // The number for the first modulus comes earlier in the stream, but the
    // fourth task runs first over all the bytes.
    assert_eq!(h.k, 4);
    assert_eq!(h.found, Found { end: 91, start: 21, len: 71, zeros: 0 });
    assert_eq!(h.number, M4_STREAM[1..].to_vec());
    assert_eq!(c.len(), 0);
}

#[test]
fn client_takes_every_byte_when_nothing_is_found() {
    let mut c = Client::new();
    assert!(c.append(b"1111").is_none());
    assert_eq!(c.len(), 4);
    assert!(c.append(b"22").is_none());
    assert_eq!(c.len(), 6);
}

#[test]
fn client_finds_a_number_across_calls() {
    let mut c = Client::new();
    assert!(c.append(b"91151130828301").is_none());
    let h = c.append(b"832077751954309").unwrap();
    assert_eq!(h.k, 2);
    assert_eq!(h.found, Found { end: 14, start: 1, len: 28, zeros: 0 });
    assert_eq!(h.number, b"1151130828301832077751954309".to_vec());
}

#[test]
fn checked_client_tries_task_one_first() {
    let mut c = CheckedClient::new();
    let mut bytes = M1_STREAM.to_vec();
    bytes.extend_from_slice(M4_STREAM);
    let h = c.append(&bytes).unwrap();
    assert_eq!(h.k, 1);
    assert_eq!(h.found, Found { end: 18, start: 2, len: 14, zeros: 3 });
    assert_eq!(h.number, b"60660651643230".to_vec());
    assert_eq!(c.len(), 0);
}

#[test]
fn checked_client_rejects_a_multiple_of_one_factor_only() {
    // 2500000000000000735 is 5 * M3_1 but no multiple of M3_2 or M3_3.
    let bytes = b"3125000000000000007351";
    let mut plain = Client::new();
    let h = plain.append(bytes).unwrap();
    assert_eq!(h.k, 3);
    assert_eq!(h.found, Found { end: 20, start: 2, len: 19, zeros: 0 });
    let mut checked = CheckedClient::new();
    assert!(checked.append(bytes).is_none());
    assert_eq!(checked.len(), bytes.len());
}

#[test]
fn checked_client_finds_the_whole_third_modulus() {
    let m3 = "125000000000000140750000000000052207500000000006359661";
    let mut bytes = b"7".to_vec();
    bytes.extend_from_slice(m3.as_bytes());
    let mut c = CheckedClient::new();
    let h = c.append(&bytes).unwrap();
    assert_eq!(h.k, 3);
    assert_eq!(h.found, Found { end: 54, start: 1, len: 54, zeros: 0 });
    assert_eq!(h.number, m3.as_bytes().to_vec());
}
