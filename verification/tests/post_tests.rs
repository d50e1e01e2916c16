use most::post::post_number;

#[test]
fn post_number_posts_each_count_of_zeros() {
    let out = post_number(b"H:", b"123", 2);
    assert_eq!(
        String::from_utf8(out).unwrap(),
        "H:3\r\n\r\n123H:4\r\n\r\n1230H:5\r\n\r\n12300"
    );
}

#[test]
fn post_number_without_zeros_posts_once() {
    let out = post_number(b"POST / HTTP/1.1\r\nContent-Length: ", b"42", 0);
    assert_eq!(
        String::from_utf8(out).unwrap(),
        "POST / HTTP/1.1\r\nContent-Length: 2\r\n\r\n42"
    );
}

#[test]
fn post_number_writes_multi_digit_lengths() {
    let number = b"98765432109876";
    let out = post_number(b"", number, 10);
    let text = String::from_utf8(out).unwrap();
    let mut expected = String::new();
    for i in 0..=10 {
        expected += &format!("{}\r\n\r\n98765432109876{}", 14 + i, "0".repeat(i));
    }
    assert_eq!(text, expected);
}
