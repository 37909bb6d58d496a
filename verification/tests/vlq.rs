use source_map::vlq_encode_integer_to_buffer;

fn vlq_encode_integer(value: i64) -> String {
    let mut buf = String::new();
    vlq_encode_integer_to_buffer(&mut buf, value);
    buf
}

#[test]
fn vlq_encoder() {
    assert_eq!(vlq_encode_integer(0), "A");
    assert_eq!(vlq_encode_integer(1), "C");
    assert_eq!(vlq_encode_integer(-1), "D");
    assert_eq!(vlq_encode_integer(123), "2H");
    assert_eq!(vlq_encode_integer(123456789), "qxmvrH");
}

#[test]
fn vlq_appends_to_existing_buffer() {
    let mut buf = String::from("x");
    vlq_encode_integer_to_buffer(&mut buf, 0);
    vlq_encode_integer_to_buffer(&mut buf, -1);
    assert_eq!(buf, "xAD");
}

#[test]
fn vlq_alphabet_only() {
    for v in [-70000i64, -33, -1, 0, 1, 31, 32, 16383, 70000] {
        let encoded = vlq_encode_integer(v);
        assert!(encoded.chars().all(|c| c.is_ascii_alphanumeric() || c == '+' || c == '/'));
    }
}
