use websmq::payload::{decode_payload, encode_payload};

#[test]
fn encode_payload_gives_utf8_bytes() {
    assert_eq!(encode_payload("world"), b"world".to_vec());
    assert_eq!(encode_payload("é"), vec![0xc3, 0xa9]);
    assert_eq!(encode_payload(""), Vec::<u8>::new());
}

#[test]
fn decode_payload_of_valid_utf8() {
    assert_eq!(decode_payload(b"hello"), "hello");
    assert_eq!(decode_payload(&[0xc3, 0xa9]), "é");
}

#[test]
fn decode_payload_replaces_invalid_bytes() {
    assert_eq!(decode_payload(&[b'a', 0xff, b'b']), "a\u{FFFD}b");
    assert_eq!(decode_payload(&[0xff]), "\u{FFFD}");
    assert!(decode_payload(&[0xc3]).contains('\u{FFFD}'));
}

#[test]
fn decode_inverts_encode() {
    for text in ["", "hello", "grüße", "temps: 21°C"] {
        assert_eq!(decode_payload(&encode_payload(text)), text);
    }
}
