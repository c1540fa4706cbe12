use websmq::protocol::{
    get_payload, get_topic, get_topic_length, parse_message, serialize_message, Message,
    MAX_TOPIC_LENGTH,
};

const SUBSCRIBE_TO_HELLO: [u8; 7] = [
    0b01000000, 0b00000101, 0b01101000, 0b01100101, 0b01101100, 0b01101100, 0b01101111,
];

const PUBLISH_WORLD_TO_HELLO: [u8; 12] = [
    0b00000000, 0b00000101, 0b01101000, 0b01100101, 0b01101100, 0b01101100, 0b01101111,
    0b01110111, 0b01101111, 0b01110010, 0b01101100, 0b01100100,
];

#[test]
fn test_get_topic_length() {
    assert_eq!(get_topic_length(&[0b00000000, 0b00000000]), 0);
    assert_eq!(get_topic_length(&[0b01000000, 0b01111011]), 123);
    assert_eq!(get_topic_length(&[0b10111111, 0b11111111]), 16383);
    assert_eq!(get_topic_length(&SUBSCRIBE_TO_HELLO), 5);
}

#[test]
fn test_parse_message() {
    assert_eq!(
        parse_message(&SUBSCRIBE_TO_HELLO).unwrap(),
        Message::Subscribe("hello".to_owned())
    );

    assert_eq!(
        parse_message(&PUBLISH_WORLD_TO_HELLO).unwrap(),
        Message::Publish("hello".to_owned(), "world".as_bytes().to_owned())
    );
}

#[test]
fn test_get_topic() {
    assert_eq!(get_topic(&SUBSCRIBE_TO_HELLO).unwrap(), "hello");
}

#[test]
fn test_get_payload() {
    let payload = get_payload(&SUBSCRIBE_TO_HELLO).unwrap();
    assert_eq!(String::from_utf8(payload).unwrap(), "");
    let payload = get_payload(&PUBLISH_WORLD_TO_HELLO).unwrap();
    assert_eq!(String::from_utf8(payload).unwrap(), "world");
}

#[test]
fn topic_length_ignores_type_bits() {
    assert_eq!(get_topic_length(&[0b11000001, 0b00000010]), 258);
    assert_eq!(get_topic_length(&[0b10000000, 0b00000001, 0xaa]), 1);
}

#[test]
fn parse_unsubscribe_and_last_will() {
    let mut buffer = SUBSCRIBE_TO_HELLO.to_vec();
    buffer[0] = 0b10000000;
    assert_eq!(
        parse_message(&buffer).unwrap(),
        Message::Unsubscribe("hello".to_owned())
    );
    let mut buffer = PUBLISH_WORLD_TO_HELLO.to_vec();
    buffer[0] = 0b11000000;
    assert_eq!(
        parse_message(&buffer).unwrap(),
        Message::LastWill("hello".to_owned(), b"world".to_vec())
    );
}

#[test]
fn subscribe_drops_trailing_bytes() {
    let mut buffer = SUBSCRIBE_TO_HELLO.to_vec();
    buffer.extend_from_slice(b"ignored");
    assert_eq!(
        parse_message(&buffer).unwrap(),
        Message::Subscribe("hello".to_owned())
    );
}

#[test]
fn topic_longer_than_buffer_is_an_error() {
    let buffer = [0b00000000, 0b00000110, b'h', b'e', b'l', b'l', b'o'];
    let expected = "topic length exceeds buffer size";
    assert_eq!(get_topic(&buffer).unwrap_err().message(), expected);
    assert_eq!(get_payload(&buffer).unwrap_err().message(), expected);
    assert_eq!(parse_message(&buffer).unwrap_err().message(), expected);
}

#[test]
fn topic_that_is_not_utf8_is_an_error() {
    let buffer = [0b01000000, 0b00000010, 0xc3, 0x28];
    let expected = String::from_utf8(vec![0xc3, 0x28]).unwrap_err().to_string();
    assert_eq!(get_topic(&buffer).unwrap_err().message(), expected);
    assert_eq!(parse_message(&buffer).unwrap_err().message(), expected);
    // the payload does not depend on the topic's encoding
    assert_eq!(get_payload(&buffer).unwrap(), Vec::<u8>::new());
}

#[test]
fn empty_topic_and_payload() {
    assert_eq!(
        parse_message(&[0, 0]).unwrap(),
        Message::Publish(String::new(), Vec::new())
    );
}

#[test]
fn multibyte_topic() {
    let topic = "grüße/küche";
    let bytes = topic.as_bytes();
    let mut buffer = vec![0b01000000, bytes.len() as u8];
    buffer.extend_from_slice(bytes);
    assert_eq!(
        parse_message(&buffer).unwrap(),
        Message::Subscribe(topic.to_owned())
    );
}

#[test]
fn serialize_gives_the_wire_form() {
    assert_eq!(
        serialize_message(&Message::Subscribe("hello".to_owned())).unwrap(),
        SUBSCRIBE_TO_HELLO.to_vec()
    );
    assert_eq!(
        serialize_message(&Message::Publish("hello".to_owned(), b"world".to_vec())).unwrap(),
        PUBLISH_WORLD_TO_HELLO.to_vec()
    );
    assert_eq!(
        serialize_message(&Message::Unsubscribe("a".to_owned())).unwrap(),
        vec![0b10000000, 1, b'a']
    );
    assert_eq!(
        serialize_message(&Message::LastWill("a".to_owned(), vec![7])).unwrap(),
        vec![0b11000000, 1, b'a', 7]
    );
}

#[test]
fn serialize_then_parse_round_trips() {
    let long_topic = "t".repeat(300);
    let messages = vec![
        Message::Publish("sensors/temps/kitchen".to_owned(), vec![1, 2, 3]),
        Message::Subscribe("grüße".to_owned()),
        Message::Unsubscribe(String::new()),
        Message::LastWill(long_topic.clone(), b"bye".to_vec()),
        Message::Publish("x".repeat(MAX_TOPIC_LENGTH), vec![]),
    ];
    for msg in messages {
        let bytes = serialize_message(&msg).unwrap();
        assert_eq!(parse_message(&bytes).unwrap(), msg);
    }
    let bytes = serialize_message(&Message::Subscribe(long_topic)).unwrap();
    assert_eq!(&bytes[..2], &[0b01000001, 44]);
}

#[test]
fn parse_then_serialize_round_trips() {
    for buffer in [SUBSCRIBE_TO_HELLO.to_vec(), PUBLISH_WORLD_TO_HELLO.to_vec()] {
        let msg = parse_message(&buffer).unwrap();
        assert_eq!(serialize_message(&msg).unwrap(), buffer);
    }
}

#[test]
fn serialize_rejects_too_long_topic() {
    let msg = Message::Subscribe("x".repeat(MAX_TOPIC_LENGTH + 1));
    assert_eq!(
        serialize_message(&msg).unwrap_err().message(),
        "topic length exceeds the maximum of 16383 bytes"
    );
}
