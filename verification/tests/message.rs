use simnet::message::{Message, MessageString, PayloadMessage};

#[test]
fn test_message_string_round_trip() {
    let m = MessageString::new(String::from("hello, world"));
    let bytes = m.serialize();
    assert_eq!(bytes, b"hello, world".to_vec());
    let back = MessageString::deserialize(&bytes);
    assert_eq!(back.message, m.message);
}

#[test]
fn test_message_string_round_trip_multibyte() {
    let m = MessageString::new(String::from("p\u{12}ng \u{3b1}\u{3b2}"));
    let bytes = m.serialize();
    let back = MessageString::deserialize(&bytes);
    assert_eq!(back.message, m.message);
}

#[test]
fn test_payload_message() {
    let m = PayloadMessage::new(41);
    assert_eq!(*m.payload(), 41);
    let s = PayloadMessage::new(String::from("x"));
    assert_eq!(s.payload(), "x");
}
