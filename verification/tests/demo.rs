use simnet::demo::{is_ping, Ping, Pong};
use simnet::message::MessageString;

#[test]
fn test_ping_render() {
    assert_eq!(Ping::new(0).to_string(), "Ping(0)");
    assert_eq!(Ping::new(42).to_string(), "Ping(42)");
    assert_eq!(Ping::new(-42).to_string(), "Ping(-42)");
    assert_eq!(*Ping::new(7).payload(), 7);
}

#[test]
fn test_pong_render() {
    assert_eq!(Pong::new(0).to_string(), "Pong(0)");
    assert_eq!(Pong::new(42).to_string(), "Pong(42)");
    assert_eq!(*Pong::new(7).payload(), 7);
}

#[test]
fn test_ping_parse() {
    assert_eq!(Ping::from_str("Ping(42)"), Some(Ping::new(42)));
    assert_eq!(Ping::from_str("Ping(0)"), Some(Ping::new(0)));
    assert_eq!(Ping::from_str("Ping(-5)"), Some(Ping::new(-5)));
    assert_eq!(Ping::from_str("Ping()"), None);
    assert_eq!(Ping::from_str("Ping(-)"), None);
    assert_eq!(Ping::from_str("Pong(3)"), None);
    assert_eq!(Ping::from_str("Ping(3"), None);
    assert_eq!(Ping::from_str("Ping(x)"), None);
    assert_eq!(Ping::from_str("Ping(-x)"), None);
    assert_eq!(Ping::from_str(""), None);
    assert_eq!(Ping::from_str("Ping(2147483647)"), Some(Ping::new(i32::MAX)));
    assert_eq!(Ping::from_str("Ping(2147483648)"), None);
    assert_eq!(Ping::from_str("Ping(-2147483648)"), Some(Ping::new(i32::MIN)));
    assert_eq!(Ping::from_str("Ping(-2147483649)"), None);
}

#[test]
fn test_ping_parse_round_trip() {
    for v in [0, 1, 9, 10, 4096, i32::MAX, -1, -42, -4096, i32::MIN] {
        let p = Ping::new(v);
        assert_eq!(Ping::from_str(p.to_string().as_str()), Some(p));
    }
}

#[test]
fn test_is_ping() {
    assert!(is_ping(&MessageString::new(String::from("Ping(1)"))));
    assert!(is_ping(&MessageString::new(String::from("Ping(abc"))));
    assert!(!is_ping(&MessageString::new(String::from("Pong(1)"))));
    assert!(!is_ping(&MessageString::new(String::from("Pin"))));
    assert!(!is_ping(&MessageString::new(String::from(""))));
}
