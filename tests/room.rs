use driftdb::room::parse_u64;
use driftdb::{Configuration, RoomResult};

#[test]
fn room_addresses() {
    let r = RoomResult::new("abc".to_string(), "localhost:8080");
    assert_eq!("abc", r.room);
    assert_eq!("ws://localhost:8080/room/abc/connect", r.socket_url);
    assert_eq!("http://localhost:8080/room/abc/send", r.http_url);
    let s = RoomResult::with_security("abc".to_string(), "example.com", true);
    assert_eq!("wss://example.com/room/abc/connect", s.socket_url);
    assert_eq!("https://example.com/room/abc/send", s.http_url);
}

#[test]
fn configuration_from_variables() {
    let c = Configuration::from_vars(Some("https"), Some("60"));
    assert!(c.use_https);
    assert_eq!(60, c.retention_seconds);
    let d = Configuration::from_vars(Some("http"), Some("soon"));
    assert!(!d.use_https);
    assert_eq!(86400, d.retention_seconds);
    let e = Configuration::from_vars(None, None);
    assert!(!e.use_https);
    assert_eq!(86400, e.retention_seconds);
}

#[test]
fn configuration_from_upper_cased_protocol() {
    assert!(Configuration::from_upper(Some("HTTPS"), None).use_https);
    assert!(!Configuration::from_upper(Some("https"), None).use_https);
    assert!(!Configuration::from_upper(Some("HTTP"), None).use_https);
    assert_eq!(5, Configuration::from_upper(None, Some("+5")).retention_seconds);
    assert_eq!(86400, Configuration::from_upper(None, Some("-5")).retention_seconds);
}

#[test]
fn parse_u64_reads_like_std() {
    for s in ["0", "+7", "18446744073709551615", "007", "", "+", "-1", "1a", "18446744073709551616", " 1"] {
        assert_eq!(s.parse::<u64>().ok(), parse_u64(s), "{:?}", s);
    }
}
