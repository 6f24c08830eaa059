use driftdb::{Key, KeyAndSeq, SequenceNumber};

#[test]
fn test_key_and_seq() {
    let k = KeyAndSeq {
        key: Key::new("foo".to_string()),
        seq: SequenceNumber(123),
    };
    let s = k.to_string();
    assert_eq!(s, "3|foo|00000000000000000123");
    let k2 = KeyAndSeq::from_str(&s).unwrap();
    assert_eq!(k, k2);
}

#[test]
fn test_prefix() {
    let result = KeyAndSeq::prefix_str(&Key::new("foo".to_string()));
    assert_eq!(result, "3|foo|");
}

#[test]
fn key_length_counts_bytes() {
    let key = Key::new("h\u{e9}|x".to_string());
    assert_eq!(key.len(), 5);
    let k = KeyAndSeq::new(key.clone(), SequenceNumber(u64::MAX));
    let s = k.to_string();
    assert_eq!(s, "5|h\u{e9}|x|18446744073709551615");
    assert_eq!(KeyAndSeq::from_str(&s).unwrap(), k);
}

#[test]
fn key_with_bars_round_trips() {
    let k = KeyAndSeq::new(Key::new("a|b|".to_string()), SequenceNumber(0));
    let s = k.to_string();
    assert_eq!(s, "4|a|b||00000000000000000000");
    assert_eq!(KeyAndSeq::from_str(&s).unwrap(), k);
}

#[test]
fn empty_key_round_trips() {
    let k = KeyAndSeq::new(Key::new(String::new()), SequenceNumber(7));
    let s = k.to_string();
    assert_eq!(s, "0||00000000000000000007");
    assert_eq!(KeyAndSeq::from_str(&s).unwrap(), k);
}

#[test]
fn malformed_storage_keys_are_refused() {
    assert!(KeyAndSeq::from_str("").is_err());
    assert!(KeyAndSeq::from_str("foo").is_err());
    assert!(KeyAndSeq::from_str("3|foo|123").is_err());
    assert!(KeyAndSeq::from_str("4|foo|00000000000000000123").is_err());
    assert!(KeyAndSeq::from_str("03|foo|00000000000000000123").is_err());
    assert!(KeyAndSeq::from_str("3|foo|0000000000000000012x").is_err());
    assert!(KeyAndSeq::from_str("3|foo|99999999999999999999").is_err());
}

#[test]
fn stream_prefix_only_starts_its_own_keys() {
    let foo = KeyAndSeq::prefix_str(&Key::new("foo".to_string()));
    let own = KeyAndSeq::new(Key::new("foo".to_string()), SequenceNumber(9)).to_string();
    let barred = KeyAndSeq::new(Key::new("foo|x".to_string()), SequenceNumber(9)).to_string();
    let longer = KeyAndSeq::new(Key::new("foox".to_string()), SequenceNumber(9)).to_string();
    assert!(own.starts_with(&foo));
    assert!(!barred.starts_with(&foo));
    assert!(!longer.starts_with(&foo));
}

#[test]
fn storage_keys_of_a_stream_sort_by_sequence_number() {
    let key = |q: u64| KeyAndSeq::new(Key::new("k".to_string()), SequenceNumber(q)).to_string();
    assert!(key(9) < key(10));
    assert!(key(1) < key(2));
    assert!(key(99) < key(100));
    assert!(key(u64::MAX - 1) < key(u64::MAX));
    assert!(!(key(5) < key(5)));
}
