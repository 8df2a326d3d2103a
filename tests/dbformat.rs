use leveldb::dbformat::{
    append_internal_key, parse_internal_key, InternalKey, InternalKeyComparator, LookupKey,
    ParsedInternalKey, SequenceNumber, ValueType, MAX_SEQUENCE_NUMBER, VALUE_TYPE_FOR_SEEK,
};
use leveldb::util::comparator::BytewiseComparator;
use std::cmp::Ordering;

fn ikey(user_key: &[u8], seq: SequenceNumber, type_: ValueType) -> Vec<u8> {
    let mut encoded = vec![];
    append_internal_key(&mut encoded, &ParsedInternalKey::new(user_key, seq, type_));
    encoded
}

fn shorten(short: &[u8], long: &[u8]) -> Vec<u8> {
    InternalKeyComparator::new(BytewiseComparator::new()).find_shortest_separator(short, long)
}

fn short_successor(short: &[u8]) -> Vec<u8> {
    InternalKeyComparator::new(BytewiseComparator::new()).find_short_successor(short)
}

fn test_key(user_key: &[u8], seq: SequenceNumber, type_: ValueType) {
    let encoded = ikey(user_key, seq, type_);
    let decoded = parse_internal_key(&encoded).unwrap();
    assert_eq!(user_key, decoded.user_key.as_slice());
    assert_eq!(seq, decoded.sequence);
    assert_eq!(type_, decoded.value_type);
}

#[test]
fn test_format_internal_key_encode_decode() {
    let keys = vec!["", "k", "hello", "longggggggggggggggggggggg"];
    let seqs: Vec<u64> = vec![
        1,
        2,
        3,
        (1 << 8) - 1,
        1 << 8,
        (1 << 8) + 1,
        (1 << 16) - 1,
        1 << 16,
        (1 << 16) + 1,
        (1 << 32) - 1,
        1 << 32,
        (1 << 32) + 1,
    ];
    for key in keys {
        for &seq in &seqs {
            test_key(key.as_bytes(), seq, ValueType::Value);
            test_key("hello".as_bytes(), 1, ValueType::Deletion);
        }
    }
}

#[test]
fn test_format_internal_key_decode_from_empty() {
    let mut internal_key = InternalKey::new_empty();
    assert!(!internal_key.decode_from(&[]));
}

#[test]
fn test_format_internal_key_shortest_separator() {
    assert_eq!(
        ikey("foo".as_bytes(), 100, ValueType::Value),
        shorten(&ikey("foo".as_bytes(), 100, ValueType::Value), &ikey("foo".as_bytes(), 99, ValueType::Value)),
    );
    assert_eq!(
        ikey("foo".as_bytes(), 100, ValueType::Value),
        shorten(&ikey("foo".as_bytes(), 100, ValueType::Value), &ikey("foo".as_bytes(), 101, ValueType::Value)),
    );
    assert_eq!(
        ikey("foo".as_bytes(), 100, ValueType::Value),
        shorten(&ikey("foo".as_bytes(), 100, ValueType::Value), &ikey("foo".as_bytes(), 100, ValueType::Value)),
    );
    assert_eq!(
        ikey("foo".as_bytes(), 100, ValueType::Value),
        shorten(&ikey("foo".as_bytes(), 100, ValueType::Value), &ikey("foo".as_bytes(), 100, ValueType::Deletion)),
    );
    assert_eq!(
        ikey("foo".as_bytes(), 100, ValueType::Value),
        shorten(&ikey("foo".as_bytes(), 100, ValueType::Value), &ikey("bar".as_bytes(), 99, ValueType::Value)),
    );
    assert_eq!(
        ikey("g".as_bytes(), MAX_SEQUENCE_NUMBER, VALUE_TYPE_FOR_SEEK),
        shorten(&ikey("foo".as_bytes(), 100, ValueType::Value), &ikey("hello".as_bytes(), 200, ValueType::Value)),
    );
    assert_eq!(
        ikey("foo".as_bytes(), 100, ValueType::Value),
        shorten(&ikey("foo".as_bytes(), 100, ValueType::Value), &ikey("foobar".as_bytes(), 200, ValueType::Value)),
    );
    assert_eq!(
        ikey("foobar".as_bytes(), 100, ValueType::Value),
        shorten(&ikey("foobar".as_bytes(), 100, ValueType::Value), &ikey("foo".as_bytes(), 200, ValueType::Value)),
    );
}

#[test]
fn test_format_internal_key_short_successor() {
    assert_eq!(
        ikey("g".as_bytes(), MAX_SEQUENCE_NUMBER, VALUE_TYPE_FOR_SEEK),
        short_successor(&ikey("foo".as_bytes(), 100, ValueType::Value))
    );
    assert_eq!(
        ikey(&[0xff, 0xff], 100, ValueType::Value),
        short_successor(&ikey(&[0xff, 0xff], 100, ValueType::Value))
    );
}

#[test]
fn internal_key_layout_and_order() {
    let k = ikey(b"ab", 5, ValueType::Value);
    assert_eq!(k, vec![b'a', b'b', 0x01, 0x05, 0, 0, 0, 0, 0, 0]);
    let cmp = InternalKeyComparator::new(BytewiseComparator::new());
    assert_eq!(cmp.compare(&ikey(b"a", 1, ValueType::Value), &ikey(b"b", 9, ValueType::Value)), Ordering::Less);
    assert_eq!(cmp.compare(&ikey(b"a", 9, ValueType::Value), &ikey(b"a", 1, ValueType::Value)), Ordering::Less);
    assert_eq!(cmp.compare(&ikey(b"a", 1, ValueType::Value), &ikey(b"a", 1, ValueType::Deletion)), Ordering::Less);
    assert_eq!(cmp.compare(&ikey(b"a", 1, ValueType::Value), &ikey(b"a", 1, ValueType::Value)), Ordering::Equal);
    assert!(parse_internal_key(b"short").is_none());
    let mut bad = ikey(b"x", 1, ValueType::Value);
    bad[1] = 7;
    assert!(parse_internal_key(&bad).is_none());
}

#[test]
fn lookup_key_views() {
    let lk = LookupKey::new(b"user", 42);
    assert_eq!(lk.user_key(), b"user");
    assert_eq!(lk.internal_key(), ikey(b"user", 42, ValueType::Value).as_slice());
    let mut expected = vec![12u8];
    expected.extend_from_slice(&ikey(b"user", 42, ValueType::Value));
    assert_eq!(lk.memtable_key(), expected.as_slice());
    let ik = InternalKey::new(b"user", 42, ValueType::Deletion);
    assert_eq!(ik.user_key(), b"user");
    assert_eq!(ik.encode(), ikey(b"user", 42, ValueType::Deletion).as_slice());
}
