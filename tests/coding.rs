use leveldb::util::coding::{
    decode_fixed32, decode_fixed64, decode_size_prefixed_slice, decode_varint32, decode_varint64,
    extend_fixed32, extend_fixed64, extend_size_prefixed_slice, extend_varint32, extend_varint64,
    varint_size, encode_fixed32, encode_varint64,
};
use std::str;

#[test]
fn test_coding_fixed32() {
    let mut s = vec![];
    for v in 0..100000u32 {
        extend_fixed32(&mut s, v);
    }
    let mut i = 0;
    for v in 0..100000u32 {
        let actual = decode_fixed32(&s[i..i + 4]);
        assert_eq!(v, actual);
        i += 4;
    }
}

#[test]
fn test_coding_fixed64() {
    let mut s = vec![];
    for power in 0..63 {
        let v = 1u64 << power;
        extend_fixed64(&mut s, v - 1);
        extend_fixed64(&mut s, v + 0);
        extend_fixed64(&mut s, v + 1);
    }
    let mut i = 0;
    for power in 0..63 {
        let v = 1u64 << power;
        let actual = decode_fixed64(&s[i..i + 8]);
        assert_eq!(v - 1, actual);
        i += 8;
        let actual = decode_fixed64(&s[i..i + 8]);
        assert_eq!(v + 0, actual);
        i += 8;
        let actual = decode_fixed64(&s[i..i + 8]);
        assert_eq!(v + 1, actual);
        i += 8;
    }
}

#[test]
fn test_coding_encoding_output() {
    let mut s = vec![];
    extend_fixed32(&mut s, 0x04030201);
    assert_eq!(4, s.len());
    assert_eq!(0x01, s[0]);
    assert_eq!(0x02, s[1]);
    assert_eq!(0x03, s[2]);
    assert_eq!(0x04, s[3]);
    s.clear();
    extend_fixed64(&mut s, 0x0807060504030201);
    assert_eq!(8, s.len());
    assert_eq!(0x01, s[0]);
    assert_eq!(0x02, s[1]);
    assert_eq!(0x03, s[2]);
    assert_eq!(0x04, s[3]);
    assert_eq!(0x05, s[4]);
    assert_eq!(0x06, s[5]);
    assert_eq!(0x07, s[6]);
    assert_eq!(0x08, s[7]);
}

#[test]
fn test_coding_varint32() {
    let mut s = vec![];
    for i in 0..32 * 32u32 {
        let v = (i / 32) << (i % 32);
        extend_varint32(&mut s, v);
    }
    let mut index = 0;
    for i in 0..32 * 32u32 {
        let expected = (i / 32) << (i % 32);
        let (actual, offset) = decode_varint32(&s[index..]).unwrap();
        assert_eq!(expected, actual);
        assert_eq!(varint_size(actual as u64), offset);
        index += offset;
    }
    assert_eq!(index, s.len());
}

#[test]
fn test_coding_varint64() {
    let mut values: Vec<u64> = vec![];
    values.push(0);
    values.push(100);
    values.push(u64::MAX);
    values.push(u64::MAX - 1);
    for k in 0..64 {
        let power = 1u64 << k;
        values.push(power);
        values.push(power.wrapping_sub(1));
        values.push(power + 1);
    }
    let mut s = vec![];
    for &value in &values {
        extend_varint64(&mut s, value);
    }
    let mut index = 0;
    for value in values {
        assert!(index < s.len());
        let (actual, offset) = decode_varint64(&s[index..]).unwrap();
        assert_eq!(value, actual);
        assert_eq!(varint_size(actual), offset);
        index += offset;
    }
    assert_eq!(index, s.len());
}

#[test]
fn test_coding_varint32_overflow() {
    let input = [0x81, 0x82, 0x83, 0x84, 0x85, 0x11];
    assert!(decode_varint32(&input).is_none());
}

#[test]
fn test_coding_varint32_truncation() {
    let large_value = (1u32 << 31) + 100;
    let mut s = vec![];
    extend_varint32(&mut s, large_value);
    for len in 0..s.len() - 1 {
        assert!(decode_varint32(&s[..len]).is_none());
    }
    assert_eq!(large_value, decode_varint32(&s).unwrap().0);
}

#[test]
fn test_coding_varint64_overflow() {
    let input = [0x81, 0x82, 0x83, 0x84, 0x85, 0x81, 0x82, 0x83, 0x84, 0x85, 0x11];
    assert!(decode_varint64(&input).is_none())
}

#[test]
fn test_coding_varint64_truncation() {
    let large_value = (1u64 << 63) + 100;
    let mut s = vec![];
    extend_varint64(&mut s, large_value);
    for len in 0..s.len() - 1 {
        assert!(decode_varint64(&s[..len]).is_none());
    }
    assert_eq!(large_value, decode_varint64(&s).unwrap().0);
}

#[test]
fn test_coding_strings() {
    let mut s = vec![];
    extend_size_prefixed_slice(&mut s, "".as_bytes());
    extend_size_prefixed_slice(&mut s, "foo".as_bytes());
    extend_size_prefixed_slice(&mut s, "bar".as_bytes());
    extend_size_prefixed_slice(&mut s, vec![b'x'; 200].as_slice());
    let mut offset = 0;
    let (result, len) = decode_size_prefixed_slice(&s[offset..]).unwrap();
    offset += len;
    assert_eq!(str::from_utf8(result).unwrap(), "");
    let (result, len) = decode_size_prefixed_slice(&s[offset..]).unwrap();
    offset += len;
    assert_eq!(str::from_utf8(result).unwrap(), "foo");
    let (result, len) = decode_size_prefixed_slice(&s[offset..]).unwrap();
    offset += len;
    assert_eq!(str::from_utf8(result).unwrap(), "bar");
    let (result, len) = decode_size_prefixed_slice(&s[offset..]).unwrap();
    offset += len;
    assert_eq!(str::from_utf8(result).unwrap(), str::from_utf8(&vec![b'x'; 200]).unwrap());
    assert_eq!(offset, s.len())
}

#[test]
fn varint_round_trip_examples() {
    for v in [0u64, 1, 127, 128, 300, 16383, 16384, u32::MAX as u64, u64::MAX] {
        let mut s = vec![];
        extend_varint64(&mut s, v);
        assert_eq!(s.len(), varint_size(v));
        assert_eq!(decode_varint64(&s), Some((v, s.len())));
    }
    let mut s = vec![];
    extend_varint64(&mut s, 300);
    assert_eq!(s, vec![0xac, 0x02]);
}

#[test]
fn encode_into_slices() {
    let mut buf = [9u8; 6];
    encode_fixed32(&mut buf, 0x04030201);
    assert_eq!(buf, [1, 2, 3, 4, 9, 9]);
    let mut buf = [0u8; 12];
    let n = encode_varint64(&mut buf, u64::MAX);
    assert_eq!(n, 10);
    assert_eq!(buf[9], 1);
    assert_eq!(buf[10], 0);
}
