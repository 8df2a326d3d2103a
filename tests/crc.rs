use leveldb::util::crc32c::{crc32c_mask, crc32c_unmask};

#[test]
fn test_crc_standard_results() {
    let mut buf = [0u8; 32];
    assert_eq!(0x8a9136aa, crc32c::crc32c(&buf));
    buf.iter_mut().for_each(|byte| *byte = 0xff);
    assert_eq!(0x62a8ab43, crc32c::crc32c(&buf));
    buf.iter_mut().enumerate().for_each(|(index, byte)| *byte = index as u8);
    assert_eq!(0x46dd794e, crc32c::crc32c(&buf));
    buf.iter_mut().rev().enumerate().for_each(|(index, byte)| *byte = index as u8);
    assert_eq!(0x113fdb5c, crc32c::crc32c(&buf));
    let data = [
        0x01, 0xc0, 0x00, 0x00, 0x00, 0x00, 0x00, 0x00, 0x00, 0x00, 0x00, 0x00, 0x00, 0x00, 0x00,
        0x00, 0x14, 0x00, 0x00, 0x00, 0x00, 0x00, 0x04, 0x00, 0x00, 0x00, 0x00, 0x14, 0x00, 0x00,
        0x00, 0x18, 0x28, 0x00, 0x00, 0x00, 0x00, 0x00, 0x00, 0x00, 0x02, 0x00, 0x00, 0x00, 0x00,
        0x00, 0x00, 0x00,
    ];
    assert_eq!(0xd9963a56, crc32c::crc32c(&data));
}

#[test]
fn test_crc_values() {
    assert_ne!(crc32c::crc32c("a".as_bytes()), crc32c::crc32c("foo".as_bytes()));
}

#[test]
fn test_crc_extend() {
    assert_eq!(
        crc32c::crc32c("hello world".as_bytes()),
        crc32c::crc32c_append(crc32c::crc32c("hello ".as_bytes()), "world".as_bytes())
    );
}

#[test]
fn test_crc_mask() {
    let crc = crc32c::crc32c("foo".as_bytes());
    assert_ne!(crc, crc32c_mask(crc));
    assert_ne!(crc, crc32c_mask(crc32c_mask(crc)));
    assert_eq!(crc, crc32c_unmask(crc32c_mask(crc)));
    assert_eq!(crc, crc32c_unmask(crc32c_unmask(crc32c_mask(crc32c_mask(crc)))));
}

#[test]
fn mask_exact_values() {
    assert_eq!(crc32c_mask(0), 0xa282ead8);
    assert_eq!(crc32c_unmask(0xa282ead8), 0);
    for c in [1u32, 0x8000, 0xdeadbeef, u32::MAX] {
        assert_eq!(crc32c_unmask(crc32c_mask(c)), c);
    }
    assert_eq!(crc32c_mask(1), (1u32 << 17).wrapping_add(0xa282ead8));
}
