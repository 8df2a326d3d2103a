use leveldb::util::hash::hash;

#[test]
fn test_hash_signed_unsigned_issue() {
    let data1 = [0x62];
    let data2 = [0xc3, 0x97];
    let data3 = [0xe2, 0x99, 0xa5];
    let data4 = [0xe1, 0x80, 0xb9, 0x32];
    let data5 = [
        0x01, 0xc0, 0x00, 0x00, 0x00, 0x00, 0x00, 0x00, 0x00, 0x00, 0x00, 0x00, 0x00, 0x00, 0x00,
        0x00, 0x14, 0x00, 0x00, 0x00, 0x00, 0x00, 0x04, 0x00, 0x00, 0x00, 0x00, 0x14, 0x00, 0x00,
        0x00, 0x18, 0x28, 0x00, 0x00, 0x00, 0x00, 0x00, 0x00, 0x00, 0x02, 0x00, 0x00, 0x00, 0x00,
        0x00, 0x00, 0x00,
    ];
    assert_eq!(hash(&[], 0xbc9f1d34), 0xbc9f1d34);
    assert_eq!(hash(&data1, 0xbc9f1d34), 0xef1345c4);
    assert_eq!(hash(&data2, 0xbc9f1d34), 0x5b663814);
    assert_eq!(hash(&data3, 0xbc9f1d34), 0x323c078f);
    assert_eq!(hash(&data4, 0xbc9f1d34), 0xed21633a);
    assert_eq!(hash(&data5, 0x12345678), 0xf333dabb);
}
