use leveldb::filename::{
    current_file_name, descriptor_file_name, info_log_file_name, lock_file_name, log_file_name,
    old_info_log_file_name, parse_file_name, sst_table_file_name, table_file_name, temp_file_name,
    FileType,
};

#[test]
fn test_file_name_parse() {
    let cases = [
        ("100.log", 100, FileType::LogFile),
        ("0.log", 0, FileType::LogFile),
        ("0.sst", 0, FileType::TableFile),
        ("0.ldb", 0, FileType::TableFile),
        ("CURRENT", 0, FileType::CurrentFile),
        ("LOCK", 0, FileType::DBLockFile),
        ("MANIFEST-2", 2, FileType::DescriptorFile),
        ("MANIFEST-7", 7, FileType::DescriptorFile),
        ("LOG", 0, FileType::InfoLogFile),
        ("LOG.old", 0, FileType::InfoLogFile),
        ("18446744073709551615.log", 18446744073709551615u64, FileType::LogFile),
    ];
    for (fname, number, type_) in cases {
        assert_eq!((number, type_), parse_file_name(fname).unwrap());
    }
    let errors = [
        "",
        "foo",
        "foo-dx-100.log",
        ".log",
        "",
        "manifest",
        "CURREN",
        "CURRENTX",
        "MANIFES",
        "MANIFEST",
        "MANIFEST-",
        "XMANIFEST-3",
        "MANIFEST-3x",
        "LOC",
        "LOCKx",
        "LO",
        "LOGx",
        "18446744073709551616.log",
        "184467440737095516150.log",
        "100",
        "100.",
        "100.lop",
    ];
    for fname in errors {
        assert!(parse_file_name(fname).is_none());
    }
}

#[test]
fn test_file_name_construction() {
    let fname = current_file_name("foo");
    assert_eq!("foo/", &fname[..4]);
    assert_eq!((0, FileType::CurrentFile), parse_file_name(&fname[4..]).unwrap());
    let fname = lock_file_name("foo");
    assert_eq!("foo/", &fname[..4]);
    assert_eq!((0, FileType::DBLockFile), parse_file_name(&fname[4..]).unwrap());
    let fname = log_file_name("foo", 192);
    assert_eq!("foo/", &fname[..4]);
    assert_eq!((192, FileType::LogFile), parse_file_name(&fname[4..]).unwrap());
    let fname = table_file_name("bar", 200);
    assert_eq!("bar/", &fname[..4]);
    assert_eq!((200, FileType::TableFile), parse_file_name(&fname[4..]).unwrap());
    let fname = descriptor_file_name("bar", 100);
    assert_eq!("bar/", &fname[..4]);
    assert_eq!((100, FileType::DescriptorFile), parse_file_name(&fname[4..]).unwrap());
    let fname = temp_file_name("tmp", 999);
    assert_eq!("tmp/", &fname[..4]);
    assert_eq!((999, FileType::TempFile), parse_file_name(&fname[4..]).unwrap());
    let fname = info_log_file_name("foo");
    assert_eq!("foo/", &fname[..4]);
    assert_eq!((0, FileType::InfoLogFile), parse_file_name(&fname[4..]).unwrap());
    let fname = old_info_log_file_name("foo");
    assert_eq!("foo/", &fname[..4]);
    assert_eq!((0, FileType::InfoLogFile), parse_file_name(&fname[4..]).unwrap());
}

#[test]
fn file_names_exact() {
    assert_eq!(log_file_name("db", 7), "db/000007.log");
    assert_eq!(table_file_name("db", 1234567), "db/1234567.ldb");
    assert_eq!(sst_table_file_name("db", 12), "db/000012.sst");
    assert_eq!(descriptor_file_name("db", 5), "db/MANIFEST-5");
    assert_eq!(temp_file_name("db", 0), "db/000000.dbtmp");
    assert_eq!(old_info_log_file_name("db"), "db/LOG.old");
}
