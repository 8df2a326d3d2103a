use leveldb::util::result::{Error, Result};

#[test]
fn test_result_move() {
    let ok: Result<()> = Ok(());
    let ok2 = ok;
    assert!(ok2.is_ok());
    let status: Result<()> = Err(Error::not_found("custom NotFound message"));
    let status2 = status;
    let error = status2.unwrap_err();
    assert!(error.is_not_found());
    assert_eq!("NotFound: custom NotFound message", error.to_string());
}

#[test]
fn error_kinds() {
    assert!(Error::corruption("x").is_corruption());
    assert!(Error::not_supported("x").is_not_supported());
    assert!(Error::invalid_argument("x").is_invalid_argument());
    assert!(Error::io_error("x").is_io_error());
    assert!(!Error::io_error("x").is_not_found());
    assert_eq!("Corruption: bad", Error::corruption("bad").to_string());
    assert_eq!("IOError: disk", Error::io_error("disk").to_string());
}
