use leveldb::log::reader::Reader;
use leveldb::log::writer::Writer;
use leveldb::log::{RecordType, BLOCK_SIZE, HEADER_SIZE};
use leveldb::util::coding::encode_fixed32;
use leveldb::util::crc32c::crc32c_mask;
use leveldb::util::random::Random;

fn big_string(partial_string: &[u8], n: usize) -> Vec<u8> {
    partial_string.iter().cycle().take(n).cloned().collect()
}

fn number_string(n: u32) -> Vec<u8> {
    format!("{n}.").as_bytes().to_vec()
}

fn random_skewed_string(i: u32, rnd: &mut Random) -> Vec<u8> {
    big_string(&number_string(i), rnd.skewed(17) as usize)
}

const INITIAL_OFFSET_RECORD_SIZES: [usize; 6] =
    [10000, 10000, 2 * BLOCK_SIZE - 1000, 1, 13716, BLOCK_SIZE - HEADER_SIZE];

const INITIAL_OFFSET_LAST_RECORD_OFFSETS: [usize; 6] = [
    0,
    HEADER_SIZE + 10000,
    2 * (HEADER_SIZE + 10000),
    2 * (HEADER_SIZE + 10000) + (2 * BLOCK_SIZE - 1000) + 3 * HEADER_SIZE,
    2 * (HEADER_SIZE + 10000) + (2 * BLOCK_SIZE - 1000) + 3 * HEADER_SIZE + HEADER_SIZE + 1,
    3 * BLOCK_SIZE,
];

const NUM_INITIAL_OFFSET_RECORDS: usize = 6;

struct LogTest {
    dest: Vec<u8>,
    writer: Writer,
    reader: Option<Reader>,
    initial_offset: usize,
}

impl LogTest {
    fn new() -> Self {
        Self { dest: vec![], writer: Writer::new(), reader: None, initial_offset: 0 }
    }

    fn reopen_for_append(&mut self) {
        self.writer = Writer::new_at(self.dest.len());
    }

    fn write(&mut self, msg: &[u8]) {
        assert!(self.reader.is_none(), "Write() after starting to read");
        self.writer.add_record(&mut self.dest, msg);
    }

    fn written_bytes(&self) -> usize {
        self.dest.len()
    }

    fn read(&mut self) -> Vec<u8> {
        if self.reader.is_none() {
            self.reader = Some(Reader::new(self.dest.clone(), self.initial_offset, true));
        }
        match self.reader.as_mut().unwrap().read_record() {
            Some(record) => record,
            None => "EOF".as_bytes().to_vec(),
        }
    }

    fn increment_byte(&mut self, offset: usize, delta: u8) {
        self.dest[offset] = self.dest[offset].wrapping_add(delta);
    }

    fn set_byte(&mut self, offset: usize, new_byte: u8) {
        self.dest[offset] = new_byte;
    }

    fn shrink_size(&mut self, bytes: usize) {
        let len = self.dest.len();
        self.dest.truncate(len - bytes);
    }

    fn fix_checksum(&mut self, header_offset: usize, len: usize) {
        let crc = crc32c::crc32c(&self.dest[header_offset + 6..header_offset + 6 + 1 + len]);
        let crc = crc32c_mask(crc);
        encode_fixed32(&mut self.dest[header_offset..], crc);
    }

    fn dropped_bytes(&self) -> usize {
        match &self.reader {
            Some(r) => r.reports().iter().map(|c| c.bytes).sum(),
            None => 0,
        }
    }

    fn report_message(&self) -> String {
        match &self.reader {
            Some(r) => r.reports().iter().map(|c| c.reason.to_string()).collect(),
            None => String::new(),
        }
    }

    fn match_error(&self, msg: &str) -> String {
        let message = self.report_message();
        if message.contains(msg) {
            String::from("OK")
        } else {
            message
        }
    }

    fn write_initial_offset_log(&mut self) {
        for i in 0..NUM_INITIAL_OFFSET_RECORDS {
            let record = vec![b'a' + i as u8; INITIAL_OFFSET_RECORD_SIZES[i]];
            self.write(&record);
        }
    }

    fn start_reading_at(&mut self, initial_offset: usize) {
        self.initial_offset = initial_offset;
        self.reader = None;
    }

    fn check_offset_past_end_returns_no_records(&mut self, offset_past_end: usize) {
        self.write_initial_offset_log();
        let mut offset_reader =
            Reader::new(self.dest.clone(), self.written_bytes() + offset_past_end, true);
        assert!(offset_reader.read_record().is_none());
    }

    fn check_initial_offset_record(&mut self, initial_offset: usize, expected_record_offset: usize) {
        self.write_initial_offset_log();
        let mut offset_reader = Reader::new(self.dest.clone(), initial_offset, true);
        assert!(expected_record_offset < NUM_INITIAL_OFFSET_RECORDS);
        for current_record_offset in expected_record_offset..NUM_INITIAL_OFFSET_RECORDS {
            let record = offset_reader.read_record().unwrap();
            assert_eq!(INITIAL_OFFSET_RECORD_SIZES[current_record_offset], record.len());
            assert_eq!(
                INITIAL_OFFSET_LAST_RECORD_OFFSETS[current_record_offset],
                offset_reader.last_record_offset()
            );
            assert_eq!(b'a' + current_record_offset as u8, record[0]);
        }
    }
}

#[test]
fn test_log_empty() {
    let mut log_test = LogTest::new();
    assert_eq!("EOF".as_bytes(), log_test.read());
}

#[test]
fn test_log_read_write() {
    let mut log_test = LogTest::new();
    log_test.write("foo".as_bytes());
    log_test.write("bar".as_bytes());
    log_test.write("".as_bytes());
    log_test.write("xxxx".as_bytes());
    assert_eq!("foo".as_bytes(), log_test.read());
    assert_eq!("bar".as_bytes(), log_test.read());
    assert_eq!("".as_bytes(), log_test.read());
    assert_eq!("xxxx".as_bytes(), log_test.read());
    assert_eq!("EOF".as_bytes(), log_test.read());
    assert_eq!("EOF".as_bytes(), log_test.read());
}

#[test]
fn test_log_many_blocks() {
    let mut log_test = LogTest::new();
    for i in 0..100000 {
        log_test.write(&number_string(i));
    }
    for i in 0..100000 {
        assert_eq!(number_string(i), log_test.read());
    }
    assert_eq!("EOF".as_bytes(), log_test.read());
}

#[test]
fn test_log_fragmentation() {
    let mut log_test = LogTest::new();
    log_test.write("small".as_bytes());
    log_test.write(&big_string("medium".as_bytes(), 50000));
    log_test.write(&big_string("large".as_bytes(), 100000));
    assert_eq!("small".as_bytes(), log_test.read());
    assert_eq!(big_string("medium".as_bytes(), 50000), log_test.read());
    assert_eq!(big_string("large".as_bytes(), 100000), log_test.read());
    assert_eq!("EOF".as_bytes(), log_test.read());
}

#[test]
fn test_log_marginal_trailer1() {
    const N: usize = BLOCK_SIZE - 2 * HEADER_SIZE;
    let mut log_test = LogTest::new();
    log_test.write(&big_string("foo".as_bytes(), N));
    assert_eq!(BLOCK_SIZE - HEADER_SIZE, log_test.written_bytes());
    log_test.write("".as_bytes());
    log_test.write("bar".as_bytes());
    assert_eq!(big_string("foo".as_bytes(), N), log_test.read());
    assert_eq!("".as_bytes(), log_test.read());
    assert_eq!("bar".as_bytes(), log_test.read());
    assert_eq!("EOF".as_bytes(), log_test.read());
}

#[test]
fn test_log_marginal_trailer2() {
    const N: usize = BLOCK_SIZE - 2 * HEADER_SIZE;
    let mut log_test = LogTest::new();
    log_test.write(&big_string("foo".as_bytes(), N));
    assert_eq!(BLOCK_SIZE - HEADER_SIZE, log_test.written_bytes());
    log_test.write("bar".as_bytes());
    assert_eq!(big_string("foo".as_bytes(), N), log_test.read());
    assert_eq!("bar".as_bytes(), log_test.read());
    assert_eq!("EOF".as_bytes(), log_test.read());
    assert_eq!(0, log_test.dropped_bytes());
    assert_eq!("", log_test.report_message());
}

#[test]
fn test_log_short_trailer() {
    const N: usize = BLOCK_SIZE - 2 * HEADER_SIZE + 4;
    let mut log_test = LogTest::new();
    log_test.write(&big_string("foo".as_bytes(), N));
    assert_eq!(BLOCK_SIZE - HEADER_SIZE + 4, log_test.written_bytes());
    log_test.write("".as_bytes());
    log_test.write("bar".as_bytes());
    assert_eq!(big_string("foo".as_bytes(), N), log_test.read());
    assert_eq!("".as_bytes(), log_test.read());
    assert_eq!("bar".as_bytes(), log_test.read());
    assert_eq!("EOF".as_bytes(), log_test.read());
}

#[test]
fn test_log_aligned_eof() {
    const N: usize = BLOCK_SIZE - 2 * HEADER_SIZE + 4;
    let mut log_test = LogTest::new();
    log_test.write(&big_string("foo".as_bytes(), N));
    assert_eq!(BLOCK_SIZE - HEADER_SIZE + 4, log_test.written_bytes());
    assert_eq!(big_string("foo".as_bytes(), N), log_test.read());
    assert_eq!("EOF".as_bytes(), log_test.read());
}

#[test]
fn test_log_open_for_append() {
    let mut log_test = LogTest::new();
    log_test.write("hello".as_bytes());
    log_test.reopen_for_append();
    log_test.write("world".as_bytes());
    assert_eq!("hello".as_bytes(), log_test.read());
    assert_eq!("world".as_bytes(), log_test.read());
    assert_eq!("EOF".as_bytes(), log_test.read());
}

#[test]
fn test_log_random_read() {
    const N: u32 = 500;
    let mut log_test = LogTest::new();
    let mut write_rnd = Random::new(301);
    for i in 0..N {
        log_test.write(&random_skewed_string(i, &mut write_rnd));
    }
    let mut read_rnd = Random::new(301);
    for i in 0..N {
        assert_eq!(random_skewed_string(i, &mut read_rnd), log_test.read());
    }
    assert_eq!("EOF".as_bytes(), log_test.read());
}

#[test]
fn test_log_bad_record_type() {
    let mut log_test = LogTest::new();
    log_test.write("foo".as_bytes());
    log_test.increment_byte(6, 100);
    log_test.fix_checksum(0, 3);
    assert_eq!("EOF".as_bytes(), log_test.read());
    assert_eq!(3, log_test.dropped_bytes());
    assert_eq!("OK", log_test.match_error("unknown record type"));
}

#[test]
fn test_log_truncated_trailing_record_is_ignored() {
    let mut log_test = LogTest::new();
    log_test.write("foo".as_bytes());
    log_test.shrink_size(4);
    assert_eq!("EOF".as_bytes(), log_test.read());
    assert_eq!(0, log_test.dropped_bytes());
    assert_eq!("", log_test.report_message());
}

#[test]
fn test_log_bad_length() {
    const PAYLOAD_SIZE: usize = BLOCK_SIZE - HEADER_SIZE;
    let mut log_test = LogTest::new();
    log_test.write(&big_string("bar".as_bytes(), PAYLOAD_SIZE));
    log_test.write("foo".as_bytes());
    log_test.increment_byte(4, 1);
    assert_eq!("foo".as_bytes(), log_test.read());
    assert_eq!(BLOCK_SIZE, log_test.dropped_bytes());
    assert_eq!("OK", log_test.match_error("bad record length"));
}

#[test]
fn test_log_bad_length_at_end_is_ignored() {
    let mut log_test = LogTest::new();
    log_test.write("foo".as_bytes());
    log_test.shrink_size(1);
    assert_eq!("EOF".as_bytes(), log_test.read());
    assert_eq!(0, log_test.dropped_bytes());
    assert_eq!("", log_test.report_message());
}

#[test]
fn test_log_checksum_mismatch() {
    let mut log_test = LogTest::new();
    log_test.write("foo".as_bytes());
    log_test.increment_byte(0, 10);
    assert_eq!("EOF".as_bytes(), log_test.read());
    assert_eq!(10, log_test.dropped_bytes());
    assert_eq!("OK", log_test.match_error("checksum mismatch"));
}

#[test]
fn test_log_unexpected_middle_type() {
    let mut log_test = LogTest::new();
    log_test.write("foo".as_bytes());
    log_test.set_byte(6, RecordType::Middle.as_byte());
    log_test.fix_checksum(0, 3);
    assert_eq!("EOF".as_bytes(), log_test.read());
    assert_eq!(3, log_test.dropped_bytes());
    assert_eq!("OK", log_test.match_error("missing start"));
}

#[test]
fn test_log_unexpected_last_type() {
    let mut log_test = LogTest::new();
    log_test.write("foo".as_bytes());
    log_test.set_byte(6, RecordType::Last.as_byte());
    log_test.fix_checksum(0, 3);
    assert_eq!("EOF".as_bytes(), log_test.read());
    assert_eq!(3, log_test.dropped_bytes());
    assert_eq!("OK", log_test.match_error("missing start"));
}

#[test]
fn test_log_unexpected_full_type() {
    let mut log_test = LogTest::new();
    log_test.write("foo".as_bytes());
    log_test.write("bar".as_bytes());
    log_test.set_byte(6, RecordType::First.as_byte());
    log_test.fix_checksum(0, 3);
    assert_eq!("bar".as_bytes(), log_test.read());
    assert_eq!("EOF".as_bytes(), log_test.read());
    assert_eq!(3, log_test.dropped_bytes());
    assert_eq!("OK", log_test.match_error("partial record without end"));
}

#[test]
fn test_log_unexpected_first_type() {
    let mut log_test = LogTest::new();
    log_test.write("foo".as_bytes());
    log_test.write(&big_string("bar".as_bytes(), 100000));
    log_test.set_byte(6, RecordType::First.as_byte());
    log_test.fix_checksum(0, 3);
    assert_eq!(big_string("bar".as_bytes(), 100000), log_test.read());
    assert_eq!("EOF".as_bytes(), log_test.read());
    assert_eq!(3, log_test.dropped_bytes());
    assert_eq!("OK", log_test.match_error("partial record without end"));
}

#[test]
fn test_log_missing_last_is_ignored() {
    let mut log_test = LogTest::new();
    log_test.write(&big_string("bar".as_bytes(), BLOCK_SIZE));
    log_test.shrink_size(14);
    assert_eq!("EOF".as_bytes(), log_test.read());
    assert_eq!(0, log_test.dropped_bytes());
    assert_eq!("", log_test.report_message());
}

#[test]
fn test_log_partial_last_is_ignored() {
    let mut log_test = LogTest::new();
    log_test.write(&big_string("bar".as_bytes(), BLOCK_SIZE));
    log_test.shrink_size(1);
    assert_eq!("EOF".as_bytes(), log_test.read());
    assert_eq!(0, log_test.dropped_bytes());
    assert_eq!("", log_test.report_message());
}

#[test]
fn test_log_skip_into_multi_record() {
    let mut log_test = LogTest::new();
    log_test.write(&big_string("foo".as_bytes(), 3 * BLOCK_SIZE));
    log_test.write("correct".as_bytes());
    log_test.start_reading_at(BLOCK_SIZE);
    assert_eq!("correct".as_bytes(), log_test.read());
    assert_eq!(0, log_test.dropped_bytes());
    assert_eq!("", log_test.report_message());
    assert_eq!("EOF".as_bytes(), log_test.read());
}

#[test]
fn test_log_error_joins_records() {
    let mut log_test = LogTest::new();
    log_test.write(&big_string("foo".as_bytes(), BLOCK_SIZE));
    log_test.write(&big_string("bar".as_bytes(), BLOCK_SIZE));
    log_test.write("correct".as_bytes());
    for offset in BLOCK_SIZE..2 * BLOCK_SIZE {
        log_test.set_byte(offset, b'x');
    }
    assert_eq!("correct".as_bytes(), log_test.read());
    assert_eq!("EOF".as_bytes(), log_test.read());
    let dropped = log_test.dropped_bytes();
    assert!(dropped >= 2 * BLOCK_SIZE);
    assert!(dropped <= 2 * BLOCK_SIZE + 100);
}

#[test]
fn test_log_read_start() {
    LogTest::new().check_initial_offset_record(0, 0);
}

#[test]
fn test_log_read_second_one_off() {
    LogTest::new().check_initial_offset_record(1, 1);
}

#[test]
fn test_log_read_second_ten_thousand() {
    LogTest::new().check_initial_offset_record(10000, 1);
}

#[test]
fn test_log_read_second_start() {
    LogTest::new().check_initial_offset_record(10007, 1);
}

#[test]
fn test_log_read_third_one_off() {
    LogTest::new().check_initial_offset_record(10008, 2);
}

#[test]
fn test_log_read_third_start() {
    LogTest::new().check_initial_offset_record(20014, 2);
}

#[test]
fn test_log_read_fourth_one_off() {
    LogTest::new().check_initial_offset_record(20015, 3);
}

#[test]
fn test_log_read_fourth_first_block_trailer() {
    LogTest::new().check_initial_offset_record(BLOCK_SIZE - 4, 3);
}

#[test]
fn test_log_read_fourth_middle_block() {
    LogTest::new().check_initial_offset_record(BLOCK_SIZE + 1, 3);
}

#[test]
fn test_log_read_fourth_last_block() {
    LogTest::new().check_initial_offset_record(2 * BLOCK_SIZE + 1, 3);
}

#[test]
fn test_log_read_fourth_start() {
    LogTest::new().check_initial_offset_record(
        2 * (HEADER_SIZE + 1000) + (2 * BLOCK_SIZE - 1000) + 3 * HEADER_SIZE,
        3,
    );
}

#[test]
fn test_log_read_initial_offset_into_block_padding() {
    LogTest::new().check_initial_offset_record(3 * BLOCK_SIZE - 3, 5);
}

#[test]
fn test_log_read_end() {
    LogTest::new().check_offset_past_end_returns_no_records(0);
}

#[test]
fn test_log_read_past_end() {
    LogTest::new().check_offset_past_end_returns_no_records(5);
}

#[test]
fn full_block_record_and_empty_record_layout() {
    let mut dest = vec![];
    let mut w = Writer::new();
    w.add_record(&mut dest, &vec![b'z'; BLOCK_SIZE - HEADER_SIZE]);
    assert_eq!(dest.len(), BLOCK_SIZE);
    w.add_record(&mut dest, b"");
    assert_eq!(dest.len(), BLOCK_SIZE + HEADER_SIZE);
    assert_eq!(dest[BLOCK_SIZE + 4], 0);
    assert_eq!(dest[BLOCK_SIZE + 5], 0);
    assert_eq!(dest[BLOCK_SIZE + 6], RecordType::Full.as_byte());
    let mut r = Reader::new(dest, 0, true);
    assert_eq!(r.read_record().unwrap().len(), BLOCK_SIZE - HEADER_SIZE);
    assert_eq!(r.read_record().unwrap(), Vec::<u8>::new());
    assert!(r.read_record().is_none());
}

#[test]
fn writer_header_checksum() {
    let mut dest = vec![];
    let mut w = Writer::new();
    w.add_record(&mut dest, b"foo");
    assert_eq!(dest.len(), HEADER_SIZE + 3);
    let crc = crc32c_mask(crc32c::crc32c(&[1u8, b'f', b'o', b'o']));
    assert_eq!(&dest[0..4], &crc.to_le_bytes());
    assert_eq!(&dest[4..7], &[3u8, 0, 1]);
    assert_eq!(&dest[7..], b"foo");
}

#[test]
fn reader_starts_at_offset_zero() {
    let r = Reader::new(vec![], 0, true);
    assert_eq!(r.last_record_offset(), 0);
    assert!(r.reports().is_empty());
}
