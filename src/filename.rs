use vstd::prelude::*;
use vstd::string::{StringExecFns, StringSliceAdditionalSpecFns};
use crate::util::number::{append_decimal, pad_zeros, spec_decimal};

verus! {

/// The kinds of files in a database directory.
#[derive(Clone, Copy, PartialEq, Eq, Debug, Structural)]
pub enum FileType {
    LogFile,
    DBLockFile,
    TableFile,
    DescriptorFile,
    CurrentFile,
    TempFile,
    InfoLogFile,
}

/// `dbname/` followed by the number with at least six digits and `.suffix`.
pub open spec fn numbered_name(dbname: Seq<char>, number: u64, suffix: Seq<char>) -> Seq<char> {
    dbname + "/"@ + pad_zeros(spec_decimal(number as nat), 6) + "."@ + suffix
}

fn make_numbered_name(dbname: &str, number: u64, suffix: &str) -> (r: String)
    ensures
        r@ == numbered_name(dbname@, number, suffix@),
{
    let mut r = String::from_str(dbname);
    r.append("/");
    append_decimal(&mut r, number, 6);
    r.append(".");
    r.append(suffix);
    r
}

fn make_fixed_name(dbname: &str, name: &str) -> (r: String)
    ensures
        r@ == dbname@ + "/"@ + name@,
{
    let mut r = String::from_str(dbname);
    r.append("/");
    r.append(name);
    r
}

/// The name of the write-ahead log with the given number.
pub fn log_file_name(dbname: &str, number: u64) -> (r: String)
    requires
        number > 0,
    ensures
        r@ == numbered_name(dbname@, number, "log"@),
{
    make_numbered_name(dbname, number, "log")
}

/// The name of the sorted table with the given number.
pub fn table_file_name(dbname: &str, number: u64) -> (r: String)
    requires
        number > 0,
    ensures
        r@ == numbered_name(dbname@, number, "ldb"@),
{
    make_numbered_name(dbname, number, "ldb")
}

/// The older name of the sorted table with the given number.
pub fn sst_table_file_name(dbname: &str, number: u64) -> (r: String)
    requires
        number > 0,
    ensures
        r@ == numbered_name(dbname@, number, "sst"@),
{
    make_numbered_name(dbname, number, "sst")
}

/// The name of the manifest with the given number.
pub fn descriptor_file_name(dbname: &str, number: u64) -> (r: String)
    requires
        number > 0,
    ensures
        r@ == dbname@ + "/MANIFEST-"@ + spec_decimal(number as nat),
{
    let mut r = String::from_str(dbname);
    r.append("/MANIFEST-");
    append_decimal(&mut r, number, 0);
    proof {
        assert(pad_zeros(spec_decimal(number as nat), 0) == spec_decimal(number as nat));
    }
    r
}

/// The name of the file naming the current manifest.
pub fn current_file_name(dbname: &str) -> (r: String)
    ensures
        r@ == dbname@ + "/"@ + "CURRENT"@,
{
    make_fixed_name(dbname, "CURRENT")
}

/// The name of the lock file.
pub fn lock_file_name(dbname: &str) -> (r: String)
    ensures
        r@ == dbname@ + "/"@ + "LOCK"@,
{
    make_fixed_name(dbname, "LOCK")
}

/// The name of a temporary file with the given number.
pub fn temp_file_name(dbname: &str, number: u64) -> (r: String)
    ensures
        r@ == numbered_name(dbname@, number, "dbtmp"@),
{
    make_numbered_name(dbname, number, "dbtmp")
}

/// The name of the info log.
pub fn info_log_file_name(dbname: &str) -> (r: String)
    ensures
        r@ == dbname@ + "/"@ + "LOG"@,
{
    make_fixed_name(dbname, "LOG")
}

/// The name of the previous info log.
pub fn old_info_log_file_name(dbname: &str) -> (r: String)
    ensures
        r@ == dbname@ + "/"@ + "LOG.old"@,
{
    make_fixed_name(dbname, "LOG.old")
}

pub open spec fn is_digit(b: u8) -> bool {
    48 <= b <= 57
}

/// The value of a string of decimal digits.
pub open spec fn digits_value(s: Seq<u8>) -> nat
    decreases s.len(),
{
    if s.len() == 0 {
        0
    } else {
        digits_value(s.drop_last()) * 10 + (s.last() - 48) as nat
    }
}

/// A non-empty string of decimal digits whose value fits in 64 bits.
pub open spec fn spec_parse_number(s: Seq<u8>) -> Option<u64> {
    if s.len() > 0 && (forall|i: int| 0 <= i < s.len() ==> is_digit(#[trigger] s[i]))
        && digits_value(s) <= u64::MAX {
        Some(digits_value(s) as u64)
    } else {
        None
    }
}

/// The number of leading decimal digits of `s`.
pub open spec fn digit_prefix_len(s: Seq<u8>) -> nat
    decreases s.len(),
{
    if s.len() == 0 || !is_digit(s[0]) {
        0
    } else {
        1 + digit_prefix_len(s.drop_first())
    }
}

pub open spec fn bytes_current() -> Seq<u8> {
    seq![67u8, 85, 82, 82, 69, 78, 84]
}

pub open spec fn bytes_lock() -> Seq<u8> {
    seq![76u8, 79, 67, 75]
}

pub open spec fn bytes_log() -> Seq<u8> {
    seq![76u8, 79, 71]
}

pub open spec fn bytes_log_old() -> Seq<u8> {
    seq![76u8, 79, 71, 46, 111, 108, 100]
}

pub open spec fn bytes_manifest() -> Seq<u8> {
    seq![77u8, 65, 78, 73, 70, 69, 83, 84, 45]
}

/// `.log`, `.sst`, `.ldb`, `.dbtmp` and what each names.
pub open spec fn suffix_type(s: Seq<u8>) -> Option<FileType> {
    if s == seq![46u8, 108, 111, 103] {
        Some(FileType::LogFile)
    } else if s == seq![46u8, 115, 115, 116] || s == seq![46u8, 108, 100, 98] {
        Some(FileType::TableFile)
    } else if s == seq![46u8, 100, 98, 116, 109, 112] {
        Some(FileType::TempFile)
    } else {
        None
    }
}

/// What a file name (without directory) says: its number and kind.
pub open spec fn spec_parse_file_name(s: Seq<u8>) -> Option<(u64, FileType)> {
    if s == bytes_current() {
        Some((0, FileType::CurrentFile))
    } else if s == bytes_lock() {
        Some((0, FileType::DBLockFile))
    } else if s == bytes_log() || s == bytes_log_old() {
        Some((0, FileType::InfoLogFile))
    } else if s.len() >= 9 && s.take(9) == bytes_manifest() {
        match spec_parse_number(s.skip(9)) {
            Some(n) => Some((n, FileType::DescriptorFile)),
            None => None,
        }
    } else {
        let k = digit_prefix_len(s);
        match spec_parse_number(s.take(k as int)) {
            Some(n) => match suffix_type(s.skip(k as int)) {
                Some(t) => Some((n, t)),
                None => None,
            },
            None => None,
        }
    }
}

fn bytes_equal(a: &[u8], b: &[u8]) -> (r: bool)
    ensures
        r == (a@ == b@),
{
    if a.len() != b.len() {
        return false;
    }
    let mut i: usize = 0;
    while i < a.len()
        invariant
            a@.len() == b@.len(),
            i <= a@.len(),
            forall|j: int| 0 <= j < i ==> a@[j] == b@[j],
        decreases a.len() - i,
    {
        if a[i] != b[i] {
            return false;
        }
        i = i + 1;
    }
    assert(a@ =~= b@);
    true
}

proof fn lemma_digits_value_push(s: Seq<u8>, b: u8)
    ensures
        digits_value(s.push(b)) == digits_value(s) * 10 + (b - 48) as nat,
{
    assert(s.push(b).drop_last() =~= s);
}

/// Parses a non-empty string of decimal digits into a `u64`; `None` on any
/// other byte or on overflow.
fn parse_number(s: &[u8]) -> (r: Option<u64>)
    ensures
        r == spec_parse_number(s@),
{
    if s.len() == 0 {
        return None;
    }
    let mut value: u64 = 0;
    let mut i: usize = 0;
    while i < s.len()
        invariant
            i <= s@.len(),
            forall|j: int| 0 <= j < i ==> is_digit(#[trigger] s@[j]),
            value == digits_value(s@.take(i as int)),
        decreases s.len() - i,
    {
        let b = s[i];
        proof {
            assert(s@.take(i + 1) =~= s@.take(i as int).push(b));
            lemma_digits_value_push(s@.take(i as int), b);
        }
        if b < 48 || b > 57 {
            return None;
        }
        let d = (b - 48) as u64;
        if value > (u64::MAX - d) / 10 {
            proof {
                lemma_digits_grow(s@, (i + 1) as int);
            }
            return None;
        }
        value = value * 10 + d;
        i = i + 1;
    }
    assert(s@.take(s@.len() as int) =~= s@);
    Some(value)
}

/// The value of a digit string is at least that of each of its prefixes.
proof fn lemma_digits_grow(s: Seq<u8>, k: int)
    requires
        0 <= k <= s.len(),
    ensures
        digits_value(s.take(k)) <= digits_value(s),
    decreases s.len() - k,
{
    if k < s.len() {
        lemma_digits_grow(s, k + 1);
        assert(s.take(k + 1).drop_last() =~= s.take(k));
    } else {
        assert(s.take(k) =~= s);
    }
}

proof fn lemma_digit_prefix(s: Seq<u8>)
    ensures
        digit_prefix_len(s) <= s.len(),
        forall|j: int| 0 <= j < digit_prefix_len(s) ==> is_digit(#[trigger] s[j]),
        digit_prefix_len(s) < s.len() ==> !is_digit(s[digit_prefix_len(s) as int]),
    decreases s.len(),
{
    if s.len() > 0 && is_digit(s[0]) {
        lemma_digit_prefix(s.drop_first());
        assert forall|j: int| 0 <= j < digit_prefix_len(s) implies is_digit(#[trigger] s[j]) by {
            if j > 0 {
                assert(s[j] == s.drop_first()[j - 1]);
            }
        }
    }
}

/// Takes a file name (without directory) apart: its number and kind, or
/// `None` if it is not the name of a database file.
pub fn parse_file_name(filename: &str) -> (r: Option<(u64, FileType)>)
    ensures
        r == spec_parse_file_name(filename.spec_bytes()),
{
    let s = filename.as_bytes();
    if bytes_equal(s, vec![67u8, 85, 82, 82, 69, 78, 84].as_slice()) {
        return Some((0, FileType::CurrentFile));
    }
    if bytes_equal(s, vec![76u8, 79, 67, 75].as_slice()) {
        return Some((0, FileType::DBLockFile));
    }
    if bytes_equal(s, vec![76u8, 79, 71].as_slice()) || bytes_equal(s, vec![76u8, 79, 71, 46, 111, 108, 100].as_slice()) {
        return Some((0, FileType::InfoLogFile));
    }
    if s.len() >= 9 && bytes_equal(
        vstd::slice::slice_subrange(s, 0, 9),
        vec![77u8, 65, 78, 73, 70, 69, 83, 84, 45].as_slice(),
    ) {
        return match parse_number(vstd::slice::slice_subrange(s, 9, s.len())) {
            Some(n) => Some((n, FileType::DescriptorFile)),
            None => None,
        };
    }
    proof {
        lemma_digit_prefix(s@);
    }
    let mut k: usize = 0;
    while k < s.len() && s[k] >= 48 && s[k] <= 57
        invariant
            k <= s@.len(),
            k <= digit_prefix_len(s@),
            forall|j: int| 0 <= j < k ==> is_digit(#[trigger] s@[j]),
            digit_prefix_len(s@) <= s@.len(),
            forall|j: int| 0 <= j < digit_prefix_len(s@) ==> is_digit(#[trigger] s@[j]),
            digit_prefix_len(s@) < s@.len() ==> !is_digit(s@[digit_prefix_len(s@) as int]),
        decreases s.len() - k,
    {
        k = k + 1;
    }
    assert(k == digit_prefix_len(s@));
    match parse_number(vstd::slice::slice_subrange(s, 0, k)) {
        Some(n) => {
            let suffix = vstd::slice::slice_subrange(s, k, s.len());
            if bytes_equal(suffix, vec![46u8, 108, 111, 103].as_slice()) {
                Some((n, FileType::LogFile))
            } else if bytes_equal(suffix, vec![46u8, 115, 115, 116].as_slice()) || bytes_equal(
                suffix,
                vec![46u8, 108, 100, 98].as_slice(),
            ) {
                Some((n, FileType::TableFile))
            } else if bytes_equal(suffix, vec![46u8, 100, 98, 116, 109, 112].as_slice()) {
                Some((n, FileType::TempFile))
            } else {
                None
            }
        },
        None => None,
    }
}

} // verus!
