use leveldb::dbformat::{parse_internal_key, InternalKeyComparator, LookupKey, ValueType};
use leveldb::memtable::MemTable;
use leveldb::util::comparator::BytewiseComparator;
use leveldb::write_batch::collector::{Op, OpCollector};
use leveldb::write_batch::WriteBatch;
use std::str::from_utf8;

fn print_contents(b: &WriteBatch) -> String {
    let cmp = InternalKeyComparator::new(BytewiseComparator::new());
    let mut mem = MemTable::new(cmp);
    let status = b.insert_into(&mut mem);
    let mut iter = mem.new_iterator();
    iter.seek_to_first();
    let mut result = String::new();
    let mut count = 0;
    while iter.valid() {
        let ikey = parse_internal_key(iter.key()).unwrap();
        match ikey.value_type {
            ValueType::Value => {
                result.push_str(&format!(
                    "Put({}, {})",
                    from_utf8(&ikey.user_key).unwrap(),
                    from_utf8(iter.value()).unwrap()
                ));
                count += 1;
            }
            ValueType::Deletion => {
                result.push_str(&format!("Delete({})", from_utf8(&ikey.user_key).unwrap()));
                count += 1;
            }
        }
        result.push('@');
        result.push_str(&ikey.sequence.to_string());
        iter.next();
    }
    if status.is_err() {
        result.push_str("ParseError()");
    } else if count != b.count() {
        result.push_str("CountMismatch()");
    }
    result
}

#[test]
fn test_write_batch_empty() {
    let batch = WriteBatch::new();
    assert_eq!("", print_contents(&batch));
    assert_eq!(0, batch.count());
}

#[test]
fn test_write_batch_multiple() {
    let mut batch = WriteBatch::new();
    batch.put("foo".as_bytes(), "bar".as_bytes());
    batch.delete("box".as_bytes());
    batch.put("baz".as_bytes(), "boo".as_bytes());
    batch.set_sequence(100);
    assert_eq!(100, batch.sequence());
    assert_eq!(3, batch.count());
    assert_eq!("Put(baz, boo)@102Delete(box)@101Put(foo, bar)@100", print_contents(&batch));
}

#[test]
fn test_write_batch_corruption() {
    let mut batch = WriteBatch::new();
    batch.put("foo".as_bytes(), "bar".as_bytes());
    batch.delete("box".as_bytes());
    batch.set_sequence(200);
    let content = batch.contents().to_owned();
    batch.set_contents(&content[..content.len() - 1]);
    assert_eq!("Put(foo, bar)@200ParseError()", print_contents(&batch));
}

#[test]
fn test_write_batch_append() {
    let mut b1 = WriteBatch::new();
    b1.set_sequence(200);
    let mut b2 = WriteBatch::new();
    b2.set_sequence(300);
    b1.append(&b2);
    assert_eq!("", print_contents(&b1));
    b2.put("a".as_bytes(), "va".as_bytes());
    b1.append(&b2);
    assert_eq!("Put(a, va)@200", print_contents(&b1));
    b2.clear();
    b2.put("b".as_bytes(), "vb".as_bytes());
    b1.append(&b2);
    assert_eq!("Put(a, va)@200Put(b, vb)@201", print_contents(&b1));
    b2.delete("foo".as_bytes());
    b1.append(&b2);
    assert_eq!(
        "Put(a, va)@200Put(b, vb)@202Put(b, vb)@201Delete(foo)@203",
        print_contents(&b1)
    );
}

#[test]
fn test_write_batch_approximate_size() {
    let mut batch = WriteBatch::new();
    let empty_size = batch.approximate_size();
    batch.put("foo".as_bytes(), "bar".as_bytes());
    let one_key_size = batch.approximate_size();
    assert!(empty_size < one_key_size);
    batch.put("baz".as_bytes(), "boo".as_bytes());
    let two_key_size = batch.approximate_size();
    assert!(one_key_size < two_key_size);
    batch.delete("box".as_bytes());
    let post_delete_size = batch.approximate_size();
    assert!(two_key_size < post_delete_size);
}

#[test]
fn iterate_yields_operations_in_order() {
    let mut batch = WriteBatch::new();
    batch.put(b"k1", b"v1");
    batch.delete(b"k2");
    batch.put(b"k3", b"");
    let mut r = OpCollector::new();
    assert!(batch.iterate(&mut r).is_ok());
    assert_eq!(
        r.ops,
        vec![
            Op::Put(b"k1".to_vec(), b"v1".to_vec()),
            Op::Delete(b"k2".to_vec()),
            Op::Put(b"k3".to_vec(), b"".to_vec())
        ]
    );
}

#[test]
fn clear_and_append_counts() {
    let mut b1 = WriteBatch::new();
    b1.set_sequence(9);
    b1.put(b"a", b"b");
    b1.clear();
    assert_eq!(b1.count(), 0);
    assert_eq!(b1.approximate_size(), 12);
    assert_eq!(b1.sequence(), 0);
    let mut b2 = WriteBatch::new();
    b2.put(b"x", b"y");
    b2.delete(b"z");
    b1.put(b"a", b"b");
    b1.append(&b2);
    assert_eq!(b1.count(), 3);
    assert_eq!(b1.contents(), &[0u8, 0, 0, 0, 0, 0, 0, 0, 3, 0, 0, 0, 1, 1, b'a', 1, b'b', 1, 1, b'x', 1, b'y', 0, 1, b'z'][..]);
}

#[test]
fn iterate_errors() {
    let mut b = WriteBatch::new();
    b.set_contents(&[0u8; 5]);
    let mut r = OpCollector::new();
    let e = b.iterate(&mut r).unwrap_err();
    assert!(e.is_corruption());
    assert_eq!(e.to_string(), "Corruption: malformed WriteBatch (too small)");
    let mut b = WriteBatch::new();
    b.put(b"k", b"v");
    b.set_count(2);
    let e = b.iterate(&mut r).unwrap_err();
    assert_eq!(e.to_string(), "Corruption: WriteBatch has wrong count");
    let mut b = WriteBatch::new();
    b.delete(b"k");
    let c = b.contents().to_owned();
    b.set_contents(&c[..c.len() - 1]);
    assert_eq!(b.iterate(&mut r).unwrap_err().to_string(), "Corruption: bad WriteBatch Delete");
    let mut c = WriteBatch::new().contents().to_owned();
    c.push(7);
    b.set_contents(&c);
    assert_eq!(b.iterate(&mut r).unwrap_err().to_string(), "Corruption: unknown WriteBatch tag");
}

#[test]
fn memtable_get_newest_visible() {
    let mut mem = MemTable::new(InternalKeyComparator::new(BytewiseComparator::new()));
    mem.add(1, ValueType::Value, b"k", b"v1");
    mem.add(3, ValueType::Value, b"k", b"v3");
    mem.add(5, ValueType::Deletion, b"k", b"");
    mem.add(2, ValueType::Value, b"j", b"w2");
    assert!(mem.get(&LookupKey::new(b"k", 0)).is_none());
    assert_eq!(mem.get(&LookupKey::new(b"k", 1)).unwrap().unwrap(), b"v1".to_vec());
    assert_eq!(mem.get(&LookupKey::new(b"k", 2)).unwrap().unwrap(), b"v1".to_vec());
    assert_eq!(mem.get(&LookupKey::new(b"k", 4)).unwrap().unwrap(), b"v3".to_vec());
    assert!(mem.get(&LookupKey::new(b"k", 5)).unwrap().unwrap_err().is_not_found());
    assert_eq!(mem.get(&LookupKey::new(b"j", 9)).unwrap().unwrap(), b"w2".to_vec());
    assert!(mem.get(&LookupKey::new(b"i", 9)).is_none());
    assert!(mem.get(&LookupKey::new(b"l", 9)).is_none());
    assert_eq!(mem.approximate_memory_usage(), 4096);
}
