use leveldb::dbformat::{append_internal_key, InternalKeyComparator, ParsedInternalKey, ValueType};
use leveldb::memtable::skiplist::{MemTableKeyComparator, SkipList, SkipListIterator};
use std::cmp::Ordering;
use leveldb::util::coding::extend_size_prefixed_slice;
use leveldb::util::comparator::BytewiseComparator;
use leveldb::util::random::Random;
use std::collections::BTreeSet;

/// A skip-list entry for the number `v`: its big-endian bytes as a user key.
fn entry(v: u64) -> Vec<u8> {
    let mut ik = vec![];
    append_internal_key(&mut ik, &ParsedInternalKey::new(&v.to_be_bytes(), 1, ValueType::Value));
    let mut e = vec![];
    extend_size_prefixed_slice(&mut e, &ik);
    e
}

fn new_list() -> SkipList {
    SkipList::new(InternalKeyComparator::new(BytewiseComparator::new()))
}

#[test]
fn test_skiplist_empty() {
    let list = new_list();
    assert!(!list.contains(&entry(10)));
    let mut iter = SkipListIterator::new(&list);
    assert!(!iter.valid());
    iter.seek_to_first();
    assert!(!iter.valid());
    iter.seek(&entry(100));
    assert!(!iter.valid());
    iter.seek_to_last();
    assert!(!iter.valid());
}

#[test]
fn test_skiplist_insert_and_lookup() {
    const N: usize = 2000;
    const R: u64 = 5000;
    let mut rnd = Random::new(1000);
    let mut keys = BTreeSet::new();
    let mut list = new_list();
    for _ in 0..N {
        let key = rnd.next() as u64 % R;
        if keys.insert(key) {
            list.insert(entry(key));
        }
    }
    for i in 0..R {
        assert_eq!(list.contains(&entry(i)), keys.contains(&i));
    }
    {
        let mut iter = SkipListIterator::new(&list);
        assert!(!iter.valid());
        iter.seek(&entry(0));
        assert!(iter.valid());
        assert_eq!(entry(*keys.iter().next().unwrap()).as_slice(), iter.key());
        iter.seek_to_first();
        assert!(iter.valid());
        assert_eq!(entry(*keys.iter().next().unwrap()).as_slice(), iter.key());
        iter.seek_to_last();
        assert!(iter.valid());
        assert_eq!(entry(*keys.iter().last().unwrap()).as_slice(), iter.key());
    }
    for i in 0..R {
        let mut list_iter = SkipListIterator::new(&list);
        list_iter.seek(&entry(i));
        let mut set_iter = keys.iter().skip_while(|&&v| v < i);
        for _ in 0..3 {
            if let Some(value) = set_iter.next() {
                assert!(list_iter.valid());
                assert_eq!(entry(*value).as_slice(), list_iter.key());
                list_iter.next();
            } else {
                assert!(!list_iter.valid());
                break;
            }
        }
    }
    {
        let mut list_iter = SkipListIterator::new(&list);
        list_iter.seek_to_last();
        for value in keys.iter().rev() {
            assert!(list_iter.valid());
            assert_eq!(entry(*value).as_slice(), list_iter.key());
            list_iter.prev();
        }
        assert!(!list_iter.valid());
    }
}

#[test]
fn memtable_key_comparator_orders_by_internal_key() {
    let c = MemTableKeyComparator::new(InternalKeyComparator::new(BytewiseComparator::new()));
    assert_eq!(c.compare(&entry(1), &entry(2)), Ordering::Less);
    assert_eq!(c.compare(&entry(2), &entry(2)), Ordering::Equal);
    assert_eq!(c.compare(&entry(3), &entry(2)), Ordering::Greater);
}
