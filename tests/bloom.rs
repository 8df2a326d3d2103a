use leveldb::dbformat::{append_internal_key, InternalFilterPolicy, ParsedInternalKey, ValueType};
use leveldb::util::coding::encode_fixed32;
use leveldb::util::filter_policy::BloomFilterPolicy;

struct BloomTest {
    policy: BloomFilterPolicy,
    filter: Vec<u8>,
    keys: Vec<Vec<u8>>,
}

impl BloomTest {
    fn new(policy: BloomFilterPolicy) -> Self {
        Self { policy, filter: vec![], keys: vec![] }
    }

    fn reset(&mut self) {
        self.keys.clear();
        self.filter.clear();
    }

    fn add(&mut self, s: &[u8]) {
        self.keys.push(s.to_owned());
    }

    fn build(&mut self) {
        self.filter.clear();
        self.policy.create_filter(&self.keys, &mut self.filter);
        self.keys.clear();
    }

    fn filter_size(&self) -> usize {
        self.filter.len()
    }

    fn matches(&mut self, s: &[u8]) -> bool {
        if !self.keys.is_empty() {
            self.build();
        }
        self.policy.key_may_match(s, &self.filter)
    }

    fn false_positive_rate(&mut self) -> f64 {
        let mut result = 0;
        for i in 0..10000 {
            if self.matches(&key(i + 1000000000)) {
                result += 1;
            }
        }
        result as f64 / 10000f64
    }
}

fn key(i: u32) -> Vec<u8> {
    let mut buf = [0u8; 4];
    encode_fixed32(&mut buf, i);
    buf.to_vec()
}

#[test]
fn test_bloomfilter_empty() {
    let mut bloom_test = BloomTest::new(BloomFilterPolicy::new(10));
    assert!(!bloom_test.matches("hello".as_bytes()));
    assert!(!bloom_test.matches("world".as_bytes()));
}

#[test]
fn test_bloomfilter_small() {
    let mut bloom_test = BloomTest::new(BloomFilterPolicy::new(10));
    bloom_test.add("hello".as_bytes());
    bloom_test.add("world".as_bytes());
    assert!(bloom_test.matches("hello".as_bytes()));
    assert!(bloom_test.matches("world".as_bytes()));
    assert!(!bloom_test.matches("x".as_bytes()));
    assert!(!bloom_test.matches("foo".as_bytes()));
}

#[test]
fn test_bloomfilter_varying_lengths() {
    let mut bloom_test = BloomTest::new(BloomFilterPolicy::new(10));
    let mut mediocre_filters = 0;
    let mut good_filters = 0;
    let lengths = std::iter::successors(Some(1u32), |&l| {
        if l < 10 {
            Some(l + 1)
        } else if l < 100 {
            Some(l + 10)
        } else if l < 1000 {
            Some(l + 100)
        } else if l < 10000 {
            Some(l + 1000)
        } else {
            None
        }
    });
    for l in lengths {
        bloom_test.reset();
        for i in 0..l {
            bloom_test.add(&key(i));
        }
        bloom_test.build();
        assert!(bloom_test.filter_size() <= l as usize * 10 / 8 + 40);
        for i in 0..l {
            assert!(bloom_test.matches(&key(i)));
        }
        let rate = bloom_test.false_positive_rate();
        assert!(rate <= 0.02);
        if rate > 0.0125 {
            mediocre_filters += 1;
        } else {
            good_filters += 1;
        }
    }
    assert!(mediocre_filters <= good_filters / 5);
}

#[test]
fn bloom_filter_layout() {
    let p = BloomFilterPolicy::new(10);
    let mut f = vec![];
    p.create_filter(&vec![b"a".to_vec()], &mut f);
    assert_eq!(f.len(), 9);
    assert_eq!(f[8], 6);
    assert_eq!(BloomFilterPolicy::bloom_hash(b""), 0xbc9f1d34);
    assert!(!p.key_may_match(b"a", &[0u8]));
    assert!(p.key_may_match(b"a", &[0u8, 31]));
}

#[test]
fn internal_filter_uses_user_keys() {
    let ik = |k: &[u8], s: u64| {
        let mut v = vec![];
        append_internal_key(&mut v, &ParsedInternalKey::new(k, s, ValueType::Value));
        v
    };
    let p = InternalFilterPolicy::new(BloomFilterPolicy::new(10));
    let mut f = vec![];
    p.create_filter(&vec![ik(b"hello", 1), ik(b"world", 2)], &mut f);
    assert!(p.key_may_match(&ik(b"hello", 99), &f));
    assert!(p.key_may_match(&ik(b"world", 7), &f));
    assert!(!p.key_may_match(&ik(b"foo", 1), &f));
    assert_eq!(p.name(), "leveldb.BuiltinBloomFilter2");
}
