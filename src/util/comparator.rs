use vstd::prelude::*;
use core::cmp::Ordering;

verus! {

/// Lexicographic order of byte strings.
pub open spec fn spec_compare_bytes(a: Seq<u8>, b: Seq<u8>) -> Ordering
    decreases a.len(),
{
    if a.len() == 0 && b.len() == 0 {
        Ordering::Equal
    } else if a.len() == 0 {
        Ordering::Less
    } else if b.len() == 0 {
        Ordering::Greater
    } else if a[0] < b[0] {
        Ordering::Less
    } else if a[0] > b[0] {
        Ordering::Greater
    } else {
        spec_compare_bytes(a.drop_first(), b.drop_first())
    }
}

/// The length of the longest common prefix of `a` and `b`.
pub open spec fn common_prefix_len(a: Seq<u8>, b: Seq<u8>) -> nat
    decreases a.len(),
{
    if a.len() == 0 || b.len() == 0 || a[0] != b[0] {
        0
    } else {
        1 + common_prefix_len(a.drop_first(), b.drop_first())
    }
}

/// What the bytewise comparator makes of `find_shortest_separator(start, limit)`:
/// at the first differing position `d`, if `start[d] + 1 < limit[d]`, the
/// prefix `start[..d]` followed by `start[d] + 1`; otherwise `start` itself.
pub open spec fn spec_shortest_separator(start: Seq<u8>, limit: Seq<u8>) -> Seq<u8> {
    let d = common_prefix_len(start, limit);
    if d < start.len() && d < limit.len() && start[d as int] < 255 && start[d as int] + 1
        < limit[d as int] {
        start.take(d as int).push((start[d as int] + 1) as u8)
    } else {
        start
    }
}

/// The index of the first byte of `key` other than 0xff, or `key.len()`.
pub open spec fn first_non_ff(key: Seq<u8>) -> nat
    decreases key.len(),
{
    if key.len() == 0 || key[0] != 0xff {
        0
    } else {
        1 + first_non_ff(key.drop_first())
    }
}

/// What the bytewise comparator makes of `find_short_successor(key)`: the
/// first byte other than 0xff is incremented and the rest dropped; a key of
/// 0xff bytes only is returned unchanged.
pub open spec fn spec_short_successor(key: Seq<u8>) -> Seq<u8> {
    let i = first_non_ff(key);
    if i < key.len() {
        key.take(i as int).push((key[i as int] + 1) as u8)
    } else {
        key
    }
}

proof fn lemma_common_prefix(a: Seq<u8>, b: Seq<u8>)
    ensures
        common_prefix_len(a, b) <= a.len(),
        common_prefix_len(a, b) <= b.len(),
        forall|j: int| 0 <= j < common_prefix_len(a, b) ==> a[j] == b[j],
        common_prefix_len(a, b) < a.len() && common_prefix_len(a, b) < b.len() ==> a[common_prefix_len(a, b) as int] != b[common_prefix_len(a, b) as int],
    decreases a.len(),
{
    if !(a.len() == 0 || b.len() == 0 || a[0] != b[0]) {
        lemma_common_prefix(a.drop_first(), b.drop_first());
        assert forall|j: int| 0 <= j < common_prefix_len(a, b) implies a[j] == b[j] by {
            if j > 0 {
                assert(a[j] == a.drop_first()[j - 1]);
                assert(b[j] == b.drop_first()[j - 1]);
            }
        }
    }
}

proof fn lemma_first_non_ff(key: Seq<u8>)
    ensures
        first_non_ff(key) <= key.len(),
        forall|j: int| 0 <= j < first_non_ff(key) ==> key[j] == 0xff,
        first_non_ff(key) < key.len() ==> key[first_non_ff(key) as int] != 0xff,
    decreases key.len(),
{
    if !(key.len() == 0 || key[0] != 0xff) {
        lemma_first_non_ff(key.drop_first());
        assert forall|j: int| 0 <= j < first_non_ff(key) implies key[j] == 0xff by {
            if j > 0 {
                assert(key[j] == key.drop_first()[j - 1]);
            }
        }
    }
}

/// Swapping the arguments of a bytewise comparison swaps `Less` and `Greater`.
pub proof fn lemma_compare_bytes_antisym(a: Seq<u8>, b: Seq<u8>)
    ensures
        (spec_compare_bytes(a, b) == Ordering::Greater) == (spec_compare_bytes(b, a) == Ordering::Less),
    decreases a.len(),
{
    if a.len() > 0 && b.len() > 0 && a[0] == b[0] {
        lemma_compare_bytes_antisym(a.drop_first(), b.drop_first());
    }
}

/// Bytewise `Less` is transitive.
pub proof fn lemma_compare_bytes_trans(a: Seq<u8>, b: Seq<u8>, c: Seq<u8>)
    requires
        spec_compare_bytes(a, b) == Ordering::Less,
        spec_compare_bytes(b, c) == Ordering::Less,
    ensures
        spec_compare_bytes(a, c) == Ordering::Less,
    decreases a.len(),
{
    if a.len() > 0 && b.len() > 0 && c.len() > 0 && a[0] == b[0] && b[0] == c[0] {
        lemma_compare_bytes_trans(a.drop_first(), b.drop_first(), c.drop_first());
    }
}

/// Lexicographic comparison as a loop over the common prefix.
pub fn compare_bytes(a: &[u8], b: &[u8]) -> (r: Ordering)
    ensures
        r == spec_compare_bytes(a@, b@),
{
    let mut i: usize = 0;
    assert(a@.subrange(0, a@.len() as int) =~= a@);
    assert(b@.subrange(0, b@.len() as int) =~= b@);
    while i < a.len() && i < b.len() && a[i] == b[i]
        invariant
            i <= a@.len(),
            i <= b@.len(),
            spec_compare_bytes(a@, b@) == spec_compare_bytes(
                a@.subrange(i as int, a@.len() as int),
                b@.subrange(i as int, b@.len() as int),
            ),
        decreases a.len() - i,
    {
        let ghost sa = a@.subrange(i as int, a@.len() as int);
        let ghost sb = b@.subrange(i as int, b@.len() as int);
        assert(sa.drop_first() =~= a@.subrange(i + 1, a@.len() as int));
        assert(sb.drop_first() =~= b@.subrange(i + 1, b@.len() as int));
        i = i + 1;
    }
    let ghost sa = a@.subrange(i as int, a@.len() as int);
    let ghost sb = b@.subrange(i as int, b@.len() as int);
    if i == a.len() && i == b.len() {
        Ordering::Equal
    } else if i == a.len() {
        Ordering::Less
    } else if i == b.len() {
        Ordering::Greater
    } else if a[i] < b[i] {
        assert(sa[0] == a[i as int] && sb[0] == b[i as int]);
        Ordering::Less
    } else {
        assert(sa[0] == a[i as int] && sb[0] == b[i as int]);
        Ordering::Greater
    }
}

/// A total order over byte strings, with helpers that shorten index keys.
pub trait Comparator {
    /// Three-way comparison of `a` and `b`.
    fn compare(&self, a: &[u8], b: &[u8]) -> Ordering;

    /// The comparator's name, stored with data that it ordered.
    fn name(&self) -> &'static str;

    /// A byte string in `[start, limit)`, shorter than `start` where possible.
    fn find_shortest_separator(&self, start: &[u8], limit: &[u8]) -> Vec<u8>;

    /// A byte string `>= key`, shorter than `key` where possible.
    fn find_short_successor(&self, key: &[u8]) -> Vec<u8>;
}

/// The default comparator: lexicographic order of bytes.
pub struct BytewiseComparator {}

impl BytewiseComparator {
    pub fn new() -> (r: Self) {
        BytewiseComparator {  }
    }

    /// Lexicographic comparison.
    pub fn compare(&self, a: &[u8], b: &[u8]) -> (r: Ordering)
        ensures
            r == spec_compare_bytes(a@, b@),
    {
        compare_bytes(a, b)
    }

    pub fn name(&self) -> (r: &'static str)
        ensures
            r@ == "leveldb.BytewiseComparator"@,
    {
        "leveldb.BytewiseComparator"
    }

    /// Increments the first byte where `start` and `limit` differ, when that
    /// keeps the result below `limit`, and cuts off the rest.
    pub fn find_shortest_separator(&self, start: &[u8], limit: &[u8]) -> (r: Vec<u8>)
        ensures
            r@ == spec_shortest_separator(start@, limit@),
    {
        proof {
            lemma_common_prefix(start@, limit@);
        }
        let min_length = if start.len() < limit.len() {
            start.len()
        } else {
            limit.len()
        };
        let mut d: usize = 0;
        while d < min_length && start[d] == limit[d]
            invariant
                min_length <= start@.len(),
                min_length <= limit@.len(),
                min_length == start@.len() || min_length == limit@.len(),
                d <= min_length,
                forall|j: int| 0 <= j < d ==> start@[j] == limit@[j],
            decreases min_length - d,
        {
            d = d + 1;
        }
        let ghost cpl = common_prefix_len(start@, limit@);
        proof {
            if d < cpl {
                assert(start@[d as int] == limit@[d as int]);
            }
            if d > cpl {
                assert(start@[cpl as int] == limit@[cpl as int]);
            }
        }
        assert(d == cpl);
        if d < min_length {
            let diff_byte = start[d];
            if diff_byte < 255 && diff_byte + 1 < limit[d] {
                let mut result: Vec<u8> = Vec::new();
                let mut j: usize = 0;
                while j < d
                    invariant
                        j <= d,
                        d < start@.len(),
                        result@ == start@.take(j as int),
                    decreases d - j,
                {
                    result.push(start[j]);
                    assert(result@ =~= start@.take(j + 1));
                    j = j + 1;
                }
                result.push(diff_byte + 1);
                return result;
            }
        }
        vstd::slice::slice_to_vec(start)
    }

    /// Increments the first byte of `key` that is not 0xff and cuts off the
    /// rest; a key of 0xff bytes only comes back unchanged.
    pub fn find_short_successor(&self, key: &[u8]) -> (r: Vec<u8>)
        ensures
            r@ == spec_short_successor(key@),
    {
        proof {
            lemma_first_non_ff(key@);
        }
        let mut i: usize = 0;
        while i < key.len() && key[i] == 0xff
            invariant
                i <= key@.len(),
                forall|j: int| 0 <= j < i ==> key@[j] == 0xff,
            decreases key.len() - i,
        {
            i = i + 1;
        }
        let ghost f = first_non_ff(key@);
        proof {
            if i < f {
                assert(key@[i as int] == 0xff);
            }
            if i > f {
                assert(key@[f as int] == 0xff);
            }
        }
        assert(i == f);
        if i < key.len() {
            let mut result: Vec<u8> = Vec::new();
            let mut j: usize = 0;
            while j < i
                invariant
                    j <= i,
                    i < key@.len(),
                    result@ == key@.take(j as int),
                decreases i - j,
            {
                result.push(key[j]);
                assert(result@ =~= key@.take(j + 1));
                j = j + 1;
            }
            result.push(key[i] + 1);
            return result;
        }
        vstd::slice::slice_to_vec(key)
    }
}

impl Comparator for BytewiseComparator {
    fn compare(&self, a: &[u8], b: &[u8]) -> Ordering {
        BytewiseComparator::compare(self, a, b)
    }

    fn name(&self) -> &'static str {
        BytewiseComparator::name(self)
    }

    fn find_shortest_separator(&self, start: &[u8], limit: &[u8]) -> Vec<u8> {
        BytewiseComparator::find_shortest_separator(self, start, limit)
    }

    fn find_short_successor(&self, key: &[u8]) -> Vec<u8> {
        BytewiseComparator::find_short_successor(self, key)
    }
}

} // verus!
