use vstd::prelude::*;
use core::cmp::Ordering;
use crate::util::coding::{
    decode_fixed64, extend_fixed64, extend_varint32, lemma_fixed64_round_trip, spec_decode_fixed64,
    spec_fixed64, spec_varint,
};
use crate::util::filter_policy::{filter_for, spec_may_match, BloomFilterPolicy};
use crate::util::comparator::{
    lemma_compare_bytes_antisym, lemma_compare_bytes_trans, spec_compare_bytes, spec_short_successor, spec_shortest_separator, BytewiseComparator,
};

verus! {

/// A sequence number: a 56-bit version stamp of one mutation.
pub type SequenceNumber = u64;

/// The largest sequence number, 2^56 - 1.
pub const MAX_SEQUENCE_NUMBER: u64 = 0xff_ffff_ffff_ffff;

/// The kind of a record: a deletion marker or a value.
#[derive(Clone, Copy, PartialEq, Eq, Debug, Structural)]
pub enum ValueType {
    Deletion,
    Value,
}

/// The kind that a seek target carries: the largest, so that a seek lands on
/// the newest record of either kind at or before its sequence number.
pub const VALUE_TYPE_FOR_SEEK: ValueType = ValueType::Value;

impl ValueType {
    /// The tag byte of the kind: 0 for a deletion, 1 for a value.
    pub open spec fn spec_byte(self) -> u8 {
        match self {
            ValueType::Deletion => 0,
            ValueType::Value => 1,
        }
    }

    pub fn as_byte(self) -> (r: u8)
        ensures
            r == self.spec_byte(),
    {
        match self {
            ValueType::Deletion => 0,
            ValueType::Value => 1,
        }
    }

    /// The kind whose tag byte is `b`, if any.
    pub open spec fn spec_from_byte(b: u8) -> Option<ValueType> {
        if b == 0 {
            Some(ValueType::Deletion)
        } else if b == 1 {
            Some(ValueType::Value)
        } else {
            None
        }
    }

    pub fn from_byte(b: u8) -> (r: Option<ValueType>)
        ensures
            r == Self::spec_from_byte(b),
    {
        if b == 0 {
            Some(ValueType::Deletion)
        } else if b == 1 {
            Some(ValueType::Value)
        } else {
            None
        }
    }
}

/// The 8-byte trailer of an internal key, as an integer: `(seq << 8) | kind`.
pub open spec fn spec_tag(seq: u64, t: ValueType) -> u64 {
    (seq * 256 + t.spec_byte()) as u64
}

/// The internal key of `(user_key, seq, t)`: the user key, then the tag as a
/// fixed 64-bit little-endian integer.
pub open spec fn spec_internal_key(user_key: Seq<u8>, seq: u64, t: ValueType) -> Seq<u8> {
    user_key + spec_fixed64(spec_tag(seq, t))
}

/// The user key of an internal key: all but its last eight bytes.
pub open spec fn spec_user_key(ikey: Seq<u8>) -> Seq<u8> {
    ikey.take(ikey.len() - 8)
}

/// The tag of an internal key: its last eight bytes, as an integer.
pub open spec fn spec_key_tag(ikey: Seq<u8>) -> u64 {
    spec_decode_fixed64(ikey.subrange(ikey.len() - 8, ikey.len() as int))
}

/// The parts of an internal key: `None` if it is shorter than eight bytes or
/// its kind byte is not a known kind.
pub open spec fn spec_parse_internal_key(ikey: Seq<u8>) -> Option<(Seq<u8>, u64, ValueType)> {
    if ikey.len() < 8 {
        None
    } else {
        match ValueType::spec_from_byte((spec_key_tag(ikey) % 256) as u8) {
            Some(t) => Some((spec_user_key(ikey), spec_key_tag(ikey) / 256, t)),
            None => None,
        }
    }
}

/// An internal key taken apart.
#[derive(Clone, Debug)]
pub struct ParsedInternalKey {
    pub user_key: Vec<u8>,
    pub sequence: SequenceNumber,
    pub value_type: ValueType,
}

impl ParsedInternalKey {
    pub fn new(user_key: &[u8], sequence: SequenceNumber, value_type: ValueType) -> (r: Self)
        ensures
            r.user_key@ == user_key@,
            r.sequence == sequence,
            r.value_type == value_type,
    {
        ParsedInternalKey { user_key: vstd::slice::slice_to_vec(user_key), sequence, value_type }
    }
}

/// Appends the internal key of `key` to `dst`.
pub fn append_internal_key(dst: &mut Vec<u8>, key: &ParsedInternalKey)
    requires
        key.sequence <= MAX_SEQUENCE_NUMBER,
    ensures
        final(dst)@ == old(dst)@ + spec_internal_key(key.user_key@, key.sequence, key.value_type),
{
    dst.extend_from_slice(key.user_key.as_slice());
    extend_fixed64(dst, key.sequence * 256 + key.value_type.as_byte() as u64);
    assert(dst@ =~= old(dst)@ + spec_internal_key(key.user_key@, key.sequence, key.value_type));
}

/// Takes an internal key apart; `None` if it is shorter than eight bytes or
/// carries an unknown kind.
pub fn parse_internal_key(internal_key: &[u8]) -> (r: Option<ParsedInternalKey>)
    ensures
        match spec_parse_internal_key(internal_key@) {
            Some((uk, seq, t)) => r.is_some() && r.unwrap().user_key@ == uk && r.unwrap().sequence
                == seq && r.unwrap().value_type == t,
            None => r.is_none(),
        },
{
    let n = internal_key.len();
    if n < 8 {
        return None;
    }
    let num = decode_fixed64(vstd::slice::slice_subrange(internal_key, n - 8, n));
    match ValueType::from_byte((num % 256) as u8) {
        Some(t) => Some(
            ParsedInternalKey::new(vstd::slice::slice_subrange(internal_key, 0, n - 8), num / 256, t),
        ),
        None => None,
    }
}

/// Parsing the internal key built from `(user_key, seq, t)` gives back exactly
/// `(user_key, seq, t)`.
pub proof fn lemma_parse_append_internal_key(user_key: Seq<u8>, seq: u64, t: ValueType)
    requires
        seq <= MAX_SEQUENCE_NUMBER,
    ensures
        spec_parse_internal_key(spec_internal_key(user_key, seq, t)) == Some((user_key, seq, t)),
{
    let ik = spec_internal_key(user_key, seq, t);
    let tag = spec_tag(seq, t);
    lemma_fixed64_round_trip(tag);
    assert(ik.subrange(ik.len() - 8, ik.len() as int) =~= spec_fixed64(tag));
    assert(spec_user_key(ik) =~= user_key);
    assert(tag % 256 == t.spec_byte());
    assert(tag / 256 == seq);
}

/// The kind recorded in the tag of an internal key, if it is a known kind.
pub fn decode_tag_kind(internal_key: &[u8]) -> (r: Option<ValueType>)
    requires
        internal_key@.len() >= 8,
    ensures
        r == ValueType::spec_from_byte((spec_key_tag(internal_key@) % 256) as u8),
{
    let n = internal_key.len();
    let tag = decode_fixed64(vstd::slice::slice_subrange(internal_key, n - 8, n));
    ValueType::from_byte((tag % 256) as u8)
}

/// The user key of an internal key: all but its last eight bytes.
pub fn extract_user_key(internal_key: &[u8]) -> (r: &[u8])
    requires
        internal_key@.len() >= 8,
    ensures
        r@ == spec_user_key(internal_key@),
{
    vstd::slice::slice_subrange(internal_key, 0, internal_key.len() - 8)
}

/// The order of internal keys: by user key ascending, then by tag descending
/// (newer sequence numbers first, then larger kinds first).
pub open spec fn spec_compare_internal(a: Seq<u8>, b: Seq<u8>) -> Ordering {
    let r = spec_compare_bytes(spec_user_key(a), spec_user_key(b));
    if r == Ordering::Equal {
        let ta = spec_key_tag(a);
        let tb = spec_key_tag(b);
        if ta > tb {
            Ordering::Less
        } else if ta < tb {
            Ordering::Greater
        } else {
            Ordering::Equal
        }
    } else {
        r
    }
}

/// The largest tag for a user key: sorts before every other record of it.
pub open spec fn spec_max_tag() -> u64 {
    spec_tag(MAX_SEQUENCE_NUMBER, VALUE_TYPE_FOR_SEEK)
}

/// `find_shortest_separator` over internal keys: when the user keys' separator
/// is physically shorter and logically larger than the start's user key, it is
/// given the largest tag; otherwise the start comes back unchanged.
pub open spec fn spec_internal_separator(start: Seq<u8>, limit: Seq<u8>) -> Seq<u8> {
    let us = spec_user_key(start);
    let sep = spec_shortest_separator(us, spec_user_key(limit));
    if sep.len() < us.len() && spec_compare_bytes(us, sep) == Ordering::Less {
        sep + spec_fixed64(spec_max_tag())
    } else {
        start
    }
}

/// `find_short_successor` over internal keys, in the same way.
pub open spec fn spec_internal_successor(key: Seq<u8>) -> Seq<u8> {
    let uk = spec_user_key(key);
    let succ = spec_short_successor(uk);
    if succ.len() < uk.len() && spec_compare_bytes(uk, succ) == Ordering::Less {
        succ + spec_fixed64(spec_max_tag())
    } else {
        key
    }
}

/// Orders internal keys by their user keys under the user comparator, then by
/// descending tag.
pub struct InternalKeyComparator {
    user_comparator: BytewiseComparator,
}

impl InternalKeyComparator {
    pub fn new(user_comparator: BytewiseComparator) -> (r: Self) {
        InternalKeyComparator { user_comparator }
    }

    pub fn user_comparator(&self) -> (r: &BytewiseComparator) {
        &self.user_comparator
    }

    pub fn name(&self) -> (r: &'static str)
        ensures
            r@ == "leveldb.InternalKeyComparator"@,
    {
        "leveldb.InternalKeyComparator"
    }

    /// Three-way comparison of two internal keys.
    pub fn compare(&self, a: &[u8], b: &[u8]) -> (r: Ordering)
        requires
            a@.len() >= 8,
            b@.len() >= 8,
        ensures
            r == spec_compare_internal(a@, b@),
    {
        let r = self.user_comparator.compare(extract_user_key(a), extract_user_key(b));
        match r {
            Ordering::Equal => {
                let anum = decode_fixed64(vstd::slice::slice_subrange(a, a.len() - 8, a.len()));
                let bnum = decode_fixed64(vstd::slice::slice_subrange(b, b.len() - 8, b.len()));
                if anum > bnum {
                    Ordering::Less
                } else if anum < bnum {
                    Ordering::Greater
                } else {
                    Ordering::Equal
                }
            },
            _ => r,
        }
    }

    /// An internal key in `[start, limit)`, shorter than `start` where the
    /// user comparator can shorten its user key.
    pub fn find_shortest_separator(&self, start: &[u8], limit: &[u8]) -> (r: Vec<u8>)
        requires
            start@.len() >= 8,
            limit@.len() >= 8,
        ensures
            r@ == spec_internal_separator(start@, limit@),
    {
        let user_start = extract_user_key(start);
        let user_limit = extract_user_key(limit);
        let mut result = self.user_comparator.find_shortest_separator(user_start, user_limit);
        if result.len() < user_start.len() && matches!(
            self.user_comparator.compare(user_start, result.as_slice()),
            Ordering::Less
        ) {
            extend_fixed64(&mut result, MAX_SEQUENCE_NUMBER * 256 + VALUE_TYPE_FOR_SEEK.as_byte() as u64);
            result
        } else {
            vstd::slice::slice_to_vec(start)
        }
    }

    /// An internal key `>= key`, shorter than `key` where the user comparator
    /// can shorten its user key.
    pub fn find_short_successor(&self, key: &[u8]) -> (r: Vec<u8>)
        requires
            key@.len() >= 8,
        ensures
            r@ == spec_internal_successor(key@),
    {
        let user_key = extract_user_key(key);
        let mut result = self.user_comparator.find_short_successor(user_key);
        if result.len() < user_key.len() && matches!(
            self.user_comparator.compare(user_key, result.as_slice()),
            Ordering::Less
        ) {
            extend_fixed64(&mut result, MAX_SEQUENCE_NUMBER * 256 + VALUE_TYPE_FOR_SEEK.as_byte() as u64);
            result
        } else {
            vstd::slice::slice_to_vec(key)
        }
    }
}

/// A filter policy over internal keys: it filters on their user keys.
pub struct InternalFilterPolicy {
    user_policy: BloomFilterPolicy,
}

impl InternalFilterPolicy {
    pub fn new(user_policy: BloomFilterPolicy) -> (r: Self)
        ensures
            r.user_policy() == user_policy,
    {
        InternalFilterPolicy { user_policy }
    }

    pub closed spec fn user_policy(&self) -> BloomFilterPolicy {
        self.user_policy
    }

    pub fn name(&self) -> (r: &'static str) {
        self.user_policy.name()
    }

    /// Appends to `dst` the user policy's filter over the user keys of `keys`.
    pub fn create_filter(&self, keys: &Vec<Vec<u8>>, dst: &mut Vec<u8>)
        requires
            self.user_policy().wf(),
            forall|i: int| 0 <= i < keys@.len() ==> (#[trigger] keys@[i])@.len() >= 8,
            keys@.len() * self.user_policy().spec_bits_per_key() + 64 <= usize::MAX,
        ensures
            final(dst)@.take(old(dst)@.len() as int) == old(dst)@,
            filter_for(
                final(dst)@.skip(old(dst)@.len() as int),
                keys@.map_values(|k: Vec<u8>| spec_user_key(k@)),
                self.user_policy().spec_bits_per_key(),
                self.user_policy().spec_k(),
            ),
    {
        let mut user_keys: Vec<Vec<u8>> = Vec::new();
        let mut i: usize = 0;
        while i < keys.len()
            invariant
                i <= keys@.len(),
                user_keys@.len() == i,
                forall|j: int| 0 <= j < i ==> (#[trigger] user_keys@[j])@ == spec_user_key(keys@[j]@),
                forall|j: int| 0 <= j < keys@.len() ==> (#[trigger] keys@[j])@.len() >= 8,
            decreases keys.len() - i,
        {
            user_keys.push(vstd::slice::slice_to_vec(extract_user_key(keys[i].as_slice())));
            i = i + 1;
        }
        assert(user_keys@.map_values(|k: Vec<u8>| k@) =~= keys@.map_values(|k: Vec<u8>| spec_user_key(k@)));
        self.user_policy.create_filter(&user_keys, dst);
    }

    /// Whether the user key of `key` may be in `filter`.
    pub fn key_may_match(&self, key: &[u8], filter: &[u8]) -> (r: bool)
        requires
            key@.len() >= 8,
            filter@.len() <= usize::MAX / 8,
        ensures
            r == spec_may_match(spec_user_key(key@), filter@),
    {
        self.user_policy.key_may_match(extract_user_key(key), filter)
    }
}

/// Bytewise comparison says `Equal` exactly for equal strings.
pub proof fn lemma_compare_bytes_equal(a: Seq<u8>, b: Seq<u8>)
    ensures
        (spec_compare_bytes(a, b) == Ordering::Equal) == (a == b),
    decreases a.len(),
{
    if a.len() > 0 && b.len() > 0 && a[0] == b[0] {
        lemma_compare_bytes_equal(a.drop_first(), b.drop_first());
        if a.drop_first() == b.drop_first() {
            assert(a =~= seq![a[0]] + a.drop_first());
            assert(b =~= seq![b[0]] + b.drop_first());
        } else if a == b {
            assert(a.drop_first() == b.drop_first());
        }
    } else if a.len() > 0 && b.len() > 0 {
        if a == b {
            assert(a[0] == b[0]);
        }
    } else if a.len() == 0 && b.len() == 0 {
        assert(a =~= b);
    } else if a.len() == 0 && b.len() > 0 {
        assert(a != b);
    } else if a.len() > 0 && b.len() == 0 {
        assert(a != b);
    }
}

/// Internal-key order: `(k1, s1, t1)` sorts before `(k2, s2, t2)` exactly when
/// `k1 < k2` under the user comparator, or `k1 == k2` and the first tag is the
/// larger as an unsigned 64-bit integer.
pub proof fn lemma_internal_key_order(
    k1: Seq<u8>,
    s1: u64,
    t1: ValueType,
    k2: Seq<u8>,
    s2: u64,
    t2: ValueType,
)
    requires
        s1 <= MAX_SEQUENCE_NUMBER,
        s2 <= MAX_SEQUENCE_NUMBER,
    ensures
        (spec_compare_internal(spec_internal_key(k1, s1, t1), spec_internal_key(k2, s2, t2))
            == Ordering::Less) == (spec_compare_bytes(k1, k2) == Ordering::Less || (k1 == k2
            && spec_tag(s1, t1) > spec_tag(s2, t2))),
{
    let a = spec_internal_key(k1, s1, t1);
    let b = spec_internal_key(k2, s2, t2);
    assert(spec_user_key(a) =~= k1);
    assert(spec_user_key(b) =~= k2);
    assert(a.subrange(a.len() - 8, a.len() as int) =~= spec_fixed64(spec_tag(s1, t1)));
    assert(b.subrange(b.len() - 8, b.len() as int) =~= spec_fixed64(spec_tag(s2, t2)));
    lemma_fixed64_round_trip(spec_tag(s1, t1));
    lemma_fixed64_round_trip(spec_tag(s2, t2));
    lemma_compare_bytes_equal(k1, k2);
}

/// Swapping the arguments of the internal-key comparison swaps `Less` and `Greater`.
pub proof fn lemma_compare_internal_antisym(a: Seq<u8>, b: Seq<u8>)
    ensures
        (spec_compare_internal(a, b) == Ordering::Greater) == (spec_compare_internal(b, a)
            == Ordering::Less),
{
    lemma_compare_bytes_antisym(spec_user_key(a), spec_user_key(b));
    lemma_compare_bytes_antisym(spec_user_key(b), spec_user_key(a));
    lemma_compare_bytes_equal(spec_user_key(a), spec_user_key(b));
    lemma_compare_bytes_equal(spec_user_key(b), spec_user_key(a));
}

/// Internal-key `Less` is transitive.
pub proof fn lemma_compare_internal_trans(a: Seq<u8>, b: Seq<u8>, c: Seq<u8>)
    requires
        spec_compare_internal(a, b) == Ordering::Less,
        spec_compare_internal(b, c) == Ordering::Less,
    ensures
        spec_compare_internal(a, c) == Ordering::Less,
{
    let (ua, ub, uc) = (spec_user_key(a), spec_user_key(b), spec_user_key(c));
    lemma_compare_bytes_equal(ua, ub);
    lemma_compare_bytes_equal(ub, uc);
    lemma_compare_bytes_equal(ua, uc);
    if spec_compare_bytes(ua, ub) == Ordering::Less && spec_compare_bytes(ub, uc) == Ordering::Less {
        lemma_compare_bytes_trans(ua, ub, uc);
    }
}

/// An internal key kept as its encoding.
#[derive(Clone, Debug)]
pub struct InternalKey {
    rep: Vec<u8>,
}

impl View for InternalKey {
    type V = Seq<u8>;

    closed spec fn view(&self) -> Seq<u8> {
        self.rep@
    }
}

impl InternalKey {
    pub fn new_empty() -> (r: Self)
        ensures
            r@ == Seq::<u8>::empty(),
    {
        InternalKey { rep: Vec::new() }
    }

    pub fn new(user_key: &[u8], seq: SequenceNumber, value_type: ValueType) -> (r: Self)
        requires
            seq <= MAX_SEQUENCE_NUMBER,
        ensures
            r@ == spec_internal_key(user_key@, seq, value_type),
    {
        let mut rep: Vec<u8> = Vec::new();
        append_internal_key(&mut rep, &ParsedInternalKey::new(user_key, seq, value_type));
        InternalKey { rep }
    }

    /// Replaces the encoding with `s`; false iff `s` is empty.
    pub fn decode_from(&mut self, s: &[u8]) -> (r: bool)
        ensures
            final(self)@ == s@,
            r == (s@.len() > 0),
    {
        self.rep = vstd::slice::slice_to_vec(s);
        self.rep.len() > 0
    }

    pub fn encode(&self) -> (r: &[u8])
        requires
            self@.len() > 0,
        ensures
            r@ == self@,
    {
        self.rep.as_slice()
    }

    pub fn user_key(&self) -> (r: &[u8])
        requires
            self@.len() >= 8,
        ensures
            r@ == spec_user_key(self@),
    {
        extract_user_key(self.rep.as_slice())
    }
}

/// The memtable seek target for `(user_key, seq)`: a varint32 of the internal
/// key's length, then the internal key with the seek kind.
pub open spec fn spec_lookup_key(user_key: Seq<u8>, seq: u64) -> Seq<u8> {
    spec_varint((user_key.len() + 8) as nat) + spec_internal_key(user_key, seq, VALUE_TYPE_FOR_SEEK)
}

/// A seek target for a memtable, with three views into one buffer.
pub struct LookupKey {
    data: Vec<u8>,
    kstart: usize,
    user: Ghost<Seq<u8>>,
    seq: Ghost<u64>,
}

impl View for LookupKey {
    type V = Seq<u8>;

    closed spec fn view(&self) -> Seq<u8> {
        self.data@
    }
}

impl LookupKey {
    /// The user key it was made for.
    pub closed spec fn spec_user_key(&self) -> Seq<u8> {
        self.user@
    }

    /// The sequence number it was made for.
    pub closed spec fn spec_sequence(&self) -> u64 {
        self.seq@
    }

    /// The offset of the internal key in the buffer.
    pub closed spec fn key_start(&self) -> nat {
        self.kstart as nat
    }

    pub closed spec fn wf(&self) -> bool {
        &&& self.data@ == spec_lookup_key(self.user@, self.seq@)
        &&& self.kstart == spec_varint((self.user@.len() + 8) as nat).len()
        &&& self.seq@ <= MAX_SEQUENCE_NUMBER
        &&& self.user@.len() + 8 <= u32::MAX
    }

    /// What a well-formed lookup key holds.
    pub proof fn lemma_layout(&self)
        requires
            self.wf(),
        ensures
            self@ == spec_lookup_key(self.spec_user_key(), self.spec_sequence()),
            self.spec_sequence() <= MAX_SEQUENCE_NUMBER,
            self.spec_user_key().len() + 8 <= u32::MAX,
            self.key_start() + 8 <= self@.len(),
            self@.subrange(self.key_start() as int, self@.len() as int) == spec_internal_key(
                self.spec_user_key(),
                self.spec_sequence(),
                VALUE_TYPE_FOR_SEEK,
            ),
            self@.subrange(self.key_start() as int, self@.len() - 8) == self.spec_user_key(),
    {
        let uk = self.user@;
        let ik = spec_internal_key(uk, self.seq@, VALUE_TYPE_FOR_SEEK);
        assert(self@.subrange(self.key_start() as int, self@.len() as int) =~= ik);
        assert(self@.subrange(self.key_start() as int, self@.len() - 8) =~= uk);
    }

    pub fn new(user_key: &[u8], sequence: SequenceNumber) -> (r: Self)
        requires
            sequence <= MAX_SEQUENCE_NUMBER,
            user_key@.len() + 8 <= u32::MAX,
        ensures
            r.wf(),
            r@ == spec_lookup_key(user_key@, sequence),
            r.spec_user_key() == user_key@,
            r.spec_sequence() == sequence,
    {
        let mut data: Vec<u8> = Vec::new();
        extend_varint32(&mut data, (user_key.len() + 8) as u32);
        let kstart = data.len();
        append_internal_key(&mut data, &ParsedInternalKey::new(user_key, sequence, VALUE_TYPE_FOR_SEEK));
        assert(data@ =~= spec_lookup_key(user_key@, sequence));
        LookupKey { data, kstart, user: Ghost(user_key@), seq: Ghost(sequence) }
    }

    /// The whole buffer: length prefix and internal key.
    pub fn memtable_key(&self) -> (r: &[u8])
        ensures
            r@ == self@,
    {
        self.data.as_slice()
    }

    /// The internal key, without the length prefix.
    pub fn internal_key(&self) -> (r: &[u8])
        requires
            self.wf(),
        ensures
            r@ == spec_internal_key(self.spec_user_key(), self.spec_sequence(), VALUE_TYPE_FOR_SEEK),
    {
        proof {
            self.lemma_layout();
        }
        vstd::slice::slice_subrange(self.data.as_slice(), self.kstart, self.data.len())
    }

    /// The user key, without prefix or tag.
    pub fn user_key(&self) -> (r: &[u8])
        requires
            self.wf(),
        ensures
            r@ == self.spec_user_key(),
    {
        proof {
            self.lemma_layout();
        }
        vstd::slice::slice_subrange(self.data.as_slice(), self.kstart, self.data.len() - 8)
    }
}

} // verus!
