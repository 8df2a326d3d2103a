use vstd::prelude::*;
use core::cmp::Ordering;
use crate::dbformat::{
    decode_tag_kind, extract_user_key, spec_internal_key, spec_key_tag, spec_lookup_key,
    spec_user_key, InternalKeyComparator, LookupKey, ValueType, MAX_SEQUENCE_NUMBER,
};
use crate::util::coding::{
    decode_fixed64, decode_size_prefixed_slice, extend_fixed64, extend_varint32,
    lemma_size_prefixed_round_trip, spec_decode_size_prefixed, spec_size_prefixed, varint_size,
};
use crate::util::result::{Code, Error};
use self::arena::{Arena, ARENA_BLOCK_SIZE};
use self::skiplist::{
    entry_cmp, entry_key, lemma_lower_bound_facts, lower_bound, sorted_entries, valid_target,
    SkipList, SkipListIterator, MAX_HEIGHT,
};

pub mod arena;
pub mod skiplist;

verus! {

/// The encoding of one memtable record: the length-prefixed internal key,
/// then the length-prefixed value.
pub open spec fn spec_entry(seq: u64, t: ValueType, key: Seq<u8>, value: Seq<u8>) -> Seq<u8> {
    spec_size_prefixed(spec_internal_key(key, seq, t)) + spec_size_prefixed(value)
}

/// The value of a record: the length-prefixed string after its key.
pub open spec fn entry_value(e: Seq<u8>) -> Seq<u8> {
    let n = spec_decode_size_prefixed(e).unwrap().1;
    spec_decode_size_prefixed(e.skip(n as int)).unwrap().0
}

/// A record whose key and value both decode.
pub open spec fn valid_entry(e: Seq<u8>) -> bool {
    &&& valid_target(e)
    &&& entry_kind(e) is Some
    &&& spec_decode_size_prefixed(e.skip(spec_decode_size_prefixed(e).unwrap().1 as int)) is Some
}

/// The kind of a record, from the low byte of its tag.
pub open spec fn entry_kind(e: Seq<u8>) -> Option<ValueType> {
    ValueType::spec_from_byte((spec_key_tag(entry_key(e)) % 256) as u8)
}

/// What a lookup of `user_key` at `seq` finds in `entries`: the first record at
/// or after the seek target decides, if it has the same user key: a value, or
/// a deletion (`Err`). `None` means that `entries` says nothing of the key.
pub open spec fn spec_get(entries: Seq<Seq<u8>>, user_key: Seq<u8>, seq: u64) -> Option<Result<Seq<u8>, ()>> {
    let p = lower_bound(entries, spec_lookup_key(user_key, seq));
    if p >= entries.len() {
        None
    } else {
        let e = entries[p];
        if spec_user_key(entry_key(e)) != user_key {
            None
        } else {
            match entry_kind(e) {
                Some(ValueType::Value) => Some(Ok(entry_value(e))),
                Some(ValueType::Deletion) => Some(Err(())),
                None => None,
            }
        }
    }
}

proof fn lemma_lookup_key_target(user_key: Seq<u8>, seq: u64)
    requires
        seq <= MAX_SEQUENCE_NUMBER,
        user_key.len() + 8 <= u32::MAX,
    ensures
        valid_target(spec_lookup_key(user_key, seq)),
        entry_key(spec_lookup_key(user_key, seq)) == spec_internal_key(
            user_key,
            seq,
            crate::dbformat::VALUE_TYPE_FOR_SEEK,
        ),
{
    let ik = spec_internal_key(user_key, seq, crate::dbformat::VALUE_TYPE_FOR_SEEK);
    lemma_size_prefixed_round_trip(ik, Seq::<u8>::empty());
    assert(spec_lookup_key(user_key, seq) =~= spec_size_prefixed(ik) + Seq::<u8>::empty());
}

pub proof fn lemma_entry_layout(seq: u64, t: ValueType, key: Seq<u8>, value: Seq<u8>)
    requires
        seq <= MAX_SEQUENCE_NUMBER,
        key.len() + 8 <= u32::MAX,
        value.len() <= u32::MAX,
    ensures
        valid_entry(spec_entry(seq, t, key, value)),
        entry_key(spec_entry(seq, t, key, value)) == spec_internal_key(key, seq, t),
        entry_value(spec_entry(seq, t, key, value)) == value,
{
    let ik = spec_internal_key(key, seq, t);
    let e = spec_entry(seq, t, key, value);
    lemma_size_prefixed_round_trip(ik, spec_size_prefixed(value));
    let n = spec_size_prefixed(ik).len();
    assert(e.skip(n as int) =~= spec_size_prefixed(value) + Seq::<u8>::empty());
    lemma_size_prefixed_round_trip(value, Seq::<u8>::empty());
    crate::dbformat::lemma_parse_append_internal_key(key, seq, t);
}

/// The in-memory table of recent writes: records ordered by internal key,
/// each version kept until the table is dropped.
pub struct MemTable {
    table: SkipList,
    /// Owns the bytes of every record for the table's lifetime.
    arena: Arena,
}

impl MemTable {
    /// The records, in internal-key order.
    pub closed spec fn spec_entries(&self) -> Seq<Seq<u8>> {
        self.table.spec_keys()
    }

    /// The bytes of arena blocks requested so far.
    pub closed spec fn spec_memory_usage(&self) -> nat {
        self.arena.usage()
    }

    /// The bytes left in the arena's current block.
    pub closed spec fn spec_arena_remaining(&self) -> nat {
        self.arena.remaining()
    }

    pub closed spec fn wf(&self) -> bool {
        &&& self.table.wf()
        &&& self.arena.wf()
        &&& forall|q: int|
            0 <= q < self.table.spec_keys().len() ==> valid_entry(#[trigger] self.table.spec_keys()[q])
    }

    pub fn new(comparator: InternalKeyComparator) -> (r: Self)
        ensures
            r.wf(),
            r.spec_entries() == Seq::<Seq<u8>>::empty(),
            r.spec_memory_usage() == 0,
    {
        let table = SkipList::new(comparator);
        MemTable { table, arena: Arena::new() }
    }

    /// The records are strictly ordered, and each holds a key, a known kind
    /// and a value.
    pub proof fn lemma_entries(&self)
        requires
            self.wf(),
        ensures
            sorted_entries(self.spec_entries()),
            forall|q: int|
                0 <= q < self.spec_entries().len() ==> valid_entry(#[trigger] self.spec_entries()[q]),
    {
        self.table.lemma_sorted_keys();
    }

    /// The bytes of arena blocks requested so far.
    pub fn approximate_memory_usage(&self) -> (r: usize)
        ensures
            r == self.spec_memory_usage(),
    {
        self.arena.memory_usage()
    }

    /// A cursor over the records.
    pub fn new_iterator(&self) -> (r: MemTableIterator<'_>)
        requires
            self.wf(),
        ensures
            r.wf(),
            r.entries() == self.spec_entries(),
            r.position() is None,
    {
        MemTableIterator::new(&self.table)
    }

    /// Adds the record `(key, seq, t) -> value`. No record with the same
    /// user key, sequence number and kind may be present.
    pub fn add(&mut self, seq: u64, t: ValueType, key: &[u8], value: &[u8])
        requires
            old(self).wf(),
            seq <= MAX_SEQUENCE_NUMBER,
            key@.len() + 8 <= u32::MAX,
            value@.len() <= u32::MAX,
            forall|q: int|
                0 <= q < old(self).spec_entries().len() ==> entry_key(
                    #[trigger] old(self).spec_entries()[q],
                ) != spec_internal_key(key@, seq, t),
            old(self).spec_entries().len() + 2 <= usize::MAX / MAX_HEIGHT,
            old(self).spec_memory_usage() + spec_entry(seq, t, key@, value@).len() + ARENA_BLOCK_SIZE
                <= usize::MAX,
        ensures
            final(self).wf(),
            final(self).spec_entries() == old(self).spec_entries().insert(
                lower_bound(old(self).spec_entries(), spec_entry(seq, t, key@, value@)),
                spec_entry(seq, t, key@, value@),
            ),
            ({
                let n = spec_entry(seq, t, key@, value@).len();
                final(self).spec_memory_usage() == old(self).spec_memory_usage() + if n
                    <= old(self).spec_arena_remaining() {
                    0
                } else if n > ARENA_BLOCK_SIZE / 4 {
                    n
                } else {
                    ARENA_BLOCK_SIZE as nat
                }
            }),
    {
        let internal_key_size = key.len() + 8;
        let mut entry: Vec<u8> = Vec::new();
        extend_varint32(&mut entry, internal_key_size as u32);
        entry.extend_from_slice(key);
        extend_fixed64(&mut entry, seq * 256 + t.as_byte() as u64);
        extend_varint32(&mut entry, value.len() as u32);
        entry.extend_from_slice(value);
        let ghost e = spec_entry(seq, t, key@, value@);
        proof {
            assert(entry@ =~= e);
            lemma_entry_layout(seq, t, key@, value@);
            lemma_no_equal_entry(self.table.spec_keys(), e);
        }
        // the arena holds the record's bytes for the table's lifetime
        let at = self.arena.allocate(entry.len());
        self.arena.write(at, entry.as_slice());
        self.table.insert(entry);
        proof {
            let k0 = old(self).table.spec_keys();
            lemma_insert_valid(k0, e);
            lemma_lower_bound_facts(k0, e, 0);
            assert(self.table.spec_keys() == k0.insert(lower_bound(k0, e), e));
            assert forall|q: int| 0 <= q < self.table.spec_keys().len() implies valid_entry(#[trigger] self.table.spec_keys()[q]) by {
                assert(self.table.spec_keys()[q] == k0.insert(lower_bound(k0, e), e)[q]);
            }
        }
    }

    /// Looks `key` up: `Some(Ok(value))` for a value, `Some(Err(NotFound))` for a
    /// deletion, and `None` when the table holds no record of the user key at or
    /// before the sequence number.
    pub fn get(&self, key: &LookupKey) -> (r: Option<Result<Vec<u8>, Error>>)
        requires
            self.wf(),
            key.wf(),
        ensures
            match spec_get(self.spec_entries(), key.spec_user_key(), key.spec_sequence()) {
                None => r is None,
                Some(Ok(v)) => r is Some && r.unwrap() is Ok && r.unwrap().unwrap()@ == v,
                Some(Err(())) => r is Some && r.unwrap() is Err && r.unwrap()->Err_0.code == Code::NotFound,
            },
    {
        let memkey = key.memtable_key();
        proof {
            key.lemma_layout();
            lemma_lookup_key_target(key.spec_user_key(), key.spec_sequence());
        }
        let mut iter = SkipListIterator::new(&self.table);
        iter.seek(memkey);
        let ghost entries = self.spec_entries();
        let ghost p = lower_bound(entries, key@);
        if iter.valid() {
            let entry = iter.key();
            proof {
                assert(entry@ == entries[p]);
                assert(valid_entry(entries[p]));
            }
            let (ikey, offset) = decode_size_prefixed_slice(entry).unwrap();
            let user = extract_user_key(ikey);
            if matches!(self.table.key_comparator().internal_comparator().user_comparator().compare(user, key.user_key()), Ordering::Equal) {
                proof {
                    crate::dbformat::lemma_compare_bytes_equal(user@, key.spec_user_key());
                }
                match decode_tag_kind(ikey) {
                    Some(ValueType::Value) => {
                        let rest = vstd::slice::slice_subrange(entry, offset, entry.len());
                        let (value, _) = decode_size_prefixed_slice(rest).unwrap();
                        return Some(Ok(vstd::slice::slice_to_vec(value)));
                    },
                    Some(ValueType::Deletion) => {
                        return Some(Err(Error::not_found("")));
                    },
                    None => {
                        return None;
                    },
                }
            } else {
                proof {
                    crate::dbformat::lemma_compare_bytes_equal(user@, key.spec_user_key());
                }
            }
        }
        None
    }
}

proof fn lemma_no_equal_entry(keys: Seq<Seq<u8>>, e: Seq<u8>)
    requires
        valid_target(e),
        forall|q: int| 0 <= q < keys.len() ==> valid_target(#[trigger] keys[q]),
        forall|q: int| 0 <= q < keys.len() ==> entry_key(#[trigger] keys[q]) != entry_key(e),
    ensures
        forall|q: int| 0 <= q < keys.len() ==> entry_cmp(#[trigger] keys[q], e) != Ordering::Equal,
{
    assert forall|q: int| 0 <= q < keys.len() implies entry_cmp(#[trigger] keys[q], e) != Ordering::Equal by {
        if entry_cmp(keys[q], e) == Ordering::Equal {
            lemma_cmp_equal_keys(entry_key(keys[q]), entry_key(e));
        }
    }
}

proof fn lemma_insert_valid(keys: Seq<Seq<u8>>, e: Seq<u8>)
    requires
        valid_entry(e),
        forall|q: int| 0 <= q < keys.len() ==> valid_entry(#[trigger] keys[q]),
    ensures
        forall|q: int|
            0 <= q < keys.len() + 1 ==> valid_entry(#[trigger] keys.insert(lower_bound(keys, e), e)[q]),
{
    lemma_lower_bound_facts(keys, e, 0);
    let p = lower_bound(keys, e);
    let k2 = keys.insert(p, e);
    assert forall|q: int| 0 <= q < keys.len() + 1 implies valid_entry(#[trigger] k2[q]) by {
        if q < p {
            assert(k2[q] == keys[q]);
        } else if q > p {
            assert(k2[q] == keys[q - 1]);
        }
    }
}

/// The user key of a record.
pub open spec fn entry_user(e: Seq<u8>) -> Seq<u8> {
    spec_user_key(entry_key(e))
}

/// The tag of a record: `(sequence << 8) | kind`.
pub open spec fn entry_tag(e: Seq<u8>) -> u64 {
    spec_key_tag(entry_key(e))
}

/// A lookup of user key `k` at sequence number `s` answers from the record
/// of `k` with the largest `(sequence, kind)` whose sequence is at most `s`:
/// its value, or `Err` for a deletion; and `None` exactly when `k` has no
/// record at or before `s`.
pub proof fn lemma_get_finds_newest_visible(entries: Seq<Seq<u8>>, k: Seq<u8>, s: u64)
    requires
        sorted_entries(entries),
        forall|q: int|
            0 <= q < entries.len() ==> valid_entry(#[trigger] entries[q]) && entry_kind(entries[q]) is Some,
        s <= MAX_SEQUENCE_NUMBER,
        k.len() + 8 <= u32::MAX,
    ensures
        (spec_get(entries, k, s) is None) == !(exists|q: int|
            0 <= q < entries.len() && entry_user(#[trigger] entries[q]) == k && entry_tag(entries[q]) / 256 <= s),
        spec_get(entries, k, s) is Some ==> exists|q: int|
            0 <= q < entries.len() && entry_user(#[trigger] entries[q]) == k && entry_tag(entries[q]) / 256 <= s
                && (forall|q2: int|
                0 <= q2 < entries.len() && entry_user(#[trigger] entries[q2]) == k && entry_tag(entries[q2]) / 256
                    <= s ==> entry_tag(entries[q2]) <= entry_tag(entries[q])) && spec_get(entries, k, s) == (
                match entry_kind(entries[q]) {
                Some(ValueType::Value) => Some(Ok(entry_value(entries[q]))),
                _ => Some(Err(())),
            }),
{
    let target = spec_lookup_key(k, s);
    lemma_lookup_key_target(k, s);
    let t = entry_key(target);
    crate::dbformat::lemma_parse_append_internal_key(k, s, crate::dbformat::VALUE_TYPE_FOR_SEEK);
    let tag_t = spec_key_tag(t);
    assert(spec_user_key(t) == k);
    assert(tag_t == s * 256 + 1);
    lemma_lower_bound_facts(entries, target, 0);
    let p = lower_bound(entries, target);
    // a record of k visible at s is never below the target
    assert forall|q: int| 0 <= q < entries.len() && entry_user(#[trigger] entries[q]) == k && entry_tag(entries[q]) / 256 <= s implies q >= p by {
        if q < p {
            assert(crate::memtable::skiplist::entry_lt(entries[q], target));
            crate::dbformat::lemma_compare_bytes_equal(entry_user(entries[q]), k);
            assert(entry_kind(entries[q]) is Some);
            assert(entry_tag(entries[q]) > tag_t);
        }
    }
    if p < entries.len() {
        let ep = entries[p];
        crate::dbformat::lemma_compare_bytes_equal(entry_user(ep), k);
        crate::util::comparator::lemma_compare_bytes_antisym(entry_user(ep), k);
        assert(!crate::memtable::skiplist::entry_lt(ep, target));
        if entry_user(ep) == k {
            assert(entry_tag(ep) <= tag_t);
            assert forall|q2: int| 0 <= q2 < entries.len() && entry_user(#[trigger] entries[q2]) == k && entry_tag(entries[q2]) / 256 <= s implies entry_tag(entries[q2]) <= entry_tag(ep) by {
                if q2 > p {
                    assert(crate::memtable::skiplist::entry_lt(entries[p], entries[q2]));
                    crate::dbformat::lemma_compare_bytes_equal(entry_user(ep), entry_user(entries[q2]));
                }
            }
        } else {
            assert forall|q: int| 0 <= q < entries.len() implies !(entry_user(#[trigger] entries[q]) == k && entry_tag(entries[q]) / 256 <= s) by {
                if entry_user(entries[q]) == k && entry_tag(entries[q]) / 256 <= s {
                    assert(q >= p);
                    if q > p {
                        assert(crate::memtable::skiplist::entry_lt(entries[p], entries[q]));
                        crate::dbformat::lemma_compare_bytes_equal(entry_user(ep), entry_user(entries[q]));
                    }
                }
            }
        }
    }
}

/// Internal keys that compare equal are equal.
proof fn lemma_cmp_equal_keys(a: Seq<u8>, b: Seq<u8>)
    requires
        a.len() >= 8,
        b.len() >= 8,
        crate::dbformat::spec_compare_internal(a, b) == Ordering::Equal,
    ensures
        a == b,
{
    crate::dbformat::lemma_compare_bytes_equal(spec_user_key(a), spec_user_key(b));
    crate::util::coding::lemma_fixed64_injective(
        a.subrange(a.len() - 8, a.len() as int),
        b.subrange(b.len() - 8, b.len() as int),
    );
    assert(a =~= spec_user_key(a) + a.subrange(a.len() - 8, a.len() as int));
    assert(b =~= spec_user_key(b) + b.subrange(b.len() - 8, b.len() as int));
}

/// A cursor over a memtable's records, yielding internal keys and values.
pub struct MemTableIterator<'a> {
    iter: SkipListIterator<'a>,
}

impl<'a> MemTableIterator<'a> {
    pub closed spec fn entries(&self) -> Seq<Seq<u8>> {
        self.iter.keys()
    }

    pub closed spec fn position(&self) -> Option<int> {
        self.iter.position()
    }

    pub closed spec fn wf(&self) -> bool {
        &&& self.iter.wf()
        &&& forall|q: int| 0 <= q < self.iter.keys().len() ==> valid_entry(#[trigger] self.iter.keys()[q])
    }

    pub fn new(table: &'a SkipList) -> (r: Self)
        requires
            table.wf(),
            forall|q: int| 0 <= q < table.spec_keys().len() ==> valid_entry(#[trigger] table.spec_keys()[q]),
        ensures
            r.wf(),
            r.entries() == table.spec_keys(),
            r.position() is None,
    {
        MemTableIterator { iter: SkipListIterator::new(table) }
    }

    pub fn valid(&self) -> (r: bool)
        ensures
            r == self.position() is Some,
    {
        self.iter.valid()
    }

    pub fn seek_to_first(&mut self)
        requires
            old(self).wf(),
        ensures
            final(self).wf(),
            final(self).entries() == old(self).entries(),
            final(self).position() == (if old(self).entries().len() > 0 {
                Some(0int)
            } else {
                None::<int>
            }),
    {
        self.iter.seek_to_first()
    }

    pub fn seek_to_last(&mut self)
        requires
            old(self).wf(),
        ensures
            final(self).wf(),
            final(self).entries() == old(self).entries(),
            final(self).position() == (if old(self).entries().len() > 0 {
                Some(old(self).entries().len() - 1)
            } else {
                None::<int>
            }),
    {
        self.iter.seek_to_last()
    }

    /// Moves to the first record whose internal key is not below `target`.
    pub fn seek(&mut self, target: &[u8])
        requires
            old(self).wf(),
            target@.len() >= 8,
            target@.len() <= u32::MAX,
        ensures
            final(self).wf(),
            final(self).entries() == old(self).entries(),
            final(self).position() == (if lower_bound(old(self).entries(), spec_size_prefixed(target@))
                < old(self).entries().len() {
                Some(lower_bound(old(self).entries(), spec_size_prefixed(target@)))
            } else {
                None::<int>
            }),
    {
        let mut tmp: Vec<u8> = Vec::new();
        extend_varint32(&mut tmp, target.len() as u32);
        tmp.extend_from_slice(target);
        proof {
            assert(tmp@ =~= spec_size_prefixed(target@));
            lemma_size_prefixed_round_trip(target@, Seq::<u8>::empty());
            assert(spec_size_prefixed(target@) + Seq::<u8>::empty() =~= spec_size_prefixed(target@));
        }
        self.iter.seek(tmp.as_slice())
    }

    pub fn next(&mut self)
        requires
            old(self).wf(),
            old(self).position() is Some,
        ensures
            final(self).wf(),
            final(self).entries() == old(self).entries(),
            final(self).position() == (if old(self).position().unwrap() + 1 < old(self).entries().len() {
                Some(old(self).position().unwrap() + 1)
            } else {
                None::<int>
            }),
    {
        self.iter.next()
    }

    pub fn prev(&mut self)
        requires
            old(self).wf(),
            old(self).position() is Some,
        ensures
            final(self).wf(),
            final(self).entries() == old(self).entries(),
            final(self).position() == (if old(self).position().unwrap() > 0 {
                Some(old(self).position().unwrap() - 1)
            } else {
                None::<int>
            }),
    {
        self.iter.prev()
    }

    /// The internal key of the record under the cursor.
    pub fn key(&self) -> (r: &'a [u8])
        requires
            self.wf(),
            self.position() is Some,
        ensures
            r@ == entry_key(self.entries()[self.position().unwrap()]),
    {
        let entry = self.iter.key();
        let (k, _) = decode_size_prefixed_slice(entry).unwrap();
        k
    }

    /// The value of the record under the cursor.
    pub fn value(&self) -> (r: &'a [u8])
        requires
            self.wf(),
            self.position() is Some,
        ensures
            r@ == entry_value(self.entries()[self.position().unwrap()]),
    {
        let entry = self.iter.key();
        let (_, offset) = decode_size_prefixed_slice(entry).unwrap();
        let rest = vstd::slice::slice_subrange(entry, offset, entry.len());
        let (v, _) = decode_size_prefixed_slice(rest).unwrap();
        v
    }

    pub fn status(&self) -> (r: Result<(), Error>)
        ensures
            r is Ok,
    {
        Ok(())
    }
}

} // verus!
