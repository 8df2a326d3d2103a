use vstd::prelude::*;
use crate::dbformat::ValueType;
use crate::util::coding::{
    decode_fixed32, decode_fixed64, decode_size_prefixed_slice, extend_size_prefixed_slice,
    lemma_fixed32_round_trip, lemma_size_prefixed_round_trip, spec_decode_fixed32,
    spec_decode_fixed64, spec_decode_size_prefixed, spec_fixed32, spec_fixed64, spec_size_prefixed,
};
use crate::util::result::{Code, Error};
use crate::dbformat::{
    lemma_parse_append_internal_key, spec_internal_key, spec_key_tag, MAX_SEQUENCE_NUMBER,
};
use crate::memtable::{spec_entry, MemTable};
use crate::memtable::skiplist::{entry_key, MAX_HEIGHT};
use crate::memtable::arena::ARENA_BLOCK_SIZE;

pub mod collector;

verus! {

/// The header of a batch: an 8-byte sequence number, then a 4-byte count.
pub const HEADER_SIZE: usize = 12;

/// Bytes of the header that hold the sequence number.
pub const SEQ_SIZE: usize = 8;

/// One operation of a batch.
pub enum BatchOp {
    Put(Seq<u8>, Seq<u8>),
    Delete(Seq<u8>),
}

/// The encoding of one operation: a kind byte, the key, and for a put the value,
/// each length-prefixed.
pub open spec fn spec_encode_op(op: BatchOp) -> Seq<u8> {
    match op {
        BatchOp::Put(k, v) => seq![1u8] + spec_size_prefixed(k) + spec_size_prefixed(v),
        BatchOp::Delete(k) => seq![0u8] + spec_size_prefixed(k),
    }
}

/// The records of a batch holding `ops`, in order.
pub open spec fn spec_encode_ops(ops: Seq<BatchOp>) -> Seq<u8>
    decreases ops.len(),
{
    if ops.len() == 0 {
        Seq::empty()
    } else {
        spec_encode_ops(ops.drop_last()) + spec_encode_op(ops.last())
    }
}

/// Why decoding the records of a batch stopped.
#[derive(Clone, Copy, PartialEq, Eq, Debug)]
pub enum RecordError {
    BadPut,
    BadDelete,
    BadTag,
}

impl RecordError {
    pub open spec fn message(self) -> Seq<char> {
        match self {
            RecordError::BadPut => "bad WriteBatch Put"@,
            RecordError::BadDelete => "bad WriteBatch Delete"@,
            RecordError::BadTag => "unknown WriteBatch tag"@,
        }
    }

    pub fn to_error(self) -> (r: Error)
        ensures
            r.code == Code::Corruption,
            r.msg@ == self.message(),
    {
        match self {
            RecordError::BadPut => Error::corruption("bad WriteBatch Put"),
            RecordError::BadDelete => Error::corruption("bad WriteBatch Delete"),
            RecordError::BadTag => Error::corruption("unknown WriteBatch tag"),
        }
    }
}

/// One decoded record, borrowing the batch's bytes.
pub enum RecordRef<'a> {
    Put(&'a [u8], &'a [u8]),
    Delete(&'a [u8]),
}

impl<'a> RecordRef<'a> {
    pub open spec fn spec_op(&self) -> BatchOp {
        match self {
            RecordRef::Put(k, v) => BatchOp::Put(k@, v@),
            RecordRef::Delete(k) => BatchOp::Delete(k@),
        }
    }
}

/// Decodes the record that starts at `rep[index]`: the operation and the
/// index after it, or why it is malformed.
pub fn decode_record(rep: &[u8], index: usize) -> (r: Result<(RecordRef<'_>, usize), RecordError>)
    requires
        index < rep@.len(),
    ensures
        match r {
            Ok((op, next)) => {
                &&& index < next <= rep@.len()
                &&& spec_parse_records(rep@.skip(index as int)) == (
                    seq![op.spec_op()] + spec_parse_records(rep@.skip(next as int)).0,
                    spec_parse_records(rep@.skip(next as int)).1,
                )
            },
            Err(e) => spec_parse_records(rep@.skip(index as int)) == (
                Seq::<BatchOp>::empty(),
                Some(e),
            ),
        },
{
    let ghost s = rep@.skip(index as int);
    let len = rep.len();
    let tag = rep[index];
    assert(s[0] == tag);
    let after_tag = index + 1;
    let rest = vstd::slice::slice_subrange(rep, after_tag, len);
    assert(rest@ =~= s.drop_first());
    if tag == 1 {
        match decode_size_prefixed_slice(rest) {
            Some((key, offset)) => {
                let mid = after_tag + offset;
                let rest2 = vstd::slice::slice_subrange(rep, mid, len);
                assert(rest2@ =~= s.drop_first().skip(offset as int));
                match decode_size_prefixed_slice(rest2) {
                    Some((value, offset2)) => {
                        let next = mid + offset2;
                        assert(rep@.skip(next as int) =~= s.drop_first().skip(offset + offset2));
                        Ok((RecordRef::Put(key, value), next))
                    },
                    None => Err(RecordError::BadPut),
                }
            },
            None => Err(RecordError::BadPut),
        }
    } else if tag == 0 {
        match decode_size_prefixed_slice(rest) {
            Some((key, offset)) => {
                let next = after_tag + offset;
                assert(rep@.skip(next as int) =~= s.drop_first().skip(offset as int));
                Ok((RecordRef::Delete(key), next))
            },
            None => Err(RecordError::BadDelete),
        }
    } else {
        Err(RecordError::BadTag)
    }
}

proof fn lemma_zero_fields()
    ensures
        spec_decode_fixed32(empty_header().subrange(8, 12)) == 0,
        spec_decode_fixed64(empty_header().subrange(0, 8)) == 0,
{
    let z: u8 = 0;
    assert(((z as u32) | ((z as u32) << 8u32) | ((z as u32) << 16u32) | ((z as u32) << 24u32)) == 0)
        by (bit_vector)
        requires z == 0;
    assert(((z as u64) | ((z as u64) << 8u64) | ((z as u64) << 16u64) | ((z as u64) << 24u64)
        | ((z as u64) << 32u64) | ((z as u64) << 40u64) | ((z as u64) << 48u64) | ((z as u64) << 56u64)) == 0)
        by (bit_vector)
        requires z == 0;
}

/// Decodes the records in `s`: the operations read before the first bad
/// record, and what made it bad, if one was.
pub open spec fn spec_parse_records(s: Seq<u8>) -> (Seq<BatchOp>, Option<RecordError>)
    decreases s.len(),
{
    if s.len() == 0 {
        (Seq::empty(), None)
    } else {
        let rest = s.drop_first();
        if s[0] == 1 {
            match spec_decode_size_prefixed(rest) {
                Some((k, n)) => match spec_decode_size_prefixed(rest.skip(n as int)) {
                    Some((v, m)) => {
                        let tail = spec_parse_records(rest.skip((n + m) as int));
                        (seq![BatchOp::Put(k, v)] + tail.0, tail.1)
                    },
                    None => (Seq::empty(), Some(RecordError::BadPut)),
                },
                None => (Seq::empty(), Some(RecordError::BadPut)),
            }
        } else if s[0] == 0 {
            match spec_decode_size_prefixed(rest) {
                Some((k, n)) => {
                    let tail = spec_parse_records(rest.skip(n as int));
                    (seq![BatchOp::Delete(k)] + tail.0, tail.1)
                },
                None => (Seq::empty(), Some(RecordError::BadDelete)),
            }
        } else {
            (Seq::empty(), Some(RecordError::BadTag))
        }
    }
}

/// Keys and values short enough for a 32-bit length prefix.
pub open spec fn op_fits(op: BatchOp) -> bool {
    match op {
        BatchOp::Put(k, v) => k.len() <= u32::MAX && v.len() <= u32::MAX,
        BatchOp::Delete(k) => k.len() <= u32::MAX,
    }
}

proof fn lemma_parse_op(op: BatchOp, rest: Seq<u8>)
    requires
        op_fits(op),
    ensures
        spec_parse_records(spec_encode_op(op) + rest) == (
            seq![op] + spec_parse_records(rest).0,
            spec_parse_records(rest).1,
        ),
{
    let s = spec_encode_op(op) + rest;
    match op {
        BatchOp::Put(k, v) => {
            lemma_size_prefixed_round_trip(k, spec_size_prefixed(v) + rest);
            lemma_size_prefixed_round_trip(v, rest);
            let n = spec_size_prefixed(k).len();
            let m = spec_size_prefixed(v).len();
            assert(s.drop_first() =~= spec_size_prefixed(k) + (spec_size_prefixed(v) + rest));
            assert(s.drop_first().skip(n as int) =~= spec_size_prefixed(v) + rest);
            assert(s.drop_first().skip((n + m) as int) =~= rest);
        },
        BatchOp::Delete(k) => {
            lemma_size_prefixed_round_trip(k, rest);
            let n = spec_size_prefixed(k).len();
            assert(s.drop_first() =~= spec_size_prefixed(k) + rest);
            assert(s.drop_first().skip(n as int) =~= rest);
        },
    }
}

/// Decoding the records of `ops` followed by `rest` yields `ops` first.
proof fn lemma_parse_ops_prefix(ops: Seq<BatchOp>, rest: Seq<u8>)
    requires
        forall|i: int| 0 <= i < ops.len() ==> op_fits(#[trigger] ops[i]),
    ensures
        spec_parse_records(spec_encode_ops(ops) + rest) == (
            ops + spec_parse_records(rest).0,
            spec_parse_records(rest).1,
        ),
    decreases ops.len(),
{
    if ops.len() == 0 {
        assert(spec_encode_ops(ops) + rest =~= rest);
        assert(ops + spec_parse_records(rest).0 =~= spec_parse_records(rest).0);
    } else {
        let init = ops.drop_last();
        let last = ops.last();
        assert(op_fits(ops[ops.len() - 1]));
        lemma_parse_op(last, rest);
        lemma_parse_ops_prefix(init, spec_encode_op(last) + rest);
        assert(spec_encode_ops(ops) + rest =~= spec_encode_ops(init) + (spec_encode_op(last) + rest));
        assert(ops =~= init + seq![last]);
        assert(ops + spec_parse_records(rest).0 =~= init + (seq![last] + spec_parse_records(rest).0));
    }
}

/// Decoding the records of a batch built from `ops` yields `ops`, in order,
/// without error.
pub proof fn lemma_batch_records_round_trip(ops: Seq<BatchOp>)
    requires
        forall|i: int| 0 <= i < ops.len() ==> op_fits(#[trigger] ops[i]),
    ensures
        spec_parse_records(spec_encode_ops(ops)) == (ops, None::<RecordError>),
{
    lemma_parse_ops_prefix(ops, Seq::empty());
    assert(spec_encode_ops(ops) + Seq::<u8>::empty() =~= spec_encode_ops(ops));
    assert(ops + Seq::<BatchOp>::empty() =~= ops);
}

/// The key an operation is about.
pub open spec fn op_key(op: BatchOp) -> Seq<u8> {
    match op {
        BatchOp::Put(k, _) => k,
        BatchOp::Delete(k) => k,
    }
}

/// The memtable record that applying `op` with sequence number `seq` adds.
pub open spec fn spec_op_entry(op: BatchOp, seq: u64) -> Seq<u8> {
    match op {
        BatchOp::Put(k, v) => spec_entry(seq, ValueType::Value, k, v),
        BatchOp::Delete(k) => spec_entry(seq, ValueType::Deletion, k, Seq::empty()),
    }
}

/// The records that applying `ops` from sequence number `start` adds: the
/// `i`-th operation gets `start + i`.
pub open spec fn spec_op_entries(ops: Seq<BatchOp>, start: u64) -> Seq<Seq<u8>> {
    Seq::new(ops.len(), |i: int| spec_op_entry(ops[i], (start + i) as u64))
}

/// The most arena bytes that adding the records `es` can request: each may
/// take a block of its own size or a fresh ordinary block.
pub open spec fn arena_bound(es: Seq<Seq<u8>>) -> nat
    decreases es.len(),
{
    if es.len() == 0 {
        0
    } else {
        arena_bound(es.drop_last()) + es.last().len() + ARENA_BLOCK_SIZE as nat
    }
}

proof fn lemma_arena_bound_prefix(ops: Seq<BatchOp>, start: u64, k: int)
    requires
        0 <= k <= ops.len(),
    ensures
        arena_bound(spec_op_entries(ops.take(k), start)) <= arena_bound(spec_op_entries(ops, start)),
    decreases ops.len() - k,
{
    if k < ops.len() {
        lemma_arena_bound_prefix(ops, start, k + 1);
        let a = spec_op_entries(ops.take(k), start);
        let b = spec_op_entries(ops.take(k + 1), start);
        assert(b.drop_last() =~= a);
    } else {
        assert(ops.take(k) =~= ops);
    }
}

/// The sequence number of a memtable record.
pub open spec fn entry_seq(e: Seq<u8>) -> int {
    spec_key_tag(entry_key(e)) as int / 256
}

/// Records older than `seq` do not share an internal key with a record of `seq`.
proof fn lemma_no_same_key(entries: Seq<Seq<u8>>, seq: u64, bound: int)
    requires
        seq == bound,
        seq <= MAX_SEQUENCE_NUMBER,
        forall|q: int| 0 <= q < entries.len() ==> entry_seq(#[trigger] entries[q]) < bound,
    ensures
        forall|k: Seq<u8>, t: ValueType, q: int|
            0 <= q < entries.len() ==> entry_key(#[trigger] entries[q]) != #[trigger] spec_internal_key(k, seq, t),
{
    assert forall|k: Seq<u8>, t: ValueType, q: int| 0 <= q < entries.len() implies entry_key(
        #[trigger] entries[q],
    ) != #[trigger] spec_internal_key(k, seq, t) by {
        lemma_parse_append_internal_key(k, seq, t);
        if entry_key(entries[q]) == spec_internal_key(k, seq, t) {
            assert(entry_seq(entries[q]) == seq);
        }
    }
}

/// After adding record `e` of sequence number `seq` (the next one), the
/// invariant of the replay loop holds for one more operation.
proof fn lemma_after_add(
    before: Seq<Seq<u8>>,
    e: Seq<u8>,
    seq: u64,
    m0: Seq<Seq<u8>>,
    ops: Seq<BatchOp>,
    found: int,
    start: u64,
)
    requires
        0 <= found < ops.len(),
        seq == start + found,
        e == spec_op_entry(ops[found], seq),
        entry_seq(e) == seq,
        before.to_multiset() == m0.to_multiset().add(spec_op_entries(ops.take(found), start).to_multiset()),
        forall|q: int| 0 <= q < before.len() ==> entry_seq(#[trigger] before[q]) < seq,
    ensures
        ({
            let after = before.insert(
                crate::memtable::skiplist::lower_bound(before, e),
                e,
            );
            &&& after.to_multiset() == m0.to_multiset().add(spec_op_entries(ops.take(found + 1), start).to_multiset())
            &&& forall|q: int| 0 <= q < after.len() ==> entry_seq(#[trigger] after[q]) < seq + 1
            &&& after.len() == before.len() + 1
        }),
{
    let p = crate::memtable::skiplist::lower_bound(before, e);
    crate::memtable::skiplist::lemma_lower_bound_facts(before, e, 0);
    let after = before.insert(p, e);
    vstd::seq_lib::to_multiset_insert(before, p, e);
    let ne = spec_op_entries(ops.take(found), start);
    let ne1 = spec_op_entries(ops.take(found + 1), start);
    assert(ne1 =~= ne.push(e));
    vstd::seq_lib::to_multiset_build(ne, e);
    assert(after.to_multiset() =~= m0.to_multiset().add(ne1.to_multiset()));
    assert forall|q: int| 0 <= q < after.len() implies entry_seq(#[trigger] after[q]) < seq + 1 by {
        if q < p {
            assert(after[q] == before[q]);
        } else if q > p {
            assert(after[q] == before[q - 1]);
        }
    }
}

/// Receives the operations of a batch, in order.
pub trait WriteBatchHandler {
    /// The operations received so far.
    spec fn received(&self) -> Seq<BatchOp>;

    fn put(&mut self, key: &[u8], value: &[u8])
        ensures
            final(self).received() == old(self).received().push(BatchOp::Put(key@, value@)),
    ;

    fn delete(&mut self, key: &[u8])
        ensures
            final(self).received() == old(self).received().push(BatchOp::Delete(key@)),
    ;
}

/// A group of updates applied atomically: a 12-byte header (sequence number,
/// count) followed by the records.
pub struct WriteBatch {
    rep: Vec<u8>,
}

impl View for WriteBatch {
    type V = Seq<u8>;

    closed spec fn view(&self) -> Seq<u8> {
        self.rep@
    }
}

/// Twelve zero bytes: the header of an empty batch.
pub open spec fn empty_header() -> Seq<u8> {
    Seq::new(12, |i: int| 0u8)
}

impl WriteBatch {
    /// The buffer holds a whole header.
    pub open spec fn wf(&self) -> bool {
        self@.len() >= HEADER_SIZE
    }

    /// The count field of the header.
    pub open spec fn spec_count(&self) -> u32 {
        spec_decode_fixed32(self@.subrange(8, 12))
    }

    /// The sequence-number field of the header.
    pub open spec fn spec_sequence(&self) -> u64 {
        spec_decode_fixed64(self@.subrange(0, 8))
    }

    /// The bytes after the header.
    pub open spec fn spec_records(&self) -> Seq<u8> {
        self@.skip(12)
    }

    /// An empty batch: a zero header and no records.
    pub fn new() -> (r: Self)
        ensures
            r@ == empty_header(),
            r.wf(),
            r.spec_count() == 0,
            r.spec_sequence() == 0,
    {
        let r = WriteBatch { rep: vec![0u8; HEADER_SIZE] };
        assert(r@ =~= empty_header());
        proof {
            lemma_zero_fields();
        }
        r
    }

    /// Appends a put of `key` to `value`.
    pub fn put(&mut self, key: &[u8], value: &[u8])
        requires
            old(self).wf(),
            old(self).spec_count() < u32::MAX,
            key@.len() <= u32::MAX,
            value@.len() <= u32::MAX,
        ensures
            final(self).wf(),
            final(self).spec_count() == old(self).spec_count() + 1,
            final(self).spec_sequence() == old(self).spec_sequence(),
            final(self).spec_records() == old(self).spec_records() + spec_encode_op(
                BatchOp::Put(key@, value@),
            ),
    {
        let c = self.count();
        self.set_count(c + 1);
        let ghost mid = self.rep@;
        self.rep.push(ValueType::Value.as_byte());
        extend_size_prefixed_slice(&mut self.rep, key);
        extend_size_prefixed_slice(&mut self.rep, value);
        proof {
            assert(self.rep@ =~= mid + spec_encode_op(BatchOp::Put(key@, value@)));
            assert(self.rep@.subrange(8, 12) =~= mid.subrange(8, 12));
            assert(self.rep@.subrange(0, 8) =~= mid.subrange(0, 8));
            assert(self.rep@.skip(12) =~= mid.skip(12) + spec_encode_op(BatchOp::Put(key@, value@)));
        }
    }

    /// Appends a deletion of `key`.
    pub fn delete(&mut self, key: &[u8])
        requires
            old(self).wf(),
            old(self).spec_count() < u32::MAX,
            key@.len() <= u32::MAX,
        ensures
            final(self).wf(),
            final(self).spec_count() == old(self).spec_count() + 1,
            final(self).spec_sequence() == old(self).spec_sequence(),
            final(self).spec_records() == old(self).spec_records() + spec_encode_op(
                BatchOp::Delete(key@),
            ),
    {
        let c = self.count();
        self.set_count(c + 1);
        let ghost mid = self.rep@;
        self.rep.push(ValueType::Deletion.as_byte());
        extend_size_prefixed_slice(&mut self.rep, key);
        proof {
            assert(self.rep@ =~= mid + spec_encode_op(BatchOp::Delete(key@)));
            assert(self.rep@.subrange(8, 12) =~= mid.subrange(8, 12));
            assert(self.rep@.subrange(0, 8) =~= mid.subrange(0, 8));
            assert(self.rep@.skip(12) =~= mid.skip(12) + spec_encode_op(BatchOp::Delete(key@)));
        }
    }

    /// Resets to an empty batch with a zero header (the sequence number becomes 0).
    pub fn clear(&mut self)
        ensures
            final(self)@ == empty_header(),
            final(self).wf(),
            final(self).spec_count() == 0,
            final(self).spec_sequence() == 0,
            final(self)@.len() == 12,
    {
        self.rep.clear();
        let mut i: usize = 0;
        while i < HEADER_SIZE
            invariant
                i <= HEADER_SIZE,
                self.rep@ =~= Seq::new(i as nat, |j: int| 0u8),
            decreases HEADER_SIZE - i,
        {
            self.rep.push(0u8);
            i = i + 1;
        }
        assert(self.rep@ =~= empty_header());
        proof {
            lemma_zero_fields();
        }
    }

    /// The size of the encoded batch in bytes.
    pub fn approximate_size(&self) -> (r: usize)
        ensures
            r == self@.len(),
    {
        self.rep.len()
    }

    /// Appends the records of `source`, adding its count to this batch's;
    /// this batch's sequence number stays.
    pub fn append(&mut self, source: &WriteBatch)
        requires
            old(self).wf(),
            source.wf(),
            old(self).spec_count() + source.spec_count() <= u32::MAX,
        ensures
            final(self).wf(),
            final(self).spec_count() == old(self).spec_count() + source.spec_count(),
            final(self).spec_sequence() == old(self).spec_sequence(),
            final(self).spec_records() == old(self).spec_records() + source.spec_records(),
    {
        let c = self.count();
        let sc = source.count();
        self.set_count(c + sc);
        let ghost mid = self.rep@;
        self.rep.extend_from_slice(
            vstd::slice::slice_subrange(source.rep.as_slice(), HEADER_SIZE, source.rep.len()),
        );
        proof {
            assert(self.rep@ =~= mid + source.rep@.skip(12));
            assert(self.rep@.subrange(8, 12) =~= mid.subrange(8, 12));
            assert(self.rep@.subrange(0, 8) =~= mid.subrange(0, 8));
            assert(self.rep@.skip(12) =~= mid.skip(12) + source.rep@.skip(12));
        }
    }

    /// Walks the records, handing each operation to `handler` in order. Fails
    /// with a corruption when the buffer is shorter than a header, a record is
    /// malformed, or the number of records differs from the header's count.
    pub fn iterate<H: WriteBatchHandler>(&self, handler: &mut H) -> (r: Result<(), Error>)
        ensures
            !self.wf() ==> final(handler).received() == old(handler).received() && r is Err
                && r->Err_0.code == Code::Corruption && r->Err_0.msg@
                == "malformed WriteBatch (too small)"@,
            self.wf() ==> final(handler).received() == old(handler).received() + spec_parse_records(
                self.spec_records(),
            ).0,
            self.wf() ==> match spec_parse_records(self.spec_records()).1 {
                Some(e) => r is Err && r->Err_0.code == Code::Corruption && r->Err_0.msg@
                    == e.message(),
                None => if spec_parse_records(self.spec_records()).0.len() == self.spec_count() {
                    r is Ok
                } else {
                    r is Err && r->Err_0.code == Code::Corruption && r->Err_0.msg@
                        == "WriteBatch has wrong count"@
                },
            },
    {
        let len = self.rep.len();
        if len < HEADER_SIZE {
            return Err(Error::corruption("malformed WriteBatch (too small)"));
        }
        let ghost start = handler.received();
        let ghost all = spec_parse_records(self.spec_records());
        let mut index: usize = HEADER_SIZE;
        let mut found: u64 = 0;
        assert(self.rep@.skip(12) =~= self.rep@.skip(HEADER_SIZE as int));
        while index != len
            invariant
                len == self.rep@.len(),
                HEADER_SIZE <= index <= len,
                handler.received() == start + all.0.take(found as int),
                all.0 == all.0.take(found as int) + spec_parse_records(self.rep@.skip(index as int)).0,
                all.1 == spec_parse_records(self.rep@.skip(index as int)).1,
                found <= index,
                found <= all.0.len(),
                start == old(handler).received(),
                all == spec_parse_records(self.spec_records()),
                self.wf(),
            decreases len - index,
        {
            match decode_record(self.rep.as_slice(), index) {
                Ok((op, next)) => {
                    let ghost prev = handler.received();
                    let ghost t = spec_parse_records(self.rep@.skip(index as int));
                    match op {
                        RecordRef::Put(key, value) => handler.put(key, value),
                        RecordRef::Delete(key) => handler.delete(key),
                    }
                    proof {
                        assert(all.0[found as int] == op.spec_op());
                        assert(all.0.take(found + 1) =~= all.0.take(found as int).push(op.spec_op()));
                        assert(all.0 =~= all.0.take(found + 1) + spec_parse_records(self.rep@.skip(next as int)).0);
                    }
                    index = next;
                    found = found + 1;
                },
                Err(e) => {
                    proof {
                        assert(all.0 =~= all.0.take(found as int));
                        assert(handler.received() == start + all.0);
                        assert(all.1 == Some(e));
                    }
                    return Err(e.to_error());
                },
            }
        }
        assert(self.rep@.skip(index as int) =~= Seq::<u8>::empty());
        assert(all.0 =~= all.0.take(found as int));
        if found != self.count() as u64 {
            Err(Error::corruption("WriteBatch has wrong count"))
        } else {
            Ok(())
        }
    }

    /// Replays the batch into `mem`: the `i`-th operation is added with sequence
    /// number `sequence() + i`. Stops at the first malformed record, with the
    /// same errors as `iterate`; the operations before it stay applied.
    #[verifier::rlimit(100)]
    pub fn insert_into(&self, mem: &mut MemTable) -> (r: Result<(), Error>)
        requires
            self.wf(),
            old(mem).wf(),
            self.spec_sequence() + spec_parse_records(self.spec_records()).0.len() <= MAX_SEQUENCE_NUMBER + 1,
            forall|i: int|
                0 <= i < spec_parse_records(self.spec_records()).0.len() ==> op_key(
                    #[trigger] spec_parse_records(self.spec_records()).0[i],
                ).len() + 8 <= u32::MAX,
            old(mem).spec_entries().len() + spec_parse_records(self.spec_records()).0.len() + 2
                <= usize::MAX / MAX_HEIGHT,
            old(mem).spec_memory_usage() + arena_bound(
                spec_op_entries(spec_parse_records(self.spec_records()).0, self.spec_sequence()),
            ) <= usize::MAX,
            forall|q: int|
                0 <= q < old(mem).spec_entries().len() ==> entry_seq(#[trigger] old(mem).spec_entries()[q])
                    < self.spec_sequence(),
        ensures
            final(mem).wf(),
            final(mem).spec_entries().to_multiset() == old(mem).spec_entries().to_multiset().add(
                spec_op_entries(spec_parse_records(self.spec_records()).0, self.spec_sequence()).to_multiset(),
            ),
            match spec_parse_records(self.spec_records()).1 {
                Some(e) => r is Err && r->Err_0.code == Code::Corruption && r->Err_0.msg@
                    == e.message(),
                None => if spec_parse_records(self.spec_records()).0.len() == self.spec_count() {
                    r is Ok
                } else {
                    r is Err && r->Err_0.code == Code::Corruption && r->Err_0.msg@
                        == "WriteBatch has wrong count"@
                },
            },
    {
        let len = self.rep.len();
        let start = self.sequence();
        let ghost all = spec_parse_records(self.spec_records());
        let ghost m0 = mem.spec_entries();
        let mut index: usize = HEADER_SIZE;
        let mut found: u64 = 0;
        assert(self.rep@.skip(12) =~= self.rep@.skip(HEADER_SIZE as int));
        assert(spec_op_entries(all.0.take(0), start) =~= Seq::<Seq<u8>>::empty());
        proof {
            let em = spec_op_entries(all.0.take(0), start).to_multiset();
            vstd::seq_lib::to_multiset_len(spec_op_entries(all.0.take(0), start));
            vstd::multiset::lemma_multiset_empty_len(em);
            assert(m0.to_multiset().add(em) =~= m0.to_multiset());
        }
        while index != len
            invariant
                len == self.rep@.len(),
                HEADER_SIZE <= index <= len,
                all == spec_parse_records(self.spec_records()),
                all.0 == all.0.take(found as int) + spec_parse_records(self.rep@.skip(index as int)).0,
                all.1 == spec_parse_records(self.rep@.skip(index as int)).1,
                found <= index - HEADER_SIZE,
                found <= all.0.len(),
                self.wf(),
                start == self.spec_sequence(),
                start + all.0.len() <= MAX_SEQUENCE_NUMBER + 1,
                forall|i: int| 0 <= i < all.0.len() ==> op_key(#[trigger] all.0[i]).len() + 8 <= u32::MAX,
                m0 == old(mem).spec_entries(),
                m0.len() + all.0.len() + 2 <= usize::MAX / MAX_HEIGHT,
                old(mem).spec_memory_usage() + arena_bound(spec_op_entries(all.0, start)) <= usize::MAX,
                mem.spec_memory_usage() <= old(mem).spec_memory_usage() + arena_bound(
                    spec_op_entries(all.0.take(found as int), start),
                ),
                mem.wf(),
                mem.spec_entries().len() == m0.len() + found,
                mem.spec_entries().to_multiset() == m0.to_multiset().add(
                    spec_op_entries(all.0.take(found as int), start).to_multiset(),
                ),
                forall|q: int|
                    0 <= q < mem.spec_entries().len() ==> entry_seq(#[trigger] mem.spec_entries()[q])
                        < start + found,
            decreases len - index,
        {
            match decode_record(self.rep.as_slice(), index) {
                Ok((op, next)) => {
                    let seq = start + found;
                    let ghost before = mem.spec_entries();
                    let ghost e;
                    proof {
                        assert(all.0[found as int] == op.spec_op());
                        lemma_no_same_key(before, seq, start + found);
                        lemma_arena_bound_prefix(all.0, start, found + 1);
                        let ne = spec_op_entries(all.0.take(found as int), start);
                        let ne1 = spec_op_entries(all.0.take(found + 1), start);
                        assert(ne1.drop_last() =~= ne);
                    }
                    match op {
                        RecordRef::Put(key, value) => {
                            proof {
                                e = spec_entry(seq, ValueType::Value, key@, value@);
                                lemma_parse_append_internal_key(key@, seq, ValueType::Value);
                                crate::memtable::lemma_entry_layout(seq, ValueType::Value, key@, value@);
                            }
                            mem.add(seq, ValueType::Value, key, value);
                        },
                        RecordRef::Delete(key) => {
                            proof {
                                e = spec_entry(seq, ValueType::Deletion, key@, Seq::empty());
                                lemma_parse_append_internal_key(key@, seq, ValueType::Deletion);
                                crate::memtable::lemma_entry_layout(seq, ValueType::Deletion, key@, Seq::empty());
                            }
                            mem.add(seq, ValueType::Deletion, key, &[]);
                        },
                    }
                    proof {
                        assert(e == spec_op_entry(op.spec_op(), seq));
                        lemma_after_add(before, e, seq, m0, all.0, found as int, start);
                        assert(all.0 =~= all.0.take(found + 1) + spec_parse_records(self.rep@.skip(next as int)).0);
                    }
                    index = next;
                    found = found + 1;
                },
                Err(e) => {
                    proof {
                        assert(all.0 =~= all.0.take(found as int));
                        assert(all.1 == Some(e));
                    }
                    return Err(e.to_error());
                },
            }
        }
        assert(self.rep@.skip(index as int) =~= Seq::<u8>::empty());
        assert(all.0 =~= all.0.take(found as int));
        if found != self.count() as u64 {
            Err(Error::corruption("WriteBatch has wrong count"))
        } else {
            Ok(())
        }
    }

    /// The count field of the header.
    pub fn count(&self) -> (r: u32)
        requires
            self.wf(),
        ensures
            r == self.spec_count(),
    {
        decode_fixed32(vstd::slice::slice_subrange(self.rep.as_slice(), SEQ_SIZE, HEADER_SIZE))
    }

    /// Overwrites the count field of the header.
    pub fn set_count(&mut self, n: u32)
        requires
            old(self).wf(),
        ensures
            final(self).wf(),
            final(self).spec_count() == n,
            final(self)@ == old(self)@.subrange(0, 8) + spec_fixed32(n) + old(self)@.skip(12),
    {
        self.rep.set(8, n as u8);
        self.rep.set(9, (n >> 8) as u8);
        self.rep.set(10, (n >> 16) as u8);
        self.rep.set(11, (n >> 24) as u8);
        proof {
            assert(self.rep@ =~= old(self)@.subrange(0, 8) + spec_fixed32(n) + old(self)@.skip(12));
            assert(self.rep@.subrange(8, 12) =~= spec_fixed32(n));
            lemma_fixed32_round_trip(n);
        }
    }

    /// The sequence-number field of the header.
    pub fn sequence(&self) -> (r: u64)
        requires
            self.wf(),
        ensures
            r == self.spec_sequence(),
    {
        decode_fixed64(vstd::slice::slice_subrange(self.rep.as_slice(), 0, SEQ_SIZE))
    }

    /// Overwrites the sequence-number field of the header.
    pub fn set_sequence(&mut self, seq: u64)
        requires
            old(self).wf(),
        ensures
            final(self).wf(),
            final(self).spec_sequence() == seq,
            final(self)@ == spec_fixed64(seq) + old(self)@.skip(8),
    {
        self.rep.set(0, seq as u8);
        self.rep.set(1, (seq >> 8) as u8);
        self.rep.set(2, (seq >> 16) as u8);
        self.rep.set(3, (seq >> 24) as u8);
        self.rep.set(4, (seq >> 32) as u8);
        self.rep.set(5, (seq >> 40) as u8);
        self.rep.set(6, (seq >> 48) as u8);
        self.rep.set(7, (seq >> 56) as u8);
        proof {
            assert(self.rep@ =~= spec_fixed64(seq) + old(self)@.skip(8));
            assert(self.rep@.subrange(0, 8) =~= spec_fixed64(seq));
            crate::util::coding::lemma_fixed64_round_trip(seq);
        }
    }

    /// The encoded batch.
    pub fn contents(&self) -> (r: &[u8])
        ensures
            r@ == self@,
    {
        self.rep.as_slice()
    }

    /// The size of the encoded batch in bytes.
    pub fn byte_size(&self) -> (r: usize)
        ensures
            r == self@.len(),
    {
        self.rep.len()
    }

    /// Replaces the encoded batch with `contents`, as read back from a log.
    pub fn set_contents(&mut self, contents: &[u8])
        ensures
            final(self)@ == contents@,
    {
        self.rep = vstd::slice::slice_to_vec(contents);
    }
}

} // verus!
