use vstd::prelude::*;
use vstd::string::StringExecFns;
use super::{BLOCK_SIZE, HEADER_SIZE};
use crate::util::coding::{decode_fixed32, spec_decode_fixed32};
use crate::util::crc32c::{crc32c_of, crc32c_unmask, crc32c_value, spec_unmask};
use crate::util::number::{append_decimal, spec_decimal};
use crate::util::result::{Code, Error};
use crate::util::coding::{lemma_fixed32_round_trip, spec_fixed32};
use crate::util::crc32c::{lemma_unmask_mask, spec_mask};
use super::writer::{block_padding, lemma_frames_step, spec_frames};
use super::{spec_header, RecordType};

verus! {

/// The state of a reader, as plain values.
pub struct ReaderState {
    /// The log's bytes.
    pub file: Seq<u8>,
    /// How many bytes of the log have been read into the buffer so far.
    pub file_pos: int,
    /// The unread part of the current block: `file[buf_start..buf_end]`.
    pub buf_start: int,
    pub buf_end: int,
    /// The last read came up short: the log ends after the buffer.
    pub eof: bool,
    /// The log offset just past the buffer.
    pub eob: int,
    /// Records that start before this offset are skipped.
    pub initial: int,
    /// Fragments that continue a record begun before `initial` are skipped.
    pub resyncing: bool,
    /// The offset of the last record returned.
    pub last_offset: int,
    /// Whether checksums are verified.
    pub checksum: bool,
}

/// Dropped stretches: their sizes in bytes and the reasons.
pub type Reports = Seq<(int, Seq<char>)>;

/// What one physical read yields, as plain values.
pub enum PhysicalSpec {
    /// A fragment: its type byte, and where its payload lies in the log.
    Fragment(u8, int, int),
    Eof,
    BadRecord,
}

/// The bytes in the buffer.
pub open spec fn buffered(s: ReaderState) -> int {
    s.buf_end - s.buf_start
}

/// A measure that every physical read other than the last one lowers.
pub open spec fn progress(s: ReaderState) -> int {
    (s.file.len() - s.file_pos) + buffered(s) + if s.eof {
        0int
    } else {
        1int
    }
}

/// A drop of `bytes` bytes is reported unless it lies wholly before the
/// initial offset.
pub open spec fn report_if(s: ReaderState, bytes: int, msg: Seq<char>) -> Reports {
    if s.eob < buffered(s) + bytes || s.eob - buffered(s) - bytes >= s.initial {
        seq![(bytes, msg)]
    } else {
        Seq::empty()
    }
}

/// The buffer emptied.
pub open spec fn drained(s: ReaderState) -> ReaderState {
    ReaderState { buf_start: s.buf_end, ..s }
}

/// The next block (or what is left of the log) read into the buffer.
pub open spec fn refilled(s: ReaderState) -> ReaderState {
    let left = s.file.len() - s.file_pos;
    let n = if left < BLOCK_SIZE {
        left
    } else {
        BLOCK_SIZE as int
    };
    ReaderState {
        buf_start: s.file_pos,
        buf_end: s.file_pos + n,
        file_pos: s.file_pos + n,
        eob: s.eob + n,
        eof: s.eof || n < BLOCK_SIZE,
        ..s
    }
}

/// The payload length in the header at the front of the buffer.
pub open spec fn header_len(s: ReaderState) -> int {
    s.file[s.buf_start + 4] as int + 256 * s.file[s.buf_start + 5] as int
}

/// The type byte in the header at the front of the buffer.
pub open spec fn header_kind(s: ReaderState) -> u8 {
    s.file[s.buf_start + 6]
}

/// The checksum stored in the header at the front of the buffer matches its
/// type byte and payload.
pub open spec fn header_crc_ok(s: ReaderState) -> bool {
    spec_unmask(spec_decode_fixed32(s.file.subrange(s.buf_start, s.buf_start + 4))) == crc32c_of(
        s.file.subrange(s.buf_start + 6, s.buf_start + HEADER_SIZE + header_len(s)),
    )
}

/// Parses the physical record at the front of a buffer that holds at least a
/// header.
#[verifier::opaque]
pub open spec fn spec_parse_physical(s: ReaderState) -> (ReaderState, PhysicalSpec, Reports) {
    let len = header_len(s);
    if HEADER_SIZE + len > buffered(s) {
        if !s.eof {
            (drained(s), PhysicalSpec::BadRecord, report_if(drained(s), buffered(s), "bad record length"@))
        } else {
            // the writer died in the middle of the payload
            (drained(s), PhysicalSpec::Eof, Seq::empty())
        }
    } else if header_kind(s) == 0 && len == 0 {
        // a preallocated region
        (drained(s), PhysicalSpec::BadRecord, Seq::empty())
    } else if s.checksum && !header_crc_ok(s) {
        (drained(s), PhysicalSpec::BadRecord, report_if(drained(s), buffered(s), "checksum mismatch"@))
    } else {
        let s1 = ReaderState { buf_start: s.buf_start + HEADER_SIZE + len, ..s };
        if s1.eob - buffered(s1) - HEADER_SIZE - len < s.initial {
            // it began before the initial offset
            (s1, PhysicalSpec::BadRecord, Seq::empty())
        } else {
            (s1, PhysicalSpec::Fragment(header_kind(s), s.buf_start + HEADER_SIZE, len), Seq::empty())
        }
    }
}

/// One physical read: refill the buffer when it cannot hold a header, then
/// parse the record at its front.
#[verifier::opaque]
pub open spec fn spec_read_physical(s: ReaderState) -> (ReaderState, PhysicalSpec, Reports) {
    if buffered(s) < HEADER_SIZE {
        if !s.eof {
            let s1 = refilled(s);
            if buffered(s1) < HEADER_SIZE {
                // a truncated header at the end of the log
                (drained(s1), PhysicalSpec::Eof, Seq::empty())
            } else {
                spec_parse_physical(s1)
            }
        } else {
            (drained(s), PhysicalSpec::Eof, Seq::empty())
        }
    } else {
        spec_parse_physical(s)
    }
}

/// Skipping the blocks that lie wholly before the initial offset.
pub open spec fn spec_skip(s: ReaderState) -> ReaderState {
    let in_block = s.initial % BLOCK_SIZE as int;
    let block_start = s.initial - in_block + if in_block > BLOCK_SIZE - 6 {
        BLOCK_SIZE as int
    } else {
        0
    };
    let pos = if block_start > 0 {
        if block_start < s.file.len() - s.file_pos {
            s.file_pos + block_start
        } else {
            s.file.len() as int
        }
    } else {
        s.file_pos
    };
    ReaderState { file_pos: pos, eob: if block_start >= pos { block_start } else { pos }, ..s }
}

/// `n` capped at the largest `usize`.
pub open spec fn cap(n: int) -> int {
    if n > usize::MAX {
        usize::MAX as int
    } else {
        n
    }
}

/// The reports `pre` put before what `t` reports.
pub open spec fn prepend(pre: Reports, t: (ReaderState, Option<Seq<u8>>, Reports)) -> (
    ReaderState,
    Option<Seq<u8>>,
    Reports,
) {
    (t.0, t.1, pre + t.2)
}

/// The outcome of one round of `read_record`'s loop: a result, or the state
/// to go on from (reassembly flag, fragments so far, where the record began)
/// with the drops reported in the round.
pub enum StepSpec {
    Done(ReaderState, Option<Seq<u8>>, Reports),
    Next(ReaderState, bool, Seq<u8>, int, Reports),
}

/// One round: a physical read, then what its result means while `in_frag`
/// says a fragmented record is being reassembled, `scratch` holds its
/// fragments so far and `prosp` is where it began.
#[verifier::opaque]
pub open spec fn spec_step(s: ReaderState, in_frag: bool, scratch: Seq<u8>, prosp: int) -> StepSpec {
    let (s1, p, rep1) = spec_read_physical(s);
    match p {
        PhysicalSpec::Fragment(kind, start, len) => {
            let off = s1.eob - buffered(s1) - HEADER_SIZE - len;
            if s1.resyncing && kind == 3 {
                StepSpec::Next(s1, in_frag, scratch, prosp, rep1)
            } else if s1.resyncing && kind == 4 {
                StepSpec::Next(ReaderState { resyncing: false, ..s1 }, in_frag, scratch, prosp, rep1)
            } else {
                let s2 = ReaderState { resyncing: false, ..s1 };
                let frag = s1.file.subrange(start, start + len);
                if kind == 1 {
                    let r2 = if in_frag && scratch.len() > 0 {
                        report_if(s2, scratch.len() as int, "partial record without end(1)"@)
                    } else {
                        Seq::empty()
                    };
                    StepSpec::Done(ReaderState { last_offset: off, ..s2 }, Some(frag), rep1 + r2)
                } else if kind == 2 {
                    let r2 = if in_frag && scratch.len() > 0 {
                        report_if(s2, scratch.len() as int, "partial record without end(2)"@)
                    } else {
                        Seq::empty()
                    };
                    StepSpec::Next(s2, true, frag, off, rep1 + r2)
                } else if kind == 3 {
                    if !in_frag {
                        StepSpec::Next(
                            s2,
                            in_frag,
                            scratch,
                            prosp,
                            rep1 + report_if(s2, len, "missing start of fragmented record(1)"@),
                        )
                    } else {
                        StepSpec::Next(s2, true, scratch + frag, prosp, rep1)
                    }
                } else if kind == 4 {
                    if !in_frag {
                        StepSpec::Next(
                            s2,
                            in_frag,
                            scratch,
                            prosp,
                            rep1 + report_if(s2, len, "missing start of fragmented record(2)"@),
                        )
                    } else {
                        StepSpec::Done(ReaderState { last_offset: prosp, ..s2 }, Some(scratch + frag), rep1)
                    }
                } else {
                    let drop = if in_frag {
                        cap(scratch.len() + len)
                    } else {
                        len
                    };
                    StepSpec::Next(
                        s2,
                        false,
                        Seq::empty(),
                        prosp,
                        rep1 + report_if(s2, drop, "unknown record type "@ + spec_decimal(kind as nat)),
                    )
                }
            }
        },
        PhysicalSpec::Eof => StepSpec::Done(s1, None, rep1),
        PhysicalSpec::BadRecord => {
            if in_frag {
                StepSpec::Next(
                    s1,
                    false,
                    Seq::empty(),
                    prosp,
                    rep1 + report_if(s1, scratch.len() as int, "error in middle of record"@),
                )
            } else {
                StepSpec::Next(s1, in_frag, scratch, prosp, rep1)
            }
        },
    }
}

/// Reading on for a logical record with at most `fuel` more rounds. Yields
/// the state after, the record if one ends, and the drops reported.
pub open spec fn spec_read_on(
    s: ReaderState,
    in_frag: bool,
    scratch: Seq<u8>,
    prosp: int,
    fuel: nat,
) -> (ReaderState, Option<Seq<u8>>, Reports)
    decreases fuel,
{
    if fuel == 0 {
        (s, None, Seq::empty())
    } else {
        match spec_step(s, in_frag, scratch, prosp) {
            StepSpec::Done(s1, rec, reps) => (s1, rec, reps),
            StepSpec::Next(s1, i1, sc1, p1, reps) => prepend(
                reps,
                spec_read_on(s1, i1, sc1, p1, (fuel - 1) as nat),
            ),
        }
    }
}

/// What `read_record` does from state `s`: skip to the initial block if no
/// record at or after the initial offset has been returned yet, then read
/// physical records until one logical record is whole or the log ends.
pub open spec fn spec_read_record(s: ReaderState) -> (ReaderState, Option<Seq<u8>>, Reports) {
    let s0 = if s.last_offset < s.initial {
        spec_skip(s)
    } else {
        s
    };
    spec_read_on(s0, false, Seq::empty(), 0, (progress(s0) + 1) as nat)
}

/// The outcome of one round of `read_record`'s loop.
pub enum Step {
    /// The read is over, with this record or none.
    Done(Option<Vec<u8>>),
    /// Go on: whether a fragmented record is being reassembled, and where it began.
    Next(bool, usize),
}

/// A fresh reader of the log `f` from its start, checking checksums.
pub open spec fn fresh_state(f: Seq<u8>) -> ReaderState {
    ReaderState {
        file: f,
        file_pos: 0,
        buf_start: 0,
        buf_end: 0,
        eof: false,
        eob: 0,
        initial: 0,
        resyncing: false,
        last_offset: 0,
        checksum: true,
    }
}

/// A log holding one record that fits in the first block with its header
/// reads back as exactly that record, with nothing reported, and then as
/// the end of the log.
pub proof fn lemma_single_record_read_back(p: Seq<u8>)
    requires
        p.len() + HEADER_SIZE <= BLOCK_SIZE,
    ensures
        ({
            let f = spec_frames(0, p, true);
            let t = spec_read_record(fresh_state(f));
            let t2 = spec_read_record(t.0);
            &&& t.1 == Some(p)
            &&& t.2 == Reports::empty()
            &&& t2.1 is None
            &&& t2.2 == Reports::empty()
        }),
{
    reveal(spec_step);
    reveal(spec_read_physical);
    reveal(spec_parse_physical);
    let f = spec_frames(0, p, true);
    lemma_frames_step(0, p, true);
    assert(p.take(p.len() as int) =~= p);
    assert(block_padding(0) =~= Seq::<u8>::empty());
    let c = crc32c_of(seq![RecordType::Full.spec_byte()] + p);
    assert(f =~= spec_header(1, p) + p);
    let n = p.len() as int;
    assert(f.len() == n + HEADER_SIZE);
    let s = fresh_state(f);
    let s1 = refilled(s);
    assert(s1.buf_start == 0 && s1.buf_end == f.len());
    // the header decodes to the record's length, type and checksum
    assert(f[4] as int + 256 * f[5] as int == n) by {
        assert(f[4] == (n % 256) as u8);
        assert(f[5] == (n / 256) as u8);
        vstd::arithmetic::div_mod::lemma_fundamental_div_mod(n, 256);
    }
    assert(header_len(s1) == n);
    assert(header_kind(s1) == 1);
    lemma_fixed32_round_trip(spec_mask(c));
    lemma_unmask_mask(c);
    assert(s1.file.subrange(0, 4) =~= spec_fixed32(spec_mask(c)));
    assert(s1.file.subrange(6, HEADER_SIZE + n) =~= seq![1u8] + p);
    assert(header_crc_ok(s1));
    let ph = spec_read_physical(s);
    assert(ph.1 == PhysicalSpec::Fragment(1, HEADER_SIZE as int, n));
    assert(ph.0.file.subrange(HEADER_SIZE as int, HEADER_SIZE + n) =~= p);
    assert(ph.2 =~= Reports::empty());
    let t = spec_read_record(s);
    assert(t.2 =~= Reports::empty());
    // then: an empty buffer at the end of the log
    let s2 = t.0;
    assert(s2.buf_start == s2.buf_end && s2.file_pos == s2.file.len());
    assert(s2.last_offset >= s2.initial);
    assert(progress(s2) >= 0);
}

/// What one physical read yields.
pub enum Physical {
    /// A fragment: its type byte, and where its bytes lie in the log.
    Fragment { kind: u8, start: usize, len: usize },
    /// The end of the log, or a torn record at its end.
    Eof,
    /// A record that was dropped.
    BadRecord,
}

impl Physical {
    pub open spec fn view(&self) -> PhysicalSpec {
        match self {
            Physical::Fragment { kind, start, len } => PhysicalSpec::Fragment(*kind, *start as int, *len as int),
            Physical::Eof => PhysicalSpec::Eof,
            Physical::BadRecord => PhysicalSpec::BadRecord,
        }
    }
}

/// A lost stretch of the log: how many bytes, and why.
pub struct Corruption {
    pub bytes: usize,
    pub reason: Error,
}

/// Reads logical records back from the bytes of a log, checking checksums,
/// reassembling fragments, and reporting what had to be dropped.
pub struct Reader {
    file: Vec<u8>,
    file_pos: usize,
    checksum: bool,
    buf_start: usize,
    buf_end: usize,
    scratch: Vec<u8>,
    eof: bool,
    last_record_offset: usize,
    end_of_buffer_offset: usize,
    initial_offset: usize,
    resyncing: bool,
    reports: Vec<Corruption>,
}

impl Reader {
    /// The reader's state.
    pub closed spec fn state(&self) -> ReaderState {
        ReaderState {
            file: self.file@,
            file_pos: self.file_pos as int,
            buf_start: self.buf_start as int,
            buf_end: self.buf_end as int,
            eof: self.eof,
            eob: self.end_of_buffer_offset as int,
            initial: self.initial_offset as int,
            resyncing: self.resyncing,
            last_offset: self.last_record_offset as int,
            checksum: self.checksum,
        }
    }

    /// The fragments of the record being reassembled.
    pub closed spec fn pending(&self) -> Seq<u8> {
        self.scratch@
    }

    /// The drops reported so far, oldest first.
    pub closed spec fn reports_view(&self) -> Reports {
        self.reports@.map_values(|c: Corruption| (c.bytes as int, c.reason.msg@))
    }

    pub closed spec fn wf(&self) -> bool {
        &&& self.buf_start <= self.buf_end <= self.file_pos <= self.file@.len()
        &&& self.file_pos <= self.end_of_buffer_offset
        &&& (self.end_of_buffer_offset == self.file_pos || self.file_pos == self.file@.len())
        &&& self.initial_offset <= usize::MAX - BLOCK_SIZE
        &&& forall|i: int| 0 <= i < self.reports@.len() ==> (#[trigger] self.reports@[i]).reason.code == Code::Corruption
    }

    /// A reader of `file` that starts at the first record at or after byte
    /// `initial_offset`.
    pub fn new(file: Vec<u8>, initial_offset: usize, checksum: bool) -> (r: Self)
        requires
            initial_offset <= usize::MAX - BLOCK_SIZE,
        ensures
            r.wf(),
            r.state() == (ReaderState {
                file: file@,
                file_pos: 0,
                buf_start: 0,
                buf_end: 0,
                eof: false,
                eob: 0,
                initial: initial_offset as int,
                resyncing: initial_offset > 0,
                last_offset: 0,
                checksum,
            }),
            r.reports_view() == Reports::empty(),
    {
        let r = Reader {
            file,
            file_pos: 0,
            checksum,
            buf_start: 0,
            buf_end: 0,
            scratch: Vec::new(),
            eof: false,
            last_record_offset: 0,
            end_of_buffer_offset: 0,
            initial_offset,
            resyncing: initial_offset > 0,
            reports: Vec::new(),
        };
        assert(r.reports_view() =~= Reports::empty());
        r
    }

    /// The offset of the last record returned by `read_record`.
    pub fn last_record_offset(&self) -> (r: usize)
        ensures
            r == self.state().last_offset,
    {
        self.last_record_offset
    }

    /// The drops reported so far, oldest first; each is a corruption.
    pub fn reports(&self) -> (r: &Vec<Corruption>)
        requires
            self.wf(),
        ensures
            r@.len() == self.reports_view().len(),
            forall|i: int|
                0 <= i < r@.len() ==> (#[trigger] r@[i]).bytes as int == self.reports_view()[i].0
                    && r@[i].reason.msg@ == self.reports_view()[i].1 && r@[i].reason.code
                    == Code::Corruption,
    {
        &self.reports
    }

    /// Skips the blocks that lie wholly before the initial offset.
    fn skip_to_initial_block(&mut self)
        requires
            old(self).wf(),
        ensures
            final(self).wf(),
            final(self).state() == spec_skip(old(self).state()),
            final(self).reports_view() == old(self).reports_view(),
            final(self).pending() == old(self).pending(),
    {
        let offset_in_block = self.initial_offset % BLOCK_SIZE;
        let mut block_start_location = self.initial_offset - offset_in_block;
        // a block's last six bytes can only hold padding
        if offset_in_block > BLOCK_SIZE - 6 {
            block_start_location = block_start_location + BLOCK_SIZE;
        }
        if block_start_location > 0 {
            let remaining = self.file.len() - self.file_pos;
            if block_start_location < remaining {
                self.file_pos = self.file_pos + block_start_location;
            } else {
                self.file_pos = self.file.len();
            }
        }
        if block_start_location >= self.file_pos {
            self.end_of_buffer_offset = block_start_location;
        } else {
            self.end_of_buffer_offset = self.file_pos;
        }
    }

    /// Records a corruption of `bytes` bytes, unless it lies wholly before the
    /// initial offset.
    fn report_corruption(&mut self, bytes: usize, msg: &str)
        requires
            old(self).wf(),
        ensures
            final(self).wf(),
            final(self).state() == old(self).state(),
            final(self).reports_view() == old(self).reports_view() + report_if(
                old(self).state(),
                bytes as int,
                msg@,
            ),
            final(self).pending() == old(self).pending(),
    {
        let buffered = self.buf_end - self.buf_start;
        let report = match buffered.checked_add(bytes) {
            None => true,
            Some(t) => self.end_of_buffer_offset < t || self.end_of_buffer_offset - t >= self.initial_offset,
        };
        if report {
            let ghost before = self.reports@;
            self.reports.push(Corruption { bytes, reason: Error::corruption(msg) });
            proof {
                assert(self.reports_view() =~= old(self).reports_view() + seq![(bytes as int, msg@)]);
            }
        } else {
            assert(report_if(old(self).state(), bytes as int, msg@) =~= Reports::empty());
            assert(old(self).reports_view() + Reports::empty() =~= old(self).reports_view());
        }
    }

    /// Parses the physical record at the front of the buffer, which holds at
    /// least a header.
    fn parse_physical_record(&mut self) -> (r: Physical)
        requires
            old(self).wf(),
            buffered(old(self).state()) >= HEADER_SIZE,
        ensures
            final(self).wf(),
            final(self).state() == spec_parse_physical(old(self).state()).0,
            r.view() == spec_parse_physical(old(self).state()).1,
            final(self).reports_view() == old(self).reports_view() + spec_parse_physical(old(self).state()).2,
            r.view() != PhysicalSpec::Eof ==> progress(final(self).state()) < progress(old(self).state()),
            r matches Physical::Fragment { start, len, .. } ==> HEADER_SIZE <= start
                && final(self).state().buf_start == start + len,
            final(self).pending() == old(self).pending(),
    {
        reveal(spec_parse_physical);
        let ghost s = self.state();
        let ghost r0 = self.reports_view();
        let buffered = self.buf_end - self.buf_start;
        proof {
            assert(r0 + Reports::empty() =~= r0);
        }
        let bs = self.buf_start;
        let a = self.file[bs + 4] as usize;
        let b = self.file[bs + 5] as usize;
        let length = a + 256 * b;
        let kind = self.file[bs + 6];
        if HEADER_SIZE + length > buffered {
            self.buf_start = self.buf_end;
            if !self.eof {
                self.report_corruption(buffered, "bad record length");
                return Physical::BadRecord;
            }
            return Physical::Eof;
        }
        if kind == 0 && length == 0 {
            self.buf_start = self.buf_end;
            return Physical::BadRecord;
        }
        if self.checksum {
            let expected = crc32c_unmask(
                decode_fixed32(vstd::slice::slice_subrange(self.file.as_slice(), bs, bs + 4)),
            );
            let actual = crc32c_value(
                vstd::slice::slice_subrange(self.file.as_slice(), bs + 6, bs + 7 + length),
            );
            if actual != expected {
                // the length itself may be corrupt: drop the whole buffer
                self.buf_start = self.buf_end;
                self.report_corruption(buffered, "checksum mismatch");
                return Physical::BadRecord;
            }
        }
        self.buf_start = bs + HEADER_SIZE + length;
        if self.end_of_buffer_offset - (self.buf_end - self.buf_start) - HEADER_SIZE - length
            < self.initial_offset {
            return Physical::BadRecord;
        }
        Physical::Fragment { kind, start: bs + HEADER_SIZE, len: length }
    }

    /// Reads the next physical record: a fragment with its place in the log,
    /// the end of the log, or a dropped record.
    pub fn read_physical_record(&mut self) -> (r: Physical)
        requires
            old(self).wf(),
        ensures
            final(self).wf(),
            final(self).state() == spec_read_physical(old(self).state()).0,
            r.view() == spec_read_physical(old(self).state()).1,
            final(self).reports_view() == old(self).reports_view() + spec_read_physical(old(self).state()).2,
            r matches Physical::Fragment { start, len, .. } ==> HEADER_SIZE <= start
                && final(self).state().buf_start == start + len,
            final(self).pending() == old(self).pending(),
            r.view() != PhysicalSpec::Eof ==> progress(final(self).state()) < progress(
                old(self).state(),
            ),
    {
        reveal(spec_read_physical);
        let ghost r0 = self.reports_view();
        proof {
            assert(r0 + Reports::empty() =~= r0);
        }
        if self.buf_end - self.buf_start < HEADER_SIZE {
            if !self.eof {
                // the last read was a whole block: what is left is its trailer
                let remaining = self.file.len() - self.file_pos;
                let n = if remaining < BLOCK_SIZE {
                    remaining
                } else {
                    BLOCK_SIZE
                };
                self.buf_start = self.file_pos;
                self.buf_end = self.file_pos + n;
                self.file_pos = self.file_pos + n;
                self.end_of_buffer_offset = self.end_of_buffer_offset + n;
                if n < BLOCK_SIZE {
                    self.eof = true;
                }
                if self.buf_end - self.buf_start < HEADER_SIZE {
                    self.buf_start = self.buf_end;
                    return Physical::Eof;
                }
            } else {
                self.buf_start = self.buf_end;
                return Physical::Eof;
            }
        }
        self.parse_physical_record()
    }

    /// One round of `read_record`'s loop, exactly as `spec_step` says.
    #[verifier::rlimit(100)]
    fn read_step(&mut self, in_fragmented_record: bool, prospective_record_offset: usize) -> (r: Step)
        requires
            old(self).wf(),
        ensures
            final(self).wf(),
            match spec_step(old(self).state(), in_fragmented_record, old(self).pending(), prospective_record_offset as int) {
                StepSpec::Done(s1, rec, reps) => {
                    &&& r matches Step::Done(v) && match v {
                        Some(x) => rec == Some(x@),
                        None => rec is None,
                    }
                    &&& final(self).state() == s1
                    &&& final(self).reports_view() == old(self).reports_view() + reps
                },
                StepSpec::Next(s1, i1, sc1, p1, reps) => {
                    &&& r matches Step::Next(a, b) && a == i1 && b as int == p1
                                        &&& final(self).state() == s1
                    &&& final(self).pending() == sc1
                    &&& final(self).reports_view() == old(self).reports_view() + reps
                    &&& progress(s1) < progress(old(self).state())
                },
            },
    {
        reveal(spec_step);
        let ghost r0 = self.reports_view();
        let record = self.read_physical_record();
        let ghost rep1 = spec_read_physical(old(self).state()).2;
        match record {
            Physical::Fragment { kind, start, len } => {
                // where this fragment's header began
                let physical_record_offset = self.end_of_buffer_offset - (self.buf_end
                    - self.buf_start) - HEADER_SIZE - len;
                if self.resyncing {
                    if kind == 3 {
                        return Step::Next(in_fragmented_record, prospective_record_offset);
                    } else if kind == 4 {
                        self.resyncing = false;
                        return Step::Next(in_fragmented_record, prospective_record_offset);
                    } else {
                        self.resyncing = false;
                    }
                }
                if kind == 1 {
                    if in_fragmented_record && self.scratch.len() > 0 {
                        let n = self.scratch.len();
                        self.report_corruption(n, "partial record without end(1)");
                    } else {
                        assert(r0 + rep1 + Reports::empty() =~= r0 + rep1);
                    }
                    self.scratch.clear();
                    self.last_record_offset = physical_record_offset;
                    let fragment = vstd::slice::slice_subrange(self.file.as_slice(), start, start + len);
                    assert(self.reports_view() =~= r0 + spec_read_physical(old(self).state()).2 + (self.reports_view().skip((r0 + rep1).len() as int)));
                    Step::Done(Some(vstd::slice::slice_to_vec(fragment)))
                } else if kind == 2 {
                    if in_fragmented_record && self.scratch.len() > 0 {
                        let n = self.scratch.len();
                        self.report_corruption(n, "partial record without end(2)");
                    } else {
                        assert(r0 + rep1 + Reports::empty() =~= r0 + rep1);
                    }
                    let fragment = vstd::slice::slice_subrange(self.file.as_slice(), start, start + len);
                    self.scratch = vstd::slice::slice_to_vec(fragment);
                    Step::Next(true, physical_record_offset)
                } else if kind == 3 {
                    if !in_fragmented_record {
                        self.report_corruption(len, "missing start of fragmented record(1)");
                    } else {
                        let fragment = vstd::slice::slice_subrange(self.file.as_slice(), start, start + len);
                        self.scratch.extend_from_slice(fragment);
                    }
                    Step::Next(in_fragmented_record, prospective_record_offset)
                } else if kind == 4 {
                    if !in_fragmented_record {
                        self.report_corruption(len, "missing start of fragmented record(2)");
                        Step::Next(in_fragmented_record, prospective_record_offset)
                    } else {
                        let fragment = vstd::slice::slice_subrange(self.file.as_slice(), start, start + len);
                        self.scratch.extend_from_slice(fragment);
                        self.last_record_offset = prospective_record_offset;
                        Step::Done(Some(self.scratch.clone()))
                    }
                } else {
                    let drop_size = if in_fragmented_record {
                        self.scratch.len().saturating_add(len)
                    } else {
                        len
                    };
                    let mut msg = String::from_str("unknown record type ");
                    append_decimal(&mut msg, kind as u64, 0);
                    proof {
                        assert(crate::util::number::pad_zeros(spec_decimal(kind as nat), 0) == spec_decimal(kind as nat));
                    }
                    self.report_corruption(drop_size, msg.as_str());
                    self.scratch.clear();
                    Step::Next(false, prospective_record_offset)
                }
            },
            Physical::Eof => {
                if in_fragmented_record {
                    // the writer died between fragments: not a corruption
                    self.scratch.clear();
                }
                Step::Done(None)
            },
            Physical::BadRecord => {
                if in_fragmented_record {
                    let n = self.scratch.len();
                    self.report_corruption(n, "error in middle of record");
                    self.scratch.clear();
                    Step::Next(false, prospective_record_offset)
                } else {
                    Step::Next(in_fragmented_record, prospective_record_offset)
                }
            },
        }
    }

    /// Reads the next logical record, exactly as `spec_read_record` says:
    /// `None` once the log is exhausted; dropped stretches are added to the
    /// reports.
    pub fn read_record(&mut self) -> (r: Option<Vec<u8>>)
        requires
            old(self).wf(),
        ensures
            final(self).wf(),
            ({
                let t = spec_read_record(old(self).state());
                &&& final(self).state() == t.0
                &&& match r {
                    Some(v) => t.1 == Some(v@),
                    None => t.1 is None,
                }
                &&& final(self).reports_view() == old(self).reports_view() + t.2
            }),
    {
        let ghost target = spec_read_record(self.state());
        let ghost r0 = self.reports_view();
        if self.last_record_offset < self.initial_offset {
            self.skip_to_initial_block();
        }
        self.scratch.clear();
        let mut in_fragmented_record = false;
        let mut prospective_record_offset: usize = 0;
        let ghost mut acc: Reports = Seq::empty();
        let ghost mut fuel: nat = (progress(self.state()) + 1) as nat;
        proof {
            assert(self.scratch@ =~= Seq::<u8>::empty());
            assert(r0 + acc =~= r0);
            assert(prepend(acc, target) =~= target);
        }
        loop
            invariant
                self.wf(),
                self.reports_view() == r0 + acc,
                r0 == old(self).reports_view(),
                target == spec_read_record(old(self).state()),
                target == prepend(
                    acc,
                    spec_read_on(self.state(), in_fragmented_record, self.pending(), prospective_record_offset as int, fuel),
                ),
                fuel >= progress(self.state()) + 1,
                progress(self.state()) >= 0,
            decreases progress(self.state()),
        {
            let ghost s = self.state();
            let ghost before = self.reports_view();
            let ghost step = spec_step(s, in_fragmented_record, self.pending(), prospective_record_offset as int);
            match self.read_step(in_fragmented_record, prospective_record_offset) {
                Step::Done(v) => {
                    proof {
                        assert(self.reports_view() =~= r0 + (acc + step->Done_2));
                    }
                    return v;
                },
                Step::Next(i1, p1) => {
                    proof {
                        acc = acc + step->Next_4;
                        fuel = (fuel - 1) as nat;
                        assert(self.reports_view() =~= r0 + acc);
                        assert(prepend(acc, spec_read_on(self.state(), i1, self.pending(), p1 as int, fuel))
                            =~= prepend(before.skip(r0.len() as int), prepend(step->Next_4, spec_read_on(self.state(), i1, self.pending(), p1 as int, fuel))));
                    }
                    in_fragmented_record = i1;
                    prospective_record_offset = p1;
                },
            }
        }
    }
}

} // verus!
