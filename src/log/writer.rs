use vstd::prelude::*;
use super::{spec_header, RecordType, BLOCK_SIZE, HEADER_SIZE};
use crate::util::coding::extend_fixed32;
use crate::util::crc32c::{crc32c_mask, crc32c_value};

verus! {

/// `n` zero bytes.
pub open spec fn zeros(n: int) -> Seq<u8> {
    Seq::new(n as nat, |i: int| 0u8)
}

/// The type of a fragment: whether it starts and whether it ends its record.
pub open spec fn fragment_type(begin: bool, end: bool) -> RecordType {
    if begin && end {
        RecordType::Full
    } else if begin {
        RecordType::First
    } else if end {
        RecordType::Last
    } else {
        RecordType::Middle
    }
}

/// Where a fragment starts when the current block is at `off`: a new block
/// when fewer than `HEADER_SIZE` bytes are left.
pub open spec fn fragment_start(off: int) -> int {
    if BLOCK_SIZE - off < HEADER_SIZE {
        0
    } else {
        off
    }
}

/// The zero bytes that end a block when a fragment at `off` would not fit a header.
pub open spec fn block_padding(off: int) -> Seq<u8> {
    if BLOCK_SIZE - off < HEADER_SIZE {
        zeros(BLOCK_SIZE - off)
    } else {
        Seq::empty()
    }
}

/// How much of `p` the fragment at `off` holds.
pub open spec fn fragment_len(off: int, p: Seq<u8>) -> int {
    let avail = BLOCK_SIZE - fragment_start(off) - HEADER_SIZE;
    if p.len() < avail {
        p.len() as int
    } else {
        avail
    }
}

/// The bytes of the first fragment of `p` written at block offset `off`: any
/// zero padding of the block's tail, the header, and the fragment itself.
/// Then the rest of `p`, fragment by fragment.
#[verifier::opaque]
pub open spec fn spec_frames(off: int, p: Seq<u8>, begin: bool) -> Seq<u8>
    decreases p.len(), BLOCK_SIZE - off,
{
    if off < 0 || off > BLOCK_SIZE {
        Seq::empty()
    } else {
        let pad = if BLOCK_SIZE - off < HEADER_SIZE {
            zeros(BLOCK_SIZE - off)
        } else {
            Seq::empty()
        };
        let start = fragment_start(off);
        let avail = BLOCK_SIZE - start - HEADER_SIZE;
        let n = if p.len() < avail {
            p.len() as int
        } else {
            avail
        };
        let end = n == p.len();
        let frag = p.take(n);
        let here = pad + spec_header(fragment_type(begin, end).spec_byte(), frag) + frag;
        if end {
            here
        } else {
            here + spec_frames(start + HEADER_SIZE + n, p.skip(n), false)
        }
    }
}

/// The block offset after writing `p` from block offset `off`.
#[verifier::opaque]
pub open spec fn spec_offset_after(off: int, p: Seq<u8>, begin: bool) -> int
    decreases p.len(), BLOCK_SIZE - off,
{
    if off < 0 || off > BLOCK_SIZE {
        off
    } else {
        let start = fragment_start(off);
        let avail = BLOCK_SIZE - start - HEADER_SIZE;
        let n = if p.len() < avail {
            p.len() as int
        } else {
            avail
        };
        if n == p.len() {
            start + HEADER_SIZE + n
        } else {
            spec_offset_after(start + HEADER_SIZE + n, p.skip(n), false)
        }
    }
}

/// One step of the framing: the first fragment, then the rest.
pub proof fn lemma_frames_step(off: int, p: Seq<u8>, begin: bool)
    requires
        0 <= off <= BLOCK_SIZE,
    ensures
        ({
            let start = fragment_start(off);
            let n = fragment_len(off, p);
            let end = n == p.len();
            let frag = p.take(n);
            let here = block_padding(off) + spec_header(fragment_type(begin, end).spec_byte(), frag)
                + frag;
            &&& 0 <= n <= p.len()
            &&& spec_frames(off, p, begin) == (if end {
                here
            } else {
                here + spec_frames(start + HEADER_SIZE + n, p.skip(n), false)
            })
            &&& spec_offset_after(off, p, begin) == (if end {
                start + HEADER_SIZE + n
            } else {
                spec_offset_after(start + HEADER_SIZE + n, p.skip(n), false)
            })
        }),
{
    reveal(spec_frames);
    reveal(spec_offset_after);
}

/// Frames logical records into the log format: 32 KiB blocks of checksummed
/// fragments. The bytes go to a caller's buffer, which the caller appends to
/// the log file.
pub struct Writer {
    block_offset: usize,
}

impl Writer {
    /// The offset in the current block.
    pub closed spec fn spec_block_offset(&self) -> int {
        self.block_offset as int
    }

    pub open spec fn wf(&self) -> bool {
        0 <= self.spec_block_offset() <= BLOCK_SIZE
    }

    /// A writer for an empty log.
    pub fn new() -> (r: Self)
        ensures
            r.wf(),
            r.spec_block_offset() == 0,
    {
        Self::new_at(0)
    }

    /// A writer that appends to a log already `dest_len` bytes long.
    pub fn new_at(dest_len: usize) -> (r: Self)
        ensures
            r.wf(),
            r.spec_block_offset() == dest_len % BLOCK_SIZE,
    {
        Writer { block_offset: dest_len % BLOCK_SIZE }
    }

    /// Appends to `dest` the fragments of the logical record `slice`.
    #[verifier::rlimit(100)]
    pub fn add_record(&mut self, dest: &mut Vec<u8>, slice: &[u8])
        requires
            old(self).wf(),
        ensures
            final(self).wf(),
            final(dest)@ == old(dest)@ + spec_frames(old(self).spec_block_offset(), slice@, true),
            final(self).spec_block_offset() == spec_offset_after(
                old(self).spec_block_offset(),
                slice@,
                true,
            ),
    {
        let mut pos: usize = 0;
        let mut begin = true;
        assert(slice@.skip(0) =~= slice@);
        loop
            invariant
                0 <= self.block_offset <= BLOCK_SIZE,
                pos <= slice@.len(),
                begin ==> pos == 0,
                old(dest)@ + spec_frames(old(self).spec_block_offset(), slice@, true) == dest@
                    + spec_frames(self.block_offset as int, slice@.skip(pos as int), begin),
                spec_offset_after(old(self).spec_block_offset(), slice@, true) == spec_offset_after(
                    self.block_offset as int,
                    slice@.skip(pos as int),
                    begin,
                ),
            decreases slice@.len() - pos, BLOCK_SIZE - self.block_offset,
        {
            let ghost off = self.block_offset as int;
            let ghost rest = slice@.skip(pos as int);
            proof {
                lemma_frames_step(off, rest, begin);
            }
            let leftover = BLOCK_SIZE - self.block_offset;
            let ghost before = dest@;
            if leftover < HEADER_SIZE {
                let mut i: usize = 0;
                while i < leftover
                    invariant
                        i <= leftover,
                        dest@ == before + zeros(i as int),
                    decreases leftover - i,
                {
                    dest.push(0u8);
                    assert(dest@ =~= before + zeros(i + 1));
                    i = i + 1;
                }
                self.block_offset = 0;
            }
            assert(dest@ =~= before + block_padding(off));
            let avail = BLOCK_SIZE - self.block_offset - HEADER_SIZE;
            let left = slice.len() - pos;
            let fragment_length = if left < avail {
                left
            } else {
                avail
            };
            let end = fragment_length == left;
            let t = if begin && end {
                RecordType::Full
            } else if begin {
                RecordType::First
            } else if end {
                RecordType::Last
            } else {
                RecordType::Middle
            };
            let fragment = vstd::slice::slice_subrange(slice, pos, pos + fragment_length);
            proof {
                assert(fragment@ =~= rest.take(fragment_length as int));
                assert(slice@.skip(pos + fragment_length) =~= rest.skip(fragment_length as int));
            }
            self.emit_physical_record(dest, t, fragment);
            pos = pos + fragment_length;
            if end {
                proof {
                    assert(dest@ =~= before + spec_frames(off, rest, begin));
                    assert(slice@.skip(pos as int) =~= Seq::<u8>::empty());
                }
                return;
            }
            proof {
                assert(before + spec_frames(off, rest, begin) =~= dest@ + spec_frames(
                    self.block_offset as int,
                    slice@.skip(pos as int),
                    false,
                ));
            }
            begin = false;
        }
    }

    /// Appends one physical record (header, then `data`) to `dest`.
    pub fn emit_physical_record(&mut self, dest: &mut Vec<u8>, t: RecordType, data: &[u8])
        requires
            data@.len() <= 0xffff,
            old(self).spec_block_offset() + HEADER_SIZE + data@.len() <= BLOCK_SIZE,
        ensures
            final(dest)@ == old(dest)@ + spec_header(t.spec_byte(), data@) + data@,
            final(self).spec_block_offset() == old(self).spec_block_offset() + HEADER_SIZE
                + data@.len(),
    {
        let mut buf: Vec<u8> = Vec::new();
        buf.push(t.as_byte());
        buf.extend_from_slice(data);
        assert(buf@ =~= seq![t.spec_byte()] + data@);
        let crc = crc32c_value(buf.as_slice());
        let len = data.len();
        extend_fixed32(dest, crc32c_mask(crc));
        dest.push((len % 256) as u8);
        dest.push((len / 256) as u8);
        dest.push(t.as_byte());
        dest.extend_from_slice(data);
        assert(dest@ =~= old(dest)@ + spec_header(t.spec_byte(), data@) + data@);
        self.block_offset = self.block_offset + HEADER_SIZE + len;
    }
}

/// A record whose payload exactly fills a block from its start leaves the
/// writer at the end of that block, and the next record starts a new block
/// with no padding.
pub proof fn lemma_full_block_record(p: Seq<u8>, q: Seq<u8>)
    requires
        p.len() == BLOCK_SIZE - HEADER_SIZE,
    ensures
        spec_offset_after(0, p, true) == BLOCK_SIZE,
        spec_frames(0, p, true) == spec_header(RecordType::Full.spec_byte(), p) + p,
        spec_frames(BLOCK_SIZE as int, q, true) == spec_frames(0, q, true),
{
    lemma_frames_step(0, p, true);
    assert(p.take(p.len() as int) =~= p);
    assert(block_padding(0) =~= Seq::<u8>::empty());
    assert(spec_frames(0, p, true) =~= spec_header(RecordType::Full.spec_byte(), p) + p);
    lemma_frames_step(BLOCK_SIZE as int, q, true);
    lemma_frames_step(0, q, true);
    assert(block_padding(BLOCK_SIZE as int) =~= Seq::<u8>::empty());
}

/// An empty record is written as a single `Full` fragment of length zero.
pub proof fn lemma_empty_record(off: int)
    requires
        0 <= off <= BLOCK_SIZE,
    ensures
        spec_frames(off, Seq::empty(), true) == block_padding(off) + spec_header(
            RecordType::Full.spec_byte(),
            Seq::empty(),
        ),
{
    lemma_frames_step(off, Seq::empty(), true);
    assert(Seq::<u8>::empty().take(0) =~= Seq::<u8>::empty());
    assert(block_padding(off) + spec_header(RecordType::Full.spec_byte(), Seq::empty())
        + Seq::<u8>::empty() =~= block_padding(off) + spec_header(RecordType::Full.spec_byte(), Seq::empty()));
}

} // verus!
