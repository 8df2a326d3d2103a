use vstd::prelude::*;

verus! {

/// The size of an ordinary arena block.
pub const ARENA_BLOCK_SIZE: usize = 4096;

/// The alignment of `allocate_aligned`.
pub const ALIGN: usize = 8;

/// A bump allocator over owned byte blocks. An allocation is named by its
/// block and its offset in that block; nothing is freed before the arena.
pub struct Arena {
    blocks: Vec<Vec<u8>>,
    alloc_block: usize,
    alloc_offset: usize,
    alloc_bytes_remaining: usize,
    memory_usage: usize,
    /// For each block, how many bytes from its start have been handed out.
    used: Ghost<Seq<nat>>,
}

impl Arena {
    /// The sizes of the blocks, in order of allocation.
    pub closed spec fn block_sizes(&self) -> Seq<nat> {
        self.blocks@.map_values(|b: Vec<u8>| b@.len())
    }

    /// The bytes of block `i`.
    pub closed spec fn block(&self, i: int) -> Seq<u8> {
        self.blocks@[i]@
    }

    /// Bytes left in the current small-object block.
    pub closed spec fn remaining(&self) -> nat {
        self.alloc_bytes_remaining as nat
    }

    /// Bytes requested for all blocks so far.
    pub closed spec fn usage(&self) -> nat {
        self.memory_usage as nat
    }

    /// For each block, how many bytes from its start have been handed out:
    /// every allocation made so far lies below this mark.
    pub closed spec fn used(&self) -> Seq<nat> {
        self.used@
    }

    /// The mark of block `i`; zero for a block that does not exist yet.
    pub open spec fn used_at(&self, i: int) -> nat {
        if 0 <= i < self.used().len() {
            self.used()[i]
        } else {
            0
        }
    }

    /// Padding that aligns the current offset, plus `bytes`, fits the current block.
    pub closed spec fn aligned_fits(&self, bytes: nat) -> bool {
        let m = self.alloc_offset % ALIGN;
        let slop = if m == 0 { 0 } else { ALIGN - m };
        self.alloc_bytes_remaining >= slop && bytes <= self.alloc_bytes_remaining - slop
    }

    pub closed spec fn wf(&self) -> bool {
        &&& self.used@.len() == self.blocks@.len()
        &&& forall|i: int| 0 <= i < self.blocks@.len() ==> #[trigger] self.used@[i] <= self.blocks@[i]@.len()
        &&& self.alloc_bytes_remaining > 0 ==> self.used@[self.alloc_block as int] == self.alloc_offset
        &&& self.alloc_offset + self.alloc_bytes_remaining <= ARENA_BLOCK_SIZE
        &&& self.alloc_bytes_remaining > 0 ==> self.alloc_block < self.blocks@.len()
            && self.alloc_offset + self.alloc_bytes_remaining == self.blocks@[self.alloc_block as int]@.len()
    }

    pub fn new() -> (r: Self)
        ensures
            r.wf(),
            r.usage() == 0,
            r.remaining() == 0,
            r.block_sizes() == Seq::<nat>::empty(),
    {
        let r = Arena {
            blocks: Vec::new(),
            alloc_block: 0,
            alloc_offset: 0,
            alloc_bytes_remaining: 0,
            memory_usage: 0,
            used: Ghost(Seq::empty()),
        };
        assert(r.block_sizes() =~= Seq::<nat>::empty());
        r
    }

    /// Bytes requested for all blocks so far.
    pub fn memory_usage(&self) -> (r: usize)
        ensures
            r == self.usage(),
    {
        self.memory_usage
    }

    /// `bytes` contiguous bytes: from the current block when they fit, else
    /// from a block of their own when larger than a quarter block, else from
    /// a fresh block.
    pub fn allocate(&mut self, bytes: usize) -> (r: (usize, usize))
        requires
            old(self).wf(),
            bytes > 0,
            old(self).usage() + bytes + ARENA_BLOCK_SIZE <= usize::MAX,
        ensures
            final(self).wf(),
            r.0 < final(self).block_sizes().len(),
            r.1 + bytes <= final(self).block_sizes()[r.0 as int],
            r.1 >= old(self).used_at(r.0 as int),
            final(self).used().len() >= old(self).used().len(),
            final(self).used()[r.0 as int] == r.1 + bytes,
            forall|i: int| 0 <= i < old(self).used().len() && i != r.0 ==> #[trigger] final(self).used()[i] == old(self).used()[i],
            final(self).usage() == old(self).usage() + (if bytes <= old(self).remaining() {
                0
            } else if bytes > ARENA_BLOCK_SIZE / 4 {
                bytes as nat
            } else {
                ARENA_BLOCK_SIZE as nat
            }),
    {
        if bytes <= self.alloc_bytes_remaining {
            let r = (self.alloc_block, self.alloc_offset);
            self.alloc_offset = self.alloc_offset + bytes;
            self.alloc_bytes_remaining = self.alloc_bytes_remaining - bytes;
            self.used = Ghost(self.used@.update(r.0 as int, self.alloc_offset as nat));
            proof {
                self.lemma_sizes();
            }
            return r;
        }
        self.allocate_fallback(bytes)
    }

    /// Like `allocate`, with the offset rounded up to a multiple of `ALIGN`.
    pub fn allocate_aligned(&mut self, bytes: usize) -> (r: (usize, usize))
        requires
            old(self).wf(),
            bytes > 0,
            old(self).usage() + bytes + ARENA_BLOCK_SIZE <= usize::MAX,
        ensures
            final(self).wf(),
            r.0 < final(self).block_sizes().len(),
            r.1 + bytes <= final(self).block_sizes()[r.0 as int],
            r.1 % ALIGN == 0,
            r.1 >= old(self).used_at(r.0 as int),
            final(self).used().len() >= old(self).used().len(),
            final(self).used()[r.0 as int] == r.1 + bytes,
            forall|i: int| 0 <= i < old(self).used().len() && i != r.0 ==> #[trigger] final(self).used()[i] == old(self).used()[i],
            final(self).usage() == old(self).usage() + (if old(self).aligned_fits(bytes as nat) {
                0
            } else if bytes > ARENA_BLOCK_SIZE / 4 {
                bytes as nat
            } else {
                ARENA_BLOCK_SIZE as nat
            }),
    {
        let current_mod = self.alloc_offset % ALIGN;
        let slop = if current_mod == 0 {
            0
        } else {
            ALIGN - current_mod
        };
        if self.alloc_bytes_remaining >= slop && bytes <= self.alloc_bytes_remaining - slop {
            let r = (self.alloc_block, self.alloc_offset + slop);
            self.alloc_offset = self.alloc_offset + slop + bytes;
            self.alloc_bytes_remaining = self.alloc_bytes_remaining - slop - bytes;
            self.used = Ghost(self.used@.update(r.0 as int, self.alloc_offset as nat));
            proof {
                self.lemma_sizes();
            }
            return r;
        }
        self.allocate_fallback(bytes)
    }

    /// Copies `data` into the allocation at `at`.
    pub fn write(&mut self, at: (usize, usize), data: &[u8])
        requires
            old(self).wf(),
            at.0 < old(self).block_sizes().len(),
            at.1 + data@.len() <= old(self).block_sizes()[at.0 as int],
        ensures
            final(self).wf(),
            final(self).block_sizes() == old(self).block_sizes(),
            final(self).usage() == old(self).usage(),
            final(self).remaining() == old(self).remaining(),
            final(self).used() == old(self).used(),
            final(self).block(at.0 as int) == old(self).block(at.0 as int).subrange(0, at.1 as int)
                + data@ + old(self).block(at.0 as int).subrange(
                at.1 + data@.len(),
                old(self).block(at.0 as int).len() as int,
            ),
            forall|i: int| 0 <= i < old(self).block_sizes().len() && i != at.0 ==> #[trigger] final(self).block(i) == old(self).block(i),
    {
        proof {
            self.lemma_sizes();
        }
        let mut blk: Vec<u8> = Vec::new();
        self.blocks.set_and_swap(at.0, &mut blk);
        let ghost b0 = blk@;
        let blen = blk.len();
        let mut i: usize = 0;
        while i < data.len()
            invariant
                blen == b0.len(),
                i <= data@.len(),
                blk@.len() == b0.len(),
                at.1 + data@.len() <= b0.len(),
                forall|j: int| 0 <= j < blk@.len() ==> #[trigger] blk@[j] == (if at.1 <= j < at.1 + i {
                    data@[j - at.1]
                } else {
                    b0[j]
                }),
            decreases data.len() - i,
        {
            blk.set(at.1 + i, data[i]);
            i = i + 1;
        }
        self.blocks.set_and_swap(at.0, &mut blk);
        proof {
            assert(self.block(at.0 as int) =~= b0.subrange(0, at.1 as int) + data@ + b0.subrange(
                at.1 + data@.len(),
                b0.len() as int,
            ));
            assert(self.block_sizes() =~= old(self).block_sizes());
        }
    }

    /// The `len` bytes of the allocation at `at`.
    pub fn read(&self, at: (usize, usize), len: usize) -> (r: &[u8])
        requires
            at.0 < self.block_sizes().len(),
            at.1 + len <= self.block_sizes()[at.0 as int],
        ensures
            r@ == self.block(at.0 as int).subrange(at.1 as int, at.1 + len),
    {
        proof {
            self.lemma_sizes();
        }
        let blk = self.blocks[at.0].as_slice();
        let _blen = blk.len();
        vstd::slice::slice_subrange(blk, at.1, at.1 + len)
    }

    proof fn lemma_sizes(&self)
        ensures
            self.block_sizes().len() == self.blocks@.len(),
            forall|i: int| 0 <= i < self.blocks@.len() ==> #[trigger] self.block_sizes()[i] == self.blocks@[i]@.len(),
    {
    }

    fn allocate_fallback(&mut self, bytes: usize) -> (r: (usize, usize))
        requires
            old(self).wf(),
            bytes > 0,
            old(self).usage() + bytes + ARENA_BLOCK_SIZE <= usize::MAX,
        ensures
            final(self).wf(),
            r.0 < final(self).block_sizes().len(),
            r.1 + bytes <= final(self).block_sizes()[r.0 as int],
            r.1 == 0,
            r.0 == old(self).used().len(),
            final(self).used() == old(self).used().push(bytes as nat),
            final(self).usage() == old(self).usage() + (if bytes > ARENA_BLOCK_SIZE / 4 {
                bytes as nat
            } else {
                ARENA_BLOCK_SIZE as nat
            }),
    {
        if bytes > ARENA_BLOCK_SIZE / 4 {
            // a large object gets a block of its own; the current block stays
            let b = self.allocate_new_block(bytes);
            self.used = Ghost(self.used@.update(b as int, bytes as nat));
            return (b, 0);
        }
        let b = self.allocate_new_block(ARENA_BLOCK_SIZE);
        self.used = Ghost(self.used@.update(b as int, bytes as nat));
        self.alloc_block = b;
        self.alloc_offset = bytes;
        self.alloc_bytes_remaining = ARENA_BLOCK_SIZE - bytes;
        proof {
            self.lemma_sizes();
        }
        (b, 0)
    }

    fn allocate_new_block(&mut self, block_bytes: usize) -> (r: usize)
        requires
            old(self).wf(),
            old(self).usage() + block_bytes <= usize::MAX,
        ensures
            final(self).wf(),
            r == old(self).blocks@.len(),
            final(self).blocks@ == old(self).blocks@.push(final(self).blocks@[r as int]),
            final(self).blocks@[r as int]@.len() == block_bytes,
            final(self).usage() == old(self).usage() + block_bytes,
            final(self).remaining() == old(self).remaining(),
            final(self).alloc_block == old(self).alloc_block,
            final(self).alloc_offset == old(self).alloc_offset,
            final(self).block_sizes() == old(self).block_sizes().push(block_bytes as nat),
            final(self).used() == old(self).used().push(0),
    {
        let r = self.blocks.len();
        self.blocks.push(vec![0u8; block_bytes]);
        self.memory_usage = self.memory_usage + block_bytes;
        self.used = Ghost(self.used@.push(0));
        proof {
            assert(self.block_sizes() =~= old(self).block_sizes().push(block_bytes as nat));
        }
        r
    }
}

} // verus!
