use leveldb::memtable::arena::{Arena, ARENA_BLOCK_SIZE};
use leveldb::util::random::Random;

#[test]
fn test_arena_empty() {
    let _arena = Arena::new();
}

#[test]
fn arena_accounting() {
    let mut arena = Arena::new();
    assert_eq!(arena.memory_usage(), 0);
    let (b0, o0) = arena.allocate(10);
    assert_eq!((b0, o0), (0, 0));
    assert_eq!(arena.memory_usage(), ARENA_BLOCK_SIZE);
    let (b1, o1) = arena.allocate(20);
    assert_eq!((b1, o1), (0, 10));
    let (b2, o2) = arena.allocate_aligned(8);
    assert_eq!((b2, o2), (0, 32));
    let (b3, o3) = arena.allocate(5000);
    assert_eq!((b3, o3), (1, 0));
    assert_eq!(arena.memory_usage(), ARENA_BLOCK_SIZE + 5000);
    assert_eq!(arena.allocate(5), (0, 40));
}

#[test]
fn test_arena_simple() {
    let mut allocated: Vec<(usize, (usize, usize))> = Vec::new();
    let mut arena = Arena::new();
    const N: usize = 100000;
    let mut bytes = 0usize;
    let mut rnd = Random::new(301);
    for i in 0..N {
        let mut s = if i % (N / 10) == 0 {
            i
        } else if rnd.one_in(4000) {
            rnd.uniform(6000) as usize
        } else if rnd.one_in(10) {
            rnd.uniform(100) as usize
        } else {
            rnd.uniform(20) as usize
        };
        if s == 0 {
            // the arena refuses zero-length allocations
            s = 1;
        }
        let r = if rnd.one_in(10) { arena.allocate_aligned(s) } else { arena.allocate(s) };
        // fill the i-th allocation with a known bit pattern
        arena.write(r, &vec![i as u8; s]);
        bytes += s;
        allocated.push((s, r));
        assert!(arena.memory_usage() >= bytes);
        if i > N / 10 {
            assert!(arena.memory_usage() <= (bytes as f64 * 1.10) as usize);
        }
    }
    for i in 0..allocated.len() {
        let (num_bytes, at) = allocated[i];
        let data = arena.read(at, num_bytes);
        for b in 0..num_bytes {
            assert_eq!(data[b], i as u8);
        }
    }
}
