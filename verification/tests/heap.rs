use fsp_kernel::fsp_alloc::{BFHead, BHead, BlockInfo, FspAlloc};
use fsp_kernel::heap_model::{BFHEAD_SIZE, BHEAD_SIZE, ESENT, QLINKS_SIZE, SIZE_QUANT};
use fsp_kernel::region::Region;

const BHEAD: usize = 24;

fn pool(base: usize, len: usize) -> FspAlloc {
    let mut h = FspAlloc::new();
    h.init(base, len);
    h
}

fn allocated(h: &FspAlloc) -> Vec<BlockInfo> {
    h.walk().into_iter().filter(|b| b.allocated).collect()
}

#[test]
fn header_sizes() {
    assert_eq!(SIZE_QUANT, 4);
    assert_eq!(BHEAD_SIZE, 24);
    assert_eq!(QLINKS_SIZE, 16);
    assert_eq!(BFHEAD_SIZE, BHEAD_SIZE + QLINKS_SIZE);
    assert_eq!(ESENT, usize::MAX);
}

#[test]
fn init_installs_one_free_block() {
    let h = pool(0x1000, 0x1000);
    let blocks = h.walk();
    assert_eq!(blocks.len(), 1);
    assert_eq!(blocks[0].addr, 0x1000);
    assert_eq!(blocks[0].size, 0x1000 - BHEAD);
    assert!(!blocks[0].allocated);
    assert_eq!(blocks[0].prev_free, 0);
    assert_eq!(h.free_blocks(), vec![(0x1000, 0x1000 - BHEAD)]);
}

#[test]
fn init_rounds_the_size_down() {
    let h = pool(0x2000, 0x1003);
    assert_eq!(h.free_blocks(), vec![(0x2000, 0x1000 - BHEAD)]);
}

#[test]
fn two_allocations_then_two_frees_coalesce() {
    let mut h = pool(0x1000, 0x1000);
    let initial = h.free_blocks();
    let a = h.allocate(16, 4);
    let b = h.allocate(16, 4);
    assert_ne!(a, 0);
    assert_ne!(b, 0);
    // The tail of the free block is carved first.
    assert_eq!(a, 0x1000 + 0x1000 - BHEAD - 40 + BHEAD);
    assert_eq!(b, a - 40);
    h.dealloc(a);
    h.dealloc(b);
    assert_eq!(h.free_blocks(), initial);
    assert_eq!(h.walk().len(), 1);
}

#[test]
fn freeing_the_middle_block_keeps_it_isolated() {
    let mut h = pool(0x1000, 0x1000);
    let first = h.allocate(64, 4);
    let middle = h.allocate(128, 4);
    let third = h.allocate(64, 4);
    assert!(first != 0 && middle != 0 && third != 0);
    h.dealloc(middle);
    let free = h.free_blocks();
    let of_size: Vec<&(usize, usize)> = free.iter().filter(|f| f.1 == 128 + BHEAD).collect();
    assert_eq!(of_size.len(), 1);
    assert_eq!(of_size[0].0, middle - BHEAD);
    assert_eq!(free.len(), 2);
    // The block behind the freed one records its size as back link.
    let blocks = h.walk();
    let behind = blocks.iter().find(|b| b.addr == middle - BHEAD + 128 + BHEAD).unwrap();
    assert_eq!(behind.addr, first - BHEAD);
    assert_eq!(behind.prev_free, 128 + BHEAD);
    assert!(behind.allocated);
}

#[test]
fn need_is_rounded_and_has_room_for_the_links() {
    let mut h = pool(0x1000, 0x1000);
    // One byte still takes the links and the header: 16 + 24.
    let a = h.allocate(1, 1);
    assert_eq!(allocated(&h)[0].size, 40);
    // 17 bytes round up to 20, plus the header.
    let b = h.allocate(17, 1);
    assert_eq!(b, a - 44);
    assert_eq!(h.walk()[1].size, 44);
}

#[test]
fn a_block_that_would_leave_too_little_is_taken_whole() {
    // One free block of 104 bytes.
    let mut h = pool(0x1000, 128);
    assert_eq!(h.free_blocks(), vec![(0x1000, 104)]);
    // need = 64; 104 - 64 = 40 is not more than 40: no split.
    let a = h.allocate(40, 4);
    assert_eq!(a, 0x1000 + BHEAD);
    assert_eq!(h.free_blocks(), vec![]);
    let blocks = h.walk();
    assert_eq!(blocks.len(), 1);
    assert!(blocks[0].allocated);
    assert_eq!(blocks[0].size, 104);
    // Nothing is left.
    assert_eq!(h.allocate(1, 1), 0);
    h.dealloc(a);
    assert_eq!(h.free_blocks(), vec![(0x1000, 104)]);
}

#[test]
fn a_block_with_more_than_a_free_header_left_is_split() {
    // One free block of 108 bytes.
    let mut h = pool(0x1000, 132);
    // need = 64; 108 - 64 = 44 is more than 40: split.
    let a = h.allocate(40, 4);
    assert_eq!(a, 0x1000 + 44 + BHEAD);
    assert_eq!(h.free_blocks(), vec![(0x1000, 44)]);
    let blocks = h.walk();
    assert_eq!(blocks.len(), 2);
    assert_eq!(blocks[1].prev_free, 44);
}

#[test]
fn exhaustion_returns_null_and_changes_nothing() {
    let mut h = pool(0x1000, 0x1000);
    let a = h.allocate(1000, 4);
    assert_ne!(a, 0);
    let before_blocks = h.walk();
    let before_free = h.free_blocks();
    assert_eq!(h.allocate(0x1000, 4), 0);
    assert_eq!(h.allocate(usize::MAX, 4), 0);
    assert_eq!(h.allocate(usize::MAX - 27, 4), 0);
    assert_eq!(h.walk(), before_blocks);
    assert_eq!(h.free_blocks(), before_free);
}

#[test]
fn alignment_is_honoured_or_the_request_fails() {
    let mut h = pool(0x1000, 0x1000);
    assert_eq!(h.allocate(16, 0), 0);
    let a = h.allocate(16, 8);
    assert_ne!(a, 0);
    assert_eq!(a % 8, 0);
    // The next tail address is 4 mod 8 for a request of 20 bytes.
    let b = h.allocate(20, 4);
    assert_eq!(b % 4, 0);
    let c = h.allocate(16, 8);
    assert!(c == 0 || c % 8 == 0);
    let d = h.allocate(16, 3);
    assert!(d == 0 || d % 3 == 0);
}

#[test]
fn first_fit_follows_the_free_list_order() {
    let mut h = pool(0x1000, 0x1000);
    let a = h.allocate(100, 4);
    let b = h.allocate(200, 4);
    let c = h.allocate(100, 4);
    let d = h.allocate(300, 4);
    let e = h.allocate(100, 4);
    assert!(a != 0 && b != 0 && c != 0 && d != 0 && e != 0);
    // Free the two larger holes: the list is head block, b, d.
    h.dealloc(b);
    h.dealloc(d);
    let free = h.free_blocks();
    assert_eq!(free.len(), 3);
    assert_eq!(free[1], (b - BHEAD, 200 + BHEAD));
    assert_eq!(free[2], (d - BHEAD, 300 + BHEAD));
    // The head block is too small for 3000 bytes but fits 150: first fit
    // takes the first block of the list that is large enough.
    let head = free[0];
    let x = h.allocate(150, 4);
    assert_eq!(x, head.0 + head.1 - (152 + BHEAD) + BHEAD);
}

#[test]
fn left_and_right_neighbours_merge() {
    let mut h = pool(0x1000, 0x1000);
    let a = h.allocate(64, 4);
    let b = h.allocate(64, 4);
    let c = h.allocate(64, 4);
    let d = h.allocate(64, 4);
    assert!(a != 0 && b != 0 && c != 0 && d != 0);
    // Layout in address order: head, d, c, b, a.
    h.dealloc(c);
    h.dealloc(a);
    // b has a free block on both sides.
    h.dealloc(b);
    let blocks = h.walk();
    assert_eq!(blocks.len(), 3);
    assert!(!blocks[0].allocated);
    assert!(blocks[1].allocated);
    assert_eq!(blocks[1].addr, d - BHEAD);
    assert!(!blocks[2].allocated);
    assert_eq!(blocks[2].addr, c - BHEAD);
    assert_eq!(blocks[2].size, 3 * (64 + BHEAD));
    // The merged block keeps the place of its left part in the list.
    assert_eq!(h.free_blocks(), vec![(0x1000, blocks[0].size), (c - BHEAD, 3 * (64 + BHEAD))]);
}

#[test]
fn round_trip_restores_the_initial_pool() {
    let mut h = pool(0x4000, 0x10000);
    let initial_blocks = h.walk();
    let initial_free = h.free_blocks();
    let sizes = [1usize, 16, 17, 64, 100, 4096, 33, 7, 2048, 512, 3, 900];
    let mut addrs = Vec::new();
    for s in sizes.iter() {
        let a = h.allocate(*s, 4);
        assert_ne!(a, 0);
        addrs.push(a);
    }
    while let Some(a) = addrs.pop() {
        h.dealloc(a);
    }
    assert_eq!(h.walk(), initial_blocks);
    assert_eq!(h.free_blocks(), initial_free);
}

fn check_invariants(h: &FspAlloc, base: usize, len: usize) {
    let blocks = h.walk();
    // Walkable: each block ends where the next one starts.
    let mut addr = base;
    let mut prev_is_free = false;
    let mut prev_size = 0;
    for b in blocks.iter() {
        assert_eq!(b.addr, addr);
        assert_eq!(b.addr % 4, 0);
        assert!(b.size >= 40);
        assert_eq!(b.prev_free, if prev_is_free { prev_size } else { 0 });
        // Coalesced: no two free neighbours.
        assert!(b.allocated || !prev_is_free);
        prev_is_free = !b.allocated;
        prev_size = b.size;
        addr += b.size;
    }
    assert_eq!(addr, base + len - BHEAD);
    // The free list holds the free blocks.
    let mut free: Vec<(usize, usize)> =
        blocks.iter().filter(|b| !b.allocated).map(|b| (b.addr, b.size)).collect();
    let mut listed = h.free_blocks();
    free.sort();
    listed.sort();
    assert_eq!(free, listed);
}

#[test]
fn mixed_sequences_keep_the_pool_walkable_and_coalesced() {
    let base = 0x10000;
    let len = 0x8000;
    let mut h = pool(base, len);
    let mut live: Vec<(usize, usize)> = Vec::new();
    let mut seed: u64 = 0x1234_5678;
    for _ in 0..400 {
        seed = seed.wrapping_mul(6364136223846793005).wrapping_add(1442695040888963407);
        let r = (seed >> 33) as usize;
        if r % 3 != 0 || live.is_empty() {
            let size = r % 700;
            let a = h.allocate(size, 4);
            if a != 0 {
                // No overlap with what is live, and inside the pool.
                for (b, s) in live.iter() {
                    assert!(a + size <= *b || *b + *s <= a);
                }
                assert!(base + BHEAD <= a && a + size <= base + len - BHEAD);
                live.push((a, size));
            }
        } else {
            let (a, _) = live.swap_remove(r % live.len());
            h.dealloc(a);
        }
        check_invariants(&h, base, len);
    }
    while let Some((a, _)) = live.pop() {
        h.dealloc(a);
    }
    assert_eq!(h.walk().len(), 1);
    assert_eq!(h.free_blocks(), vec![(base, len - BHEAD)]);
}

#[test]
fn user_words_are_kept() {
    let mut h = pool(0x1000, 0x1000);
    let a = h.allocate(32, 4);
    let b = h.allocate(32, 4);
    h.write_word(a, 0x1122_3344_5566_7788);
    h.write_word(a + 24, usize::MAX);
    h.write_word(b + 4, 7);
    assert_eq!(h.read_word(a), 0x1122_3344_5566_7788);
    assert_eq!(h.read_word(a + 24), usize::MAX);
    assert_eq!(h.read_word(b + 4), 7);
    let c = h.allocate(64, 4);
    h.dealloc(b);
    assert_eq!(h.read_word(a), 0x1122_3344_5566_7788);
    assert_eq!(h.read_word(a + 24), usize::MAX);
    h.dealloc(c);
    check_invariants(&h, 0x1000, 0x1000);
}

#[test]
fn region_words_are_little_endian_bytes() {
    let mut m = Region::new(0x100, 32);
    assert_eq!(m.start(), 0x100);
    assert_eq!(m.size(), 32);
    m.write_word(0x103, 0x0807_0605_0403_0201);
    for k in 0..8 {
        assert_eq!(m.read_byte(0x103 + k), (k + 1) as u8);
    }
    assert_eq!(m.read_byte(0x102), 0);
    assert_eq!(m.read_byte(0x10b), 0);
    assert_eq!(m.read_word(0x103), 0x0807_0605_0403_0201);
    m.write_byte(0x103, 0xff);
    assert_eq!(m.read_word(0x103), 0x0807_0605_0403_02ff);
}

#[test]
fn headers_are_read_and_written_in_place() {
    let mut m = Region::new(0x1000, 128);
    let h = BHead::from_addr(0x1010);
    assert_eq!(h.addr(), 0x1010);
    h.init(&mut m, 40, 64, true);
    assert_eq!(h.prevfree(&m), 40);
    assert_eq!(h.bsize(&m), 64);
    assert!(h.is_allocated(&m));
    h.set_allocated(&mut m, false);
    h.set_bsize(&mut m, 68);
    h.set_prevfree(&mut m, 0);
    assert_eq!((h.prevfree(&m), h.bsize(&m), h.is_allocated(&m)), (0, 68, false));
    let f = BFHead::from_addr(0x1010);
    f.init(&mut m, 4, 44, &BFHead::from_addr(0x2000), &BFHead::from_addr(0x3000));
    assert_eq!(f.prevfree(&m), 4);
    assert_eq!(f.bsize(&m), 44);
    assert!(!f.is_allocated(&m));
    assert_eq!(f.flink(&m), 0x2000);
    assert_eq!(f.blink(&m), 0x3000);
    assert!(f.eq(&BFHead::from_addr(0x1010)));
    assert!(!f.eq(&BFHead::from_addr(0x1014)));
    // The links lie behind the block header.
    assert_eq!(m.read_word(0x1010 + 24), 0x2000);
    assert_eq!(m.read_word(0x1010 + 32), 0x3000);
}

#[test]
fn quantum_sizes() {
    let h = FspAlloc::new();
    assert_eq!(h.ql_size(), 16);
    assert_eq!(h.size_q(), 16);
}
