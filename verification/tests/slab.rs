use fsp_kernel::fsp_alloc::FspAlloc;
use fsp_kernel::fsp_slab::KmemCache;
use fsp_kernel::slab_layout::{
    get_power_of_two, is_power_of_two, is_valid_layout, size_class, PAGE_SIZE,
};
use fsp_kernel::slab_model::{C_FULL, H_NEXT, H_PREV};

const PTR: usize = 8;

fn slab_over(base: usize, len: usize) -> KmemCache {
    let mut heap = FspAlloc::new();
    heap.init(base, len);
    let mut slab = KmemCache::new();
    assert!(slab.main_init(heap));
    slab
}

fn pages(s: &KmemCache) -> usize {
    s.heap_ref().walk().iter().filter(|b| b.allocated).count()
}

fn cache_of(s: &KmemCache, class: usize) -> Option<usize> {
    s.caches().into_iter().find(|c| s.cache_info(*c).0 == class)
}

fn check_cache(s: &KmemCache, c: usize) {
    let (osz, cap, total, active, free) = s.cache_info(c);
    let mut in_use = 0;
    let mut free_sum = 0;
    let mut slabs = 0;
    for id in 0..3 {
        for p in s.slabs_of(c, id) {
            let (cache, size, capacity, used, unused) = s.slab_info(p);
            assert_eq!(cache, c);
            assert_eq!(size, osz);
            assert_eq!(capacity, cap);
            assert_eq!(used + unused, capacity);
            // The list matches the counts.
            match id {
                0 => assert_eq!(unused, 0),
                1 => assert!(used > 0 && unused > 0),
                _ => assert_eq!(used, 0),
            }
            in_use += used;
            free_sum += unused;
            slabs += 1;
        }
    }
    assert_eq!(in_use + free_sum, total);
    assert_eq!(in_use, active);
    assert_eq!(free_sum, free);
    assert_eq!(total, slabs * cap);
    assert!(s.slabs_of(c, 2).len() <= 1);
}

fn check_all(s: &KmemCache) {
    check_cache(s, s.master());
    for c in s.caches() {
        check_cache(s, c);
    }
}

#[test]
fn powers_of_two() {
    assert_eq!(get_power_of_two(0), 1);
    assert_eq!(get_power_of_two(1), 1);
    assert_eq!(get_power_of_two(2), 2);
    assert_eq!(get_power_of_two(3), 4);
    assert_eq!(get_power_of_two(9), 16);
    assert_eq!(get_power_of_two(4096), 4096);
    assert_eq!(get_power_of_two(4097), 8192);
    assert_eq!(get_power_of_two(usize::MAX / 2 + 1), usize::MAX / 2 + 1);
    assert_eq!(get_power_of_two(usize::MAX / 2 + 2), 0);
    assert_eq!(get_power_of_two(usize::MAX), 0);
}

#[test]
fn size_classes() {
    assert_eq!(size_class(0), 16);
    assert_eq!(size_class(1), 16);
    assert_eq!(size_class(8), 16);
    assert_eq!(size_class(9), 32);
    assert_eq!(size_class(24), 32);
    assert_eq!(size_class(25), 64);
    assert_eq!(size_class(104), 128);
    assert_eq!(size_class(2040), 2048);
    assert_eq!(size_class(2041), 0);
    assert_eq!(size_class(usize::MAX), 0);
}

#[test]
fn setup_puts_the_master_cache_in_its_first_slab() {
    let s = slab_over(0x1000, 1 << 20);
    assert_eq!(pages(&s), 1);
    assert_eq!(s.caches(), vec![]);
    let m = s.master();
    let (osz, cap, total, active, free) = s.cache_info(m);
    assert_eq!((osz, cap, total, active, free), (128, 31, 31, 1, 30));
    let partial = s.slabs_of(m, 1);
    assert_eq!(partial.len(), 1);
    assert_eq!(s.slabs_of(m, 0), vec![]);
    assert_eq!(s.slabs_of(m, 2), vec![]);
    // The record lies behind the back pointer of the first object.
    assert_eq!(m, partial[0] + 128 + PTR);
    assert_eq!(s.slab_info(partial[0]), (m, 128, 31, 1, 30));
    check_all(&s);
}

#[test]
fn setup_fails_without_a_page() {
    let mut heap = FspAlloc::new();
    heap.init(0x1000, 0x1000);
    let mut slab = KmemCache::new();
    assert!(!slab.main_init(heap));
}

#[test]
fn a_hundred_small_objects_stay_on_one_slab() {
    let mut s = slab_over(0x1000, 1 << 20);
    let mut ptrs = Vec::new();
    for _ in 0..100 {
        let p = s.kmem_alloc(1, 2);
        assert_ne!(p, 0);
        ptrs.push(p);
    }
    // The first request made the cache of the smallest class.
    let caches = s.caches();
    assert_eq!(caches.len(), 1);
    let c = caches[0];
    let (osz, cap, total, active, free) = s.cache_info(c);
    assert_eq!(osz, 2 * PTR);
    assert_eq!(cap, 251);
    assert_eq!((total, active, free), (251, 100, 151));
    assert_eq!(s.slabs_of(c, 0), vec![]);
    assert_eq!(s.slabs_of(c, 2), vec![]);
    let partial = s.slabs_of(c, 1);
    assert_eq!(partial.len(), 1);
    // Objects come in address order, 16 bytes apart, behind the header.
    assert_eq!(ptrs[0], partial[0] + 80 + PTR);
    for i in 1..100 {
        assert_eq!(ptrs[i], ptrs[i - 1] + 16);
    }
    // Master page and one slab.
    assert_eq!(pages(&s), 2);
    check_all(&s);
    // Up to the capacity the slab serves; then a second slab is grown.
    for _ in 100..251 {
        assert_ne!(s.kmem_alloc(1, 2), 0);
    }
    assert_eq!(s.slabs_of(c, 0), partial);
    assert_eq!(s.slabs_of(c, 1), vec![]);
    assert_eq!(pages(&s), 2);
    let extra = s.kmem_alloc(1, 2);
    assert_ne!(extra, 0);
    assert_eq!(pages(&s), 3);
    assert_eq!(s.slabs_of(c, 0), partial);
    let second = s.slabs_of(c, 1);
    assert_eq!(second.len(), 1);
    assert_eq!(extra, second[0] + 80 + PTR);
    assert_eq!(s.cache_info(c), (16, 251, 502, 252, 250));
    check_all(&s);
}

#[test]
fn freeing_in_reverse_gives_the_pages_back() {
    let mut s = slab_over(0x1000, 1 << 20);
    let n = 1000;
    let mut ptrs = Vec::new();
    for _ in 0..n {
        let p = s.kmem_alloc(8, 2);
        assert_ne!(p, 0);
        ptrs.push(p);
    }
    let c = cache_of(&s, 16).unwrap();
    assert_eq!(s.slabs_of(c, 0).len(), 3);
    assert_eq!(s.slabs_of(c, 1).len(), 1);
    assert_eq!(pages(&s), 5);
    check_all(&s);
    while let Some(p) = ptrs.pop() {
        s.kmem_dealloc(p);
        check_cache(&s, c);
    }
    assert_eq!(s.slabs_of(c, 0), vec![]);
    assert_eq!(s.slabs_of(c, 1), vec![]);
    assert_eq!(s.slabs_of(c, 2).len(), 1);
    assert_eq!(s.cache_info(c), (16, 251, 251, 0, 251));
    // The master page and the one free slab are left.
    assert_eq!(pages(&s), 2);
    check_all(&s);
}

#[test]
fn the_back_pointer_names_the_slab() {
    let mut s = slab_over(0x1000, 1 << 20);
    let sizes = [1usize, 8, 9, 24, 25, 100, 120, 121, 500, 1000, 2040];
    let mut ptrs = Vec::new();
    for _ in 0..40 {
        for size in sizes.iter() {
            let p = s.kmem_alloc(*size, 4);
            assert_ne!(p, 0);
            assert_eq!(p % 4, 0);
            ptrs.push((p, *size));
        }
    }
    for (p, size) in ptrs.iter() {
        let slab = s.slab_of(*p);
        assert_eq!(slab, s.heap_ref().mem_word(*p - PTR));
        assert!(slab < *p && *p + *size <= slab + PAGE_SIZE);
        let (cache, osz, _, _, _) = s.slab_info(slab);
        assert_eq!(osz, size_class(*size));
        assert_eq!(s.cache_info(cache).0, osz);
        // The slab is a page of the heap.
        assert!(s.heap_ref().walk().iter().any(|b| b.allocated && b.addr + 24 == slab));
    }
    check_all(&s);
}

#[test]
fn caches_are_chained_latest_first() {
    let mut s = slab_over(0x1000, 1 << 20);
    assert_ne!(s.kmem_alloc(100, 1), 0);
    assert_ne!(s.kmem_alloc(10, 1), 0);
    assert_ne!(s.kmem_alloc(1000, 1), 0);
    assert_ne!(s.kmem_alloc(12, 1), 0);
    let classes: Vec<usize> = s.caches().iter().map(|c| s.cache_info(*c).0).collect();
    assert_eq!(classes, vec![1024, 32, 128]);
    // The records are objects of the master cache.
    let m = s.master();
    assert_eq!(s.cache_info(m), (128, 31, 31, 4, 27));
    let page = s.slabs_of(m, 1)[0];
    for (i, c) in s.caches().iter().rev().enumerate() {
        assert_eq!(*c, page + 128 + (i + 1) * 128 + PTR);
    }
    // A cache of the class of the master cache is a cache of its own.
    assert_ne!(cache_of(&s, 128).unwrap(), m);
    check_all(&s);
}

#[test]
fn requests_that_are_not_served_change_nothing() {
    let mut s = slab_over(0x1000, 1 << 20);
    assert_eq!(s.kmem_alloc(2041, 4), 0);
    assert_eq!(s.kmem_alloc(usize::MAX, 1), 0);
    assert_eq!(s.kmem_alloc(16, 0), 0);
    assert_eq!(s.kmem_alloc(16, 3), 0);
    assert_eq!(s.kmem_alloc(16, 24), 0);
    assert_eq!(s.kmem_alloc(8, 1 << 63), 0);
    assert_eq!(s.caches(), vec![]);
    assert_eq!(pages(&s), 1);
    check_all(&s);
}

#[test]
fn a_slab_of_one_object_goes_from_free_to_full_and_back() {
    let mut s = slab_over(0x1000, 1 << 20);
    let a = s.kmem_alloc(2040, 4);
    assert_ne!(a, 0);
    let c = cache_of(&s, 2048).unwrap();
    assert_eq!(s.cache_info(c), (2048, 1, 1, 1, 0));
    let full = s.slabs_of(c, 0);
    assert_eq!(full.len(), 1);
    assert_eq!(a, full[0] + 2048 + PTR);
    let b = s.kmem_alloc(2040, 4);
    assert_eq!(s.slabs_of(c, 0).len(), 2);
    assert_eq!(s.slabs_of(c, 0)[1], full[0]);
    s.kmem_dealloc(a);
    assert_eq!(s.slabs_of(c, 2), full);
    s.kmem_dealloc(b);
    // The older free slab went back to the heap.
    assert_eq!(s.slabs_of(c, 2).len(), 1);
    assert_ne!(s.slabs_of(c, 2), full);
    assert_eq!(s.cache_info(c), (2048, 1, 1, 0, 1));
    check_all(&s);
}

#[test]
fn a_freed_object_is_handed_out_next() {
    let mut s = slab_over(0x1000, 1 << 20);
    let a = s.kmem_alloc(50, 2);
    let b = s.kmem_alloc(50, 2);
    let c = s.kmem_alloc(50, 2);
    assert_eq!(b, a + 64);
    assert_eq!(c, b + 64);
    s.kmem_dealloc(b);
    assert_eq!(s.kmem_alloc(56, 2), b);
    s.kmem_dealloc(a);
    s.kmem_dealloc(c);
    assert_eq!(s.kmem_alloc(33, 2), c);
    assert_eq!(s.kmem_alloc(33, 2), a);
    check_all(&s);
}

#[test]
fn exhaustion_returns_null() {
    // Room for the master page and two more pages.
    let mut s = slab_over(0x1000, 3 * (PAGE_SIZE + 24) + 24 + 64);
    let mut got = 0;
    loop {
        let p = s.kmem_alloc(1000, 4);
        if p == 0 {
            break;
        }
        got += 1;
        assert!(got < 100);
    }
    // Two slabs of three objects each.
    assert_eq!(got, 6);
    assert_eq!(s.kmem_alloc(1000, 4), 0);
    // A class without a cache cannot get its first slab.
    assert_eq!(s.kmem_alloc(1, 1), 0);
    assert_eq!(s.caches().len(), 2);
    check_all(&s);
}

#[test]
fn allocate_use_and_free_in_rounds() {
    let mut s = slab_over(0x1000, 1 << 20);
    let mut held: Vec<usize> = Vec::new();
    for round in 1..100usize {
        for i in 1..100usize {
            let ptr = s.kmem_alloc(1, 2);
            assert_ne!(ptr, 0);
            s.write_word(ptr, i + round * 100);
            held.push(ptr);
        }
        for i in (1..100usize).rev() {
            let ptr = held.pop().unwrap();
            assert_eq!(s.read_word(ptr), i + round * 100);
            s.kmem_dealloc(ptr);
        }
    }
    let c = cache_of(&s, 16).unwrap();
    assert_eq!(s.cache_info(c), (16, 251, 251, 0, 251));
    assert_eq!(pages(&s), 2);
    check_all(&s);
}

#[test]
fn mixed_requests_keep_the_counts() {
    let mut s = slab_over(0x1000, 1 << 20);
    let mut live: Vec<usize> = Vec::new();
    let mut seed: u64 = 99;
    for step in 0..3000 {
        seed = seed.wrapping_mul(6364136223846793005).wrapping_add(1442695040888963407);
        let r = (seed >> 33) as usize;
        if r % 5 < 3 || live.is_empty() {
            let p = s.kmem_alloc(r % 300, 1);
            assert_ne!(p, 0);
            assert!(!live.contains(&p));
            live.push(p);
        } else {
            let p = live.swap_remove(r % live.len());
            s.kmem_dealloc(p);
        }
        if step % 100 == 0 {
            check_all(&s);
        }
    }
    while let Some(p) = live.pop() {
        s.kmem_dealloc(p);
    }
    check_all(&s);
    for c in s.caches() {
        assert_eq!(s.cache_info(c).3, 0);
        assert_eq!(s.slabs_of(c, 0), vec![]);
        assert_eq!(s.slabs_of(c, 1), vec![]);
    }
}

#[test]
fn the_heap_below_serves_requests_past_the_caches() {
    let mut s = slab_over(0x1000, 1 << 20);
    let a = s.kmem_alloc(40, 4);
    let big = s.heap_allocate(10000, 4);
    assert_ne!(big, 0);
    assert_eq!(pages(&s), 3);
    let b = s.kmem_alloc(40, 4);
    assert_eq!(b, a + 64);
    s.heap_dealloc(big);
    assert_eq!(pages(&s), 2);
    assert_eq!(s.heap_allocate(1 << 21, 4), 0);
    s.kmem_dealloc(a);
    s.kmem_dealloc(b);
    check_all(&s);
}

#[test]
fn powers_of_two_are_told_apart() {
    for k in 0..usize::BITS {
        assert!(is_power_of_two(1 << k));
    }
    for n in [0, 3, 5, 6, 7, 9, 12, 24, 4095, 4097, usize::MAX, (1 << 63) + 1] {
        assert!(!is_power_of_two(n));
    }
}

#[test]
fn layouts_are_told_apart() {
    let top = usize::MAX / 2;
    assert!(is_valid_layout(0, 1));
    assert!(is_valid_layout(1, 2));
    assert!(is_valid_layout(2040, 4096));
    assert!(is_valid_layout(top, 1));
    assert!(is_valid_layout(top - 7, 8));
    assert!(is_valid_layout(0, 1 << 63));
    assert!(is_valid_layout(1, 1 << 62));
    assert!(!is_valid_layout(8, 0));
    assert!(!is_valid_layout(8, 3));
    assert!(!is_valid_layout(8, 24));
    assert!(!is_valid_layout(top + 1, 1));
    assert!(!is_valid_layout(top - 6, 8));
    assert!(!is_valid_layout(1, 1 << 63));
    assert!(!is_valid_layout(usize::MAX, usize::MAX));
}

#[test]
fn every_power_of_two_alignment_is_served() {
    let mut s = slab_over(0x1000, 1 << 20);
    let mut align = 1;
    let mut ptrs = Vec::new();
    while align <= 4096 {
        let p = s.kmem_alloc(8, align);
        assert_ne!(p, 0);
        assert_eq!(p % 4, 0);
        ptrs.push(p);
        align *= 2;
    }
    // The alignment picks no cache: all of them are objects of one slab,
    // one behind the other.
    assert_eq!(s.caches().len(), 1);
    for i in 1..ptrs.len() {
        assert_eq!(ptrs[i], ptrs[i - 1] + 16);
    }
    let a = s.kmem_alloc(64, 16);
    assert_ne!(a, 0);
    assert_eq!(a % 4, 0);
    assert_eq!(s.slab_info(s.slab_of(a)).1, 128);
    let b = s.kmem_alloc(8, 1 << 62);
    assert_eq!(b, ptrs[ptrs.len() - 1] + 16);
    // A request of no byte is served at the highest alignment too.
    let z = s.kmem_alloc(0, 1 << 63);
    assert_eq!(z, b + 16);
    check_all(&s);
}

#[test]
fn eight_byte_objects_at_alignment_eight_come_and_go() {
    let mut s = slab_over(0x1000, 1 << 20);
    let mut ptrs = Vec::new();
    for _ in 0..300 {
        let p = s.kmem_alloc(8, 8);
        assert_ne!(p, 0);
        assert_eq!(p % 4, 0);
        ptrs.push(p);
    }
    let c = cache_of(&s, 16).unwrap();
    assert_eq!(s.cache_info(c), (16, 251, 502, 300, 202));
    assert_eq!(s.slabs_of(c, 0).len(), 1);
    assert_eq!(s.slabs_of(c, 1).len(), 1);
    assert_eq!(pages(&s), 3);
    while let Some(p) = ptrs.pop() {
        s.kmem_dealloc(p);
        check_cache(&s, c);
    }
    assert_eq!(s.slabs_of(c, 0), vec![]);
    assert_eq!(s.slabs_of(c, 1), vec![]);
    let free = s.slabs_of(c, 2);
    assert_eq!(free.len(), 1);
    assert_eq!(s.slab_info(free[0]), (c, 16, 251, 0, 251));
    assert_eq!(s.cache_info(c), (16, 251, 251, 0, 251));
    assert_eq!(pages(&s), 2);
    check_all(&s);
}

#[test]
fn what_users_wrote_stays_while_others_come_and_go() {
    let mut s = slab_over(0x1000, 1 << 20);
    let a = s.kmem_alloc(24, 8);
    let b = s.kmem_alloc(24, 8);
    let big = s.kmem_alloc(2040, 8);
    assert!(a != 0 && b != 0 && big != 0);
    for i in 0..3 {
        s.write_word(a + 8 * i, 0xa5a5_0000 + i);
        s.write_word(b + 8 * i, 0x5a5a_0000 + i);
    }
    for i in 0..255 {
        s.write_word(big + 8 * i, !i);
    }
    let held = |s: &KmemCache| {
        for i in 0..3 {
            assert_eq!(s.read_word(a + 8 * i), 0xa5a5_0000 + i);
        }
        for i in 0..255 {
            assert_eq!(s.read_word(big + 8 * i), !i);
        }
    };
    // Giving the neighbour back writes into the neighbour only.
    s.kmem_dealloc(b);
    held(&s);
    // New objects, new slabs and new caches.
    let mut more = Vec::new();
    for _ in 0..200 {
        more.push(s.kmem_alloc(24, 8));
    }
    more.push(s.kmem_alloc(500, 16));
    more.push(s.kmem_alloc(2040, 4));
    held(&s);
    // Pages from the heap below, past the caches.
    let page = s.heap_allocate(3 * PAGE_SIZE, 4);
    assert_ne!(page, 0);
    held(&s);
    s.heap_dealloc(page);
    held(&s);
    // Slabs that empty go back to the heap.
    while let Some(p) = more.pop() {
        assert_ne!(p, 0);
        s.kmem_dealloc(p);
    }
    held(&s);
    check_all(&s);
}

#[test]
fn slabs_of_a_list_name_their_neighbours() {
    let mut s = slab_over(0x1000, 1 << 20);
    let word = |s: &KmemCache, a: usize| s.heap_ref().mem_word(a);
    let a = s.kmem_alloc(2040, 4);
    let p = s.slab_of(a);
    // A slab alone in its list has no neighbour.
    assert_eq!(word(&s, p + 8 * H_NEXT), 0);
    assert_eq!(word(&s, p + 8 * H_PREV), 0);
    let b = s.kmem_alloc(2040, 4);
    let q = s.slab_of(b);
    let c = cache_of(&s, 2048).unwrap();
    assert_eq!(s.slabs_of(c, 0), vec![q, p]);
    assert_eq!(word(&s, c + 8 * C_FULL), q);
    assert_eq!(word(&s, q + 8 * H_NEXT), p);
    assert_eq!(word(&s, q + 8 * H_PREV), 0);
    assert_eq!(word(&s, p + 8 * H_NEXT), 0);
    assert_eq!(word(&s, p + 8 * H_PREV), q);
    check_all(&s);
}
