use kernel_core::heap::backend::Heap;
use kernel_core::heap::layout::{
    ALLOC_MAGIC, CANARY_SIZE, COALESCE_THRESHOLD, FAST_CACHE_SIZE, FREE_MAGIC, HEADER_SIZE,
    HEAP_ALIGN, MAX_ALLOC, PAGE_SIZE, POISON,
};

fn write_pattern(heap: &mut Heap, ptr: usize, len: usize, byte: u8) {
    for i in 0..len {
        assert!(heap.store(ptr + i, byte));
    }
}

#[test]
fn freed_block_is_reused_from_the_fast_cache_and_poisoned() {
    let mut heap = Heap::new(16, 0x5A);
    let p = heap.kmalloc(64);
    assert_ne!(p, 0);
    assert_eq!(p % HEAP_ALIGN, 0);
    write_pattern(&mut heap, p, 64, 0xAA);
    heap.kfree(p);
    assert_eq!(heap.get_stats().corruption_count, 0);
    let q = heap.kmalloc(64);
    assert_eq!(q, p);
    for i in 0..64 {
        assert_eq!(heap.load(q + i), Some(POISON));
    }
    let stats = heap.get_stats();
    assert_eq!(stats.cache_hits, 1);
    assert_eq!(stats.alloc_count, 2);
    assert_eq!(stats.free_count, 1);
}

#[test]
fn first_block_sits_behind_the_null_page() {
    let mut heap = Heap::new(4, 0);
    let p = heap.kmalloc(1);
    assert_eq!(p, PAGE_SIZE + HEADER_SIZE);
    let stats = heap.get_stats();
    assert_eq!(stats.total_allocated, 16);
    assert_eq!(stats.peak_allocated, 16);
    assert_eq!(stats.cache_misses, 1);
}

#[test]
fn zero_and_oversized_requests_return_null() {
    let mut heap = Heap::new(4, 0);
    assert_eq!(heap.kmalloc(0), 0);
    assert_eq!(heap.kmalloc(MAX_ALLOC + 1), 0);
    heap.kfree(0);
    assert_eq!(heap.kcalloc(usize::MAX, 2), 0);
    let stats = heap.get_stats();
    assert_eq!(stats.alloc_count, 0);
    assert_eq!(stats.free_count, 0);
    assert_eq!(stats.corruption_count, 0);
    assert_eq!(stats.total_allocated, 0);
}

#[test]
fn calloc_returns_zeroed_aligned_memory() {
    let mut heap = Heap::new(16, 0x5A);
    let p = heap.kcalloc(10, 32);
    assert_ne!(p, 0);
    assert_eq!(p % HEAP_ALIGN, 0);
    for i in 0..320 {
        assert_eq!(heap.load(p + i), Some(0));
    }
    heap.kfree(p);
    assert_eq!(heap.get_stats().corruption_count, 0);
}

#[test]
fn calloc_of_nothing_returns_null() {
    let mut heap = Heap::new(4, 0);
    assert_eq!(heap.kcalloc(0, 8), 0);
    assert_eq!(heap.kcalloc(8, 0), 0);
    assert_eq!(heap.get_stats().alloc_count, 0);
}

#[test]
fn out_of_memory_returns_null_and_counts_the_request() {
    let mut heap = Heap::new(1, 0);
    assert_eq!(heap.kmalloc(5000), 0);
    assert_eq!(heap.get_stats().alloc_count, 1);
    let p = heap.kmalloc(100);
    assert_eq!(p, PAGE_SIZE + HEADER_SIZE);
    assert_eq!(heap.kmalloc(5000), 0);
}

#[test]
fn live_blocks_do_not_overlap() {
    let mut heap = Heap::new(64, 0);
    let sizes = [1usize, 16, 17, 48, 64, 100, 500, 1000, 3000, 5000, 70000];
    let mut blocks: Vec<(usize, usize)> = Vec::new();
    for &size in sizes.iter() {
        let p = heap.kmalloc(size);
        assert_ne!(p, 0);
        assert_eq!(p % HEAP_ALIGN, 0);
        blocks.push((p, size));
    }
    for (i, &(p, n)) in blocks.iter().enumerate() {
        for &(q, m) in blocks.iter().skip(i + 1) {
            assert!(p + n <= q || q + m <= p);
        }
    }
    for &(p, _) in blocks.iter() {
        heap.kfree(p);
    }
    let stats = heap.get_stats();
    assert_eq!(stats.total_allocated, 0);
    assert_eq!(stats.alloc_count, stats.free_count);
    assert_eq!(stats.corruption_count, 0);
    assert_eq!(heap.validate(), 0);
}

#[test]
fn accounting_returns_to_zero() {
    let mut heap = Heap::new(64, 0);
    let mut held: Vec<usize> = Vec::new();
    for round in 0..50usize {
        let p = heap.kmalloc(1 + round * 37);
        assert_ne!(p, 0);
        held.push(p);
        if round % 3 == 2 {
            let q = held.remove(0);
            heap.kfree(q);
        }
    }
    assert!(heap.get_stats().total_allocated > 0);
    for p in held {
        heap.kfree(p);
    }
    let stats = heap.get_stats();
    assert_eq!(stats.total_allocated, 0);
    assert_eq!(stats.alloc_count, 50);
    assert_eq!(stats.free_count, 50);
    assert!(stats.peak_allocated > 0);
}

#[test]
fn many_cycles_of_one_size_balance() {
    let mut heap = Heap::new(16, 0);
    for _ in 0..400_000u32 {
        let p = heap.kmalloc(48);
        assert_ne!(p, 0);
        heap.kfree(p);
    }
    let stats = heap.get_stats();
    assert_eq!(stats.total_allocated, 0);
    assert_eq!(stats.alloc_count, 400_000);
    assert_eq!(stats.free_count, 400_000);
    assert_eq!(stats.corruption_count, 0);
}

#[test]
fn stomped_header_is_counted_not_freed() {
    let mut heap = Heap::new(16, 0);
    let p = heap.kmalloc(64);
    let before = heap.get_stats();
    assert!(heap.store(p - HEADER_SIZE + 8, 0xFF));
    heap.kfree(p);
    let after = heap.get_stats();
    assert_eq!(after.corruption_count, before.corruption_count + 1);
    assert_eq!(after.free_count, before.free_count);
    assert_eq!(after.total_allocated, before.total_allocated);
    assert!(heap.validate() > 0);
}

#[test]
fn stomped_magic_is_counted() {
    let mut heap = Heap::new(16, 0);
    let p = heap.kmalloc(64);
    assert!(heap.store(p - HEADER_SIZE, 0));
    heap.kfree(p);
    assert_eq!(heap.get_stats().corruption_count, 1);
    assert_eq!(heap.get_stats().free_count, 0);
}

#[test]
fn overrun_into_the_canary_is_counted() {
    let mut heap = Heap::new(16, 0);
    let p = heap.kmalloc(64);
    let header = heap.check_block(p - HEADER_SIZE).unwrap();
    assert_eq!(header.magic, ALLOC_MAGIC);
    assert_eq!(header.size, 96);
    let canary_at = p + header.size as usize - CANARY_SIZE;
    write_pattern(&mut heap, p, canary_at - p, 0xAA);
    assert!(heap.check_allocated(p).is_some());
    assert!(heap.store(canary_at, 0xAA));
    assert!(heap.check_allocated(p).is_none());
    heap.kfree(p);
    assert_eq!(heap.get_stats().corruption_count, 1);
}

#[test]
fn double_free_is_counted() {
    let mut heap = Heap::new(16, 0);
    let p = heap.kmalloc(64);
    heap.kfree(p);
    heap.kfree(p);
    let stats = heap.get_stats();
    assert_eq!(stats.free_count, 1);
    assert_eq!(stats.corruption_count, 1);
    assert_eq!(heap.check_block(p - HEADER_SIZE).unwrap().magic, FREE_MAGIC);
}

#[test]
fn wild_pointers_are_counted() {
    let mut heap = Heap::new(4, 0);
    heap.kfree(1);
    heap.kfree(PAGE_SIZE);
    heap.kfree(usize::MAX);
    assert_eq!(heap.get_stats().corruption_count, 3);
    assert_eq!(heap.krealloc(usize::MAX, 10), 0);
    assert_eq!(heap.get_stats().corruption_count, 4);
}

#[test]
fn realloc_keeps_the_payload() {
    let mut heap = Heap::new(64, 0);
    let p = heap.kmalloc(100);
    for i in 0..100usize {
        assert!(heap.store(p + i, i as u8));
    }
    let q = heap.krealloc(p, 1000);
    assert_ne!(q, 0);
    assert_ne!(q, p);
    for i in 0..92usize {
        assert_eq!(heap.load(q + i), Some(i as u8));
    }
    let stats = heap.get_stats();
    assert_eq!(stats.alloc_count, 2);
    assert_eq!(stats.free_count, 1);
    assert_eq!(stats.corruption_count, 0);
}

#[test]
fn realloc_in_place_when_the_block_fits() {
    let mut heap = Heap::new(16, 0);
    let p = heap.kmalloc(100);
    assert_eq!(heap.check_block(p - HEADER_SIZE).unwrap().size, 128);
    assert_eq!(heap.krealloc(p, 128), p);
    assert_eq!(heap.krealloc(p, 110), p);
    assert_eq!(heap.krealloc(p, 64), p);
    assert_eq!(heap.get_stats().alloc_count, 1);
    let q = heap.krealloc(p, 63);
    assert_ne!(q, 0);
    assert_ne!(q, p);
    assert_eq!(heap.get_stats().alloc_count, 2);
    assert_eq!(heap.get_stats().free_count, 1);
}

#[test]
fn realloc_stays_in_a_block_of_at_most_twice_the_request() {
    let mut heap = Heap::new(16, 0);
    let p = heap.kmalloc(50);
    assert_eq!(heap.check_block(p - HEADER_SIZE).unwrap().size, 64);
    write_pattern(&mut heap, p, 50, 0x3C);
    assert_eq!(heap.krealloc(p, 60), p);
    assert_eq!(heap.krealloc(p, 32), p);
    for i in 0..50 {
        assert_eq!(heap.load(p + i), Some(0x3C));
    }
    let stats = heap.get_stats();
    assert_eq!(stats.alloc_count, 1);
    assert_eq!(stats.free_count, 0);
    assert_eq!(stats.total_allocated, 64);
}

#[test]
fn realloc_moves_out_of_a_block_of_more_than_twice_the_request() {
    let mut heap = Heap::new(16, 0);
    let p = heap.kmalloc(88);
    assert_eq!(heap.check_block(p - HEADER_SIZE).unwrap().size, 96);
    write_pattern(&mut heap, p, 88, 0x77);
    let q = heap.krealloc(p, 40);
    assert_ne!(q, 0);
    assert_ne!(q, p);
    for i in 0..(40 - CANARY_SIZE) {
        assert_eq!(heap.load(q + i), Some(0x77));
    }
    assert!(heap.check_allocated(p).is_none());
    assert_eq!(heap.check_block(q - HEADER_SIZE).unwrap().size, 48);
    let stats = heap.get_stats();
    assert_eq!(stats.alloc_count, 2);
    assert_eq!(stats.free_count, 1);
    assert_eq!(stats.total_allocated, 48);
}

#[test]
fn realloc_moves_out_of_a_block_that_is_too_small() {
    let mut heap = Heap::new(16, 0);
    let p = heap.kmalloc(50);
    write_pattern(&mut heap, p, 56, 0x11);
    let q = heap.krealloc(p, 65);
    assert_ne!(q, 0);
    assert_ne!(q, p);
    assert_eq!(heap.check_block(q - HEADER_SIZE).unwrap().size, 96);
    for i in 0..56 {
        assert_eq!(heap.load(q + i), Some(0x11));
    }
}

#[test]
fn realloc_above_the_limit_fails_and_keeps_the_block() {
    let mut heap = Heap::new(16, 0);
    let p = heap.kmalloc(50);
    assert_eq!(heap.krealloc(p, MAX_ALLOC + 1), 0);
    assert!(heap.check_allocated(p).is_some());
    assert_eq!(heap.get_stats().free_count, 0);
}

#[test]
fn freed_block_says_whether_it_sits_in_a_fast_cache() {
    let mut heap = Heap::new(64, 0);
    let mut held: Vec<usize> = Vec::new();
    for _ in 0..(FAST_CACHE_SIZE + 1) {
        held.push(heap.kmalloc(40));
    }
    for &p in held.iter() {
        heap.kfree(p);
    }
    for &p in held.iter().take(FAST_CACHE_SIZE) {
        let header = heap.check_block(p - HEADER_SIZE).unwrap();
        assert_eq!(header.magic, FREE_MAGIC);
        assert_eq!(header.flags, 3);
        assert!(header.is_free());
        assert!(header.in_cache());
    }
    let last = heap.check_block(held[FAST_CACHE_SIZE] - HEADER_SIZE).unwrap();
    assert_eq!(last.magic, FREE_MAGIC);
    assert_eq!(last.flags, 1);
    assert!(last.is_free());
    assert!(!last.in_cache());
}

#[test]
fn freed_block_of_no_class_is_free_and_uncached() {
    let mut heap = Heap::new(64, 0);
    let p = heap.kmalloc(5000);
    assert_ne!(p, 0);
    heap.kfree(p);
    let header = heap.check_block(p - HEADER_SIZE).unwrap();
    assert_eq!(header.magic, FREE_MAGIC);
    assert_eq!(header.flags, 1);
    assert_eq!(heap.get_stats().free_count, 1);
}

#[test]
fn allocation_leaves_the_payload_of_a_reused_block_as_it_was() {
    let mut heap = Heap::new(16, 0);
    let p = heap.kmalloc(64);
    write_pattern(&mut heap, p, 64, 0xAA);
    heap.kfree(p);
    let size = heap.check_block(p - HEADER_SIZE).unwrap().size as usize;
    let mut before: Vec<Option<u8>> = Vec::new();
    for i in 0..(size - CANARY_SIZE) {
        before.push(heap.load(p + i));
    }
    let q = heap.kmalloc(64);
    assert_eq!(q, p);
    for i in 0..(size - CANARY_SIZE) {
        assert_eq!(heap.load(q + i), before[i]);
        assert_eq!(heap.load(q + i), Some(POISON));
    }
}

#[test]
fn realloc_of_null_allocates_and_to_zero_frees() {
    let mut heap = Heap::new(16, 0);
    let p = heap.krealloc(0, 40);
    assert_ne!(p, 0);
    assert_eq!(heap.get_stats().alloc_count, 1);
    assert_eq!(heap.krealloc(p, 0), 0);
    assert_eq!(heap.get_stats().free_count, 1);
    assert_eq!(heap.get_stats().total_allocated, 0);
}

#[test]
fn fast_cache_is_bounded() {
    let mut heap = Heap::new(64, 0);
    let mut held: Vec<usize> = Vec::new();
    for _ in 0..(FAST_CACHE_SIZE + 8) {
        held.push(heap.kmalloc(64));
    }
    for &p in held.iter() {
        heap.kfree(p);
    }
    for _ in 0..(FAST_CACHE_SIZE + 8) {
        assert_ne!(heap.kmalloc(64), 0);
    }
    let stats = heap.get_stats();
    assert_eq!(stats.cache_hits, FAST_CACHE_SIZE as u64);
    assert_eq!(stats.corruption_count, 0);
}

#[test]
fn split_leaves_the_rest_free_and_next_in_memory() {
    let mut heap = Heap::new(16, 0);
    let p = heap.kmalloc(100);
    let a = p - HEADER_SIZE;
    let first = heap.check_block(a).unwrap();
    assert_eq!(first.size, 128);
    let rest_at = a + HEADER_SIZE + 128;
    assert_eq!(first.next, rest_at as u64);
    let rest = heap.check_block(rest_at).unwrap();
    assert_eq!(rest.magic, FREE_MAGIC);
    assert_eq!(rest.size as usize, PAGE_SIZE - 2 * HEADER_SIZE - 128);
    assert_eq!(rest.prev, a as u64);
    let q = heap.kmalloc(5000);
    assert_eq!(q, 2 * PAGE_SIZE + HEADER_SIZE);
    let big = heap.check_block(q - HEADER_SIZE).unwrap();
    assert_eq!(big.size, 5008);
    assert_eq!(big.prev, 0);
    let tail_at = q + 5008;
    assert_eq!(big.next, tail_at as u64);
    let tail = heap.check_block(tail_at).unwrap();
    assert_eq!(tail.magic, FREE_MAGIC);
    assert_eq!(tail.size as usize, 2 * PAGE_SIZE - 2 * HEADER_SIZE - 5008);
    assert_eq!(tail.next, a as u64);
    assert_eq!(heap.check_block(a).unwrap().prev, tail_at as u64);
}

#[test]
fn coalescing_merges_free_neighbours() {
    let mut heap = Heap::new(64, 0);
    let p = heap.kmalloc(5000);
    let q = heap.kmalloc(5000);
    assert_ne!(p, 0);
    assert_ne!(q, 0);
    heap.kfree(p);
    heap.kfree(q);
    let before = heap.get_stats();
    heap.coalesce_free_blocks();
    let after = heap.get_stats();
    assert!(after.coalesce_count > before.coalesce_count);
    assert_eq!(heap.validate(), 0);
    assert_eq!(after.total_allocated, 0);
}

#[test]
fn every_thousandth_slow_free_coalesces() {
    let mut heap = Heap::new(64, 0);
    for _ in 0..(COALESCE_THRESHOLD - 1) {
        let p = heap.kmalloc(5000);
        assert_ne!(p, 0);
        heap.kfree(p);
    }
    assert_eq!(heap.get_stats().coalesce_count, 0);
    let p = heap.kmalloc(5000);
    heap.kfree(p);
    assert!(heap.get_stats().coalesce_count > 0);
    assert_eq!(heap.validate(), 0);
}

#[test]
fn new_chunks_are_zeroed() {
    let mut heap = Heap::new(16, 0x77);
    let p = heap.kmalloc(200);
    for i in 0..200 {
        assert_eq!(heap.load(p + i), Some(0));
    }
    assert_eq!(heap.load(0), Some(0x77));
    assert_eq!(heap.load(heap.capacity()), None);
    assert!(!heap.store(heap.capacity(), 1));
}

#[test]
fn peak_follows_the_total_upwards_only() {
    let mut heap = Heap::new(16, 0);
    let p = heap.kmalloc(100);
    let q = heap.kmalloc(100);
    assert_eq!(heap.get_stats().total_allocated, 256);
    assert_eq!(heap.get_stats().peak_allocated, 256);
    heap.kfree(p);
    heap.kfree(q);
    assert_eq!(heap.get_stats().total_allocated, 0);
    assert_eq!(heap.get_stats().peak_allocated, 256);
    heap.update_peak(100);
    assert_eq!(heap.get_stats().peak_allocated, 256);
    heap.update_peak(300);
    assert_eq!(heap.get_stats().peak_allocated, 300);
}

#[test]
fn find_free_block_takes_the_first_that_fits() {
    let mut heap = Heap::new(64, 0);
    assert_eq!(heap.find_free_block(64), 0);
    let p = heap.kmalloc(5000);
    let q = heap.kmalloc(6000);
    let r = heap.kmalloc(5000);
    assert_ne!(r, 0);
    heap.kfree(q);
    heap.kfree(p);
    assert_eq!(heap.find_free_block(5008), q - HEADER_SIZE);
    assert_eq!(heap.find_free_block(6016), q - HEADER_SIZE);
    assert_eq!(heap.find_free_block(3088), r + 5008);
    assert_eq!(heap.find_free_block(3104), q - HEADER_SIZE);
    assert_eq!(heap.find_free_block(1536), q + 6016);
    assert_eq!(heap.find_free_block(1024), 0);
    assert_ne!(p, q);
    assert_eq!(heap.find_free_block(7000), 0);
    assert_eq!(heap.find_free_block(100), 0);
}
