use kernel_core::heap::layout::{CANARY_SIZE, HEADER_SIZE, HEAP_ALIGN, PAGE_SIZE, POISON};
use kernel_core::heap::percpu::{
    get_percpu_size_class, KernelHeap, MAX_CPUS, PERCPU_CACHE_SIZE,
};

#[test]
fn percpu_classes_are_powers_of_two() {
    assert_eq!(get_percpu_size_class(0), None);
    assert_eq!(get_percpu_size_class(1), Some(0));
    assert_eq!(get_percpu_size_class(32), Some(0));
    assert_eq!(get_percpu_size_class(33), Some(1));
    assert_eq!(get_percpu_size_class(64), Some(1));
    assert_eq!(get_percpu_size_class(128), Some(2));
    assert_eq!(get_percpu_size_class(256), Some(3));
    assert_eq!(get_percpu_size_class(512), Some(4));
    assert_eq!(get_percpu_size_class(1024), Some(5));
    assert_eq!(get_percpu_size_class(2048), Some(6));
    assert_eq!(get_percpu_size_class(2049), Some(7));
    assert_eq!(get_percpu_size_class(4096), Some(7));
    assert_eq!(get_percpu_size_class(4097), None);
}

#[test]
fn pop_returns_what_was_pushed_on_the_same_cpu() {
    let mut heap = KernelHeap::new(16, 0);
    let p = heap.kmalloc(3, 40);
    assert_eq!(p, PAGE_SIZE + HEADER_SIZE);
    assert_eq!(p % HEAP_ALIGN, 0);
    heap.kfree(3, p);
    assert_eq!(heap.get_stats().free_count, 1);
    assert_eq!(heap.get_stats().total_allocated, 0);
    let other = heap.kmalloc(4, 40);
    assert_ne!(other, p);
    let again = heap.kmalloc(3, 40);
    assert_eq!(again, p);
    assert_eq!(heap.get_percpu_stats(3), Some((1, 1)));
    assert_eq!(heap.get_percpu_stats(4), Some((0, 1)));
    assert_eq!(heap.get_percpu_stats(MAX_CPUS), None);
}

#[test]
fn cpu_identity_wraps_at_max_cpus() {
    let mut heap = KernelHeap::new(16, 0);
    let p = heap.kmalloc(1, 40);
    heap.kfree(1 + MAX_CPUS, p);
    assert_eq!(heap.kmalloc(1, 40), p);
}

#[test]
fn full_stack_passes_frees_to_the_backend() {
    let mut heap = KernelHeap::new(64, 0);
    let mut held: Vec<usize> = Vec::new();
    for _ in 0..(PERCPU_CACHE_SIZE + 5) {
        let p = heap.kmalloc(0, 40);
        assert_ne!(p, 0);
        held.push(p);
    }
    for &p in held.iter() {
        heap.kfree(0, p);
    }
    let stats = heap.get_stats();
    assert_eq!(stats.free_count, (PERCPU_CACHE_SIZE + 5) as u64);
    assert_eq!(stats.alloc_count, (PERCPU_CACHE_SIZE + 5) as u64);
    assert_eq!(stats.total_allocated, 0);
    assert_eq!(stats.corruption_count, 0);
    assert_eq!(stats.cache_hits, 0);
    assert_eq!(heap.kmalloc(1, 40), held[PERCPU_CACHE_SIZE + 4]);
    assert_eq!(heap.get_stats().cache_hits, 1);
    assert_eq!(heap.kmalloc(0, 40), held[PERCPU_CACHE_SIZE - 1]);
    assert_eq!(heap.get_stats().cache_hits, 1);
}

#[test]
fn flush_returns_everything_to_the_backend() {
    let mut heap = KernelHeap::new(64, 0);
    let a = heap.kmalloc(2, 40);
    let b = heap.kmalloc(2, 400);
    let c = heap.kmalloc(5, 40);
    heap.kfree(2, a);
    heap.kfree(2, b);
    heap.kfree(5, c);
    assert_eq!(heap.get_stats().free_count, 3);
    assert_eq!(heap.get_stats().total_allocated, 0);
    heap.flush_cpu(2);
    assert_eq!(heap.get_stats().free_count, 3);
    heap.flush_cpu(MAX_CPUS);
    assert_eq!(heap.get_stats().free_count, 3);
    assert_eq!(heap.kmalloc(9, 40), a);
    assert_eq!(heap.kmalloc(5, 40), c);
    heap.kfree(9, a);
    heap.kfree(5, c);
    heap.flush_cpu(5);
    heap.flush_cpu(9);
    let stats = heap.get_stats();
    assert_eq!(stats.alloc_count, 5);
    assert_eq!(stats.free_count, 5);
    assert_eq!(stats.total_allocated, 0);
    assert_eq!(stats.corruption_count, 0);
    assert_eq!(stats.cache_hits, 1);
    assert_eq!(heap.validate(), 0);
}

#[test]
fn disabled_caches_go_straight_to_the_backend() {
    let mut heap = KernelHeap::new(16, 0);
    heap.disable_percpu();
    let p = heap.kmalloc(0, 64);
    heap.kfree(0, p);
    assert_eq!(heap.get_stats().free_count, 1);
    assert_eq!(heap.kmalloc(0, 64), p);
    assert_eq!(heap.get_stats().cache_hits, 1);
    assert_eq!(heap.get_percpu_stats(0), Some((0, 0)));
    heap.enable_percpu();
    heap.kfree(0, p);
    assert_eq!(heap.get_stats().free_count, 2);
    assert_eq!(heap.get_stats().alloc_count, 2);
    assert_eq!(heap.get_stats().total_allocated, 0);
}

#[test]
fn four_cpus_cycle_and_balance() {
    let mut heap = KernelHeap::new(16, 0);
    for _ in 0..100_000u32 {
        for cpu in 0..4usize {
            let p = heap.kmalloc(cpu, 48);
            assert_ne!(p, 0);
            heap.kfree(cpu, p);
        }
    }
    let stats = heap.get_stats();
    assert_eq!(stats.total_allocated, 0);
    assert_eq!(stats.alloc_count, 400_000);
    assert_eq!(stats.free_count, 400_000);
    assert_eq!(stats.corruption_count, 0);
    assert_eq!(stats.peak_allocated, 64);
    for cpu in 0..4usize {
        heap.flush_cpu(cpu);
    }
    let stats = heap.get_stats();
    assert_eq!(stats.total_allocated, 0);
    assert_eq!(stats.alloc_count, 400_000);
    assert_eq!(stats.free_count, 400_000);
    assert_eq!(stats.corruption_count, 0);
    assert_eq!(heap.validate(), 0);
}

#[test]
fn calloc_and_realloc_bypass_the_caches() {
    let mut heap = KernelHeap::new(16, 0x33);
    let p = heap.kcalloc(4, 10);
    assert_ne!(p, 0);
    for i in 0..40 {
        assert_eq!(heap.load(p + i), Some(0));
    }
    assert!(heap.store(p, 9));
    let q = heap.krealloc(p, 500);
    assert_ne!(q, 0);
    assert_eq!(heap.load(q), Some(9));
    assert_eq!(heap.get_stats().free_count, 1);
    assert_eq!(heap.get_percpu_stats(0), Some((0, 0)));
}

#[test]
fn push_and_pop_are_last_in_first_out() {
    let mut heap = KernelHeap::new(64, 0);
    heap.disable_percpu();
    let a = heap.kmalloc(0, 40);
    let b = heap.kmalloc(0, 40);
    heap.push(9, a);
    heap.push(9, b);
    assert_eq!(heap.get_stats().free_count, 2);
    assert_eq!(heap.get_stats().total_allocated, 0);
    assert_eq!(heap.pop(10, 0), None);
    assert_eq!(heap.pop(9, 0), Some(b));
    assert_eq!(heap.pop(9, 49), None);
    assert_eq!(heap.pop(9, 48), Some(a));
    assert_eq!(heap.pop(9, 0), None);
    assert_eq!(heap.get_percpu_stats(1), Some((2, 3)));
    let stats = heap.get_stats();
    assert_eq!(stats.free_count, 2);
    assert_eq!(stats.alloc_count, 4);
    assert_eq!(stats.total_allocated, 96);
}

#[test]
fn push_on_a_full_stack_frees_to_the_backend() {
    let mut heap = KernelHeap::new(64, 0);
    heap.disable_percpu();
    let mut held: Vec<usize> = Vec::new();
    for _ in 0..(PERCPU_CACHE_SIZE + 1) {
        held.push(heap.kmalloc(0, 40));
    }
    for &p in held.iter() {
        heap.push(0, p);
    }
    assert_eq!(heap.get_stats().free_count, (PERCPU_CACHE_SIZE + 1) as u64);
    assert_eq!(heap.kmalloc(0, 40), held[PERCPU_CACHE_SIZE]);
    assert_eq!(heap.get_stats().cache_hits, 1);
    assert_eq!(heap.pop(0, 0), Some(held[PERCPU_CACHE_SIZE - 1]));
}

#[test]
fn flush_counts_what_it_takes_off() {
    let mut heap = KernelHeap::new(64, 0);
    let a = heap.kmalloc(2, 40);
    let b = heap.kmalloc(2, 40);
    heap.kfree(2, a);
    heap.kfree(2, b);
    assert_eq!(heap.get_percpu_stats(2), Some((0, 2)));
    heap.flush_cpu(2);
    assert_eq!(heap.get_percpu_stats(2), Some((2, 10)));
    assert_eq!(heap.get_percpu_stats(3), Some((0, 0)));
    assert_eq!(heap.get_stats().free_count, 2);
}

#[test]
fn flush_frees_what_was_parked() {
    let mut heap = KernelHeap::new(64, 0);
    let a = heap.kmalloc(2, 40);
    let b = heap.kmalloc(2, 400);
    let kept = heap.kmalloc(2, 40);
    let size_a = heap.allocated_size(a);
    let size_b = heap.allocated_size(b);
    let size_kept = heap.allocated_size(kept);
    assert_eq!(heap.get_stats().total_allocated, size_a + size_b + size_kept);
    heap.kfree(2, a);
    heap.kfree(2, b);
    assert_eq!(heap.get_stats().total_allocated, size_kept);
    assert_eq!(heap.get_stats().free_count, 2);
    assert_eq!(heap.allocated_size(a), 0);
    heap.flush_cpu(2);
    assert_eq!(heap.allocated_size(a), 0);
    assert_eq!(heap.allocated_size(b), 0);
    assert_eq!(heap.allocated_size(kept), size_kept);
    let stats = heap.get_stats();
    assert_eq!(stats.total_allocated, size_kept);
    assert_eq!(stats.peak_allocated, size_a + size_b + size_kept);
    assert_eq!(stats.free_count, 2);
    assert_eq!(stats.alloc_count, 3);
    assert_eq!(stats.corruption_count, 0);
    assert_eq!(heap.kmalloc(7, 400), b);
    assert_eq!(heap.kmalloc(7, 40), a);
    assert_eq!(heap.get_stats().cache_hits, 2);
}

#[test]
fn flush_counts_a_stomped_parked_block_as_corruption() {
    let mut heap = KernelHeap::new(64, 0);
    let a = heap.kmalloc(1, 40);
    let b = heap.kmalloc(1, 40);
    let size_a = heap.allocated_size(a);
    let size_b = heap.allocated_size(b);
    heap.kfree(1, a);
    heap.kfree(1, b);
    assert!(heap.store(a - HEADER_SIZE + 8, 0xFF));
    assert_eq!(heap.kmalloc(1, 40), b);
    heap.kfree(1, b);
    heap.flush_cpu(1);
    let stats = heap.get_stats();
    assert_eq!(stats.corruption_count, 1);
    assert_eq!(heap.allocated_size(b), 0);
    assert_eq!(size_b, size_a);
    assert_ne!(heap.kmalloc(1, 40), a);
    assert!(heap.validate() > 0);
}

#[test]
fn freed_block_is_reused_and_poisoned_with_the_caches_off() {
    let mut heap = KernelHeap::new(16, 0);
    heap.disable_percpu();
    let p = heap.kmalloc(0, 64);
    for i in 0..64 {
        assert!(heap.store(p + i, 0xAA));
    }
    heap.kfree(0, p);
    let q = heap.kmalloc(0, 64);
    assert_eq!(q, p);
    for i in 0..64 {
        assert_eq!(heap.load(q + i), Some(0xCC));
    }
    let stats = heap.get_stats();
    assert_eq!(stats.alloc_count, 2);
    assert_eq!(stats.free_count, 1);
    assert_eq!(stats.cache_hits, 1);
}

#[test]
fn two_rounds_on_one_cpu_balance() {
    let mut heap = KernelHeap::new(16, 0);
    let p = heap.kmalloc(0, 48);
    heap.kfree(0, p);
    let q = heap.kmalloc(0, 48);
    assert_eq!(q, p);
    assert_eq!(heap.get_stats().total_allocated, 64);
    heap.kfree(0, q);
    let stats = heap.get_stats();
    assert_eq!(stats.total_allocated, 0);
    assert_eq!(stats.alloc_count, 2);
    assert_eq!(stats.free_count, 2);
    assert_eq!(stats.peak_allocated, 64);
    assert_eq!(heap.get_percpu_stats(0), Some((1, 1)));
}

#[test]
fn second_free_of_a_parked_block_is_counted() {
    let mut heap = KernelHeap::new(16, 0);
    let a = heap.kmalloc(0, 48);
    heap.kfree(0, a);
    heap.kfree(0, a);
    let stats = heap.get_stats();
    assert_eq!(stats.corruption_count, 1);
    assert_eq!(stats.free_count, 1);
    assert_eq!(stats.total_allocated, 0);
    assert_eq!(heap.kmalloc(0, 48), a);
    let b = heap.kmalloc(0, 48);
    assert_ne!(b, 0);
    assert_ne!(b, a);
    assert_eq!(heap.get_stats().total_allocated, 128);
}

#[test]
fn stomped_header_is_counted_at_the_front_door() {
    let mut heap = KernelHeap::new(16, 0);
    let a = heap.kmalloc(0, 48);
    let before = heap.get_stats();
    assert!(heap.store(a - HEADER_SIZE, 0));
    heap.kfree(0, a);
    let after = heap.get_stats();
    assert_eq!(after.corruption_count, before.corruption_count + 1);
    assert_eq!(after.free_count, before.free_count);
    assert_eq!(after.total_allocated, before.total_allocated);
    assert_ne!(heap.kmalloc(0, 48), a);
}

#[test]
fn overrun_is_counted_at_the_front_door() {
    let mut heap = KernelHeap::new(16, 0);
    let a = heap.kmalloc(0, 48);
    let size = heap.allocated_size(a);
    assert_eq!(size, 64);
    assert!(heap.store(a + size - CANARY_SIZE, 0x55));
    heap.kfree(0, a);
    let stats = heap.get_stats();
    assert_eq!(stats.corruption_count, 1);
    assert_eq!(stats.free_count, 0);
    assert_eq!(stats.total_allocated, 64);
}

#[test]
fn a_hit_has_room_for_the_request() {
    let mut heap = KernelHeap::new(64, 0);
    let p = heap.kmalloc(0, 2050);
    assert_eq!(heap.allocated_size(p), 3072);
    heap.kfree(0, p);
    let q = heap.kmalloc(0, 4096);
    assert_ne!(q, 0);
    assert_ne!(q, p);
    assert!(heap.allocated_size(q) >= 4096 + CANARY_SIZE);
    let r = heap.kmalloc(0, 600);
    assert_ne!(r, 0);
    assert!(r >= q + heap.allocated_size(q) + HEADER_SIZE || r + heap.allocated_size(r) + HEADER_SIZE <= q);
    assert_eq!(heap.get_percpu_stats(0), Some((0, 3)));
    assert_eq!(heap.kmalloc(0, 3000), p);
    assert_eq!(heap.get_percpu_stats(0), Some((1, 3)));
}

#[test]
fn parked_block_is_poisoned() {
    let mut heap = KernelHeap::new(16, 0);
    let p = heap.kmalloc(0, 48);
    for i in 0..48 {
        assert!(heap.store(p + i, 0xAA));
    }
    heap.kfree(0, p);
    let q = heap.kmalloc(0, 48);
    assert_eq!(q, p);
    for i in 0..(64 - CANARY_SIZE) {
        assert_eq!(heap.load(q + i), Some(POISON));
    }
    assert_eq!(heap.get_stats().corruption_count, 0);
    heap.kfree(0, q);
    assert_eq!(heap.get_stats().corruption_count, 0);
}

#[test]
fn peak_follows_what_callers_hold() {
    let mut heap = KernelHeap::new(16, 0);
    let a = heap.kmalloc(0, 48);
    let b = heap.kmalloc(0, 48);
    assert_eq!(heap.get_stats().peak_allocated, 128);
    heap.kfree(0, a);
    heap.kfree(0, b);
    let c = heap.kmalloc(0, 48);
    assert_eq!(c, b);
    let stats = heap.get_stats();
    assert_eq!(stats.total_allocated, 64);
    assert_eq!(stats.peak_allocated, 128);
}
