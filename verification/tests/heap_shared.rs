use kernel_core::heap::layout::{HEADER_SIZE, PAGE_SIZE};
use kernel_core::heap::percpu::KernelHeap;
use kernel_core::heap::shared::SharedHeap;

#[test]
fn shared_heap_serves_through_the_lock() {
    let shared = SharedHeap::new(KernelHeap::new(16, 0x11));
    let p = shared.kmalloc(0, 100);
    assert_eq!(p, PAGE_SIZE + HEADER_SIZE);
    assert!(shared.store(p, 42));
    assert_eq!(shared.load(p), Some(42));
    let (q, old_size) = shared.krealloc(p, 1000);
    assert_ne!(q, 0);
    assert_ne!(q, p);
    assert_eq!(old_size, 128);
    assert_eq!(shared.load(q), Some(42));
    shared.kfree(0, q);
    let stats = shared.get_stats().unwrap();
    assert_eq!(stats.alloc_count, 2);
    assert_eq!(stats.free_count, 2);
    assert_eq!(stats.total_allocated, 0);
    assert_eq!(shared.get_percpu_stats(0), Some((0, 1)));
    shared.flush_cpu(0);
    assert_eq!(shared.get_stats().unwrap().free_count, 2);
    assert_eq!(shared.get_stats().unwrap().total_allocated, 0);
    assert_eq!(shared.validate(), Some(0));
}

#[test]
fn shared_heap_keeps_state_between_calls() {
    let shared = SharedHeap::new(KernelHeap::new(16, 0));
    shared.disable_percpu();
    let p = shared.kcalloc(4, 8);
    assert_ne!(p, 0);
    shared.kfree(0, p);
    assert_eq!(shared.kmalloc(0, 32), p);
    assert_eq!(shared.get_stats().unwrap().cache_hits, 1);
    shared.enable_percpu();
    shared.kfree(0, p);
    assert_eq!(shared.get_stats().unwrap().free_count, 2);
    assert_eq!(shared.kmalloc(0, 40), p);
    assert_eq!(shared.get_percpu_stats(0), Some((1, 0)));
}

#[test]
fn shared_heap_refuses_what_no_heap_serves() {
    let shared = SharedHeap::new(KernelHeap::new(16, 0));
    assert_eq!(shared.kmalloc(0, 0), 0);
    assert_eq!(shared.kmalloc(0, (1usize << 30) + 1), 0);
    assert_eq!(shared.kcalloc(0, 8), 0);
    assert_eq!(shared.kcalloc(usize::MAX, 2), 0);
    assert_eq!(shared.krealloc(0, 0), (0, 0));
    assert_eq!(shared.krealloc(0, (1usize << 30) + 1), (0, 0));
    assert_eq!(shared.get_percpu_stats(64), None);
    let p = shared.kcalloc(3, 5);
    assert_ne!(p, 0);
    assert_eq!(p % 16, 0);
    assert_eq!(shared.krealloc(p, (1usize << 30) + 1), (0, 32));
    let (q, old_size) = shared.krealloc(p, 200);
    assert_ne!(q, 0);
    assert_eq!(q % 16, 0);
    assert_eq!(old_size, 32);
    assert_eq!(shared.krealloc(q, 0), (0, 256));
    assert_eq!(shared.get_stats().unwrap().total_allocated, 0);
    assert_eq!(shared.get_stats().unwrap().alloc_count, 2);
}

#[test]
fn shared_heap_tells_the_size_of_an_allocated_block() {
    let shared = SharedHeap::new(KernelHeap::new(16, 0));
    shared.disable_percpu();
    assert_eq!(shared.allocated_size(0), 0);
    let p = shared.kmalloc(0, 100);
    assert_eq!(shared.allocated_size(p), 128);
    assert_eq!(shared.allocated_size(p + 16), 0);
    shared.kfree(0, p);
    assert_eq!(shared.allocated_size(p), 0);
}
