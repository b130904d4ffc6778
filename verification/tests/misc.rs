use kernel_core::clayout::CLayout;
use kernel_core::heap::config::{
    HeapConfig, PERF_MODE_BALANCED, PERF_MODE_FAST, PERF_MODE_SECURE,
};
use kernel_core::pool::HandlePool;

#[test]
fn performance_modes_set_the_tunables() {
    let mut c = HeapConfig::new();
    assert_eq!(
        c,
        HeapConfig {
            validation_level: 1,
            fast_cache_size: 32,
            coalesce_threshold: 1000,
            small_alloc_threshold: 1024
        }
    );
    c.set_performance_mode(PERF_MODE_FAST);
    assert_eq!((c.validation_level, c.fast_cache_size, c.coalesce_threshold), (0, 64, 2000));
    c.set_performance_mode(PERF_MODE_SECURE);
    assert_eq!((c.validation_level, c.fast_cache_size, c.coalesce_threshold), (2, 16, 500));
    c.set_performance_mode(7);
    assert_eq!((c.validation_level, c.fast_cache_size, c.coalesce_threshold), (2, 16, 500));
    c.set_performance_mode(PERF_MODE_BALANCED);
    assert_eq!(c, HeapConfig::new());
}

#[test]
fn tune_parameters_ignores_values_out_of_range() {
    let mut c = HeapConfig::new();
    c.tune_parameters(3, 0, 0, 31);
    assert_eq!(c, HeapConfig::new());
    c.tune_parameters(3, 1025, 0, 8193);
    assert_eq!(c, HeapConfig::new());
    c.tune_parameters(2, 1024, 1, 8192);
    assert_eq!(
        c,
        HeapConfig {
            validation_level: 2,
            fast_cache_size: 1024,
            coalesce_threshold: 1,
            small_alloc_threshold: 8192
        }
    );
    c.tune_parameters(0, 5, 0, 32);
    assert_eq!(
        c,
        HeapConfig {
            validation_level: 0,
            fast_cache_size: 5,
            coalesce_threshold: 1,
            small_alloc_threshold: 32
        }
    );
}

#[test]
fn pool_gives_out_the_lowest_free_slot() {
    let mut pool = HandlePool::new(3);
    assert_eq!(pool.capacity(), 3);
    assert_eq!(pool.acquire(), Some(0));
    assert_eq!(pool.acquire(), Some(1));
    assert_eq!(pool.acquire(), Some(2));
    assert_eq!(pool.acquire(), None);
    assert!(pool.is_used(1));
    pool.release(1);
    assert!(!pool.is_used(1));
    pool.release(9);
    assert!(!pool.is_used(9));
    assert_eq!(pool.acquire(), Some(1));
    assert_eq!(pool.acquire(), None);
    assert_eq!(HandlePool::new(0).acquire(), None);
}

#[test]
fn layout_validity() {
    assert!(CLayout::new(0, 1).is_valid());
    assert!(CLayout::new(100, 8).is_valid());
    assert!(CLayout::new(100, 4096).is_valid());
    assert!(!CLayout::new(100, 0).is_valid());
    assert!(!CLayout::new(100, 3).is_valid());
    assert!(!CLayout::new(100, 24).is_valid());
    assert!(CLayout::new(isize::MAX as usize, 1).is_valid());
    assert!(!CLayout::new(isize::MAX as usize, 2).is_valid());
    assert!(!CLayout::new(usize::MAX, 1).is_valid());
    assert_eq!(CLayout::new(10, 16).resized(40), CLayout { size: 40, align: 16 });
}
