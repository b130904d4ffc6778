//! The tunables of the heap, and the three performance modes that set them
//! together.
//!
//! The backend of this version runs on the constants of
//! [`crate::heap::layout`]; the record is kept for the host, which reads it
//! back.

use vstd::prelude::*;

verus! {

/// Little validation, large caches.
pub const PERF_MODE_FAST: usize = 0;

/// The default.
pub const PERF_MODE_BALANCED: usize = 1;

/// Full validation, small caches.
pub const PERF_MODE_SECURE: usize = 2;

/// Highest validation level.
pub const MAX_VALIDATION_LEVEL: usize = 2;

/// Largest size of a fast cache that can be set.
pub const MAX_CACHE_SIZE: usize = 1024;

/// Smallest threshold for small allocations that can be set.
pub const MIN_SMALL_THRESHOLD: usize = 32;

/// Largest threshold for small allocations that can be set.
pub const MAX_SMALL_THRESHOLD: usize = 8192;

/// The tunables.
#[derive(Clone, Copy, Debug, PartialEq, Eq, Structural)]
pub struct HeapConfig {
    /// 0 for none, 1 for basic, 2 for full validation.
    pub validation_level: usize,
    /// Blocks a fast cache holds at most.
    pub fast_cache_size: usize,
    /// Frees between two coalescing scans.
    pub coalesce_threshold: usize,
    /// Size up to which an allocation counts as small.
    pub small_alloc_threshold: usize,
}

/// The tunables of a mode: validation level, size of the fast caches, and
/// coalescing threshold. The threshold for small allocations is not part of
/// a mode.
pub open spec fn spec_mode(mode: usize, small: usize) -> HeapConfig {
    if mode == PERF_MODE_FAST {
        HeapConfig {
            validation_level: 0,
            fast_cache_size: 64,
            coalesce_threshold: 2000,
            small_alloc_threshold: small,
        }
    } else if mode == PERF_MODE_BALANCED {
        HeapConfig {
            validation_level: 1,
            fast_cache_size: 32,
            coalesce_threshold: 1000,
            small_alloc_threshold: small,
        }
    } else {
        HeapConfig {
            validation_level: 2,
            fast_cache_size: 16,
            coalesce_threshold: 500,
            small_alloc_threshold: small,
        }
    }
}

/// The tunables after `tune_parameters`: each value that is in its range
/// replaces the one that was there.
pub open spec fn spec_tuned(
    c: HeapConfig,
    validation_level: usize,
    cache_size: usize,
    coalesce_threshold: usize,
    small_threshold: usize,
) -> HeapConfig {
    HeapConfig {
        validation_level: if validation_level <= MAX_VALIDATION_LEVEL {
            validation_level
        } else {
            c.validation_level
        },
        fast_cache_size: if 0 < cache_size <= MAX_CACHE_SIZE {
            cache_size
        } else {
            c.fast_cache_size
        },
        coalesce_threshold: if coalesce_threshold > 0 {
            coalesce_threshold
        } else {
            c.coalesce_threshold
        },
        small_alloc_threshold: if MIN_SMALL_THRESHOLD <= small_threshold <= MAX_SMALL_THRESHOLD {
            small_threshold
        } else {
            c.small_alloc_threshold
        },
    }
}

impl HeapConfig {
    /// Every tunable is in its range.
    pub open spec fn wf(&self) -> bool {
        &&& self.validation_level <= MAX_VALIDATION_LEVEL
        &&& 0 < self.fast_cache_size <= MAX_CACHE_SIZE
        &&& self.coalesce_threshold > 0
        &&& MIN_SMALL_THRESHOLD <= self.small_alloc_threshold <= MAX_SMALL_THRESHOLD
    }

    /// The tunables of the balanced mode, with allocations up to 1024
    /// bytes counted as small.
    pub fn new() -> (c: HeapConfig)
        ensures
            c == spec_mode(PERF_MODE_BALANCED, 1024),
            c.wf(),
    {
        HeapConfig {
            validation_level: 1,
            fast_cache_size: 32,
            coalesce_threshold: 1000,
            small_alloc_threshold: 1024,
        }
    }

    /// Sets the tunables of mode `mode`: 0 fast, 1 balanced, 2 secure. Any
    /// other mode is ignored.
    pub fn set_performance_mode(&mut self, mode: usize)
        ensures
            *final(self) == if mode <= PERF_MODE_SECURE {
                spec_mode(mode, old(self).small_alloc_threshold)
            } else {
                *old(self)
            },
            old(self).wf() ==> final(self).wf(),
    {
        if mode == PERF_MODE_FAST {
            self.validation_level = 0;
            self.fast_cache_size = 64;
            self.coalesce_threshold = 2000;
        } else if mode == PERF_MODE_BALANCED {
            self.validation_level = 1;
            self.fast_cache_size = 32;
            self.coalesce_threshold = 1000;
        } else if mode == PERF_MODE_SECURE {
            self.validation_level = 2;
            self.fast_cache_size = 16;
            self.coalesce_threshold = 500;
        }
    }

    /// Sets each tunable whose new value is in its range, and leaves the
    /// others as they are.
    pub fn tune_parameters(
        &mut self,
        validation_level: usize,
        cache_size: usize,
        coalesce_threshold: usize,
        small_threshold: usize,
    )
        ensures
            *final(self) == spec_tuned(
                *old(self),
                validation_level,
                cache_size,
                coalesce_threshold,
                small_threshold,
            ),
            old(self).wf() ==> final(self).wf(),
    {
        if validation_level <= MAX_VALIDATION_LEVEL {
            self.validation_level = validation_level;
        }
        if cache_size > 0 && cache_size <= MAX_CACHE_SIZE {
            self.fast_cache_size = cache_size;
        }
        if coalesce_threshold > 0 {
            self.coalesce_threshold = coalesce_threshold;
        }
        if small_threshold >= MIN_SMALL_THRESHOLD && small_threshold <= MAX_SMALL_THRESHOLD {
            self.small_alloc_threshold = small_threshold;
        }
    }
}

} // verus!
