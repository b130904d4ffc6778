//! The heap behind the one lock that serialises it.
//!
//! Every operation takes the lock, does one operation of the heap, and lets
//! go. Between two operations of one CPU, others may have done theirs: an
//! operation finds whatever heap they left. A contract here says what holds
//! of the result whatever heap is found; what each operation does to the
//! heap it finds is said in [`crate::heap::percpu::KernelHeap`].

use vstd::prelude::*;
use crate::heap::backend::HeapStats;
use crate::heap::layout::{HEAP_ALIGN, MAX_ALLOC};
use crate::heap::percpu::{KernelHeap, MAX_CPUS};

verus! {

/// `spin::Mutex`: a spinning mutual-exclusion lock around a value. Nothing
/// is known of the value inside.
#[verifier::external_type_specification]
#[verifier::external_body]
#[verifier::reject_recursive_types(T)]
#[verifier::reject_recursive_types(R)]
pub struct ExSpinMutex<T: ?Sized, R>(spin::mutex::Mutex<T, R>);

/// `spin::relax::Spin`: the way a `spin::Mutex` waits, by spinning.
#[verifier::external_type_specification]
#[verifier::external_body]
pub struct ExSpinRelax(spin::relax::Spin);

/// `spin::MutexGuard`: the right to the value of a locked `spin::Mutex`,
/// which is unlocked when the guard is dropped.
#[verifier::external_type_specification]
#[verifier::external_body]
#[verifier::reject_recursive_types(T)]
pub struct ExSpinMutexGuard<'a, T: 'a + ?Sized>(spin::mutex::MutexGuard<'a, T>);

/// The heap, shared among CPUs.
pub struct SharedHeap {
    inner: spin::mutex::Mutex<KernelHeap>,
}

/// `spin::Mutex::new`: a mutex around `heap`, unlocked. Nothing is claimed
/// of it.
#[verifier::external_body]
fn mutex_new(heap: KernelHeap) -> (m: spin::mutex::Mutex<KernelHeap>) {
    spin::mutex::Mutex::new(heap)
}

/// `spin::Mutex::lock`: spins until the mutex is free, and takes it. The
/// guard stands for whatever heap the last holder left, so nothing is
/// claimed of it.
#[verifier::external_body]
fn mutex_lock<'a>(m: &'a spin::mutex::Mutex<KernelHeap>) -> (g: spin::mutex::MutexGuard<
    'a,
    KernelHeap,
>) {
    m.lock()
}

/// `DerefMut::deref_mut` of `spin::MutexGuard`: the heap behind the guard.
/// Nothing is claimed of it.
#[verifier::external_body]
fn guarded<'a, 'b>(g: &'a mut spin::mutex::MutexGuard<'b, KernelHeap>) -> (heap: &'a mut KernelHeap) {
    &mut *g
}

impl SharedHeap {
    /// The heap `heap`, behind a lock.
    pub fn new(heap: KernelHeap) -> (shared: SharedHeap) {
        SharedHeap { inner: mutex_new(heap) }
    }

    /// `KernelHeap::kmalloc` under the lock. Null if the heap found is not
    /// well formed. Whatever heap is found, a size of 0 and a size above
    /// `MAX_ALLOC` are not served, and a pointer that is returned is
    /// aligned.
    pub fn kmalloc(&self, cpu: usize, size: usize) -> (ptr: usize)
        ensures
            size == 0 || size > MAX_ALLOC ==> ptr == 0,
            ptr != 0 ==> ptr % HEAP_ALIGN == 0,
    {
        let mut guard = mutex_lock(&self.inner);
        let heap = guarded(&mut guard);
        if heap.is_wf() {
            heap.kmalloc(cpu, size)
        } else {
            0
        }
    }

    /// `KernelHeap::kfree` under the lock.
    pub fn kfree(&self, cpu: usize, ptr: usize) {
        let mut guard = mutex_lock(&self.inner);
        let heap = guarded(&mut guard);
        if heap.is_wf() {
            heap.kfree(cpu, ptr);
        }
    }

    /// `KernelHeap::krealloc` under the lock. Null if the heap found is not
    /// well formed. With the pointer that is returned comes the size of the
    /// payload that `ptr` had, 0 if `ptr` did not pass the checks of
    /// `kfree`, for the caller that keeps the bytes elsewhere.
    ///
    /// Whatever heap is found: a new size of 0 gives null; a new size above
    /// `MAX_ALLOC` gives null or leaves the block where it is; a pointer
    /// that is returned is aligned; null
    /// has no payload; and where a block is returned for a pointer that
    /// was given, that pointer had a payload, of a multiple of the
    /// alignment.
    pub fn krealloc(&self, ptr: usize, new_size: usize) -> (moved: (usize, usize))
        ensures
            new_size == 0 ==> moved.0 == 0,
            new_size > MAX_ALLOC ==> moved.0 == 0 || moved.0 == ptr,
            moved.0 != 0 ==> moved.0 % HEAP_ALIGN == 0,
            ptr == 0 ==> moved.1 == 0,
            ptr != 0 && moved.0 != 0 ==> moved.1 >= HEAP_ALIGN,
            moved.1 % HEAP_ALIGN == 0,
    {
        let mut guard = mutex_lock(&self.inner);
        let heap = guarded(&mut guard);
        if heap.is_wf() {
            let old_size: usize = heap.allocated_size(ptr);
            let q: usize = heap.krealloc(ptr, new_size);
            (q, old_size)
        } else {
            (0, 0)
        }
    }

    /// `KernelHeap::kcalloc` under the lock. Null if the heap found is not
    /// well formed. Whatever heap is found: a product of 0, a product that
    /// does not fit the machine word or is above `MAX_ALLOC` gives null,
    /// and a pointer that is returned is aligned.
    pub fn kcalloc(&self, count: usize, size: usize) -> (ptr: usize)
        ensures
            count * size == 0 || count * size > MAX_ALLOC ==> ptr == 0,
            ptr != 0 ==> ptr % HEAP_ALIGN == 0,
    {
        let mut guard = mutex_lock(&self.inner);
        let heap = guarded(&mut guard);
        if heap.is_wf() {
            heap.kcalloc(count, size)
        } else {
            0
        }
    }

    /// `KernelHeap::get_stats` under the lock. `None` if the heap found is
    /// not well formed.
    pub fn get_stats(&self) -> (stats: Option<HeapStats>) {
        let mut guard = mutex_lock(&self.inner);
        let heap = guarded(&mut guard);
        if heap.is_wf() {
            Some(heap.get_stats())
        } else {
            None
        }
    }

    /// `KernelHeap::validate` under the lock. `None` if the heap found is
    /// not well formed.
    pub fn validate(&self) -> (errors: Option<usize>) {
        let mut guard = mutex_lock(&self.inner);
        let heap = guarded(&mut guard);
        if heap.is_wf() {
            Some(heap.validate())
        } else {
            None
        }
    }

    /// `KernelHeap::enable_percpu` under the lock.
    pub fn enable_percpu(&self) {
        let mut guard = mutex_lock(&self.inner);
        let heap = guarded(&mut guard);
        heap.enable_percpu();
    }

    /// `KernelHeap::disable_percpu` under the lock.
    pub fn disable_percpu(&self) {
        let mut guard = mutex_lock(&self.inner);
        let heap = guarded(&mut guard);
        heap.disable_percpu();
    }

    /// `KernelHeap::flush_cpu` under the lock.
    pub fn flush_cpu(&self, cpu: usize) {
        let mut guard = mutex_lock(&self.inner);
        let heap = guarded(&mut guard);
        if heap.is_wf() {
            heap.flush_cpu(cpu);
        }
    }

    /// `KernelHeap::get_percpu_stats` under the lock. `None` also if the
    /// heap found is not well formed. Whatever heap is found, there are no
    /// counters for a `cpu` of `MAX_CPUS` or more.
    pub fn get_percpu_stats(&self, cpu: usize) -> (stats: Option<(u64, u64)>)
        ensures
            cpu >= MAX_CPUS ==> stats.is_none(),
    {
        let mut guard = mutex_lock(&self.inner);
        let heap = guarded(&mut guard);
        if heap.is_wf() {
            heap.get_percpu_stats(cpu)
        } else {
            None
        }
    }

    /// `KernelHeap::allocated_size` under the lock: the size of the payload
    /// at `ptr`, canary included, 0 if `ptr` does not pass the checks of
    /// `kfree` or the heap found is not well formed.
    ///
    /// Whatever heap is found: null has no payload, and a payload is a
    /// multiple of the alignment.
    pub fn allocated_size(&self, ptr: usize) -> (size: usize)
        ensures
            ptr == 0 ==> size == 0,
            size != 0 ==> size >= HEAP_ALIGN && size % HEAP_ALIGN == 0,
    {
        let mut guard = mutex_lock(&self.inner);
        let heap = guarded(&mut guard);
        if heap.is_wf() {
            heap.allocated_size(ptr)
        } else {
            0
        }
    }

    /// `KernelHeap::load` under the lock.
    pub fn load(&self, addr: usize) -> (byte: Option<u8>) {
        let mut guard = mutex_lock(&self.inner);
        let heap = guarded(&mut guard);
        heap.load(addr)
    }

    /// `KernelHeap::store` under the lock.
    pub fn store(&self, addr: usize, byte: u8) -> (stored: bool) {
        let mut guard = mutex_lock(&self.inner);
        let heap = guarded(&mut guard);
        heap.store(addr, byte)
    }
}

} // verus!
