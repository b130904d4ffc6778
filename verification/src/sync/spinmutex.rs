//! Data behind a spinlock.

use vstd::prelude::*;
use crate::machine::Action;
use crate::sync::spinlock::{SpinLock, SpinWaiter};

verus! {

/// A value that is reached through its spinlock only.
pub struct SpinMutex<T> {
    lock: SpinLock,
    data: T,
}

/// The right to the value of a `SpinMutex`, for as long as the guard lives.
/// Dropping the guard releases the lock.
pub struct SpinLockGuard<'a, T> {
    lock: &'a mut SpinLock,
    data: &'a mut T,
}

impl<'a, T> SpinLockGuard<'a, T> {
    /// The value behind the lock.
    pub closed spec fn value(&self) -> T {
        *self.data
    }

    /// The lock that the guard holds.
    pub closed spec fn held(&self) -> SpinLock {
        *self.lock
    }

    fn new(lock: &'a mut SpinLock, data: &'a mut T) -> (g: SpinLockGuard<'a, T>)
        ensures
            g.value() == *old(data),
            g.held() == *old(lock),
    {
        SpinLockGuard { lock, data }
    }

    /// The value behind the lock.
    pub fn get(&self) -> (r: &T)
        ensures
            *r == self.value(),
    {
        &*self.data
    }

    /// Puts `value` behind the lock.
    pub fn set(&mut self, value: T)
        ensures
            final(self).value() == value,
            final(self).held() == old(self).held(),
    {
        *self.data = value;
    }
}

impl<'a, T> Drop for SpinLockGuard<'a, T> {
    fn drop(&mut self)
        opens_invariants none
        no_unwind
    {
        self.lock.unlock();
    }
}

impl<T> SpinMutex<T> {
    /// The value behind the lock.
    pub closed spec fn value(&self) -> T {
        self.data
    }

    /// The lock.
    pub closed spec fn spinlock(&self) -> SpinLock {
        self.lock
    }

    /// A mutex around `data`, unlocked.
    pub fn new(data: T) -> (m: SpinMutex<T>)
        ensures
            m.value() == data,
            !m.spinlock().locked(),
            m.spinlock().wf(),
    {
        SpinMutex { lock: SpinLock::new(), data }
    }

    /// A single attempt: the guard, if the lock was free.
    pub fn try_lock(&mut self, cpu_id: u32, now: u64) -> (g: Option<SpinLockGuard<'_, T>>)
        ensures
            g.is_some() == !old(self).spinlock().locked(),
            g matches Some(guard) ==> guard.value() == old(self).value() && guard.held().taken_by(
                old(self).spinlock(),
                cpu_id,
                now,
            ),
            g.is_none() ==> final(self).value() == old(self).value() && final(self).spinlock()
                == old(self).spinlock(),
    {
        if self.lock.try_lock(cpu_id, now) {
            Some(SpinLockGuard::new(&mut self.lock, &mut self.data))
        } else {
            None
        }
    }

    /// One round of a waiting acquisition, as `SpinLock::lock`: the guard,
    /// if the lock was free, else the action to take before the next round.
    pub fn lock(&mut self, waiter: &mut SpinWaiter, cpu_id: u32, now: u64) -> (r: Result<
        SpinLockGuard<'_, T>,
        Action,
    >)
        ensures
            r.is_ok() == !old(self).spinlock().locked(),
            r matches Ok(guard) ==> guard.value() == old(self).value() && guard.held().taken_by(
                old(self).spinlock(),
                cpu_id,
                now,
            ),
            r matches Err(action) ==> {
                &&& action != Action::Done
                &&& final(self).value() == old(self).value()
                &&& final(self).spinlock().attempted_from(old(self).spinlock(), cpu_id, now, false)
                &&& action == SpinLock::spec_round(
                    old(self).spinlock(),
                    *old(waiter),
                    cpu_id,
                    now,
                )
            },
    {
        let action: Action = self.lock.lock(waiter, cpu_id, now);
        if action.is_done() {
            Ok(SpinLockGuard::new(&mut self.lock, &mut self.data))
        } else {
            Err(action)
        }
    }

    /// Whether the lock is held.
    pub fn is_locked(&self) -> (r: bool)
        ensures
            r == self.spinlock().locked(),
    {
        self.lock.is_locked()
    }

    /// The current contention level of the lock.
    pub fn contention_level(&self) -> (r: u32)
        ensures
            r == self.spinlock().contention(),
    {
        self.lock.contention_level()
    }

    /// The value, out of the mutex.
    pub fn into_inner(self) -> (data: T)
        ensures
            data == self.value(),
    {
        self.data
    }
}

} // verus!
