//! Data behind an MCS lock.

use vstd::prelude::*;
use crate::machine::Action;
use crate::sync::mcs::{
    McsLock, McsNode, McsPhase, McsWaiter, spec_links_valid, spec_lock, spec_try_lock, spec_unlock,
};

verus! {

/// A value that is reached through its MCS lock only.
pub struct McsMutex<T> {
    lock: McsLock,
    data: T,
}

/// The right to the value of an `McsMutex`. The lock is released by
/// `unlock`, which may take more than one step.
pub struct McsGuard<'a, T> {
    lock: &'a mut McsLock,
    node: usize,
    data: &'a mut T,
}

impl<'a, T> McsGuard<'a, T> {
    /// The value behind the lock.
    pub closed spec fn value(&self) -> T {
        *self.data
    }

    /// The tail of the queue of the lock.
    pub closed spec fn tail(&self) -> Option<usize> {
        self.lock.tail()
    }

    /// The node with which the lock was taken.
    pub closed spec fn node(&self) -> usize {
        self.node
    }

    fn new(lock: &'a mut McsLock, node: usize, data: &'a mut T) -> (g: McsGuard<'a, T>)
        ensures
            g.value() == *old(data),
            g.tail() == old(lock).tail(),
            g.node() == node,
    {
        McsGuard { lock, node, data }
    }

    /// The value behind the lock.
    pub fn get(&self) -> (r: &T)
        ensures
            *r == self.value(),
    {
        &*self.data
    }

    /// Puts `value` behind the lock.
    pub fn set(&mut self, value: T)
        ensures
            final(self).value() == value,
            final(self).tail() == old(self).tail(),
            final(self).node() == old(self).node(),
    {
        *self.data = value;
    }

    /// One step of releasing the lock, as `McsLock::unlock`. The lock is
    /// released when the step returns `Action::Done`.
    pub fn unlock(&mut self, nodes: &mut Vec<McsNode>) -> (action: Action)
        requires
            old(self).node() < old(nodes).len(),
            spec_links_valid(old(self).tail(), old(nodes)@),
        ensures
            (final(self).tail(), final(nodes)@, action) == spec_unlock(
                old(self).tail(),
                old(nodes)@,
                old(self).node(),
            ),
            spec_links_valid(final(self).tail(), final(nodes)@),
            final(self).value() == old(self).value(),
            final(self).node() == old(self).node(),
    {
        self.lock.unlock(nodes, self.node)
    }
}

impl<T> McsMutex<T> {
    /// The value behind the lock.
    pub closed spec fn value(&self) -> T {
        self.data
    }

    /// The tail of the queue of the lock.
    pub closed spec fn tail(&self) -> Option<usize> {
        self.lock.tail()
    }

    /// A mutex around `data`, with an empty queue.
    pub fn new(data: T) -> (m: McsMutex<T>)
        ensures
            m.value() == data,
            m.tail().is_none(),
    {
        McsMutex { lock: McsLock::new(), data }
    }

    /// One step of taking the lock with node `node`, as `McsLock::lock`:
    /// the guard, when the step completes the acquisition, else the action
    /// to take before the next step.
    pub fn lock<'a>(
        &'a mut self,
        nodes: &mut Vec<McsNode>,
        node: usize,
        waiter: &mut McsWaiter,
    ) -> (r: Result<McsGuard<'a, T>, Action>)
        requires
            node < old(nodes).len(),
            old(waiter).phase == McsPhase::Linking ==> old(waiter).pred < old(nodes).len(),
            spec_links_valid(old(self).tail(), old(nodes)@),
        ensures
            spec_links_valid(
                spec_lock(old(self).tail(), old(nodes)@, node, *old(waiter)).0,
                final(nodes)@,
            ),
            final(nodes)@ == spec_lock(old(self).tail(), old(nodes)@, node, *old(waiter)).1,
            *final(waiter) == spec_lock(old(self).tail(), old(nodes)@, node, *old(waiter)).2,
            final(waiter).phase == McsPhase::Linking ==> final(waiter).pred < final(nodes).len(),
            r.is_ok() == (spec_lock(old(self).tail(), old(nodes)@, node, *old(waiter)).3
                == Action::Done),
            r matches Ok(guard) ==> {
                &&& guard.value() == old(self).value()
                &&& guard.node() == node
                &&& guard.tail() == spec_lock(old(self).tail(), old(nodes)@, node, *old(waiter)).0
            },
            r matches Err(action) ==> {
                &&& action == spec_lock(old(self).tail(), old(nodes)@, node, *old(waiter)).3
                &&& final(self).value() == old(self).value()
                &&& final(self).tail() == spec_lock(
                    old(self).tail(),
                    old(nodes)@,
                    node,
                    *old(waiter),
                ).0
            },
    {
        let action: Action = self.lock.lock(nodes, node, waiter);
        if action.is_done() {
            Ok(McsGuard::new(&mut self.lock, node, &mut self.data))
        } else {
            Err(action)
        }
    }

    /// A single attempt with node `node`: the guard, if the queue was
    /// empty.
    pub fn try_lock<'a>(&'a mut self, nodes: &mut Vec<McsNode>, node: usize) -> (r: Option<
        McsGuard<'a, T>,
    >)
        requires
            node < old(nodes).len(),
            spec_links_valid(old(self).tail(), old(nodes)@),
        ensures
            final(nodes)@ == spec_try_lock(old(self).tail(), old(nodes)@, node).1,
            r.is_some() == spec_try_lock(old(self).tail(), old(nodes)@, node).2,
            r.is_some() == old(self).tail().is_none(),
            r matches Some(guard) ==> {
                &&& guard.value() == old(self).value()
                &&& guard.node() == node
                &&& guard.tail() == Some(node)
            },
            r.is_none() ==> final(self).value() == old(self).value() && final(self).tail() == old(self).tail(),
    {
        if self.lock.try_lock(nodes, node) {
            Some(McsGuard::new(&mut self.lock, node, &mut self.data))
        } else {
            None
        }
    }

    /// The value, out of the mutex.
    pub fn into_inner(self) -> (data: T)
        ensures
            data == self.value(),
    {
        self.data
    }
}

} // verus!
