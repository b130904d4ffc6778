//! Pools of handles: a fixed number of slots, given out lowest first.
//!
//! The host keeps its locks in static tables and names a lock by its slot.
//! The pool says which slots are in use.

use vstd::prelude::*;

verus! {

/// Which slots of a table are in use.
pub struct HandlePool {
    used: Vec<bool>,
}

impl View for HandlePool {
    type V = Seq<bool>;

    closed spec fn view(&self) -> Seq<bool> {
        self.used@
    }
}

/// The lowest slot from `from` on that is free, the number of slots if
/// there is none.
pub open spec fn spec_first_free(used: Seq<bool>, from: int) -> int
    decreases used.len() - from,
{
    if from < 0 || from >= used.len() {
        used.len() as int
    } else if !used[from] {
        from
    } else {
        spec_first_free(used, from + 1)
    }
}

impl HandlePool {
    /// A pool of `capacity` slots, all free.
    pub fn new(capacity: usize) -> (pool: HandlePool)
        ensures
            pool@.len() == capacity,
            forall|i: int| 0 <= i < capacity ==> !#[trigger] pool@[i],
    {
        HandlePool { used: vec![false; capacity] }
    }

    /// The number of slots.
    pub fn capacity(&self) -> (n: usize)
        ensures
            n == self@.len(),
    {
        self.used.len()
    }

    /// Whether slot `slot` is in use; `false` for a slot the pool has not.
    pub fn is_used(&self, slot: usize) -> (r: bool)
        ensures
            r == (slot < self@.len() && self@[slot as int]),
    {
        slot < self.used.len() && self.used[slot]
    }

    /// Takes the lowest free slot and returns it, `None` when every slot
    /// is in use.
    pub fn acquire(&mut self) -> (slot: Option<usize>)
        ensures
            slot.is_some() == (spec_first_free(old(self)@, 0) < old(self)@.len()),
            slot matches Some(s) ==> {
                &&& s == spec_first_free(old(self)@, 0)
                &&& s < old(self)@.len()
                &&& !old(self)@[s as int]
                &&& forall|i: int| 0 <= i < s ==> #[trigger] old(self)@[i]
                &&& final(self)@ == old(self)@.update(s as int, true)
            },
            slot.is_none() ==> final(self)@ == old(self)@ && forall|i: int|
                0 <= i < old(self)@.len() ==> #[trigger] old(self)@[i],
    {
        let mut i: usize = 0;
        while i < self.used.len()
            invariant
                i <= self.used.len(),
                self@ == old(self)@,
                spec_first_free(self@, 0) == spec_first_free(self@, i as int),
                forall|k: int| 0 <= k < i ==> #[trigger] self@[k],
            decreases self.used.len() - i,
        {
            if !self.used[i] {
                self.used[i] = true;
                return Some(i);
            }
            i = i + 1;
        }
        None
    }

    /// Gives slot `slot` back. A slot the pool has not is ignored.
    pub fn release(&mut self, slot: usize)
        ensures
            final(self)@ == if slot < old(self)@.len() {
                old(self)@.update(slot as int, false)
            } else {
                old(self)@
            },
    {
        if slot < self.used.len() {
            self.used[slot] = false;
        }
    }
}

} // verus!
