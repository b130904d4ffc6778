//! MCS queue lock: fair, and every waiter spins on its own node.
//!
//! Nodes live in a table that the caller owns, and a node is named by its
//! index there. The lock itself is one word, the tail of the queue. A waiting
//! `lock` takes three steps of its own (swap the tail, link behind the
//! predecessor, spin on the own node), so that steps of other CPUs may fall
//! between them; `unlock` may have to wait for a successor that has swapped
//! the tail and not linked itself yet.

use vstd::prelude::*;
use crate::machine::Action;

verus! {

/// A queue node. Each acquisition in progress owns exactly one.
#[derive(Clone, Copy, Debug, PartialEq, Eq, Structural)]
pub struct McsNode {
    /// The node queued behind this one.
    pub next: Option<usize>,
    /// Set while the owner of the node has to wait.
    pub locked: bool,
}

/// The lock: the last node of the queue, `None` when the queue is empty.
pub struct McsLock {
    tail: Option<usize>,
}

/// Where a waiter stands in its acquisition.
#[derive(Clone, Copy, Debug, PartialEq, Eq, Structural)]
pub enum McsPhase {
    /// Nothing done yet.
    Start,
    /// Swapped into the tail behind a predecessor; the link is still to be made.
    Linking,
    /// Linked; spinning on the own node.
    Spinning,
}

/// What one acquisition keeps between its steps.
#[derive(Clone, Copy, Debug, PartialEq, Eq, Structural)]
pub struct McsWaiter {
    /// Where the acquisition stands.
    pub phase: McsPhase,
    /// The node that was the tail when this one was swapped in.
    pub pred: usize,
}

/// A waiter before its first step.
pub open spec fn spec_fresh_waiter() -> McsWaiter {
    McsWaiter { phase: McsPhase::Start, pred: 0 }
}

/// Every link of the table, and the tail, names a node of the table.
pub open spec fn spec_links_valid(tail: Option<usize>, nodes: Seq<McsNode>) -> bool {
    &&& tail matches Some(t) ==> t < nodes.len()
    &&& forall|i: int|
        0 <= i < nodes.len() ==> ((#[trigger] nodes[i]).next matches Some(n) ==> n < nodes.len())
}

/// One step of `lock` with node `node`.
pub open spec fn spec_lock(tail: Option<usize>, nodes: Seq<McsNode>, node: usize, w: McsWaiter)
    -> (Option<usize>, Seq<McsNode>, McsWaiter, Action) {
    match w.phase {
        McsPhase::Start => {
            let queued = nodes.update(node as int, McsNode { next: None, locked: true });
            match tail {
                None => (Some(node), queued, spec_fresh_waiter(), Action::Done),
                Some(pred) => (
                    Some(node),
                    queued,
                    McsWaiter { phase: McsPhase::Linking, pred },
                    Action::Pause(0),
                ),
            }
        },
        McsPhase::Linking => (
            tail,
            nodes.update(
                w.pred as int,
                McsNode { next: Some(node), locked: nodes[w.pred as int].locked },
            ),
            McsWaiter { phase: McsPhase::Spinning, pred: w.pred },
            Action::Pause(0),
        ),
        McsPhase::Spinning => if nodes[node as int].locked {
            (tail, nodes, w, Action::Pause(1))
        } else {
            (tail, nodes, spec_fresh_waiter(), Action::Done)
        },
    }
}

/// `try_lock` with node `node`.
pub open spec fn spec_try_lock(tail: Option<usize>, nodes: Seq<McsNode>, node: usize) -> (
    Option<usize>,
    Seq<McsNode>,
    bool,
) {
    let reset = nodes.update(node as int, McsNode { next: None, locked: false });
    match tail {
        None => (Some(node), reset, true),
        Some(_) => (tail, reset, false),
    }
}

/// One step of `unlock` by the holder, whose node is `node`.
pub open spec fn spec_unlock(tail: Option<usize>, nodes: Seq<McsNode>, node: usize) -> (
    Option<usize>,
    Seq<McsNode>,
    Action,
) {
    match nodes[node as int].next {
        None => if tail == Some(node) {
            (None, nodes, Action::Done)
        } else {
            (tail, nodes, Action::Pause(1))
        },
        Some(next) => (
            tail,
            nodes.update(next as int, McsNode { next: nodes[next as int].next, locked: false }),
            Action::Done,
        ),
    }
}

impl McsNode {
    /// A node that is in no queue.
    pub fn new() -> (n: McsNode)
        ensures
            n == (McsNode { next: None, locked: false }),
    {
        McsNode { next: None, locked: false }
    }
}

impl McsWaiter {
    /// A waiter for one `lock`.
    pub fn new() -> (w: McsWaiter)
        ensures
            w == spec_fresh_waiter(),
    {
        McsWaiter { phase: McsPhase::Start, pred: 0 }
    }
}

impl McsLock {
    /// The last node of the queue.
    pub closed spec fn tail(&self) -> Option<usize> {
        self.tail
    }

    /// A lock with an empty queue.
    pub fn new() -> (l: McsLock)
        ensures
            l.tail().is_none(),
    {
        McsLock { tail: None }
    }

    /// The last node of the queue, `None` when nobody holds or awaits the lock.
    pub fn tail_node(&self) -> (t: Option<usize>)
        ensures
            t == self.tail(),
    {
        self.tail
    }

    /// One step of taking the lock with node `node`.
    ///
    /// The first step resets the node and swaps it into the tail; with no
    /// predecessor the lock is held at once. The second step links the node
    /// behind its predecessor. Every further step looks at the own node
    /// only, and completes when the predecessor has cleared its flag.
    pub fn lock(&mut self, nodes: &mut Vec<McsNode>, node: usize, waiter: &mut McsWaiter) -> (action:
        Action)
        requires
            node < old(nodes).len(),
            old(waiter).phase == McsPhase::Linking ==> old(waiter).pred < old(nodes).len(),
            spec_links_valid(old(self).tail(), old(nodes)@),
        ensures
            (final(self).tail(), final(nodes)@, *final(waiter), action) == spec_lock(
                old(self).tail(),
                old(nodes)@,
                node,
                *old(waiter),
            ),
            spec_links_valid(final(self).tail(), final(nodes)@),
            final(waiter).phase == McsPhase::Linking ==> final(waiter).pred < final(nodes).len(),
    {
        match waiter.phase {
            McsPhase::Start => {
                nodes[node] = McsNode { next: None, locked: true };
                let prev = self.tail;
                self.tail = Some(node);
                match prev {
                    None => {
                        *waiter = McsWaiter::new();
                        Action::Done
                    },
                    Some(pred) => {
                        waiter.phase = McsPhase::Linking;
                        waiter.pred = pred;
                        Action::Pause(0)
                    },
                }
            },
            McsPhase::Linking => {
                let was: bool = nodes[waiter.pred].locked;
                nodes[waiter.pred] = McsNode { next: Some(node), locked: was };
                waiter.phase = McsPhase::Spinning;
                Action::Pause(0)
            },
            McsPhase::Spinning => {
                if nodes[node].locked {
                    Action::Pause(1)
                } else {
                    *waiter = McsWaiter::new();
                    Action::Done
                }
            },
        }
    }

    /// One step of releasing the lock by its holder, whose node is `node`.
    ///
    /// With a successor linked, the successor's flag is cleared. With none,
    /// the queue is emptied if the node is still the tail; if it is not, a
    /// successor is about to link itself, and the holder waits for it.
    pub fn unlock(&mut self, nodes: &mut Vec<McsNode>, node: usize) -> (action: Action)
        requires
            node < old(nodes).len(),
            spec_links_valid(old(self).tail(), old(nodes)@),
        ensures
            (final(self).tail(), final(nodes)@, action) == spec_unlock(
                old(self).tail(),
                old(nodes)@,
                node,
            ),
            spec_links_valid(final(self).tail(), final(nodes)@),
    {
        match nodes[node].next {
            None => {
                let is_tail: bool = match self.tail {
                    Some(t) => t == node,
                    None => false,
                };
                if is_tail {
                    self.tail = None;
                    Action::Done
                } else {
                    Action::Pause(1)
                }
            },
            Some(next) => {
                let link = nodes[next].next;
                nodes[next] = McsNode { next: link, locked: false };
                Action::Done
            },
        }
    }

    /// A single attempt with node `node`: takes the lock if the queue is
    /// empty, and says whether it did. The node is reset either way.
    pub fn try_lock(&mut self, nodes: &mut Vec<McsNode>, node: usize) -> (acquired: bool)
        requires
            node < old(nodes).len(),
            spec_links_valid(old(self).tail(), old(nodes)@),
        ensures
            (final(self).tail(), final(nodes)@, acquired) == spec_try_lock(
                old(self).tail(),
                old(nodes)@,
                node,
            ),
            spec_links_valid(final(self).tail(), final(nodes)@),
    {
        nodes[node] = McsNode { next: None, locked: false };
        match self.tail {
            None => {
                self.tail = Some(node);
                true
            },
            Some(_) => false,
        }
    }
}

} // verus!
