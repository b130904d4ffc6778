//! The queue of an MCS lock, and why it is first in, first out.
//!
//! The lock itself knows the tail of its queue only. The model here keeps,
//! beside the lock word and the nodes, the nodes that have swapped
//! themselves into the tail and have not released yet, in the order of
//! their swaps, and where each of them stands. Every step of `lock`,
//! `try_lock` and `unlock` is a step of the model, in any interleaving.

use vstd::prelude::*;
use crate::machine::Action;
use crate::sync::mcs::{
    McsNode, McsPhase, McsWaiter, spec_fresh_waiter, spec_links_valid, spec_lock, spec_try_lock,
    spec_unlock,
};

verus! {

/// Where a node of the queue stands.
pub enum Stage {
    /// Swapped into the tail behind the node named; not linked yet.
    Linking(usize),
    /// Linked behind its predecessor, or first in the queue; spinning on
    /// its own flag.
    Spinning,
    /// Its `lock` has completed: it holds the lock.
    Holding,
}

/// One lock, the table of nodes, and the acquisitions in progress.
pub struct McsQueue {
    /// The lock word.
    pub tail: Option<usize>,
    /// The table of nodes.
    pub nodes: Seq<McsNode>,
    /// The nodes in the queue, in the order of their swaps into the tail.
    pub order: Seq<usize>,
    /// Where each node of the queue stands.
    pub stage: Map<usize, Stage>,
}

/// The waiter of a node that stands at `stage`.
pub open spec fn spec_waiter(stage: Stage) -> McsWaiter {
    match stage {
        Stage::Linking(pred) => McsWaiter { phase: McsPhase::Linking, pred },
        Stage::Spinning => McsWaiter { phase: McsPhase::Spinning, pred: 0 },
        Stage::Holding => spec_fresh_waiter(),
    }
}

/// Node `i` of the queue, `i` at least 1, waits behind node `i - 1`: its
/// flag is set, and it is linked behind its predecessor or about to be.
pub open spec fn spec_waits_behind(q: McsQueue, i: int) -> bool {
    let node = q.order[i];
    let pred = q.order[i - 1];
    &&& q.nodes[node as int].locked
    &&& (q.stage[node] == Stage::Linking(pred) && q.nodes[pred as int].next.is_none()) || (
    q.stage[node] == Stage::Spinning && q.nodes[pred as int].next == Some(node))
}

/// What holds of the queue at all times.
pub open spec fn spec_inv(q: McsQueue) -> bool {
    &&& spec_links_valid(q.tail, q.nodes)
    &&& q.order.no_duplicates()
    &&& forall|i: int|
        0 <= i < q.order.len() ==> (#[trigger] q.order[i]) < q.nodes.len() && q.stage.dom().contains(
            q.order[i],
        )
    &&& q.tail == if q.order.len() == 0 {
        None
    } else {
        Some(q.order.last())
    }
    &&& q.order.len() > 0 ==> {
        &&& q.nodes[q.order.last() as int].next.is_none()
        &&& q.stage[q.order[0]] == Stage::Holding || (q.stage[q.order[0]] == Stage::Spinning
            && !q.nodes[q.order[0] as int].locked)
    }
    &&& forall|i: int| 1 <= i < q.order.len() ==> #[trigger] spec_waits_behind(q, i)
}

/// The first step of `lock` by a node that is not in the queue: the swap
/// into the tail. The node goes to the end of the queue.
pub open spec fn spec_enqueue(q: McsQueue, node: usize) -> McsQueue {
    let step = spec_lock(q.tail, q.nodes, node, spec_fresh_waiter());
    McsQueue {
        tail: step.0,
        nodes: step.1,
        order: q.order.push(node),
        stage: q.stage.insert(
            node,
            match q.tail {
                None => Stage::Holding,
                Some(pred) => Stage::Linking(pred),
            },
        ),
    }
}

/// A further step of `lock` by a node of the queue that does not hold the
/// lock yet: the link behind the predecessor, or a look at the own flag.
pub open spec fn spec_advance(q: McsQueue, node: usize) -> McsQueue {
    let step = spec_lock(q.tail, q.nodes, node, spec_waiter(q.stage[node]));
    McsQueue {
        tail: step.0,
        nodes: step.1,
        order: q.order,
        stage: q.stage.insert(
            node,
            if step.3 == Action::Done {
                Stage::Holding
            } else {
                Stage::Spinning
            },
        ),
    }
}

/// A step of `unlock` by the node that holds the lock. When the step
/// completes, the node leaves the queue.
pub open spec fn spec_release(q: McsQueue, node: usize) -> McsQueue {
    let step = spec_unlock(q.tail, q.nodes, node);
    if step.2 == Action::Done {
        McsQueue {
            tail: step.0,
            nodes: step.1,
            order: q.order.drop_first(),
            stage: q.stage.remove(node),
        }
    } else {
        McsQueue { tail: step.0, nodes: step.1, ..q }
    }
}

/// `try_lock` by a node that is not in the queue. If it succeeds, the node
/// is the queue.
pub open spec fn spec_try(q: McsQueue, node: usize) -> McsQueue {
    let step = spec_try_lock(q.tail, q.nodes, node);
    if step.2 {
        McsQueue {
            tail: step.0,
            nodes: step.1,
            order: q.order.push(node),
            stage: q.stage.insert(node, Stage::Holding),
        }
    } else {
        McsQueue { tail: step.0, nodes: step.1, ..q }
    }
}

/// An empty queue over any table of nodes is as it should be.
pub proof fn lemma_empty_queue(nodes: Seq<McsNode>)
    requires
        spec_links_valid(None, nodes),
    ensures
        spec_inv(McsQueue { tail: None, nodes, order: Seq::empty(), stage: Map::empty() }),
{
}

/// Only the first of the queue holds the lock, and only the first of the
/// queue has its flag clear.
pub proof fn lemma_first_holds(q: McsQueue, node: usize)
    requires
        spec_inv(q),
        q.order.contains(node),
        q.stage[node] == Stage::Holding || !q.nodes[node as int].locked,
    ensures
        node == q.order[0],
{
    let i = choose|i: int| 0 <= i < q.order.len() && q.order[i] == node;
    if i >= 1 {
        assert(spec_waits_behind(q, i));
    }
}

/// The swap into the tail keeps the queue as it should be, and puts the
/// node behind all that swapped before it.
pub proof fn lemma_enqueue(q: McsQueue, node: usize)
    requires
        spec_inv(q),
        node < q.nodes.len(),
        !q.order.contains(node),
    ensures
        spec_inv(spec_enqueue(q, node)),
        spec_enqueue(q, node).order == q.order.push(node),
        (spec_lock(q.tail, q.nodes, node, spec_fresh_waiter()).3 == Action::Done) == (q.order.len()
            == 0),
{
    let r = spec_enqueue(q, node);
    let n = q.order.len() as int;
    assert forall|i: int| 0 <= i < r.order.len() implies (#[trigger] r.order[i]) < r.nodes.len()
        && r.stage.dom().contains(r.order[i]) by {
        if i < n {
            assert(r.order[i] == q.order[i]);
        }
    }
    assert forall|i: int, j: int| 0 <= i < r.order.len() && 0 <= j < r.order.len() && i
        != j implies r.order[i] != r.order[j] by {
        if i < n && j < n {
            assert(q.order[i] != q.order[j]);
        } else if i < n {
            assert(q.order.contains(q.order[i]));
        } else {
            assert(q.order.contains(q.order[j]));
        }
    }
    assert forall|i: int| 1 <= i < r.order.len() implies #[trigger] spec_waits_behind(r, i) by {
        if i < n {
            assert(spec_waits_behind(q, i));
            assert(r.order[i] == q.order[i]);
            assert(r.order[i - 1] == q.order[i - 1]);
            assert(q.order.contains(q.order[i]));
            assert(q.order.contains(q.order[i - 1]));
        } else {
            assert(r.order[i - 1] == q.order.last());
            assert(q.order.contains(q.order.last()));
        }
    }
    if n > 0 {
        assert(r.order[0] == q.order[0]);
        assert(q.order.contains(q.order[0]));
    }
    assert(r.order.last() == node);
    assert forall|i: int| 0 <= i < r.nodes.len() implies ((#[trigger] r.nodes[i]).next matches Some(
        x,
    ) ==> x < r.nodes.len()) by {
        if i != node {
            assert(r.nodes[i] == q.nodes[i]);
        }
    }
}

/// A further step of `lock` keeps the queue as it should be, and completes
/// for the first of the queue only.
pub proof fn lemma_advance(q: McsQueue, node: usize)
    requires
        spec_inv(q),
        q.order.contains(node),
        q.stage[node] != Stage::Holding,
    ensures
        spec_inv(spec_advance(q, node)),
        spec_advance(q, node).order == q.order,
        spec_advance(q, node).stage[node] == Stage::Holding ==> node == q.order[0],
{
    let r = spec_advance(q, node);
    let k = choose|k: int| 0 <= k < q.order.len() && q.order[k] == node;
    if k >= 1 {
        assert(spec_waits_behind(q, k));
    }
    assert forall|i: int| 0 <= i < r.order.len() implies (#[trigger] r.order[i]) < r.nodes.len()
        && r.stage.dom().contains(r.order[i]) by {
        assert(q.order[i] < q.nodes.len());
    }
    assert forall|i: int| 1 <= i < r.order.len() implies #[trigger] spec_waits_behind(r, i) by {
        assert(spec_waits_behind(q, i));
        assert(q.order[i] < q.nodes.len());
        assert(q.order[i - 1] < q.nodes.len());
        if i != k {
            assert(q.order[i] != q.order[k]);
        }
        if i - 1 != k {
            assert(q.order[i - 1] != q.order[k]);
        }
        if k >= 1 && i != k - 1 {
            assert(q.order[i] != q.order[k - 1]);
        }
        if k >= 1 && i != k {
            assert(q.order[i - 1] != q.order[k - 1]);
        }
    }
    assert forall|i: int| 0 <= i < r.nodes.len() implies ((#[trigger] r.nodes[i]).next matches Some(
        x,
    ) ==> x < r.nodes.len()) by {
        assert(q.nodes[i].next matches Some(x) ==> x < q.nodes.len());
    }
    if k >= 1 {
        assert(q.order[0] != q.order[k]);
        assert(q.order[0] != q.order[k - 1] || k == 1);
        if k < q.order.len() - 1 {
            assert(q.order.last() != q.order[k - 1]);
        }
    }
}

/// A step of `unlock` by the holder keeps the queue as it should be, and
/// takes none but the holder out of the queue, from its front.
pub proof fn lemma_release(q: McsQueue, node: usize)
    requires
        spec_inv(q),
        q.order.contains(node),
        q.stage[node] == Stage::Holding,
    ensures
        spec_inv(spec_release(q, node)),
        node == q.order[0],
        spec_release(q, node).order == q.order || spec_release(q, node).order
            == q.order.drop_first(),
{
    lemma_first_holds(q, node);
    let r = spec_release(q, node);
    let step = spec_unlock(q.tail, q.nodes, node);
    let n = q.order.len() as int;
    if n >= 2 {
        assert(spec_waits_behind(q, 1));
        assert(q.order[1] != q.order[0]);
        assert(q.order.last() != q.order[0]);
    }
    if step.2 == Action::Done {
        assert forall|i: int| 0 <= i < r.order.len() implies (#[trigger] r.order[i])
            < r.nodes.len() && r.stage.dom().contains(r.order[i]) by {
            assert(r.order[i] == q.order[i + 1]);
            assert(q.order[i + 1] != q.order[0]);
        }
        assert forall|i: int, j: int| 0 <= i < r.order.len() && 0 <= j < r.order.len() && i
            != j implies r.order[i] != r.order[j] by {
            assert(q.order[i + 1] != q.order[j + 1]);
        }
        assert forall|i: int| 1 <= i < r.order.len() implies #[trigger] spec_waits_behind(r, i) by {
            assert(spec_waits_behind(q, i + 1));
            assert(r.order[i] == q.order[i + 1]);
            assert(r.order[i - 1] == q.order[i]);
            assert(q.order[i + 1] != q.order[0]);
            assert(q.order[i] != q.order[0]);
            assert(q.order[i + 1] != q.order[1]);
            assert(q.order[i + 1] < q.nodes.len());
            assert(q.order[i] < q.nodes.len());
        }
        if r.order.len() > 0 {
            assert(r.order[0] == q.order[1]);
            assert(r.order.last() == q.order.last());
            assert(q.order[1] < q.nodes.len());
        }
        assert forall|i: int| 0 <= i < r.nodes.len() implies ((#[trigger] r.nodes[i]).next matches Some(
            x,
        ) ==> x < r.nodes.len()) by {
            assert(q.nodes[i].next matches Some(x) ==> x < q.nodes.len());
        }
    } else {
        assert forall|i: int| 1 <= i < r.order.len() implies #[trigger] spec_waits_behind(r, i) by {
            assert(spec_waits_behind(q, i));
        }
    }
}

/// `try_lock` keeps the queue as it should be, and succeeds on an empty
/// queue only.
pub proof fn lemma_try(q: McsQueue, node: usize)
    requires
        spec_inv(q),
        node < q.nodes.len(),
        !q.order.contains(node),
    ensures
        spec_inv(spec_try(q, node)),
        spec_try_lock(q.tail, q.nodes, node).2 == (q.order.len() == 0),
{
    let r = spec_try(q, node);
    assert forall|i: int| 0 <= i < r.nodes.len() implies ((#[trigger] r.nodes[i]).next matches Some(
        x,
    ) ==> x < r.nodes.len()) by {
        if i != node {
            assert(r.nodes[i] == q.nodes[i]);
        }
    }
    if q.order.len() > 0 {
        assert forall|i: int| 0 <= i < q.order.len() implies q.order[i] != node by {
            assert(q.order.contains(q.order[i]));
        }
        assert forall|i: int| 1 <= i < r.order.len() implies #[trigger] spec_waits_behind(r, i) by {
            assert(spec_waits_behind(q, i));
        }
    } else {
        assert(r.order.len() == 1);
        assert(r.order[0] == node);
    }
}

} // verus!
