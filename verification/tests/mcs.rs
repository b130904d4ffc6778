use kernel_core::machine::Action;
use kernel_core::sync::mcs::{McsLock, McsNode, McsPhase, McsWaiter};
use kernel_core::sync::mcsmutex::McsMutex;

fn nodes(n: usize) -> Vec<McsNode> {
    let mut v = Vec::new();
    for _ in 0..n {
        v.push(McsNode::new());
    }
    v
}

#[test]
fn uncontended_lock_and_unlock() {
    let mut lock = McsLock::new();
    let mut pool = nodes(2);
    let mut w = McsWaiter::new();
    assert_eq!(lock.tail_node(), None);
    assert_eq!(lock.lock(&mut pool, 0, &mut w), Action::Done);
    assert_eq!(lock.tail_node(), Some(0));
    assert_eq!(pool[0], McsNode { next: None, locked: true });
    assert_eq!(lock.unlock(&mut pool, 0), Action::Done);
    assert_eq!(lock.tail_node(), None);
}

#[test]
fn waiters_acquire_in_swap_order() {
    let mut lock = McsLock::new();
    let mut pool = nodes(3);
    let mut w0 = McsWaiter::new();
    let mut w1 = McsWaiter::new();
    let mut w2 = McsWaiter::new();
    assert_eq!(lock.lock(&mut pool, 0, &mut w0), Action::Done);
    assert_eq!(lock.lock(&mut pool, 1, &mut w1), Action::Pause(0));
    assert_eq!(w1, McsWaiter { phase: McsPhase::Linking, pred: 0 });
    assert_eq!(lock.lock(&mut pool, 2, &mut w2), Action::Pause(0));
    assert_eq!(w2, McsWaiter { phase: McsPhase::Linking, pred: 1 });
    assert_eq!(lock.tail_node(), Some(2));
    assert_eq!(lock.lock(&mut pool, 2, &mut w2), Action::Pause(0));
    assert_eq!(lock.lock(&mut pool, 1, &mut w1), Action::Pause(0));
    assert_eq!(pool[0].next, Some(1));
    assert_eq!(pool[1].next, Some(2));
    assert_eq!(lock.lock(&mut pool, 2, &mut w2), Action::Pause(1));
    assert_eq!(lock.lock(&mut pool, 1, &mut w1), Action::Pause(1));
    assert_eq!(lock.unlock(&mut pool, 0), Action::Done);
    assert_eq!(lock.lock(&mut pool, 2, &mut w2), Action::Pause(1));
    assert_eq!(lock.lock(&mut pool, 1, &mut w1), Action::Done);
    assert_eq!(lock.unlock(&mut pool, 1), Action::Done);
    assert_eq!(lock.lock(&mut pool, 2, &mut w2), Action::Done);
    assert_eq!(lock.tail_node(), Some(2));
    assert_eq!(lock.unlock(&mut pool, 2), Action::Done);
    assert_eq!(lock.tail_node(), None);
}

#[test]
fn unlock_waits_for_a_successor_that_has_not_linked() {
    let mut lock = McsLock::new();
    let mut pool = nodes(2);
    let mut w0 = McsWaiter::new();
    let mut w1 = McsWaiter::new();
    assert_eq!(lock.lock(&mut pool, 0, &mut w0), Action::Done);
    assert_eq!(lock.lock(&mut pool, 1, &mut w1), Action::Pause(0));
    assert_eq!(lock.unlock(&mut pool, 0), Action::Pause(1));
    assert_eq!(lock.tail_node(), Some(1));
    assert_eq!(lock.lock(&mut pool, 1, &mut w1), Action::Pause(0));
    assert_eq!(lock.unlock(&mut pool, 0), Action::Done);
    assert!(!pool[1].locked);
    assert_eq!(lock.lock(&mut pool, 1, &mut w1), Action::Done);
}

#[test]
fn try_lock_takes_an_empty_queue_only() {
    let mut lock = McsLock::new();
    let mut pool = nodes(2);
    assert!(lock.try_lock(&mut pool, 0));
    assert_eq!(pool[0], McsNode { next: None, locked: false });
    assert!(!lock.try_lock(&mut pool, 1));
    assert_eq!(lock.tail_node(), Some(0));
    assert_eq!(lock.unlock(&mut pool, 0), Action::Done);
    assert!(lock.try_lock(&mut pool, 1));
}

#[test]
fn mcs_mutex_hands_out_the_value() {
    let mut m = McsMutex::new(String::from("a"));
    let mut pool = nodes(2);
    {
        let mut g = m.try_lock(&mut pool, 0).unwrap();
        assert_eq!(g.get().as_str(), "a");
        g.set(String::from("b"));
        assert_eq!(g.unlock(&mut pool), Action::Done);
    }
    {
        let mut w = McsWaiter::new();
        let r = m.lock(&mut pool, 1, &mut w);
        assert!(r.is_ok());
        let mut g = r.unwrap();
        assert_eq!(g.get().as_str(), "b");
        assert_eq!(g.unlock(&mut pool), Action::Done);
    }
    assert!(m.try_lock(&mut pool, 0).is_some());
    assert_eq!(m.into_inner(), "b");
}
