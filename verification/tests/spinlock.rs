use kernel_core::machine::Action;
use kernel_core::sync::spinlock::{
    adaptive_pause, elapsed, linear_backoff, IrqAction, IrqWaiter, SpinLock, SpinWaiter,
    CONTENTION_THRESHOLD,
    DEADLOCK_TIMEOUT_CYCLES, MAX_BACKOFF_CYCLES, MAX_HOLD_TIME_CYCLES, NO_OWNER, YIELD_THRESHOLD,
};
use kernel_core::sync::spinmutex::SpinMutex;

#[test]
fn try_lock_records_owner_and_time() {
    let mut l = SpinLock::new();
    assert!(!l.is_locked());
    assert_eq!(l.owner_cpu(), NO_OWNER);
    assert_eq!(l.lock_order(), 0);
    assert!(l.try_lock(3, 1000));
    assert!(l.is_locked());
    assert_eq!(l.owner_cpu(), 3);
    assert!(!l.try_lock(4, 1001));
    assert_eq!(l.owner_cpu(), 3);
    l.unlock();
    assert!(!l.is_locked());
    assert_eq!(l.owner_cpu(), NO_OWNER);
}

#[test]
fn second_cpu_waits_until_unlock() {
    let mut l = SpinLock::new();
    let mut w1 = SpinWaiter::new(10);
    assert_eq!(l.lock(&mut w1, 1, 10), Action::Done);
    assert_eq!(l.owner_cpu(), 1);
    let mut w2 = SpinWaiter::new(20);
    assert_eq!(l.lock(&mut w2, 2, 20), Action::Pause(1));
    assert_eq!(l.lock(&mut w2, 2, 30), Action::Pause(2));
    assert_eq!(l.owner_cpu(), 1);
    l.unlock();
    assert_eq!(l.owner_cpu(), NO_OWNER);
    assert_eq!(l.lock(&mut w2, 2, 40), Action::Done);
    assert_eq!(l.owner_cpu(), 2);
}

#[test]
fn lock_order_is_kept() {
    let l = SpinLock::new_with_order(17);
    assert_eq!(l.lock_order(), 17);
    assert!(!l.is_locked());
    assert_eq!(l.contention_level(), 0);
}

#[test]
fn pauses_double_up_to_sixty_four() {
    let expected = [1u32, 2, 4, 8, 16, 32, 64, 64, 64];
    for (i, &count) in expected.iter().enumerate() {
        assert_eq!(adaptive_pause(i as u32), count);
    }
    assert_eq!(adaptive_pause(u32::MAX), 64);
    let mut l = SpinLock::new();
    assert!(l.try_lock(0, 1));
    let mut w = SpinWaiter::new(1);
    for &count in expected.iter() {
        assert_eq!(l.lock(&mut w, 1, 2), Action::Pause(count));
    }
    assert_eq!(w.rounds(), 9);
}

#[test]
fn linear_backoff_is_bounded() {
    assert_eq!(linear_backoff(0), 8);
    assert_eq!(linear_backoff(1), 16);
    assert_eq!(linear_backoff(31), 256);
    assert_eq!(linear_backoff(63), 512);
    assert_eq!(linear_backoff(64), MAX_BACKOFF_CYCLES);
    assert_eq!(linear_backoff(u32::MAX), MAX_BACKOFF_CYCLES);
}

#[test]
fn elapsed_is_safe_against_wrap() {
    assert_eq!(elapsed(10, 3), 7);
    assert_eq!(elapsed(3, u64::MAX - 1), 5);
    assert_eq!(elapsed(0, 0), 0);
}

fn contended(lock: &mut SpinLock, level: u32) {
    assert!(lock.try_lock(9, 1));
    for _ in 0..level {
        assert_eq!(
            lock.handle_potential_deadlock(1, 2),
            Action::Delay(MAX_BACKOFF_CYCLES)
        );
    }
    assert_eq!(lock.contention_level(), level);
}

#[test]
fn medium_contention_delays_then_yields() {
    let mut l = SpinLock::new();
    contended(&mut l, CONTENTION_THRESHOLD);
    let mut w = SpinWaiter::new(1);
    for round in 1..YIELD_THRESHOLD {
        assert_eq!(l.lock(&mut w, 1, 2), Action::Delay(linear_backoff(round)));
    }
    assert_eq!(l.lock(&mut w, 1, 2), Action::Yield);
    assert_eq!(w.rounds(), 0);
    assert_eq!(l.lock(&mut w, 1, 2), Action::Delay(16));
}

#[test]
fn deadlock_handler_verdicts() {
    let mut l = SpinLock::new();
    assert!(l.try_lock(5, 100));
    assert_eq!(l.handle_potential_deadlock(5, 200), Action::SelfDeadlock);
    assert_eq!(l.contention_level(), 0);
    assert_eq!(
        l.handle_potential_deadlock(6, 100 + MAX_HOLD_TIME_CYCLES),
        Action::Delay(MAX_BACKOFF_CYCLES)
    );
    assert_eq!(l.contention_level(), 1);
    assert_eq!(
        l.handle_potential_deadlock(6, 101 + MAX_HOLD_TIME_CYCLES),
        Action::Fatal
    );
    assert_eq!(l.contention_level(), 1);
    assert!(l.is_locked());
    assert_eq!(l.owner_cpu(), 5);
}

#[test]
fn waiter_past_the_timeout_asks_the_handler() {
    let mut l = SpinLock::new();
    assert!(l.try_lock(5, 100));
    let mut w = SpinWaiter::new(100);
    assert_eq!(l.lock(&mut w, 6, 100 + DEADLOCK_TIMEOUT_CYCLES), Action::Pause(1));
    assert_eq!(l.lock(&mut w, 6, 101 + DEADLOCK_TIMEOUT_CYCLES), Action::Fatal);
    assert_eq!(l.lock(&mut w, 5, 101 + DEADLOCK_TIMEOUT_CYCLES), Action::SelfDeadlock);
    assert_eq!(w.rounds(), 1);
}

#[test]
fn unlock_decays_contention_without_underflow() {
    let mut l = SpinLock::new();
    contended(&mut l, 2);
    l.unlock();
    assert_eq!(l.contention_level(), 1);
    l.unlock();
    assert_eq!(l.contention_level(), 0);
    l.unlock();
    assert_eq!(l.contention_level(), 0);
    assert!(!l.is_locked());
}

#[test]
fn fast_path_takes_a_free_lock_only() {
    let mut l = SpinLock::new();
    assert!(l.try_lock_fast(2, 50));
    assert!(!l.try_lock_fast(3, 60));
    assert_eq!(l.owner_cpu(), 2);
    assert_eq!(Action::Done.is_done(), true);
    assert_eq!(Action::Yield.is_done(), false);
}

#[test]
fn mutex_guard_releases_on_drop() {
    let mut m = SpinMutex::new(5u32);
    assert!(!m.is_locked());
    assert_eq!(m.contention_level(), 0);
    {
        let mut g = m.try_lock(1, 10).unwrap();
        assert_eq!(*g.get(), 5);
        g.set(7);
    }
    assert!(!m.is_locked());
    {
        let mut w = SpinWaiter::new(20);
        let g = m.lock(&mut w, 2, 20);
        assert!(g.is_ok());
        assert_eq!(*g.unwrap().get(), 7);
    }
    assert!(!m.is_locked());
    assert_eq!(m.into_inner(), 7);
}

#[test]
fn irq_save_saves_then_disables_then_takes() {
    let mut l = SpinLock::new();
    let mut w = IrqWaiter::new(5);
    assert_eq!(l.lock_irq_save(&mut w, 1, 5, 0x202), IrqAction::DisableInterrupts);
    assert!(!l.is_locked());
    assert_eq!(l.lock_irq_save(&mut w, 1, 6, 0x002), IrqAction::Acquired(0x202));
    assert_eq!(l.owner_cpu(), 1);
    let mut other = IrqWaiter::new(7);
    assert_eq!(l.lock_irq_save(&mut other, 2, 7, 0x200), IrqAction::DisableInterrupts);
    assert_eq!(
        l.lock_irq_save(&mut other, 2, 8, 0),
        IrqAction::Wait(Action::Pause(1))
    );
    assert_eq!(l.unlock_irq_restore(0x202), 0x202);
    assert!(!l.is_locked());
    assert_eq!(l.lock_irq_save(&mut other, 2, 9, 0), IrqAction::Acquired(0x200));
}
