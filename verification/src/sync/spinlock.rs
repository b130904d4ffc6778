//! Adaptive test-and-set spinlock with owner tracking and deadlock detection.
//!
//! The lock word and its bookkeeping are plain fields; every method is one
//! indivisible step of the protocol. Acquisition that may have to wait is
//! [`SpinLock::lock`]: each call is one round, and the returned
//! [`Action`] says how the caller backs off before the next round.

use vstd::prelude::*;
use crate::machine::Action;

verus! {

/// Cycles a waiter spins before it suspects a deadlock.
pub const DEADLOCK_TIMEOUT_CYCLES: u64 = 100_000_000;

/// Upper bound of any backoff delay, in cycles.
pub const MAX_BACKOFF_CYCLES: u64 = 512;

/// Step of the linear backoff, in cycles.
pub const BASE_BACKOFF_CYCLES: u64 = 8;

/// Contention level below which a waiter only pauses.
pub const CONTENTION_THRESHOLD: u32 = 8;

/// Number of rounds after which a waiter under contention yields.
pub const YIELD_THRESHOLD: u32 = 32;

/// Cycles an owner may hold the lock before a waiter declares it stuck.
pub const MAX_HOLD_TIME_CYCLES: u64 = 50_000_000;

/// Largest exponent of the pause count: 64 pauses per round.
pub const MAX_PAUSE_EXPONENT: u32 = 6;

/// Value of `owner_cpu` while nobody holds the lock.
pub const NO_OWNER: u32 = u32::MAX;

/// Number of pause hints of round `iteration`: 1, 2, 4, ... capped at 64.
pub open spec fn spec_adaptive_pause(iteration: u32) -> u32 {
    if iteration == 0 {
        1
    } else if iteration == 1 {
        2
    } else if iteration == 2 {
        4
    } else if iteration == 3 {
        8
    } else if iteration == 4 {
        16
    } else if iteration == 5 {
        32
    } else {
        64
    }
}

/// Delay of the linear backoff in round `iteration`:
/// `BASE + iteration * BASE` cycles, never above `MAX_BACKOFF_CYCLES`.
pub open spec fn spec_linear_backoff(iteration: u32) -> u64 {
    if BASE_BACKOFF_CYCLES + iteration * BASE_BACKOFF_CYCLES <= MAX_BACKOFF_CYCLES {
        (BASE_BACKOFF_CYCLES + iteration * BASE_BACKOFF_CYCLES) as u64
    } else {
        MAX_BACKOFF_CYCLES
    }
}

/// Cycles from `earlier` to `now` on a counter that wraps at 2^64.
pub open spec fn spec_elapsed(now: u64, earlier: u64) -> u64 {
    if now >= earlier {
        (now - earlier) as u64
    } else {
        (now + 0x1_0000_0000_0000_0000 - earlier) as u64
    }
}

/// The number of pause hints to issue in round `iteration`.
pub fn adaptive_pause(iteration: u32) -> (count: u32)
    ensures
        count == spec_adaptive_pause(iteration),
        1 <= count <= 64,
{
    let mut count: u32 = 1;
    let mut i: u32 = 0;
    while i < iteration && i < MAX_PAUSE_EXPONENT
        invariant
            i <= MAX_PAUSE_EXPONENT,
            i <= iteration,
            count == spec_adaptive_pause(i),
        decreases MAX_PAUSE_EXPONENT - i,
    {
        count = count * 2;
        i = i + 1;
    }
    count
}

/// The delay, in cycles, of the linear backoff in round `iteration`.
pub fn linear_backoff(iteration: u32) -> (delay: u64)
    ensures
        delay == spec_linear_backoff(iteration),
        BASE_BACKOFF_CYCLES <= delay <= MAX_BACKOFF_CYCLES,
{
    let linear: u64 = BASE_BACKOFF_CYCLES + (iteration as u64) * BASE_BACKOFF_CYCLES;
    if linear <= MAX_BACKOFF_CYCLES {
        linear
    } else {
        MAX_BACKOFF_CYCLES
    }
}

/// Cycles elapsed from `earlier` to `now`, safe against wrap of the counter.
pub fn elapsed(now: u64, earlier: u64) -> (cycles: u64)
    ensures
        cycles == spec_elapsed(now, earlier),
{
    now.wrapping_sub(earlier)
}

/// The lock record.
pub struct SpinLock {
    locked: bool,
    contention_count: u32,
    owner_cpu: u32,
    acquire_time: u64,
    lock_order: u32,
}

/// What one acquisition keeps between its rounds.
#[derive(Clone, Copy, Debug, PartialEq, Eq, Structural)]
pub struct SpinWaiter {
    start: u64,
    attempts: u32,
    pause_exponent: u32,
}

impl SpinWaiter {
    /// A waiter whose acquisition starts at timestamp `start`.
    pub fn new(start: u64) -> (w: SpinWaiter)
        ensures
            w.start() == start,
            w.attempts() == 0,
            w.pause_exponent() == 0,
    {
        SpinWaiter { start, attempts: 0, pause_exponent: 0 }
    }

    /// Timestamp at which the acquisition began.
    pub closed spec fn start(&self) -> u64 {
        self.start
    }

    /// Rounds lost since the last yield.
    pub closed spec fn attempts(&self) -> u32 {
        self.attempts
    }

    /// Exponent of the next pause count.
    pub closed spec fn pause_exponent(&self) -> u32 {
        self.pause_exponent
    }

    /// Rounds lost since the last yield.
    pub fn rounds(&self) -> (n: u32)
        ensures
            n == self.attempts(),
    {
        self.attempts
    }
}

/// The waiter after a round that did not acquire, and the action of that
/// round, as a function of the contention level seen.
pub open spec fn spec_backoff(w: SpinWaiter, contention: u32) -> (u32, u32, Action) {
    let attempts: u32 = if w.attempts() < u32::MAX {
        (w.attempts() + 1) as u32
    } else {
        u32::MAX
    };
    if contention < CONTENTION_THRESHOLD {
        (
            attempts,
            if w.pause_exponent() < MAX_PAUSE_EXPONENT {
                (w.pause_exponent() + 1) as u32
            } else {
                MAX_PAUSE_EXPONENT
            },
            Action::Pause(spec_adaptive_pause(w.pause_exponent())),
        )
    } else if attempts < YIELD_THRESHOLD {
        (attempts, w.pause_exponent(), Action::Delay(spec_linear_backoff(attempts)))
    } else {
        (0u32, 0u32, Action::Yield)
    }
}

impl SpinLock {
    /// Whether the lock word is set.
    pub closed spec fn locked(&self) -> bool {
        self.locked
    }

    /// The advisory contention counter.
    pub closed spec fn contention(&self) -> u32 {
        self.contention_count
    }

    /// The CPU recorded as owner, `NO_OWNER` while unheld.
    pub closed spec fn owner(&self) -> u32 {
        self.owner_cpu
    }

    /// The timestamp recorded at acquisition, 0 while unheld.
    pub closed spec fn acquired_at(&self) -> u64 {
        self.acquire_time
    }

    /// The rank given to the lock at creation.
    pub closed spec fn order(&self) -> u32 {
        self.lock_order
    }

    /// An unheld lock names no owner and no acquisition time.
    pub open spec fn wf(&self) -> bool {
        !self.locked() ==> self.owner() == NO_OWNER && self.acquired_at() == 0
    }

    /// The lock as `cpu_id` holds it from timestamp `now` on.
    pub open spec fn taken_by(&self, other: SpinLock, cpu_id: u32, now: u64) -> bool {
        &&& self.locked()
        &&& self.owner() == cpu_id
        &&& self.acquired_at() == now
        &&& self.contention() == other.contention()
        &&& self.order() == other.order()
    }

    /// The lock after its holder let go of `other`.
    pub open spec fn released_from(&self, other: SpinLock) -> bool {
        &&& !self.locked()
        &&& self.owner() == NO_OWNER
        &&& self.acquired_at() == 0
        &&& self.contention() == if other.contention() > 0 {
            (other.contention() - 1) as u32
        } else {
            0u32
        }
        &&& self.order() == other.order()
    }

    /// One attempt of `cpu_id` at timestamp `now` on the lock `other`, by
    /// `try_lock` or by a round of `lock`, that led to this lock: it wins
    /// exactly when the lock word was clear, and a lost attempt leaves the
    /// lock word, the owner and the acquisition time alone.
    pub open spec fn attempted_from(&self, other: SpinLock, cpu_id: u32, now: u64, won: bool)
        -> bool {
        &&& won == !other.locked()
        &&& won ==> self.taken_by(other, cpu_id, now)
        &&& !won ==> {
            &&& self.locked()
            &&& self.owner() == other.owner()
            &&& self.acquired_at() == other.acquired_at()
            &&& self.order() == other.order()
        }
    }

    /// The verdict of the deadlock handler on this lock for a waiter on
    /// `cpu_id` at timestamp `now`.
    pub open spec fn spec_deadlock_verdict(&self, cpu_id: u32, now: u64) -> Action {
        if self.owner() == cpu_id {
            Action::SelfDeadlock
        } else if self.acquired_at() > 0 && spec_elapsed(now, self.acquired_at())
            > MAX_HOLD_TIME_CYCLES {
            Action::Fatal
        } else {
            Action::Delay(MAX_BACKOFF_CYCLES)
        }
    }

    /// An unheld lock of rank 0.
    pub fn new() -> (l: SpinLock)
        ensures
            l.wf(),
            !l.locked(),
            l.owner() == NO_OWNER,
            l.acquired_at() == 0,
            l.contention() == 0,
            l.order() == 0,
    {
        SpinLock {
            locked: false,
            contention_count: 0,
            owner_cpu: NO_OWNER,
            acquire_time: 0,
            lock_order: 0,
        }
    }

    /// An unheld lock of rank `order`.
    pub fn new_with_order(order: u32) -> (l: SpinLock)
        ensures
            l.wf(),
            !l.locked(),
            l.owner() == NO_OWNER,
            l.acquired_at() == 0,
            l.contention() == 0,
            l.order() == order,
    {
        SpinLock {
            locked: false,
            contention_count: 0,
            owner_cpu: NO_OWNER,
            acquire_time: 0,
            lock_order: order,
        }
    }

    /// One round of a waiting acquisition by `cpu_id` at timestamp `now`.
    ///
    /// A free lock is taken at once. Otherwise, past the deadlock timeout the
    /// deadlock handler decides; before it the waiter backs off by the
    /// contention level it sees: pauses that double, then a linear delay,
    /// then a yield that resets the waiter.
    pub fn lock(&mut self, waiter: &mut SpinWaiter, cpu_id: u32, now: u64) -> (action: Action)
        ensures
            final(waiter).start() == old(waiter).start(),
            !old(self).locked() ==> {
                &&& action == Action::Done
                &&& final(self).taken_by(*old(self), cpu_id, now)
                &&& *final(waiter) == *old(waiter)
            },
            old(self).locked() && spec_elapsed(now, old(waiter).start())
                > DEADLOCK_TIMEOUT_CYCLES ==> {
                &&& action == old(self).spec_deadlock_verdict(cpu_id, now)
                &&& final(self).after_deadlock_check(*old(self), cpu_id, now)
                &&& *final(waiter) == *old(waiter)
            },
            old(self).locked() && spec_elapsed(now, old(waiter).start())
                <= DEADLOCK_TIMEOUT_CYCLES ==> {
                &&& *final(self) == *old(self)
                &&& (final(waiter).attempts(), final(waiter).pause_exponent(), action)
                    == spec_backoff(*old(waiter), old(self).contention())
            },
            final(self).attempted_from(*old(self), cpu_id, now, action == Action::Done),
            old(self).wf() ==> final(self).wf(),
    {
        if self.try_lock_fast(cpu_id, now) {
            return Action::Done;
        }
        if elapsed(now, waiter.start) > DEADLOCK_TIMEOUT_CYCLES {
            return self.handle_potential_deadlock(cpu_id, now);
        }
        waiter.attempts = waiter.attempts.saturating_add(1);
        if self.contention_count < CONTENTION_THRESHOLD {
            let count: u32 = adaptive_pause(waiter.pause_exponent);
            if waiter.pause_exponent < MAX_PAUSE_EXPONENT {
                waiter.pause_exponent = waiter.pause_exponent + 1;
            } else {
                waiter.pause_exponent = MAX_PAUSE_EXPONENT;
            }
            Action::Pause(count)
        } else if waiter.attempts < YIELD_THRESHOLD {
            Action::Delay(linear_backoff(waiter.attempts))
        } else {
            waiter.pause_exponent = 0;
            waiter.attempts = 0;
            Action::Yield
        }
    }

    /// The fast path: takes the lock for `cpu_id` if the lock word is clear.
    pub fn try_lock_fast(&mut self, cpu_id: u32, start_time: u64) -> (acquired: bool)
        ensures
            acquired == !old(self).locked(),
            acquired ==> final(self).taken_by(*old(self), cpu_id, start_time),
            !acquired ==> *final(self) == *old(self),
            old(self).wf() ==> final(self).wf(),
    {
        if !self.locked {
            self.locked = true;
            self.owner_cpu = cpu_id;
            self.acquire_time = start_time;
            true
        } else {
            false
        }
    }

    /// The lock after the deadlock handler looked at `other`: the contention
    /// counter goes up by one, saturating, when the verdict is to back off,
    /// and nothing else changes.
    pub open spec fn after_deadlock_check(&self, other: SpinLock, cpu_id: u32, now: u64) -> bool {
        &&& self.locked() == other.locked()
        &&& self.owner() == other.owner()
        &&& self.acquired_at() == other.acquired_at()
        &&& self.order() == other.order()
        &&& self.contention() == if other.spec_deadlock_verdict(cpu_id, now) == Action::Delay(
            MAX_BACKOFF_CYCLES,
        ) && other.contention() < u32::MAX {
            (other.contention() + 1) as u32
        } else {
            other.contention()
        }
    }

    /// The deadlock handler, for a waiter on `cpu_id` that has spun past the
    /// timeout. A waiter that owns the lock itself is told so; an owner that
    /// has held the lock for too long is fatal; anything else is contention:
    /// the counter goes up and the waiter backs off as far as it can.
    pub fn handle_potential_deadlock(&mut self, cpu_id: u32, now: u64) -> (action: Action)
        ensures
            action == old(self).spec_deadlock_verdict(cpu_id, now),
            final(self).after_deadlock_check(*old(self), cpu_id, now),
            old(self).wf() ==> final(self).wf(),
    {
        if self.owner_cpu == cpu_id {
            return Action::SelfDeadlock;
        }
        if self.acquire_time > 0 && elapsed(now, self.acquire_time) > MAX_HOLD_TIME_CYCLES {
            return Action::Fatal;
        }
        self.contention_count = self.contention_count.saturating_add(1);
        Action::Delay(MAX_BACKOFF_CYCLES)
    }

    /// Releases the lock: owner and time are cleared, the lock word is
    /// cleared, and the contention counter decays by one.
    pub fn unlock(&mut self)
        ensures
            final(self).released_from(*old(self)),
            final(self).wf(),
        opens_invariants none
        no_unwind
    {
        self.owner_cpu = NO_OWNER;
        self.acquire_time = 0;
        self.locked = false;
        if self.contention_count > 0 {
            self.contention_count = self.contention_count - 1;
        }
    }

    /// A single attempt: takes the lock for `cpu_id` at timestamp `now` if
    /// it is free, and says whether it did.
    pub fn try_lock(&mut self, cpu_id: u32, now: u64) -> (acquired: bool)
        ensures
            acquired == !old(self).locked(),
            acquired ==> final(self).taken_by(*old(self), cpu_id, now),
            !acquired ==> *final(self) == *old(self),
            final(self).attempted_from(*old(self), cpu_id, now, acquired),
            old(self).wf() ==> final(self).wf(),
    {
        if !self.locked {
            self.locked = true;
            self.owner_cpu = cpu_id;
            self.acquire_time = now;
            true
        } else {
            false
        }
    }

    /// Whether the lock is held.
    pub fn is_locked(&self) -> (r: bool)
        ensures
            r == self.locked(),
    {
        self.locked
    }

    /// The current contention level.
    pub fn contention_level(&self) -> (r: u32)
        ensures
            r == self.contention(),
    {
        self.contention_count
    }

    /// The rank of the lock.
    pub fn lock_order(&self) -> (r: u32)
        ensures
            r == self.order(),
    {
        self.lock_order
    }

    /// The owning CPU, `NO_OWNER` while the lock is unheld.
    pub fn owner_cpu(&self) -> (r: u32)
        ensures
            r == self.owner(),
    {
        self.owner_cpu
    }
}

/// What one interrupt-safe acquisition keeps between its steps.
pub struct IrqWaiter {
    saved: Option<u64>,
    spin: SpinWaiter,
}

/// What the calling CPU has to do after one step of an interrupt-safe
/// acquisition.
#[derive(Clone, Copy, Debug, PartialEq, Eq, Structural)]
pub enum IrqAction {
    /// The interrupt flags are saved. Disable interrupts, then step again.
    DisableInterrupts,
    /// The lock is not free. Do as the action says, then step again.
    Wait(Action),
    /// The lock is held. The value is the interrupt flags as they were
    /// before the acquisition, to be handed to `unlock_irq_restore`.
    Acquired(u64),
}

impl IrqWaiter {
    /// The interrupt flags saved by the first step, if it has been taken.
    pub closed spec fn saved(&self) -> Option<u64> {
        self.saved
    }

    /// The waiter of the rounds on the lock.
    pub closed spec fn spin(&self) -> SpinWaiter {
        self.spin
    }

    /// A waiter whose acquisition starts at timestamp `start`.
    pub fn new(start: u64) -> (w: IrqWaiter)
        ensures
            w.saved().is_none(),
            w.spin().start() == start,
            w.spin().attempts() == 0,
            w.spin().pause_exponent() == 0,
    {
        IrqWaiter { saved: None, spin: SpinWaiter::new(start) }
    }
}

impl SpinLock {
    /// One step of an acquisition that is safe against interrupts, by
    /// `cpu_id` at timestamp `now`, with the interrupt flags of the CPU
    /// being `irq_flags`.
    ///
    /// The first step saves the flags and leaves the lock alone; the
    /// caller then disables interrupts. Every further step is one round of
    /// `lock`; the step that takes the lock returns the saved flags.
    pub fn lock_irq_save(&mut self, waiter: &mut IrqWaiter, cpu_id: u32, now: u64, irq_flags: u64)
        -> (action: IrqAction)
        ensures
            old(waiter).saved().is_none() ==> {
                &&& action == IrqAction::DisableInterrupts
                &&& *final(self) == *old(self)
                &&& final(waiter).saved() == Some(irq_flags)
                &&& final(waiter).spin() == old(waiter).spin()
            },
            old(waiter).saved() matches Some(flags) ==> {
                &&& final(waiter).saved() == Some(flags)
                &&& action == if old(self).locked() {
                    IrqAction::Wait(
                        Self::spec_round(*old(self), old(waiter).spin(), cpu_id, now),
                    )
                } else {
                    IrqAction::Acquired(flags)
                }
                &&& final(self).attempted_from(*old(self), cpu_id, now, !old(self).locked())
            },
            old(self).wf() ==> final(self).wf(),
    {
        match waiter.saved {
            None => {
                waiter.saved = Some(irq_flags);
                IrqAction::DisableInterrupts
            },
            Some(flags) => {
                let action: Action = self.lock(&mut waiter.spin, cpu_id, now);
                if action.is_done() {
                    IrqAction::Acquired(flags)
                } else {
                    IrqAction::Wait(action)
                }
            },
        }
    }

    /// The action of a round of `lock` on a lock that is held.
    pub open spec fn spec_round(lock: SpinLock, waiter: SpinWaiter, cpu_id: u32, now: u64) -> Action {
        if spec_elapsed(now, waiter.start()) > DEADLOCK_TIMEOUT_CYCLES {
            lock.spec_deadlock_verdict(cpu_id, now)
        } else {
            spec_backoff(waiter, lock.contention()).2
        }
    }

    /// Releases a lock taken by `lock_irq_save`, and returns the interrupt
    /// flags that the caller has to restore: those that the acquisition
    /// had saved.
    pub fn unlock_irq_restore(&mut self, flags: u64) -> (restore: u64)
        ensures
            restore == flags,
            final(self).released_from(*old(self)),
            final(self).wf(),
    {
        self.unlock();
        flags
    }
}

/// A run of attempts on one lock with no release among them: `states[i]` is
/// the lock before attempt `i` and `states[i + 1]` the lock after it, made by
/// CPU `who[i]` at timestamp `when[i]` and won or lost as `won[i]` says.
pub open spec fn contended_run(
    states: Seq<SpinLock>,
    who: Seq<u32>,
    when: Seq<u64>,
    won: Seq<bool>,
) -> bool {
    &&& states.len() == who.len() + 1
    &&& when.len() == who.len()
    &&& won.len() == who.len()
    &&& forall|i: int|
        0 <= i < who.len() ==> (#[trigger] states[i + 1]).attempted_from(
            states[i],
            who[i],
            when[i],
            won[i],
        )
}

/// Mutual exclusion. While the lock is held and not released, every attempt
/// on it is lost, and the lock keeps naming its holder as owner.
pub proof fn lemma_held_lock_excludes(
    states: Seq<SpinLock>,
    who: Seq<u32>,
    when: Seq<u64>,
    won: Seq<bool>,
)
    requires
        contended_run(states, who, when, won),
        states[0].locked(),
    ensures
        forall|i: int| 0 <= i < won.len() ==> !#[trigger] won[i],
        forall|i: int|
            0 <= i < states.len() ==> (#[trigger] states[i]).locked() && states[i].owner()
                == states[0].owner(),
    decreases who.len(),
{
    if who.len() > 0 {
        let n = who.len() as int;
        assert forall|i: int| 0 <= i < n - 1 implies (#[trigger] states.take(n)[i
            + 1]).attempted_from(
            states.take(n)[i],
            who.take(n - 1)[i],
            when.take(n - 1)[i],
            won.take(n - 1)[i],
        ) by {
            assert(states[i + 1].attempted_from(states[i], who[i], when[i], won[i]));
        }
        lemma_held_lock_excludes(
            states.take(n),
            who.take(n - 1),
            when.take(n - 1),
            won.take(n - 1),
        );
        assert(states.take(n)[n - 1] == states[n - 1]);
        assert(states[n - 1 + 1].attempted_from(states[n - 1], who[n - 1], when[n - 1], won[n - 1]));
        assert forall|i: int| 0 <= i < won.len() implies !#[trigger] won[i] by {
            if i < n - 1 {
                assert(won.take(n - 1)[i] == won[i]);
            }
        }
        assert forall|i: int| 0 <= i < states.len() implies (#[trigger] states[i]).locked()
            && states[i].owner() == states[0].owner() by {
            if i < n {
                assert(states.take(n)[i] == states[i]);
                assert(states.take(n)[0] == states[0]);
            }
        }
    }
}

/// At most one winner. In a run of attempts with no release among them, no
/// two attempts are won, and from a won attempt on the lock names the
/// winner as owner.
pub proof fn lemma_single_winner(
    states: Seq<SpinLock>,
    who: Seq<u32>,
    when: Seq<u64>,
    won: Seq<bool>,
    i: int,
    j: int,
)
    requires
        contended_run(states, who, when, won),
        0 <= i < j < won.len(),
        won[i],
    ensures
        !won[j],
        states[j + 1].locked(),
        states[j + 1].owner() == who[i],
{
    let rest_states = states.skip(i + 1);
    let rest_who = who.skip(i + 1);
    let rest_when = when.skip(i + 1);
    let rest_won = won.skip(i + 1);
    assert(states[i + 1].attempted_from(states[i], who[i], when[i], won[i]));
    assert forall|k: int| 0 <= k < rest_who.len() implies (#[trigger] rest_states[k
        + 1]).attempted_from(rest_states[k], rest_who[k], rest_when[k], rest_won[k]) by {
        assert(states[(i + 1 + k) + 1].attempted_from(
            states[i + 1 + k],
            who[i + 1 + k],
            when[i + 1 + k],
            won[i + 1 + k],
        ));
    }
    assert(rest_states[0] == states[i + 1]);
    lemma_held_lock_excludes(rest_states, rest_who, rest_when, rest_won);
    assert(rest_won[j - i - 1] == won[j]);
    assert(rest_states[j - i] == states[j + 1]);
}

} // verus!
