//! Recursive reader/writer lock that prefers writers.
//!
//! The lock is five plain words. `read_lock` and `write_lock` may have to
//! wait, so each call is one step of the acquisition: it touches the lock
//! once, moves the caller's waiter to the next phase, and returns the
//! [`Action`] to perform before the next step. `Pause(0)` means "step again
//! at once".

use vstd::prelude::*;
use crate::machine::Action;

verus! {

/// Largest number of pause hints between two steps of a waiter.
pub const MAX_SPIN: u32 = 64;

/// The five words of the lock, as contracts see them.
pub struct RwState {
    /// Readers that have entered.
    pub readers: u32,
    /// The writer flag.
    pub writer: bool,
    /// Writers that have announced themselves and do not hold the lock yet.
    pub waiting_writers: u32,
    /// Identity of the writer that holds the lock, 0 while there is none.
    pub owner: u32,
    /// How many times the owner has taken the write lock.
    pub recursion: u32,
}

/// Where a reader stands in its acquisition.
#[derive(Clone, Copy, Debug, PartialEq, Eq, Structural)]
pub enum ReadPhase {
    /// Nothing done yet.
    Start,
    /// Waiting for the writer flag and the waiting writers to clear.
    Waiting,
    /// Saw no writer in or waiting; about to count itself in.
    Clear,
    /// Counted among the readers; the writer flag is still to be checked.
    Entered,
}

/// Where a writer stands in its acquisition.
#[derive(Clone, Copy, Debug, PartialEq, Eq, Structural)]
pub enum WritePhase {
    /// Nothing done yet.
    Start,
    /// Announced; trying to set the writer flag.
    Claiming,
    /// Owns the writer flag; waiting for the readers to leave.
    Draining,
}

/// What a reader keeps between the steps of one `read_lock`.
#[derive(Clone, Copy, Debug, PartialEq, Eq, Structural)]
pub struct ReadWaiter {
    /// Where the acquisition stands.
    pub phase: ReadPhase,
    /// Pause hints of the next round of waiting.
    pub backoff: u32,
}

/// What a writer keeps between the steps of one `write_lock`.
#[derive(Clone, Copy, Debug, PartialEq, Eq, Structural)]
pub struct WriteWaiter {
    /// Where the acquisition stands.
    pub phase: WritePhase,
    /// Pause hints of the next round of waiting.
    pub backoff: u32,
}

/// The lock record.
pub struct RwLock {
    readers: u32,
    writer: bool,
    waiting_writers: u32,
    owner: u32,
    recursion: u32,
}

/// The backoff after `backoff`: twice as long, at most `MAX_SPIN`.
pub open spec fn spec_next_backoff(backoff: u32) -> u32 {
    if backoff >= 32 {
        MAX_SPIN
    } else {
        (backoff * 2) as u32
    }
}

/// `x + 1` on a 32-bit counter that wraps.
pub open spec fn spec_inc(x: u32) -> u32 {
    if x == u32::MAX {
        0
    } else {
        (x + 1) as u32
    }
}

/// `x - 1` on a 32-bit counter that wraps.
pub open spec fn spec_dec(x: u32) -> u32 {
    if x == 0 {
        u32::MAX
    } else {
        (x - 1) as u32
    }
}

/// A waiter before its first step.
pub open spec fn spec_fresh_reader() -> ReadWaiter {
    ReadWaiter { phase: ReadPhase::Start, backoff: 1 }
}

/// A waiter before its first step.
pub open spec fn spec_fresh_writer() -> WriteWaiter {
    WriteWaiter { phase: WritePhase::Start, backoff: 1 }
}

/// Whether `id` holds the lock as writer.
pub open spec fn spec_owned_by(s: RwState, id: u32) -> bool {
    s.writer && s.owner == id
}

/// A step of a reader that waits for the lock to clear: with a writer in
/// or waiting it backs off, else it goes on to count itself in.
pub open spec fn spec_read_wait(s: RwState, w: ReadWaiter) -> (RwState, ReadWaiter, Action) {
    if s.writer || s.waiting_writers > 0 {
        (
            s,
            ReadWaiter { phase: ReadPhase::Waiting, backoff: spec_next_backoff(w.backoff) },
            Action::Pause(w.backoff),
        )
    } else {
        (s, ReadWaiter { phase: ReadPhase::Clear, backoff: w.backoff }, Action::Pause(0))
    }
}

/// One step of `read_lock` by `id`.
pub open spec fn spec_read_lock(s: RwState, id: u32, w: ReadWaiter) -> (
    RwState,
    ReadWaiter,
    Action,
) {
    match w.phase {
        ReadPhase::Start => if spec_owned_by(s, id) {
            (s, spec_fresh_reader(), Action::Done)
        } else {
            spec_read_wait(s, w)
        },
        ReadPhase::Waiting => spec_read_wait(s, w),
        ReadPhase::Clear => (
            RwState { readers: spec_inc(s.readers), ..s },
            ReadWaiter { phase: ReadPhase::Entered, backoff: w.backoff },
            Action::Pause(0),
        ),
        ReadPhase::Entered => if !s.writer {
            (s, spec_fresh_reader(), Action::Done)
        } else {
            (
                RwState { readers: spec_dec(s.readers), ..s },
                ReadWaiter { phase: ReadPhase::Waiting, backoff: 1 },
                Action::Pause(0),
            )
        },
    }
}

/// `read_unlock` by `id`.
pub open spec fn spec_read_unlock(s: RwState, id: u32) -> RwState {
    if spec_owned_by(s, id) {
        s
    } else {
        RwState { readers: spec_dec(s.readers), ..s }
    }
}

/// One step of `write_lock` by `id`.
pub open spec fn spec_write_lock(s: RwState, id: u32, w: WriteWaiter) -> (
    RwState,
    WriteWaiter,
    Action,
) {
    match w.phase {
        WritePhase::Start => if spec_owned_by(s, id) {
            (RwState { recursion: spec_inc(s.recursion), ..s }, spec_fresh_writer(), Action::Done)
        } else {
            (
                RwState { waiting_writers: spec_inc(s.waiting_writers), ..s },
                WriteWaiter { phase: WritePhase::Claiming, backoff: 1 },
                Action::Pause(0),
            )
        },
        WritePhase::Claiming => if !s.writer {
            (
                RwState { writer: true, ..s },
                WriteWaiter { phase: WritePhase::Draining, backoff: 1 },
                Action::Pause(0),
            )
        } else {
            (
                s,
                WriteWaiter { phase: WritePhase::Claiming, backoff: spec_next_backoff(w.backoff) },
                Action::Pause(w.backoff),
            )
        },
        WritePhase::Draining => if s.readers == 0 {
            (
                RwState {
                    waiting_writers: spec_dec(s.waiting_writers),
                    owner: id,
                    recursion: 1,
                    ..s
                },
                spec_fresh_writer(),
                Action::Done,
            )
        } else {
            (
                s,
                WriteWaiter { phase: WritePhase::Draining, backoff: spec_next_backoff(w.backoff) },
                Action::Pause(w.backoff),
            )
        },
    }
}

/// `write_unlock`.
pub open spec fn spec_write_unlock(s: RwState) -> RwState {
    if s.recursion <= 1 {
        RwState { recursion: 0, owner: 0, writer: false, ..s }
    } else {
        RwState { recursion: (s.recursion - 1) as u32, ..s }
    }
}

impl ReadWaiter {
    /// A waiter for one `read_lock`.
    pub fn new() -> (w: ReadWaiter)
        ensures
            w == spec_fresh_reader(),
    {
        ReadWaiter { phase: ReadPhase::Start, backoff: 1 }
    }
}

impl WriteWaiter {
    /// A waiter for one `write_lock`.
    pub fn new() -> (w: WriteWaiter)
        ensures
            w == spec_fresh_writer(),
    {
        WriteWaiter { phase: WritePhase::Start, backoff: 1 }
    }
}

impl View for RwLock {
    type V = RwState;

    closed spec fn view(&self) -> RwState {
        RwState {
            readers: self.readers,
            writer: self.writer,
            waiting_writers: self.waiting_writers,
            owner: self.owner,
            recursion: self.recursion,
        }
    }
}

impl RwLock {
    /// A lock that nobody holds.
    pub fn new() -> (l: RwLock)
        ensures
            l@ == (RwState {
                readers: 0,
                writer: false,
                waiting_writers: 0,
                owner: 0,
                recursion: 0,
            }),
    {
        RwLock { readers: 0, writer: false, waiting_writers: 0, owner: 0, recursion: 0 }
    }

    /// One step of taking the lock for reading, by `owner_id`.
    ///
    /// The writer that holds the lock passes at once. Anyone else waits
    /// while a writer is in or waiting, backing off 1, 2, 4, ... 64 pauses;
    /// then counts itself in; then looks at the writer flag once more, and
    /// counts itself out again and starts over if a writer got in first.
    /// Each of these is a step of its own, so that steps of other CPUs may
    /// fall between them.
    pub fn read_lock(&mut self, owner_id: u32, waiter: &mut ReadWaiter) -> (action: Action)
        ensures
            (final(self)@, *final(waiter), action) == spec_read_lock(
                old(self)@,
                owner_id,
                *old(waiter),
            ),
    {
        match waiter.phase {
            ReadPhase::Start => {
                if self.writer && self.owner == owner_id {
                    *waiter = ReadWaiter::new();
                    return Action::Done;
                }
            },
            ReadPhase::Waiting => {},
            ReadPhase::Clear => {
                self.readers = self.readers.wrapping_add(1);
                waiter.phase = ReadPhase::Entered;
                return Action::Pause(0);
            },
            ReadPhase::Entered => {
                if !self.writer {
                    *waiter = ReadWaiter::new();
                    return Action::Done;
                }
                self.readers = self.readers.wrapping_sub(1);
                waiter.phase = ReadPhase::Waiting;
                waiter.backoff = 1;
                return Action::Pause(0);
            },
        }
        if self.writer || self.waiting_writers > 0 {
            waiter.phase = ReadPhase::Waiting;
            let pauses: u32 = self.spin_wait(&mut waiter.backoff);
            Action::Pause(pauses)
        } else {
            waiter.phase = ReadPhase::Clear;
            Action::Pause(0)
        }
    }

    /// Leaves the lock as reader. For the writer that holds the lock this
    /// does nothing.
    pub fn read_unlock(&mut self, owner_id: u32)
        ensures
            final(self)@ == spec_read_unlock(old(self)@, owner_id),
    {
        if self.writer && self.owner == owner_id {
            return ;
        }
        self.readers = self.readers.wrapping_sub(1);
    }

    /// One step of taking the lock for writing, by `owner_id`.
    ///
    /// The writer that holds the lock goes one level deeper. Anyone else
    /// announces itself, then sets the writer flag as soon as it is clear,
    /// then waits for the readers to leave, and only then withdraws its
    /// announcement and records itself as owner at depth 1.
    pub fn write_lock(&mut self, owner_id: u32, waiter: &mut WriteWaiter) -> (action: Action)
        ensures
            (final(self)@, *final(waiter), action) == spec_write_lock(
                old(self)@,
                owner_id,
                *old(waiter),
            ),
    {
        match waiter.phase {
            WritePhase::Start => {
                if self.writer && self.owner == owner_id {
                    self.recursion = self.recursion.wrapping_add(1);
                    *waiter = WriteWaiter::new();
                    return Action::Done;
                }
                self.waiting_writers = self.waiting_writers.wrapping_add(1);
                waiter.phase = WritePhase::Claiming;
                waiter.backoff = 1;
                Action::Pause(0)
            },
            WritePhase::Claiming => {
                if !self.writer {
                    self.writer = true;
                    waiter.phase = WritePhase::Draining;
                    waiter.backoff = 1;
                    Action::Pause(0)
                } else {
                    let pauses: u32 = self.spin_wait(&mut waiter.backoff);
                    Action::Pause(pauses)
                }
            },
            WritePhase::Draining => {
                if self.readers == 0 {
                    self.waiting_writers = self.waiting_writers.wrapping_sub(1);
                    self.owner = owner_id;
                    self.recursion = 1;
                    *waiter = WriteWaiter::new();
                    Action::Done
                } else {
                    let pauses: u32 = self.spin_wait(&mut waiter.backoff);
                    Action::Pause(pauses)
                }
            },
        }
    }

    /// Leaves the lock as writer: one level up, and out when the last level
    /// is left.
    pub fn write_unlock(&mut self)
        ensures
            final(self)@ == spec_write_unlock(old(self)@),
    {
        if self.recursion <= 1 {
            self.recursion = 0;
            self.owner = 0;
            self.writer = false;
        } else {
            self.recursion = self.recursion - 1;
        }
    }

    /// The number of pause hints of this round, and the backoff of the next.
    pub fn spin_wait(&self, backoff: &mut u32) -> (pauses: u32)
        ensures
            pauses == *old(backoff),
            *final(backoff) == spec_next_backoff(*old(backoff)),
    {
        let pauses: u32 = *backoff;
        if pauses >= 32 {
            *backoff = MAX_SPIN;
        } else {
            *backoff = pauses * 2;
        }
        pauses
    }

    /// Readers counted in.
    pub fn reader_count(&self) -> (n: u32)
        ensures
            n == self@.readers,
    {
        self.readers
    }

    /// Whether the writer flag is set.
    pub fn has_writer(&self) -> (b: bool)
        ensures
            b == self@.writer,
    {
        self.writer
    }

    /// Writers that have announced themselves and wait.
    pub fn waiting_writer_count(&self) -> (n: u32)
        ensures
            n == self@.waiting_writers,
    {
        self.waiting_writers
    }

    /// Identity of the writer that holds the lock, 0 if there is none.
    pub fn owner_id(&self) -> (id: u32)
        ensures
            id == self@.owner,
    {
        self.owner
    }

    /// Depth of the owner's nesting.
    pub fn recursion_depth(&self) -> (n: u32)
        ensures
            n == self@.recursion,
    {
        self.recursion
    }
}

/// The lock after `n` more nested `write_lock` calls of its owner.
pub open spec fn spec_nest(s: RwState, id: u32, n: nat) -> RwState
    decreases n,
{
    if n == 0 {
        s
    } else {
        spec_write_lock(spec_nest(s, id, (n - 1) as nat), id, spec_fresh_writer()).0
    }
}

/// The lock after `n` calls of `write_unlock`.
pub open spec fn spec_unnest(s: RwState, n: nat) -> RwState
    decreases n,
{
    if n == 0 {
        s
    } else {
        spec_unnest(spec_write_unlock(s), (n - 1) as nat)
    }
}

/// Exclusion, as seen by the one that gets in. A writer that is not the
/// owner already completes `write_lock` only in a step that sees no reader
/// counted in, and leaves the writer flag set with itself as owner at depth
/// 1. A reader that is not the owner completes `read_lock` only in a step
/// that sees the writer flag clear, after it has counted itself in.
pub proof fn lemma_exclusion(s: RwState, id: u32, r: ReadWaiter, w: WriteWaiter)
    requires
        !spec_owned_by(s, id),
    ensures
        spec_write_lock(s, id, w).2 == Action::Done ==> {
            &&& w.phase == WritePhase::Draining
            &&& s.readers == 0
            &&& spec_write_lock(s, id, w).0.readers == 0
            &&& spec_write_lock(s, id, w).0.writer == s.writer
            &&& spec_write_lock(s, id, w).0.owner == id
            &&& spec_write_lock(s, id, w).0.recursion == 1
        },
        spec_read_lock(s, id, r).2 == Action::Done ==> {
            &&& r.phase == ReadPhase::Entered
            &&& !s.writer
            &&& spec_read_lock(s, id, r).0 == s
        },
{
}

/// Exclusion, as seen by the others. While a writer holds the lock, no step
/// of anyone else completes a `read_lock` or a `write_lock`, whatever phase
/// the other is in, and the lock stays with its owner.
pub proof fn lemma_held_write_lock_excludes(
    s: RwState,
    id: u32,
    other: u32,
    r: ReadWaiter,
    w: WriteWaiter,
)
    requires
        spec_owned_by(s, id),
        s.recursion >= 1,
        other != id,
    ensures
        spec_read_lock(s, other, r).2 != Action::Done,
        spec_read_lock(s, other, r).0.writer,
        spec_read_lock(s, other, r).0.owner == id,
        spec_read_lock(s, other, r).0.recursion == s.recursion,
        w.phase != WritePhase::Draining ==> {
            &&& spec_write_lock(s, other, w).2 != Action::Done
            &&& spec_write_lock(s, other, w).0.writer
            &&& spec_write_lock(s, other, w).0.owner == id
            &&& spec_write_lock(s, other, w).0.recursion == s.recursion
        },
{
}

/// Only the one that set the writer flag drains the readers. A writer
/// reaches the draining phase only by the step that finds the flag clear and
/// sets it, so while the flag is set no second writer gets there.
pub proof fn lemma_one_writer_drains(s: RwState, id: u32, w: WriteWaiter)
    requires
        s.writer,
        !spec_owned_by(s, id),
        w.phase != WritePhase::Draining,
    ensures
        spec_write_lock(s, id, w).1.phase != WritePhase::Draining,
        spec_write_lock(s, id, w).2 != Action::Done,
{
}

/// Recursion. For the writer that holds the lock, `read_lock` completes at
/// once and changes nothing, `read_unlock` changes nothing, and `write_lock`
/// completes at once, one level deeper.
pub proof fn lemma_owner_reenters(s: RwState, id: u32)
    requires
        spec_owned_by(s, id),
    ensures
        spec_read_lock(s, id, spec_fresh_reader()) == (s, spec_fresh_reader(), Action::Done),
        spec_read_unlock(s, id) == s,
        spec_write_lock(s, id, spec_fresh_writer()) == (
            RwState { recursion: spec_inc(s.recursion), ..s },
            spec_fresh_writer(),
            Action::Done,
        ),
{
}

/// Recursion, any number of times. After `n` nested `write_lock` calls of
/// the owner and `n` calls of `write_unlock`, the lock is as it was, and so
/// still held by its owner. The depth must fit the 32-bit counter.
pub proof fn lemma_nesting_unwinds(s: RwState, id: u32, n: nat)
    requires
        spec_owned_by(s, id),
        s.recursion >= 1,
        s.recursion + n <= u32::MAX,
    ensures
        spec_nest(s, id, n) == (RwState { recursion: (s.recursion + n) as u32, ..s }),
        spec_unnest(spec_nest(s, id, n), n) == s,
    decreases n,
{
    if n > 0 {
        lemma_nesting_unwinds(s, id, (n - 1) as nat);
        let inner = spec_nest(s, id, (n - 1) as nat);
        let outer = spec_nest(s, id, n);
        assert(outer == spec_write_lock(inner, id, spec_fresh_writer()).0);
        assert(spec_write_unlock(outer) == inner);
        assert(spec_unnest(outer, n) == spec_unnest(spec_write_unlock(outer), (n - 1) as nat));
    }
}

/// Writer preference. With a writer in or waiting, a reader that has not
/// counted itself in yet, and is not the owner, makes no progress: its step
/// leaves the lock alone and tells it to pause. To count itself in, a
/// reader first needs a step that sees the writer flag clear and no writer
/// waiting.
pub proof fn lemma_writers_hold_back_readers(s: RwState, id: u32, r: ReadWaiter)
    requires
        !spec_owned_by(s, id),
        r.phase == ReadPhase::Start || r.phase == ReadPhase::Waiting,
    ensures
        s.writer || s.waiting_writers > 0 ==> spec_read_lock(s, id, r) == (
            s,
            ReadWaiter { phase: ReadPhase::Waiting, backoff: spec_next_backoff(r.backoff) },
            Action::Pause(r.backoff),
        ),
        spec_read_lock(s, id, r).1.phase == ReadPhase::Clear ==> !s.writer && s.waiting_writers
            == 0,
        spec_read_lock(s, id, r).0 == s,
{
}

} // verus!
