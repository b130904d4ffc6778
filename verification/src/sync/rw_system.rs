//! Why the reader/writer lock excludes: a model of any number of CPUs that
//! step through `read_lock`, `read_unlock`, `write_lock` and `write_unlock`
//! on one lock, in any interleaving.

use vstd::prelude::*;
use crate::machine::Action;
use crate::sync::rwlock::{
    ReadPhase, ReadWaiter, RwState, WritePhase, WriteWaiter, spec_fresh_reader, spec_fresh_writer,
    spec_read_lock, spec_read_unlock, spec_write_lock, spec_write_unlock,
};

verus! {

/// What a CPU is doing with the lock.
pub enum Role {
    /// Nothing.
    Idle,
    /// In `read_lock`, with this waiter.
    Reading(ReadWaiter),
    /// Holding the lock as reader.
    ReadHeld,
    /// In `write_lock`, with this waiter.
    Writing(WriteWaiter),
    /// Holding the lock as writer.
    WriteHeld,
}

/// What a CPU wants to do next.
pub enum Move {
    /// Take, or go on taking, the lock as reader.
    Read,
    /// Take, or go on taking, the lock as writer; as the writer that holds
    /// the lock, take it once more.
    Write,
    /// Give up what is held.
    Unlock,
}

/// One lock and the CPUs that use it. CPU `t` has the identity `t + 1`.
pub struct RwSystem {
    pub lock: RwState,
    pub roles: Seq<Role>,
}

/// The identity of CPU `t`.
pub open spec fn spec_id(t: int) -> u32 {
    (t + 1) as u32
}

/// Whether the CPU is counted among the readers.
pub open spec fn spec_counted(r: Role) -> bool {
    match r {
        Role::Reading(w) => w.phase == ReadPhase::Entered,
        Role::ReadHeld => true,
        _ => false,
    }
}

/// Whether the CPU is counted among the waiting writers.
pub open spec fn spec_announced(r: Role) -> bool {
    match r {
        Role::Writing(w) => w.phase != WritePhase::Start,
        _ => false,
    }
}

/// Whether the CPU owns the writer flag.
pub open spec fn spec_flagged(r: Role) -> bool {
    match r {
        Role::Writing(w) => w.phase == WritePhase::Draining,
        Role::WriteHeld => true,
        _ => false,
    }
}

/// The number of roles that satisfy `f`.
pub open spec fn spec_count(roles: Seq<Role>, f: spec_fn(Role) -> bool) -> int
    decreases roles.len(),
{
    if roles.len() == 0 {
        0
    } else {
        spec_count(roles.drop_last(), f) + if f(roles.last()) {
            1int
        } else {
            0int
        }
    }
}

/// The count lies between 0 and the number of roles, and a role that
/// satisfies `f` makes it positive.
pub proof fn lemma_count_bounds(roles: Seq<Role>, f: spec_fn(Role) -> bool)
    ensures
        0 <= spec_count(roles, f) <= roles.len(),
        forall|t: int| 0 <= t < roles.len() && f(#[trigger] roles[t]) ==> spec_count(roles, f) >= 1,
        spec_count(roles, f) == 0 ==> forall|t: int|
            0 <= t < roles.len() ==> !f(#[trigger] roles[t]),
        spec_count(roles, f) > 0 ==> exists|t: int| 0 <= t < roles.len() && f(#[trigger] roles[t]),
    decreases roles.len(),
{
    if roles.len() > 0 {
        lemma_count_bounds(roles.drop_last(), f);
        if spec_count(roles, f) > 0 {
            if f(roles.last()) {
                assert(f(roles[roles.len() - 1]));
            } else {
                let t = choose|t: int|
                    0 <= t < roles.drop_last().len() && f(#[trigger] roles.drop_last()[t]);
                assert(roles.drop_last()[t] == roles[t]);
            }
        }
        assert forall|t: int| 0 <= t < roles.len() && f(#[trigger] roles[t]) implies spec_count(
            roles,
            f,
        ) >= 1 by {
            if t < roles.len() - 1 {
                assert(roles.drop_last()[t] == roles[t]);
            }
        }
        assert forall|t: int| 0 <= t < roles.len() - 1 implies roles.drop_last()[t] == roles[t] by {}
    }
}

/// A count of at most one: two roles that satisfy `f` are the same role.
pub proof fn lemma_count_one(roles: Seq<Role>, f: spec_fn(Role) -> bool, t: int, u: int)
    requires
        spec_count(roles, f) <= 1,
        0 <= t < roles.len(),
        0 <= u < roles.len(),
        f(roles[t]),
        f(roles[u]),
    ensures
        t == u,
    decreases roles.len(),
{
    let rest = roles.drop_last();
    lemma_count_bounds(rest, f);
    let n = roles.len() - 1;
    if t < n && u < n {
        assert(rest[t] == roles[t]);
        assert(rest[u] == roles[u]);
        lemma_count_one(rest, f, t, u);
    } else if t < n {
        assert(rest[t] == roles[t]);
    } else if u < n {
        assert(rest[u] == roles[u]);
    }
}

/// Replacing one role moves the count by what that role counted.
pub proof fn lemma_count_update(roles: Seq<Role>, f: spec_fn(Role) -> bool, t: int, r: Role)
    requires
        0 <= t < roles.len(),
    ensures
        spec_count(roles.update(t, r), f) == spec_count(roles, f) - (if f(roles[t]) {
            1int
        } else {
            0int
        }) + (if f(r) {
            1int
        } else {
            0int
        }),
    decreases roles.len(),
{
    let after = roles.update(t, r);
    if t == roles.len() - 1 {
        assert(after.drop_last() =~= roles.drop_last());
    } else {
        assert(after.drop_last() =~= roles.drop_last().update(t, r));
        assert(roles.drop_last()[t] == roles[t]);
        lemma_count_update(roles.drop_last(), f, t, r);
    }
}

/// What holds of the system at all times: the words of the lock count the
/// CPUs that stand where they stand, at most one CPU owns the writer flag,
/// the owner recorded is the writer that holds, and no reader holds while
/// a writer holds.
pub open spec fn spec_inv(s: RwSystem) -> bool {
    &&& s.roles.len() < u32::MAX
    &&& s.lock.readers == spec_count(s.roles, |r: Role| spec_counted(r))
    &&& s.lock.waiting_writers == spec_count(s.roles, |r: Role| spec_announced(r))
    &&& spec_count(s.roles, |r: Role| spec_flagged(r)) == if s.lock.writer {
        1int
    } else {
        0int
    }
    &&& forall|t: int|
        0 <= t < s.roles.len() && #[trigger] s.roles[t] == Role::WriteHeld ==> s.lock.owner
            == spec_id(t) && s.lock.recursion >= 1
    &&& (forall|t: int| 0 <= t < s.roles.len() ==> #[trigger] s.roles[t] != Role::WriteHeld)
        ==> s.lock.owner == 0 && s.lock.recursion == 0
    &&& forall|t: int, u: int|
        0 <= t < s.roles.len() && 0 <= u < s.roles.len() && #[trigger] s.roles[t]
            == Role::WriteHeld ==> #[trigger] s.roles[u] != Role::ReadHeld
}

/// The system after CPU `t` has taken one step towards what it wants.
pub open spec fn spec_step(s: RwSystem, t: int, m: Move) -> RwSystem {
    let id = spec_id(t);
    match s.roles[t] {
        Role::Idle => match m {
            Move::Read => {
                let step = spec_read_lock(s.lock, id, spec_fresh_reader());
                RwSystem {
                    lock: step.0,
                    roles: s.roles.update(
                        t,
                        if step.2 == Action::Done {
                            Role::ReadHeld
                        } else {
                            Role::Reading(step.1)
                        },
                    ),
                }
            },
            Move::Write => {
                let step = spec_write_lock(s.lock, id, spec_fresh_writer());
                RwSystem {
                    lock: step.0,
                    roles: s.roles.update(
                        t,
                        if step.2 == Action::Done {
                            Role::WriteHeld
                        } else {
                            Role::Writing(step.1)
                        },
                    ),
                }
            },
            Move::Unlock => s,
        },
        Role::Reading(w) => {
            let step = spec_read_lock(s.lock, id, w);
            RwSystem {
                lock: step.0,
                roles: s.roles.update(
                    t,
                    if step.2 == Action::Done {
                        Role::ReadHeld
                    } else {
                        Role::Reading(step.1)
                    },
                ),
            }
        },
        Role::ReadHeld => match m {
            Move::Unlock => RwSystem {
                lock: spec_read_unlock(s.lock, id),
                roles: s.roles.update(t, Role::Idle),
            },
            _ => s,
        },
        Role::Writing(w) => {
            let step = spec_write_lock(s.lock, id, w);
            RwSystem {
                lock: step.0,
                roles: s.roles.update(
                    t,
                    if step.2 == Action::Done {
                        Role::WriteHeld
                    } else {
                        Role::Writing(step.1)
                    },
                ),
            }
        },
        Role::WriteHeld => match m {
            Move::Unlock => RwSystem {
                lock: spec_write_unlock(s.lock),
                roles: s.roles.update(
                    t,
                    if s.lock.recursion <= 1 {
                        Role::Idle
                    } else {
                        Role::WriteHeld
                    },
                ),
            },
            Move::Write => if s.lock.recursion < u32::MAX {
                RwSystem { lock: spec_write_lock(s.lock, id, spec_fresh_writer()).0, roles: s.roles }
            } else {
                s
            },
            Move::Read => RwSystem {
                lock: spec_read_lock(s.lock, id, spec_fresh_reader()).0,
                roles: s.roles,
            },
        },
    }
}

/// Exclusion. While a CPU holds the lock as writer, no other CPU holds it,
/// as writer or as reader.
pub proof fn lemma_writer_excludes(s: RwSystem, t: int, u: int)
    requires
        spec_inv(s),
        0 <= t < s.roles.len(),
        0 <= u < s.roles.len(),
        s.roles[t] == Role::WriteHeld,
        t != u,
    ensures
        s.roles[u] != Role::WriteHeld,
        s.roles[u] != Role::ReadHeld,
        s.lock.writer,
        s.lock.owner == spec_id(t),
{
    let f = |r: Role| spec_flagged(r);
    lemma_count_bounds(s.roles, f);
    if s.roles[u] == Role::WriteHeld {
        lemma_count_one(s.roles, f, t, u);
    }
}

/// A system of idle CPUs on a lock that nobody holds is as it should be.
pub proof fn lemma_idle_system(roles: Seq<Role>)
    requires
        roles.len() < u32::MAX,
        forall|t: int| 0 <= t < roles.len() ==> #[trigger] roles[t] == Role::Idle,
    ensures
        spec_inv(
            RwSystem {
                lock: RwState {
                    readers: 0,
                    writer: false,
                    waiting_writers: 0,
                    owner: 0,
                    recursion: 0,
                },
                roles,
            },
        ),
    decreases roles.len(),
{
    lemma_all_idle(roles, |r: Role| spec_counted(r));
    lemma_all_idle(roles, |r: Role| spec_announced(r));
    lemma_all_idle(roles, |r: Role| spec_flagged(r));
}

/// Idle CPUs are counted nowhere.
pub proof fn lemma_all_idle(roles: Seq<Role>, f: spec_fn(Role) -> bool)
    requires
        forall|t: int| 0 <= t < roles.len() ==> #[trigger] roles[t] == Role::Idle,
        !f(Role::Idle),
    ensures
        spec_count(roles, f) == 0,
    decreases roles.len(),
{
    if roles.len() > 0 {
        assert(roles.last() == roles[roles.len() - 1]);
        assert forall|t: int| 0 <= t < roles.len() - 1 implies #[trigger] roles.drop_last()[t]
            == Role::Idle by {
            assert(roles.drop_last()[t] == roles[t]);
        }
        lemma_all_idle(roles.drop_last(), f);
    }
}

/// Every step of every CPU keeps the system as it should be.
pub proof fn lemma_step(s: RwSystem, t: int, m: Move)
    requires
        spec_inv(s),
        0 <= t < s.roles.len(),
    ensures
        spec_inv(spec_step(s, t, m)),
{
    let r = spec_step(s, t, m);
    let counted = |r: Role| spec_counted(r);
    let announced = |r: Role| spec_announced(r);
    let flagged = |r: Role| spec_flagged(r);
    lemma_count_bounds(s.roles, counted);
    lemma_count_bounds(s.roles, announced);
    lemma_count_bounds(s.roles, flagged);
    if r.roles != s.roles {
        lemma_count_update(s.roles, counted, t, r.roles[t]);
        lemma_count_update(s.roles, announced, t, r.roles[t]);
        lemma_count_update(s.roles, flagged, t, r.roles[t]);
        assert(r.roles =~= s.roles.update(t, r.roles[t]));
    }
    lemma_count_bounds(r.roles, counted);
    lemma_count_bounds(r.roles, flagged);
    if s.lock.writer {
        let h = choose|h: int| 0 <= h < s.roles.len() && spec_flagged(#[trigger] s.roles[h]);
        if h != t && spec_flagged(s.roles[t]) {
            lemma_count_one(s.roles, flagged, t, h);
        }
        lemma_flag_owner(s, h);
    } else {
        assert forall|h: int| 0 <= h < s.roles.len() implies !spec_flagged(#[trigger] s.roles[h]) by {}
    }
    assert forall|h: int|
        0 <= h < r.roles.len() && #[trigger] r.roles[h] == Role::WriteHeld implies r.lock.owner
        == spec_id(h) && r.lock.recursion >= 1 by {
        if h != t {
            assert(s.roles[h] == Role::WriteHeld);
            if spec_flagged(s.roles[t]) {
                lemma_count_one(s.roles, flagged, t, h);
            }
        }
    }
    assert forall|h: int, u: int|
        0 <= h < r.roles.len() && 0 <= u < r.roles.len() && #[trigger] r.roles[h]
            == Role::WriteHeld implies #[trigger] r.roles[u] != Role::ReadHeld by {
        if h != t && u != t {
            assert(s.roles[h] == Role::WriteHeld);
            assert(s.roles[u] != Role::ReadHeld);
        } else if h != t {
            assert(s.roles[h] == Role::WriteHeld);
            assert(s.lock.writer);
        } else if u != t {
            if r.roles[u] == Role::ReadHeld {
                assert(spec_counted(s.roles[u]));
            }
        }
    }
    if forall|h: int| 0 <= h < r.roles.len() ==> #[trigger] r.roles[h] != Role::WriteHeld {
        if exists|h: int| 0 <= h < s.roles.len() && #[trigger] s.roles[h] == Role::WriteHeld {
            let h = choose|h: int| 0 <= h < s.roles.len() && #[trigger] s.roles[h] == Role::WriteHeld;
            assert(r.roles[h] != Role::WriteHeld);
            assert(h == t);
        }
    }
}

/// The CPU that owns the writer flag is the writer that holds the lock, if
/// anyone is: the owner recorded is the identity of no other CPU.
pub proof fn lemma_flag_owner(s: RwSystem, h: int)
    requires
        spec_inv(s),
        0 <= h < s.roles.len(),
        spec_flagged(s.roles[h]),
    ensures
        s.lock.writer,
        forall|t: int|
            0 <= t < s.roles.len() && t != h ==> s.lock.owner != spec_id(t) && !spec_flagged(
                #[trigger] s.roles[t],
            ),
{
    let flagged = |r: Role| spec_flagged(r);
    lemma_count_bounds(s.roles, flagged);
    assert forall|t: int| 0 <= t < s.roles.len() && t != h implies s.lock.owner != spec_id(t)
        && !spec_flagged(#[trigger] s.roles[t]) by {
        if spec_flagged(s.roles[t]) {
            lemma_count_one(s.roles, flagged, t, h);
        }
        if s.roles[h] == Role::WriteHeld {
            assert(s.lock.owner == spec_id(h));
        } else {
            assert forall|x: int| 0 <= x < s.roles.len() implies #[trigger] s.roles[x]
                != Role::WriteHeld by {
                if s.roles[x] == Role::WriteHeld {
                    lemma_count_one(s.roles, flagged, x, h);
                }
            }
        }
    }
}

} // verus!
