//! The lock suite: an adaptive spinlock, a fair queue lock, and a recursive
//! reader/writer lock that prefers writers.

pub mod mcs;
pub mod mcs_queue;
pub mod mcsmutex;
pub mod rw_system;
pub mod rwlock;
pub mod spinlock;
pub mod spinmutex;
