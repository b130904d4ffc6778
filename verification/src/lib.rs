//! Kernel support core: spinning locks modelled as step machines, and a
//! kernel heap over a byte arena with in-band block headers.
//!
//! Nothing here touches the machine. Whatever a real kernel would get from
//! the hardware (the cycle counter, the identity of the running CPU, pause
//! and yield) comes in as an argument, and whatever it would do to the
//! hardware goes out as an [`machine::Action`] for the caller to perform.

pub mod clayout;
pub mod heap;
pub mod machine;
pub mod pool;
pub mod sync;
pub mod vmm;
