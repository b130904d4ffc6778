//! The kernel heap: a segregated-fit allocator over a byte arena, with
//! in-band block headers, per-class fast caches, and per-CPU caches on top.

pub mod block;
pub mod backend;
pub mod bytes;
pub mod config;
pub mod layout;
pub mod model;
pub mod percpu;
pub mod shared;
