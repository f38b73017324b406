//! Scheduling and cache-memory accounting for a sharded inference backend.
//!
//! The crate decides which generation requests run, when, and with how much
//! cache memory. It performs no I/O: the calls to the shards are made by the
//! program around it, which hands their answers in as plain values.
//!
//! * `negotiate` fixes the token budget at startup, from the shards' answer
//!   to the warmup probe.
//! * `block_allocator` owns the inventory of cache blocks.
//! * `queue` holds the waiting requests and applies the admission policy.
//! * `backend` is the continuous-batching driver, one tick at a time.
//! * `model` is the scheduler as a state machine, `laws` and `lifecycle`
//!   say what holds of it.

pub mod backend;
pub mod block_allocator;
pub mod config;
pub mod error;
pub mod laws;
pub mod lifecycle;
pub mod model;
pub mod negotiate;
pub mod queue;
pub mod request;
