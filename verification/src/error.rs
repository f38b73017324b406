//! Errors of the startup protocol.

use vstd::prelude::*;

verus! {

/// Which side of a shard call failed.
#[derive(Debug, Clone, Copy, PartialEq, Eq)]
pub enum ShardErrorKind {
    /// The channel to the shards failed: nothing was delivered.
    Transport,
    /// The shards received the call and answered with an error.
    Application,
}

/// A failed call to the shards.
#[derive(Debug, Clone, PartialEq, Eq)]
pub struct ShardError {
    pub kind: ShardErrorKind,
    pub message: String,
}

/// Why the backend could not be brought up. Every one of these is fatal.
#[derive(Debug, Clone, PartialEq, Eq)]
pub enum V3Error {
    /// Clearing the shards' cache failed.
    Cache(ShardError),
    /// The shards could not be reached.
    Connection(ShardError),
    /// The shards' metadata could not be fetched.
    Info(ShardError),
    /// The warmup probe failed.
    Warmup(ShardError),
    /// The shards cannot hold even one request of `max_total_tokens` tokens;
    /// the field is that `max_total_tokens`.
    NotEnoughMemory(usize),
}

} // verus!
