use vstd::prelude::*;

verus! {

/// Errors of the routing and pool layer.
#[derive(Clone, Debug, PartialEq, Eq)]
pub enum RedisError {
    /// A protocol-level error, server-reported ones included, with its text.
    RedisError(Vec<u8>),
    /// An error that a simulated command reports, with its text.
    CommandError(Vec<u8>),
    /// A connection could not be had, or the pool is not open.
    PoolError(PoolFault),
    /// The owning shard's address has no registered node yet.
    NotFoundNode,
    /// No shard owns the slot and no node is known.
    NoSlot,
}

/// Why a connection could not be had.
#[derive(Clone, Debug, PartialEq, Eq)]
pub enum PoolFault {
    /// Called before the pool was opened or after it was closed.
    NotInitialized,
    /// Waiting for a pooled connection took too long.
    TimedOut,
    /// The connection failed, with the error's text.
    Connection(Vec<u8>),
}

/// Whether an error is the one reported by a pool that is not open.
pub open spec fn is_not_initialized(e: RedisError) -> bool {
    e matches RedisError::PoolError(PoolFault::NotInitialized)
}

impl RedisError {
    /// The error of a pool that is not open.
    pub fn not_initialized() -> (r: RedisError)
        ensures
            is_not_initialized(r),
    {
        RedisError::PoolError(PoolFault::NotInitialized)
    }
}

} // verus!
