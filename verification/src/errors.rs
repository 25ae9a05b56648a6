//! Error taxonomy of the key-pool core.

use vstd::prelude::*;

verus! {

/// Failure of a pool-manager operation, surfaced to callers.
#[derive(Clone, Copy, PartialEq, Eq, Structural, Debug)]
pub enum PoolError {
    /// No eligible key exists, even after replenishment was attempted.
    Exhausted,
    /// A wait on an in-flight replenishment exceeded its bound.
    Timeout,
    /// The requested key does not exist or its blob did not match.
    NotFound,
    /// A compare-and-swap state update lost a race (handled internally).
    StateMismatch,
}

/// Failure of one replenishment exchange with the provisioning server.
#[derive(Clone, Copy, PartialEq, Eq, Structural, Debug)]
pub enum FetchError {
    /// Transient transport failure; retryable with backoff.
    Network,
    /// The server declined the batch; not retryable.
    Rejected,
    /// The response failed validation.
    Malformed,
}

/// Failure of the durable key store.
#[derive(Clone, Copy, PartialEq, Eq, Structural, Debug)]
pub enum StoreError {
    /// The underlying medium failed.
    IoFailure,
    /// Stored data failed an integrity check.
    Corrupt,
}

/// A store failure is fatal for the affected component's pool and is
/// surfaced to callers as exhaustion; it never crashes the process.
pub fn pool_error_of_store(e: StoreError) -> (r: PoolError)
    ensures
        r == PoolError::Exhausted,
{
    match e {
        StoreError::IoFailure => PoolError::Exhausted,
        StoreError::Corrupt => PoolError::Exhausted,
    }
}

} // verus!
