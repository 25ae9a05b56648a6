//! Device-local broker for a scarce pool of remotely provisioned attestation
//! keys.
//!
//! The crate tracks, per hardware component, which keys are available,
//! assigned, or expired; hands keys out to callers at most once each;
//! deduplicates concurrent replenishment requests (single-flight); and sweeps
//! stale keys. The IPC transport, the network exchange with the provisioning
//! server, and process bootstrap are external collaborators: they drive this
//! library with plain values and perform the actions it decides on.

pub mod errors;
pub mod keys;
pub mod store;
pub mod pool;
pub mod fetch;
pub mod session;
pub mod laws;
