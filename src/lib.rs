//! Session orchestration for a relay-network client: bootstrap-address
//! parsing, the per-cycle decision of the session discovery poller, and the
//! mapping of network call outcomes onto typed results.
pub mod address;
pub mod base58;
pub mod discovery;
pub mod error;
pub mod outcome;
