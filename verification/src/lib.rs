//! Time-scoped network access control for known devices on a home gateway.
//!
//! The crate models the access state of a set of devices (identified by
//! link-layer address), the mutation operations on that state, the
//! reconciliation of the state with an externally configured device list,
//! the computation of the next expiry wake-up, and the compilation of the
//! state into an ordered firewall command script.

pub mod order;
pub mod types;
pub mod schedule;
pub mod text;
pub mod coordinator;
pub mod config;
pub mod script;
pub mod leases;
pub mod codec;


