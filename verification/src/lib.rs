//! Task coordination and result caching for per-package statistics.
//!
//! Computing a statistic for a package is expensive, so finished results are
//! kept in an append-only result store and concurrent requests for a statistic
//! that is not yet cached must not start the same computation twice.  The
//! crate provides:
//!
//! * package-name canonicalization and validation ([`names`]),
//! * an append-only store of completed computations ([`store`]),
//! * a registry of in-flight computations with a claim-once discipline
//!   ([`registry`]),
//! * the worker that combines the two and decides what to start ([`worker`]),
//! * the request-level decision logic of the service ([`api`]),
//! * the engine's cross-cutting guarantees as proved laws ([`laws`]).

pub mod names;
pub mod registry;
pub mod store;
pub mod worker;
pub mod api;
pub mod laws;
