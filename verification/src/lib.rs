//! Keeps a local directory mirror synchronized with a remote content tree.
//!
//! The library holds the reconciliation engine: content hashing compatible
//! with the remote store's blob convention, the full-sync planner, the
//! incremental reconciler, the remote tree walk, the local scan rules and
//! the verification diff. Network and filesystem plumbing live outside it
//! and hand the engine plain values.

pub mod hashing;
pub mod incremental;
pub mod model;
pub mod scanner;
pub mod version;
pub mod paths;
pub mod planner;
pub mod remote;
