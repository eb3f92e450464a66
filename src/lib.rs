//! A peer directory for a content tracker: which peers serve which content
//! hashes, when each peer was first and last seen, discovery queries, and the
//! sweeps that evict stale peers and orphaned hashes.
//!
//! `model` states the directory as three tables of plain values and each
//! operation as a function on them; `store` is the executable in-memory engine,
//! proved to follow the model; `laws` proves properties that span operations.

pub mod laws;
pub mod model;
pub mod store;
