//! The cache node data plane: retained segments, eviction, prewarm targets
//! and the heartbeat protocol with the core.
//!
//! A cache node is deliberately simple: it prewarms segments from the core,
//! serves retained segments, evicts old sequences and reports heartbeats. It
//! does no global load balancing, client assignment or playlist validation.
pub mod cache;
pub mod heartbeat;
pub mod prewarm;
