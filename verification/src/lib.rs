//! Edamame: a live-HLS origin/controller and cache-node library.
//!
//! The origin keeps canonical segments and generates playlists, the
//! controller tracks cache nodes and routes clients to one ACTIVE node, and
//! cache nodes prewarm, retain and evict segments. State evaluation never
//! reads the clock: callers pass the time in, so one evaluation of the same
//! `(registry, time)` is deterministic.
pub mod clock;
pub mod config;
pub mod controller;
pub mod domain;
pub mod error;
pub mod node;
pub mod ordered;
pub mod text;

pub use clock::now_ms;
