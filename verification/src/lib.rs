//! Heartbeat liveness aggregation.
//!
//! A stream of timestamped heartbeat events, observed over a bounded window
//! `[start, end)`, is condensed into a sorted sequence of non-overlapping
//! half-open intervals during which the source counts as alive: each
//! heartbeat at time `h` keeps the source alive over `[h, h + L)` for a fixed
//! liveness length `L`, and overlapping or touching ranges are coalesced.
//!
//! [`HeartbeatTransState`] absorbs heartbeats in batches and maintains the
//! running interval set; [`HeartbeatAgg`] is the immutable finalized result
//! and answers range, duration and point-in-time queries.
//!
//! [`HeartbeatTransState`]: trans::HeartbeatTransState
//! [`HeartbeatAgg`]: agg::HeartbeatAgg

pub mod agg;
pub mod api;
pub mod intervals;
pub mod laws;
pub mod trans;
pub mod union;
