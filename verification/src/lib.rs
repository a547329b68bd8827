//! A verified core for a small input-telemetry pipeline: an agent-side
//! classifier and aggregator, a canonical JSON wire codec with a proved
//! round trip, and a server-side store with an atomic, auth-guarded merge.

pub mod api;
pub mod classify;
pub mod codec;
pub mod delivery;
pub mod stats;
pub mod store;
pub mod text;
