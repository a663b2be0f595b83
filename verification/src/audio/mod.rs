//! The audio runtime: channel announcement and request lifecycle, PCM sinks
//! and sources, beat-aligned scheduling.

pub mod announce;
pub mod effects;
pub mod inbound;
pub mod laws;
pub mod ops;
pub mod outbound;
pub mod paths;
pub mod sink;
pub mod source;
pub mod state;
pub mod upkeep;
