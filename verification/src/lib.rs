//! Client for a sync-tracker: keyframe tracks edited live over a byte stream,
//! and the same tracks replayed from a recorded snapshot.
//!
//! The crate holds the timeline model and the resumable decoder of the wire
//! protocol. It performs no I/O: the embedding program moves bytes between the
//! transport and the [`client::Client`].

pub mod bytes;
pub mod interpolation;
pub mod track;
pub mod protocol;
pub mod client;
pub mod player;
