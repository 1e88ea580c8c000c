//! Structural double-spend detection over queued transaction envelopes.
pub mod conflict;
