pub mod detector;
pub mod laws;
pub mod message_id;

pub use detector::{conflicts_between, detect_conflicts, Conflict, QueuedSlot};
