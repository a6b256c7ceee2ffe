//! The mutation core of a full-text index: an ordered log of pending
//! updates, and the deletion of documents from every store of an index in
//! one pass that keeps the stores consistent with each other.

pub mod deletion;
pub mod external;
pub mod index;
pub mod stats;
pub mod types;
pub mod updates;
