//! The write-behind queue of one namespace.
pub mod persist_markers;
pub mod persist_task;
