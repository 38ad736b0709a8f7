//! Telling readers what changed.

pub mod chunker;
pub mod reader_laws;
pub mod reader_session;
pub mod reader_sessions;
pub mod sync_chunk;
