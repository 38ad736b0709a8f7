//! The MCP surface: a person asking about the data in words, and an agent
//! looking.
//!
//! It sits on the HTTP port, behind the same key as everything else there, and
//! it offers exactly the tools listed in `tools`. That list is the whole of what
//! an MCP client can do: a route which is not a tool there is a route the model
//! has no way to reach, which is what puts the write window -
//! `POST /api/Mcp/Writes` - out of its own hands.

pub mod backups;
pub mod context;
pub mod mcp_laws;
pub mod reads;
pub mod rows_to_delete;
pub mod tools;
pub mod writes;
