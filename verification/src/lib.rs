//! Storage and serving logic of an in-memory no-sql server.
pub mod app;
pub mod db;
pub mod hash_index;
pub mod hashed_list;
pub mod leases;
pub mod names;
pub mod persist;
pub mod reader;
pub mod sorting;
pub mod text;
pub mod text_map;
pub mod transactions;
pub mod operations;
pub mod monitoring;
pub mod settings_reader;
pub mod triples;
pub mod mcp;
