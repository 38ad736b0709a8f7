//! What the server does with its namespaces as a whole.

pub mod init;
pub mod persist;
pub mod restart_laws;
pub mod schemas;
