//! Backups of one namespace.
pub mod archive;
pub mod backup_laws;
pub mod backup_zip;
pub mod backups_laws;
pub mod backups_repo;
