//! How tables and partitions reach the disk and come back from it.
pub mod backup;
pub mod base64url;
pub mod binary_reader;
pub mod files_repo_inner;
pub mod format_laws;
pub mod layout;
pub mod little_endian;
pub mod loaded_from_disk;
pub mod markers;
pub mod page_file;
pub mod page_scan;
pub mod partition_blob;
pub mod restart_laws;
pub mod size_class;
pub mod slot;
pub mod slot_book;
pub mod slot_laws;
pub mod slot_recovery;
pub mod table_metadata_contract;
pub mod vacuum_laws;
