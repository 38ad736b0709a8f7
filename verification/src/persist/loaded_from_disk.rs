//! What comes off the disk.

use super::table_metadata_contract::TableMetadataFileContract;
use vstd::prelude::*;

verus! {

/// One partition as the recovery scan found it - the payload is still the raw
/// slot body.
pub struct LoadedPartition {
    pub table_name: String,
    pub partition_key: String,
    pub payload: Vec<u8>,
}

/// What `tables.meta` says of one table.
pub struct LoadedTableAttrs {
    pub table_name: String,
    pub attr: TableMetadataFileContract,
}

}
