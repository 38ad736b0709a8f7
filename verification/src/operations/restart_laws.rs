//! What the persist loop wrote, and what the next start makes of it.

use super::persist::{disk_after, is_done, DiskWork, PersistError, TableState};
use crate::db::EntitySchema;
use crate::persist::base64url::{bytes_survive_encoding, decoded};
use crate::persist::files_repo_inner::are_partitions;
use crate::persist::loaded_from_disk::LoadedPartition;
use crate::persist::markers::persist_task::Task;
use crate::persist::partition_blob::{blob, blob_rows, stored_rows, stored_rows_fit};
use crate::persist::restart_laws::is_given_back;
use crate::persist::size_class::{a_class_is_found, smallest_class_for};
use crate::persist::slot::bytes_needed;
use crate::persist::slot_book::{
    disk_deleted, disk_saved, is_recovery, record_at, Disk, PartitionName, SlotBook, SlotLocation,
};
use crate::persist::slot_laws::{
    a_deleted_partition_is_off_the_disk, a_saved_partition_is_on_the_disk,
};
use crate::persist::slot_recovery::a_restart_gives_back_what_was_stored;
use crate::persist::table_metadata_contract::{TableMetadataFileContract, TableSchemaFileContract};
use vstd::prelude::*;

verus! {

/// Whether a payload holds the rows of a table: as many, in their order, each with its
/// schema and its content.
pub open spec fn holds_rows_of(payload: Seq<u8>, state: TableState) -> bool {
    &&& blob_rows(payload) matches Ok(rows)
    &&& rows.len() == state.rows@.len()
    &&& forall|i: int|
        0 <= i < rows.len() ==> (#[trigger] rows[i]).schema_id == state.rows@[i].schema_id
            && rows[i].row == state.rows@[i].content@
}

/// Whether this is how much of a partition can be written at all.
pub open spec fn rows_can_be_written(state: TableState) -> bool {
    &&& state.rows@.len() < 0x1_0000_0000
    &&& forall|i: int|
        0 <= i < state.rows@.len() ==> (#[trigger] state.rows@[i]).content@.len() < 0x1_0000_0000
}

/// Once a partition was brought onto the disk, the next start finds it: of a table which is
/// persisted and holds rows of it, those very rows; of a table which is gone, is not
/// persisted or holds no row of it, nothing. Every other partition is found as it was.
pub proof fn what_was_brought_to_the_disk_is_found_at_the_next_start(
    book: SlotBook,
    disk: Disk,
    tables: Map<Seq<char>, TableMetadataFileContract>,
    compress_data: bool,
    name: PartitionName,
    table: Option<TableState>,
    work: DiskWork,
    after: SlotBook,
    tables_after: Map<Seq<char>, TableMetadataFileContract>,
    index: Map<PartitionName, SlotLocation>,
    partitions: Seq<LoadedPartition>,
)
    requires
        book.wf(),
        book.matches(disk),
        table matches Some(state) ==> rows_can_be_written(state),
        is_done(
            book,
            tables,
            compress_data,
            Task::Partition(name.0, name.1),
            table,
            Ok::<DiskWork, PersistError>(work),
            after,
            tables_after,
        ),
        is_recovery(disk_after(disk, work), index),
        are_partitions(partitions, disk_after(disk, work), index),
    ensures
        is_given_back(partitions, name.0, name.1) <==> (table matches Some(state)
            && state.attributes.persist && state.rows@.len() > 0),
        forall|j: int|
            0 <= j < partitions.len() && (#[trigger] partitions[j]).table_name@ == name.0
                && partitions[j].partition_key@ == name.1 ==> holds_rows_of(
                partitions[j].payload@,
                table->0,
            ),
        forall|other: PartitionName|
            #![trigger book.index.contains_key(other)]
            other != name ==> (is_given_back(partitions, other.0, other.1)
                <==> book.index.contains_key(other)),
        forall|j: int|
            0 <= j < partitions.len() && ((#[trigger] partitions[j]).table_name@ != name.0
                || partitions[j].partition_key@ != name.1) ==> partitions[j].payload@ == record_at(
                disk,
                book.index[(partitions[j].table_name@, partitions[j].partition_key@)],
            )->0.payload,
        tables_after == tables,
{
    let done = disk_after(disk, work);
    let (t, k) = name;
    let stored_before = book.stored(disk);
    let stored_after = after.stored(done);
    let saves = table matches Some(state) && state.attributes.persist && state.rows@.len() > 0;
    if saves {
        let state = table->0;
        let rows = stored_rows(state.rows@);
        assert(stored_rows_fit(rows)) by {
            assert forall|i: int| 0 <= i < rows.len() implies (#[trigger] rows[i]).row.len()
                < 0x1_0000_0000 && rows[i].schema_id < 0x1_0000_0000_0000_0000 by {
                assert(state.rows@[i].content@.len() < 0x1_0000_0000);
            }
        }
        let payload = blob(rows, compress_data)->Ok_0;
        let needed = bytes_needed(t, k, payload.len());
        a_class_is_found(needed);
        let c = smallest_class_for(needed) as u32;
        a_saved_partition_is_on_the_disk(book, disk, name, c, payload);
        assert(done == disk_saved(book, disk, name, c, payload));
        assert(stored_after == stored_before.insert(name, payload));
        assert forall|i: int| 0 <= i < rows.len() implies (#[trigger] rows[i]).schema_id
            == state.rows@[i].schema_id && rows[i].row == state.rows@[i].content@ by {}
        assert(holds_rows_of(payload, state));
    } else {
        a_deleted_partition_is_off_the_disk(book, disk, name);
        assert(done == disk_deleted(book, disk, name));
        assert(stored_after == stored_before.remove(name));
    }
    a_restart_gives_back_what_was_stored(after, done, index);
    assert forall|other: PartitionName| is_given_back(partitions, other.0, other.1)
        <==> #[trigger] index.contains_key(other) by {
        if is_given_back(partitions, other.0, other.1) {
            let j = choose|j: int|
                0 <= j < partitions.len() && (#[trigger] partitions[j]).table_name@ == other.0
                    && partitions[j].partition_key@ == other.1;
            assert(index.contains_key((partitions[j].table_name@, partitions[j].partition_key@)));
        }
        if index.contains_key(other) {
            let j = choose|j: int|
                0 <= j < partitions.len() && (#[trigger] partitions[j]).table_name@ == other.0
                    && partitions[j].partition_key@ == other.1;
            assert(partitions[j].table_name@ == other.0);
        }
    }
    assert forall|other: PartitionName| #[trigger] index.contains_key(other)
        <==> stored_after.contains_key(other) by {}
    assert(stored_after.contains_key(name) <==> saves);
    assert(is_given_back(partitions, name.0, name.1) <==> index.contains_key(name));
    assert forall|other: PartitionName|
        #![trigger book.index.contains_key(other)]
        other != name implies (is_given_back(partitions, other.0, other.1)
        <==> book.index.contains_key(other)) by {
        assert(index.contains_key(other) <==> stored_after.contains_key(other));
        assert(stored_after.contains_key(other) <==> stored_before.contains_key(other));
    }
    assert forall|j: int| 0 <= j < partitions.len() implies (#[trigger] partitions[j]).payload@
        == stored_after[(partitions[j].table_name@, partitions[j].partition_key@)]
        && stored_after.contains_key(
        (partitions[j].table_name@, partitions[j].partition_key@),
    ) by {
        let found = (partitions[j].table_name@, partitions[j].partition_key@);
        assert(index.contains_key(found));
    }
    assert forall|j: int|
        0 <= j < partitions.len() && ((#[trigger] partitions[j]).table_name@ != name.0
            || partitions[j].partition_key@ != name.1) implies partitions[j].payload@ == record_at(
        disk,
        book.index[(partitions[j].table_name@, partitions[j].partition_key@)],
    )->0.payload by {
        let found = (partitions[j].table_name@, partitions[j].partition_key@);
        assert(found != name);
        assert(stored_before.contains_key(found));
        assert(stored_after[found] == stored_before[found]);
    }
}

/// Whether an entry of `tables.meta` is about the schema: it has its id, and what stands
/// in it decodes into its bytes.
pub open spec fn is_schema_entry(entry: TableSchemaFileContract, schema: EntitySchema) -> bool {
    entry.id == schema.id && decoded(entry.schema@) == Some(schema.schema@)
}

/// What `tables.meta` says of a table is what the table does with itself, and all of its
/// schemas; a table which is gone is not in it any more. No other table is touched, and
/// neither is a page-file.
pub proof fn tables_meta_says_what_a_table_is(
    book: SlotBook,
    disk: Disk,
    tables: Map<Seq<char>, TableMetadataFileContract>,
    compress_data: bool,
    table_name: Seq<char>,
    table: Option<TableState>,
    r: Result<DiskWork, PersistError>,
    after: SlotBook,
    tables_after: Map<Seq<char>, TableMetadataFileContract>,
)
    requires
        is_done(
            book,
            tables,
            compress_data,
            Task::TableMetadata(table_name),
            table,
            r,
            after,
            tables_after,
        ),
    ensures
        after == book,
        r matches Ok(work) && disk_after(disk, work) == disk,
        forall|other: Seq<char>|
            #![trigger tables_after.contains_key(other)]
            other != table_name ==> tables_after.contains_key(other) == tables.contains_key(other)
                && tables_after[other] == tables[other],
        tables_after.contains_key(table_name) <==> table is Some,
        table is Some ==> r == Ok::<DiskWork, PersistError>(DiskWork::TablesMeta { changed: true }),
        table is None && tables.contains_key(table_name) ==> r == Ok::<DiskWork, PersistError>(
            DiskWork::TablesMeta { changed: true },
        ),
        table matches Some(state) ==> {
            let entry = tables_after[table_name];
            &&& entry.persist == state.attributes.persist
            &&& entry.max_partitions_amount == state.attributes.max_partitions_amount
            &&& entry.max_rows_per_partition_amount
                == state.attributes.max_rows_per_partition_amount
            &&& entry.created matches Some(created) && created@ == state.created@
            &&& entry.schemas@.len() == state.attributes.schemas@.len()
            &&& forall|i: int|
                0 <= i < entry.schemas@.len() ==> is_schema_entry(
                    #[trigger] entry.schemas@[i],
                    state.attributes.schemas@[i],
                )
        },
{
    if let Some(state) = table {
        let entry = tables_after[table_name];
        assert forall|i: int| 0 <= i < entry.schemas@.len() implies is_schema_entry(
            #[trigger] entry.schemas@[i],
            state.attributes.schemas@[i],
        ) by {
            bytes_survive_encoding(state.attributes.schemas@[i].schema@);
        }
    }
}

}
