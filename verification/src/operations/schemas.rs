//! Why a row whose schema is not on disk is not a state this server can reach.
//!
//! A schema arrives with a write, and the write marks the metadata of its table
//! together with the partition. The queue hands the metadata of a table out before
//! any of its partitions, so by the time a partition reaches the disk `tables.meta`
//! names everything the table has learnt.

use crate::db::{has_schema, DateTimeAsMicroseconds, EntitySchema};
use crate::operations::persist::{
    disk_after, is_done, step_for, DiskWork, PersistError, PersistStep, TableState,
};
use crate::persist::base64url::{bytes_survive_encoding, encoded};
use crate::persist::markers::persist_markers::{table_of, Queue};
use crate::persist::markers::persist_task::Task;
use crate::persist::partition_blob::{blob, blob_rows, stored_rows, stored_rows_fit, StoredRow};
use crate::persist::size_class::{a_class_is_found, smallest_class_for};
use crate::persist::slot::bytes_needed;
use crate::persist::slot_book::{disk_deleted, disk_saved, Disk, PartitionName, SlotBook};
use crate::persist::slot_laws::{
    a_deleted_partition_is_off_the_disk, a_saved_partition_is_on_the_disk, deleting_keeps_order,
    saving_keeps_order,
};
use crate::persist::table_metadata_contract::{
    named_schemas, names_schemas, TableMetadataFileContract, TableSchemaFileContract,
};
use vstd::prelude::*;

verus! {

/// What a namespace holds in memory, owes to the disk, and has there.
#[verifier::ext_equal]
pub struct Ledger {
    /// The schemas of the tables there are.
    pub live: Map<Seq<char>, Seq<EntitySchema>>,
    pub queue: Queue,
    /// What `tables.meta` says.
    pub meta: Map<Seq<char>, TableMetadataFileContract>,
    /// The rows of every partition which is stored.
    pub disk: Map<PartitionName, Seq<StoredRow>>,
}

/// One thing which happens to a namespace. A task is handed out and done before the
/// next thing happens.
pub enum Change {
    /// A table is there and knows these schemas; its metadata is to be written.
    Learnt { table: Seq<char>, schemas: Seq<EntitySchema>, moment: i64 },
    /// A partition changed and is to be written.
    Marked { table: Seq<char>, key: Seq<char>, moment: i64 },
    /// A table is gone; its metadata is to be taken out.
    Dropped { table: Seq<char>, moment: i64 },
    /// The metadata of a table is handed out and this is written, or taken out
    /// where the table is gone.
    MetadataWritten { table: Seq<char>, contract: TableMetadataFileContract },
    /// A partition is handed out and written with these rows.
    PartitionWritten { table: Seq<char>, key: Seq<char>, rows: Seq<StoredRow> },
    /// A partition is handed out and taken off the disk.
    PartitionDeleted { table: Seq<char>, key: Seq<char> },
}

/// Whether a table knows the schema of every one of some rows.
pub open spec fn knows_rows(schemas: Seq<EntitySchema>, rows: Seq<StoredRow>) -> bool {
    forall|i: int| 0 <= i < rows.len() ==> has_schema(
        schemas,
        (#[trigger] rows[i]).schema_id as u64,
    )
}

/// Whether a file names the schema of every one of some rows.
pub open spec fn names_rows(written: Seq<TableSchemaFileContract>, rows: Seq<StoredRow>) -> bool {
    forall|i: int|
        0 <= i < rows.len() ==> named_schemas(written).contains_key(
            (#[trigger] rows[i]).schema_id as u64,
        )
}

impl Ledger {
    /// Nothing anywhere.
    pub open spec fn empty() -> Ledger {
        Ledger {
            live: Map::empty(),
            queue: Queue { metadata: Map::empty(), partitions: Map::empty() },
            meta: Map::empty(),
            disk: Map::empty(),
        }
    }

    /// Whether every row which is stored of a table which is there can be shown
    /// through a schema which is on disk too.
    pub open spec fn rows_can_be_shown(self) -> bool {
        forall|name: PartitionName| #[trigger]
            self.disk.contains_key(name) && self.live.contains_key(name.0) ==> {
                &&& self.meta.contains_key(name.0)
                &&& names_rows(self.meta[name.0].schemas@, self.disk[name])
            }
    }

    /// Whether what a table has learnt is on disk, or its metadata is queued.
    pub open spec fn schemas_are_down_or_queued(self) -> bool {
        forall|t: Seq<char>| #[trigger]
            self.live.contains_key(t) && !self.queue.metadata.contains_key(t) ==> {
                &&& self.meta.contains_key(t)
                &&& names_schemas(self.meta[t].schemas@, self.live[t])
            }
    }

    /// Whether a table knows the schema of every row which is stored of it.
    pub open spec fn rows_are_known(self) -> bool {
        forall|name: PartitionName| #[trigger]
            self.disk.contains_key(name) && self.live.contains_key(name.0) ==> knows_rows(
                self.live[name.0],
                self.disk[name],
            )
    }

    pub open spec fn is_sound(self) -> bool {
        &&& self.rows_can_be_shown()
        &&& self.schemas_are_down_or_queued()
        &&& self.rows_are_known()
    }

    /// Whether the change is one which can happen. A table never forgets a schema. A
    /// partition is handed out only while the metadata of its table is not queued,
    /// and holds rows its table knows the schemas of. A table is not made anew while
    /// something of another one of its name is still stored.
    pub open spec fn can_happen(self, change: Change) -> bool {
        match change {
            Change::Learnt { table, schemas, moment } => if self.live.contains_key(table) {
                forall|id: u64| #[trigger]
                    has_schema(self.live[table], id) ==> has_schema(schemas, id)
            } else {
                forall|name: PartitionName| #[trigger]
                    self.disk.contains_key(name) ==> name.0 != table
            },
            Change::Marked { table, key, moment } => true,
            Change::Dropped { table, moment } => true,
            Change::MetadataWritten { table, contract } => {
                &&& self.queue.has(Task::TableMetadata(table))
                &&& self.live.contains_key(table) ==> names_schemas(
                    contract.schemas@,
                    self.live[table],
                )
            },
            Change::PartitionWritten { table, key, rows } => {
                &&& self.queue.has(Task::Partition(table, key))
                &&& !self.queue.metadata.contains_key(table)
                &&& self.live.contains_key(table)
                &&& knows_rows(self.live[table], rows)
            },
            Change::PartitionDeleted { table, key } => {
                &&& self.queue.has(Task::Partition(table, key))
                &&& !self.queue.metadata.contains_key(table)
            },
        }
    }

    /// What there is after a change.
    pub open spec fn after(self, change: Change) -> Ledger {
        match change {
            Change::Learnt { table, schemas, moment } => Ledger {
                live: self.live.insert(table, schemas),
                queue: self.queue.marked(Task::TableMetadata(table), moment),
                ..self
            },
            Change::Marked { table, key, moment } => Ledger {
                queue: self.queue.marked(Task::Partition(table, key), moment),
                ..self
            },
            Change::Dropped { table, moment } => Ledger {
                live: self.live.remove(table),
                queue: self.queue.marked(Task::TableMetadata(table), moment),
                ..self
            },
            Change::MetadataWritten { table, contract } => Ledger {
                queue: self.queue.without(Task::TableMetadata(table)),
                meta: if self.live.contains_key(table) {
                    self.meta.insert(table, contract)
                } else {
                    self.meta.remove(table)
                },
                ..self
            },
            Change::PartitionWritten { table, key, rows } => Ledger {
                queue: self.queue.without(Task::Partition(table, key)),
                disk: self.disk.insert((table, key), rows),
                ..self
            },
            Change::PartitionDeleted { table, key } => Ledger {
                queue: self.queue.without(Task::Partition(table, key)),
                disk: self.disk.remove((table, key)),
                ..self
            },
        }
    }
}

/// A file which names some schemas gives every one of them back.
proof fn lemma_named(written: Seq<TableSchemaFileContract>, schemas: Seq<EntitySchema>, id: u64)
    requires
        names_schemas(written, schemas),
        has_schema(schemas, id),
    ensures
        named_schemas(written).contains_key(id),
    decreases schemas.len(),
{
    let last = schemas.len() - 1;
    let at = choose|i: int| 0 <= i < schemas.len() && (#[trigger] schemas[i]).id == id;
    assert(written[last].schema@ == encoded(schemas[last].schema@));
    bytes_survive_encoding(schemas[last].schema@);
    if at < last {
        let fewer = schemas.drop_last();
        assert(fewer[at].id == id);
        assert forall|i: int| 0 <= i < fewer.len() implies (#[trigger] written.drop_last()[i]).id
            == fewer[i].id && written.drop_last()[i].schema@ == encoded(fewer[i].schema@) by {
            assert(written[i].id == schemas[i].id);
        }
        lemma_named(written.drop_last(), fewer, id);
    } else {
        assert(written[at].id == schemas[at].id);
    }
}

/// Rows a table knows the schemas of are shown by what names those schemas.
proof fn lemma_names_rows(
    written: Seq<TableSchemaFileContract>,
    schemas: Seq<EntitySchema>,
    rows: Seq<StoredRow>,
)
    requires
        names_schemas(written, schemas),
        knows_rows(schemas, rows),
    ensures
        names_rows(written, rows),
{
    assert forall|i: int| 0 <= i < rows.len() implies named_schemas(written).contains_key(
        (#[trigger] rows[i]).schema_id as u64,
    ) by {
        lemma_named(written, schemas, rows[i].schema_id as u64);
    }
}

/// Whatever happens, no row of a table which is there is on disk without its schema:
/// it is so while nothing is there, and every change leaves it so.
pub proof fn no_row_is_on_disk_without_its_schema(ledger: Ledger, change: Change)
    requires
        ledger.is_sound(),
        ledger.can_happen(change),
    ensures
        Ledger::empty().is_sound(),
        ledger.after(change).is_sound(),
        ledger.after(change).rows_can_be_shown(),
{
    let after = ledger.after(change);
    assert forall|t: Seq<char>| #[trigger]
        after.live.contains_key(t) && !after.queue.metadata.contains_key(t) implies {
        &&& after.meta.contains_key(t)
        &&& names_schemas(after.meta[t].schemas@, after.live[t])
    } by {
        assert(ledger.live.contains_key(t));
    }
    assert forall|name: PartitionName| #[trigger]
        after.disk.contains_key(name) && after.live.contains_key(name.0) implies {
        &&& knows_rows(after.live[name.0], after.disk[name])
        &&& after.meta.contains_key(name.0)
        &&& names_rows(after.meta[name.0].schemas@, after.disk[name])
    } by {
        match change {
            Change::MetadataWritten { table, contract } => {
                assert(ledger.disk.contains_key(name));
                if name.0 == table {
                    lemma_names_rows(contract.schemas@, ledger.live[table], ledger.disk[name]);
                }
            },
            Change::PartitionWritten { table, key, rows } => {
                if name == (table, key) {
                    lemma_names_rows(ledger.meta[table].schemas@, ledger.live[table], rows);
                } else {
                    assert(ledger.disk.contains_key(name));
                }
            },
            _ => {
                assert(ledger.disk.contains_key(name));
            },
        }
    }
}

/// The rows of every partition the page-files hold. What does not read as rows holds
/// none.
pub open spec fn rows_stored(stored: Map<PartitionName, Seq<u8>>) -> Map<
    PartitionName,
    Seq<StoredRow>,
> {
    stored.map_values(|payload: Seq<u8>| rows_of(payload))
}

/// The rows of one payload.
pub open spec fn rows_of(payload: Seq<u8>) -> Seq<StoredRow> {
    match blob_rows(payload) {
        Ok(rows) => rows,
        Err(_) => Seq::empty(),
    }
}

/// Whether this is what a task finds of its table: the table is there with the
/// schemas it has learnt, and knows the schemas of the rows it holds.
pub open spec fn is_found(
    live: Map<Seq<char>, Seq<EntitySchema>>,
    task: Task,
    table: Option<TableState>,
) -> bool {
    match table {
        None => !live.contains_key(table_of(task)),
        Some(state) => {
            &&& live.contains_key(table_of(task))
            &&& live[table_of(task)] == state.attributes.schemas@
            &&& knows_rows(live[table_of(task)], stored_rows(state.rows@))
            &&& stored_rows_fit(stored_rows(state.rows@))
        },
    }
}

/// What a task which was done comes down to.
pub open spec fn change_of(
    task: Task,
    table: Option<TableState>,
    tables_after: Map<Seq<char>, TableMetadataFileContract>,
) -> Change {
    match task {
        Task::TableMetadata(t) => Change::MetadataWritten { table: t, contract: tables_after[t] },
        Task::Partition(t, k) => match step_for(task, table) {
            PersistStep::SavePartition => Change::PartitionWritten {
                table: t,
                key: k,
                rows: stored_rows(table->0.rows@),
            },
            _ => Change::PartitionDeleted { table: t, key: k },
        },
    }
}

/// Whatever the queue hands out, and `execute` does, is a change which can happen:
/// a task which was ready, and which was done with what its table held, leaves the
/// queue, `tables.meta` and, once the page-files are written, the stored rows as the
/// change says. So no row of a table which is there gets to the disk without its
/// schema that way.
pub proof fn a_task_which_was_done_is_a_change(
    ledger: Ledger,
    now: Option<DateTimeAsMicroseconds>,
    book: SlotBook,
    disk: Disk,
    compress_data: bool,
    task: Task,
    table: Option<TableState>,
    work: DiskWork,
    after: SlotBook,
    tables_after: Map<Seq<char>, TableMetadataFileContract>,
)
    requires
        book.wf(),
        book.matches(disk),
        ledger.disk == rows_stored(book.stored(disk)),
        ledger.queue.is_ready(task, now),
        is_found(ledger.live, task, table),
        is_done(
            book,
            ledger.meta,
            compress_data,
            task,
            table,
            Ok::<DiskWork, PersistError>(work),
            after,
            tables_after,
        ),
    ensures
        ledger.can_happen(change_of(task, table, tables_after)),
        ledger.after(change_of(task, table, tables_after)) == (Ledger {
            live: ledger.live,
            queue: ledger.queue.without(task),
            meta: tables_after,
            disk: rows_stored(after.stored(disk_after(disk, work))),
        }),
        ledger.is_sound() ==> (Ledger {
            live: ledger.live,
            queue: ledger.queue.without(task),
            meta: tables_after,
            disk: rows_stored(after.stored(disk_after(disk, work))),
        }).is_sound(),
        after.wf(),
        after.matches(disk_after(disk, work)),
{
    let done = disk_after(disk, work);
    let rows_after = rows_stored(after.stored(done));
    let change = change_of(task, table, tables_after);
    match (step_for(task, table), task) {
        (PersistStep::SavePartition, Task::Partition(t, k)) => {
            let rows = stored_rows(table->0.rows@);
            let payload = blob(rows, compress_data)->Ok_0;
            let needed = bytes_needed(t, k, payload.len());
            a_class_is_found(needed);
            let c = smallest_class_for(needed) as u32;
            saving_keeps_order(book, (t, k), c);
            a_saved_partition_is_on_the_disk(book, disk, (t, k), c, payload);
            assert(done == disk_saved(book, disk, (t, k), c, payload));
            assert(rows_of(payload) == rows);
            assert(rows_after =~= ledger.disk.insert((t, k), rows));
        },
        (PersistStep::DeletePartition, Task::Partition(t, k)) => {
            deleting_keeps_order(book, (t, k));
            a_deleted_partition_is_off_the_disk(book, disk, (t, k));
            assert(done == disk_deleted(book, disk, (t, k)));
            assert(rows_after =~= ledger.disk.remove((t, k)));
        },
        _ => {},
    }
    assert(ledger.after(change).disk =~= rows_after);
    if ledger.is_sound() {
        no_row_is_on_disk_without_its_schema(ledger, change);
    }
}

}
