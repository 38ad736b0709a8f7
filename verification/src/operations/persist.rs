//! Bringing what changed onto the disk.

use crate::db::{DbRow, DbTableAttributes};
use crate::persist::files_repo_inner::{can_be_saved, FilesRepoInner, SavePlan};
use crate::persist::markers::persist_task::{PersistTask, Task};
use crate::persist::partition_blob::{
    blob, blob_rows, serialize, stored_rows, stored_rows_fit, StoredRow,
};
use crate::persist::little_endian::lemma_limits;
use crate::persist::size_class::{
    a_class_is_found, is_size_class, is_smallest_for, nth_size_class, smallest_class_for,
    MAX_SIZE_CLASS,
};
use crate::persist::slot::{
    a_slot_is_read_back, bytes_needed, slot_bytes, slot_content, SlotContent, SlotRecord,
};
use crate::persist::slot_book::{
    disk_saved, disk_with, disk_without, partition_record, Disk, PartitionName, SlotBook, SlotLocation,
};
use crate::persist::slot_laws::{a_saved_partition_is_on_the_disk, saving_keeps_order};
use crate::persist::table_metadata_contract::{names_schemas, TableMetadataFileContract};
use std::sync::Arc;
use vstd::arithmetic::power2::{lemma2_to64, lemma_pow2_strictly_increases, lemma_pow2_unfold, pow2};
use vstd::prelude::*;
use vstd::utf8::encode_utf8;

verus! {

/// What a queued task finds of its table.
pub struct TableState {
    pub attributes: DbTableAttributes,
    /// When the table was created, the way `tables.meta` writes it.
    pub created: String,
    /// The rows of the partition the task names, cloned out of the table under
    /// its lock, so the disk I/O never holds the table.
    pub rows: Vec<Arc<DbRow>>,
}

/// What a queued task comes down to.
#[derive(Clone, Copy, PartialEq, Eq, Structural)]
pub enum PersistStep {
    SaveTableMetadata,
    DeleteTableMetadata,
    SavePartition,
    DeletePartition,
}

/// What has to be done to the files.
pub enum DiskWork {
    /// `tables.meta` has to be written again, if it changed.
    TablesMeta { changed: bool },
    /// A slot has to be written, and maybe another one zeroed after it.
    WriteSlot(SavePlan),
    /// A slot has to be zeroed, if the partition had one.
    ZeroSlot(Option<SlotLocation>),
}

/// Why a partition can not be written.
pub enum PersistError {
    /// The compression gave up, and said this.
    NotCompressed(String),
    /// The page-files can not take it.
    DoesNotFit,
}

/// What a task comes down to: a table which is not there has nothing on the disk,
/// neither has one which is not persisted, and no rows means the partition is
/// gone - deleting a row empties its partition and the partition itself is
/// dropped with it.
pub open spec fn step_for(task: Task, table: Option<TableState>) -> PersistStep {
    match task {
        Task::TableMetadata(_) => if table is Some {
            PersistStep::SaveTableMetadata
        } else {
            PersistStep::DeleteTableMetadata
        },
        Task::Partition(_, _) => if table matches Some(state) && state.attributes.persist
            && state.rows@.len() > 0 {
            PersistStep::SavePartition
        } else {
            PersistStep::DeletePartition
        },
    }
}

/// What a task comes down to.
pub fn next_step(task: &PersistTask, table: &Option<TableState>) -> (r: PersistStep)
    ensures
        r == step_for(task@, *table),
{
    match task {
        PersistTask::TableMetadata { .. } => match table {
            Some(_) => PersistStep::SaveTableMetadata,
            None => PersistStep::DeleteTableMetadata,
        },
        PersistTask::Partition { .. } => match table {
            None => PersistStep::DeletePartition,
            // A table which is not persisted must hold nothing on disk -
            // including the slots it filled while the attribute was still on.
            // Freeing them is what makes a delete or a clean of such a table
            // reach the disk at all: the load path does not consult the
            // attribute, so a slot left here comes back as data on the next
            // start.
            Some(state) => if !state.attributes.persist {
                PersistStep::DeletePartition
            } else if state.rows.len() == 0 {
                PersistStep::DeletePartition
            } else {
                PersistStep::SavePartition
            },
        },
    }
}

/// Whether a table is written down as it is.
pub open spec fn is_written_down(contract: TableMetadataFileContract, state: TableState) -> bool {
    &&& contract.persist == state.attributes.persist
    &&& contract.max_partitions_amount == state.attributes.max_partitions_amount
    &&& contract.max_rows_per_partition_amount == state.attributes.max_rows_per_partition_amount
    &&& contract.created matches Some(created) && created@ == state.created@
    &&& names_schemas(contract.schemas@, state.attributes.schemas@)
}

/// Whether the plan is the one for writing a payload as the partition.
pub open spec fn is_plan_for(
    plan: SavePlan,
    book: SlotBook,
    name: PartitionName,
    payload: Seq<u8>,
) -> bool {
    let c = smallest_class_for(bytes_needed(name.0, name.1, payload.len())) as u32;
    &&& plan.target == book.save_target(name, c)
    &&& plan.freed == book.save_freed(name, c)
    &&& plan.bytes@ == slot_bytes(c as nat, partition_record(name, book.next_version, payload))
}

/// The book after a payload was written as the partition.
pub open spec fn book_with(book: SlotBook, name: PartitionName, payload: Seq<u8>) -> SlotBook {
    book.saved(name, smallest_class_for(bytes_needed(name.0, name.1, payload.len())) as u32)
}

/// Whether a task was done: what came out of it, and what became of the bookkeeping
/// and of what `tables.meta` says.
pub open spec fn is_done(
    book: SlotBook,
    tables: Map<Seq<char>, TableMetadataFileContract>,
    compress_data: bool,
    task: Task,
    table: Option<TableState>,
    r: Result<DiskWork, PersistError>,
    after: SlotBook,
    tables_after: Map<Seq<char>, TableMetadataFileContract>,
) -> bool {
    match (step_for(task, table), task) {
        (PersistStep::SaveTableMetadata, Task::TableMetadata(t)) => {
            &&& r == Ok::<DiskWork, PersistError>(DiskWork::TablesMeta { changed: true })
            &&& after == book
            &&& tables_after.contains_key(t)
            &&& is_written_down(tables_after[t], table->0)
            &&& tables_after == tables.insert(t, tables_after[t])
        },
        (PersistStep::DeleteTableMetadata, Task::TableMetadata(t)) => {
            &&& r == Ok::<DiskWork, PersistError>(
                DiskWork::TablesMeta { changed: tables.contains_key(t) },
            )
            &&& after == book
            &&& tables_after == tables.remove(t)
        },
        (PersistStep::DeletePartition, Task::Partition(t, k)) => {
            &&& r == Ok::<DiskWork, PersistError>(
                DiskWork::ZeroSlot(
                    if book.index.contains_key((t, k)) {
                        Some(book.index[(t, k)])
                    } else {
                        None
                    },
                ),
            )
            &&& after == book.deleted((t, k))
            &&& tables_after == tables
        },
        (PersistStep::SavePartition, Task::Partition(t, k)) => {
            &&& tables_after == tables
            &&& match blob(stored_rows(table->0.rows@), compress_data) {
                Err(err) => r matches Err(PersistError::NotCompressed(said)) && said@ == err,
                Ok(payload) => if can_be_saved(book, (t, k), payload.len()) {
                    &&& r matches Ok(DiskWork::WriteSlot(plan))
                    &&& is_plan_for(plan, book, (t, k), payload)
                    &&& after == book_with(book, (t, k), payload)
                    // What is written is what the table holds.
                    &&& stored_rows_fit(stored_rows(table->0.rows@)) ==> blob_rows(payload)
                        == Ok::<Seq<StoredRow>, Seq<char>>(stored_rows(table->0.rows@))
                } else {
                    r == Err::<DiskWork, PersistError>(PersistError::DoesNotFit)
                },
            }
        },
        _ => false,
    }
}

/// The page-files once the work is done on them: the slot is written first, and the
/// one it stands for is zeroed after that.
pub open spec fn disk_after(disk: Disk, work: DiskWork) -> Disk {
    match work {
        DiskWork::TablesMeta { .. } => disk,
        DiskWork::WriteSlot(plan) => {
            let written = disk_with(disk, plan.target, plan.bytes@);
            match plan.freed {
                Some(freed) => disk_without(written, freed),
                None => written,
            }
        },
        DiskWork::ZeroSlot(Some(freed)) => disk_without(disk, freed),
        DiskWork::ZeroSlot(None) => disk,
    }
}

/// Does what a task comes down to, and says what that means for the files. Where
/// it fails, nothing happened.
pub fn execute(
    repo: &mut FilesRepoInner,
    compress_data: bool,
    task: &PersistTask,
    table: &Option<TableState>,
) -> (r: Result<DiskWork, PersistError>)
    requires
        old(repo).wf(),
    ensures
        final(repo).wf(),
        final(repo).root() == old(repo).root(),
        r is Err ==> final(repo).book() == old(repo).book() && final(repo).tables() == old(
            repo,
        ).tables(),
        is_done(
            old(repo).book(),
            old(repo).tables(),
            compress_data,
            task@,
            *table,
            r,
            final(repo).book(),
            final(repo).tables(),
        ),
{
    match task {
        PersistTask::TableMetadata { table_name } => match table {
            None => {
                let changed = repo.delete_table_metadata(table_name.as_str());
                Ok(DiskWork::TablesMeta { changed })
            },
            Some(state) => {
                let contract = TableMetadataFileContract::from_attributes(
                    &state.attributes,
                    state.created.clone(),
                );
                repo.save_table_metadata(table_name.as_str(), contract);
                Ok(DiskWork::TablesMeta { changed: true })
            },
        },
        PersistTask::Partition { table_name, partition_key } => match table {
            Some(state) => {
                if next_step(task, table) != PersistStep::SavePartition {
                    return Ok(
                        DiskWork::ZeroSlot(
                            repo.delete_partition(table_name.as_str(), partition_key.as_str()),
                        ),
                    );
                }
                let payload = match serialize(state.rows.as_slice(), compress_data) {
                    Ok(payload) => payload,
                    Err(err) => {
                        return Err(PersistError::NotCompressed(err));
                    },
                };
                if !repo.can_save_partition(
                    table_name.as_str(),
                    partition_key.as_str(),
                    payload.len(),
                ) {
                    return Err(PersistError::DoesNotFit);
                }
                Ok(
                    DiskWork::WriteSlot(
                        repo.save_partition(
                            table_name.as_str(),
                            partition_key.as_str(),
                            payload.as_slice(),
                        ),
                    ),
                )
            },
            None => Ok(
                DiskWork::ZeroSlot(
                    repo.delete_partition(table_name.as_str(), partition_key.as_str()),
                ),
            ),
        },
    }
}

/// Once the slot a partition was planned into is written, the disk holds the
/// rows the table held: the rows come back out of what is stored under the
/// partition's name, and every other partition is stored as it was.
pub proof fn what_was_persisted_is_read_back(
    book: SlotBook,
    disk: Disk,
    name: PartitionName,
    rows: Seq<StoredRow>,
    payload: Seq<u8>,
)
    requires
        book.wf(),
        book.matches(disk),
        can_be_saved(book, name, payload.len()),
        blob_rows(payload) == Ok::<Seq<StoredRow>, Seq<char>>(rows),
    ensures
        ({
            let c = smallest_class_for(bytes_needed(name.0, name.1, payload.len())) as u32;
            let after = disk_saved(book, disk, name, c, payload);
            &&& book_with(book, name, payload).matches(after)
            &&& book_with(book, name, payload).stored(after).contains_key(name)
            &&& blob_rows(book_with(book, name, payload).stored(after)[name]) == Ok::<
                Seq<StoredRow>,
                Seq<char>,
            >(rows)
            &&& book_with(book, name, payload).stored(after).remove(name) == book.stored(
                disk,
            ).remove(name)
        }),
{
    let needed = bytes_needed(name.0, name.1, payload.len());
    a_class_is_found(needed);
    let c = smallest_class_for(needed) as u32;
    a_saved_partition_is_on_the_disk(book, disk, name, c, payload);
    let after = disk_saved(book, disk, name, c, payload);
    assert(book_with(book, name, payload).stored(after).remove(name) =~= book.stored(disk).remove(
        name,
    ));
}

/// A power of two which is large enough and not twice as large as it has to be is the
/// class of a partition.
proof fn lemma_class_by_numbers(needed: nat, doublings: nat, c: u32)
    requires
        c == 512 * pow2(doublings),
        needed <= c,
        c == 512 || c < 2 * needed,
    ensures
        smallest_class_for(needed) == c,
        needed <= MAX_SIZE_CLASS,
        is_smallest_for(c as nat, needed),
{
    assert(c <= 0x8000_0000) by {
        lemma2_to64();
        if doublings > 22 {
            lemma_pow2_strictly_increases(22, doublings);
            lemma_pow2_unfold(23);
            if doublings > 23 {
                lemma_pow2_strictly_increases(23, doublings);
            }
            assert(pow2(23) == 8_388_608);
        }
    }
    a_class_is_found(needed);
    let found = smallest_class_for(needed);
    assert(c as nat == nth_size_class(doublings));
    assert(is_size_class(c as nat));
    assert(found <= c);
    if found < c {
        let d = choose|d: nat| found == #[trigger] nth_size_class(d);
        if d >= doublings {
            if d > doublings {
                lemma_pow2_strictly_increases(doublings, d);
            }
            assert(false);
        }
        lemma_pow2_unfold(d + 1);
        if d + 1 < doublings {
            lemma_pow2_strictly_increases(d + 1, doublings);
        }
        assert(2 * found <= c);
    }
}

/// Whether a partition can be written, by its numbers: 65,535 bytes for either key, a
/// version which is left, and a page-file of its class which can take one slot more.
/// Nothing fits which needs more than two gigabytes.
pub proof fn what_can_be_saved_by_numbers(
    book: SlotBook,
    name: PartitionName,
    payload_len: nat,
    doublings: nat,
    c: u32,
)
    requires
        c == 512 * pow2(doublings),
        20 + encode_utf8(name.0).len() + encode_utf8(name.1).len() + payload_len <= c,
        c == 512 || c < 2 * (20 + encode_utf8(name.0).len() + encode_utf8(name.1).len()
            + payload_len),
    ensures
        can_be_saved(book, name, payload_len) <==> {
            &&& encode_utf8(name.0).len() <= 65_535
            &&& encode_utf8(name.1).len() <= 65_535
            &&& book.next_version < u64::MAX
            &&& book.classes.contains_key(c) ==> book.classes[c].free.len() > 0 || (
            book.classes[c].slot_count + 1) * c <= u64::MAX
        },
        forall|more: nat|
            20 + encode_utf8(name.0).len() + encode_utf8(name.1).len() + more > 0x8000_0000
                ==> !#[trigger] can_be_saved(book, name, more),
{
    lemma_class_by_numbers(bytes_needed(name.0, name.1, payload_len), doublings, c);
    if !book.classes.contains_key(c) {
        assert((book.slot_count(c) + 1) * c <= u64::MAX) by (nonlinear_arith)
            requires
                book.slot_count(c) == 0,
                c <= u32::MAX,
        ;
    }
}

/// A partition is written whenever its keys fit into the header of a slot, the whole of
/// it into a slot of some size, and there is room in the page-file of that size: its
/// slot is of the smallest power of two which holds it, from 512 on and up to two
/// gigabytes. It is the slot the partition has, if that is of the size, else a free one, and
/// a new one at the end of the page-file only where none is free. Nobody else stands in it,
/// the one the partition had before is given up, and what is written reads as the partition.
pub proof fn a_partition_which_fits_is_written(
    book: SlotBook,
    tables: Map<Seq<char>, TableMetadataFileContract>,
    compress_data: bool,
    table_name: Seq<char>,
    partition_key: Seq<char>,
    state: TableState,
    payload: Seq<u8>,
    doublings: nat,
    c: u32,
    r: Result<DiskWork, PersistError>,
    after: SlotBook,
    tables_after: Map<Seq<char>, TableMetadataFileContract>,
)
    requires
        book.wf(),
        book.next_version < u64::MAX,
        state.attributes.persist,
        state.rows@.len() > 0,
        blob(stored_rows(state.rows@), compress_data) == Ok::<Seq<u8>, Seq<char>>(payload),
        encode_utf8(table_name).len() <= 65_535,
        encode_utf8(partition_key).len() <= 65_535,
        c == 512 * pow2(doublings),
        20 + encode_utf8(table_name).len() + encode_utf8(partition_key).len() + payload.len() <= c,
        c == 512 || c < 2 * (20 + encode_utf8(table_name).len() + encode_utf8(partition_key).len()
            + payload.len()),
        book.classes.contains_key(c) ==> book.classes[c].free.len() > 0 || (
        book.classes[c].slot_count + 1) * c <= u64::MAX,
        is_done(
            book,
            tables,
            compress_data,
            Task::Partition(table_name, partition_key),
            Some(state),
            r,
            after,
            tables_after,
        ),
    ensures
        ({
            let name = (table_name, partition_key);
            &&& r matches Ok(DiskWork::WriteSlot(plan))
            &&& plan.target.size_class == c
            &&& plan.bytes@.len() == c
            &&& slot_content(plan.bytes@) == SlotContent::Occupied(
                SlotRecord { version: book.next_version, table_name, partition_key, payload },
            )
            &&& forall|other: PartitionName| #[trigger]
                book.index.contains_key(other) && book.index[other] == plan.target ==> other == name
            &&& plan.freed == (if book.index.contains_key(name) && book.index[name] != plan.target {
                Some(book.index[name])
            } else {
                None
            })
            &&& if book.index.contains_key(name) && book.index[name].size_class == c {
                plan.target == book.index[name]
            } else if book.classes.contains_key(c) && book.classes[c].free.len() > 0 {
                book.classes[c].free.contains(plan.target.slot_index)
            } else if book.classes.contains_key(c) {
                plan.target.slot_index == book.classes[c].slot_count
            } else {
                plan.target.slot_index == 0
            }
            &&& after.index == book.index.insert(name, plan.target)
            &&& after.next_version == book.next_version + 1
            &&& tables_after == tables
        }),
{
    let name = (table_name, partition_key);
    let needed = bytes_needed(table_name, partition_key, payload.len());
    lemma_class_by_numbers(needed, doublings, c);
    if !book.classes.contains_key(c) {
        assert((book.slot_count(c) + 1) * c <= u64::MAX) by (nonlinear_arith)
            requires
                book.slot_count(c) == 0,
                c <= u32::MAX,
        ;
    }
    lemma_limits();
    saving_keeps_order(book, name, c);
    a_slot_is_read_back(c as nat, partition_record(name, book.next_version, payload));
    assert(can_be_saved(book, name, payload.len()));
    if book.classes.contains_key(c) {
        assert(book.class_wf(c));
        assert(book.classes[c].slot_count <= u64::MAX) by (nonlinear_arith)
            requires
                book.classes[c].slot_count * c <= u64::MAX,
                c >= 1,
        ;
    }
}

/// A partition which is taken off the disk gives its slot up, to be used again, and nothing
/// else changes; taking off one which is not there changes nothing.
pub proof fn a_partition_which_goes_gives_its_slot_up(
    book: SlotBook,
    tables: Map<Seq<char>, TableMetadataFileContract>,
    compress_data: bool,
    name: PartitionName,
    table: Option<TableState>,
    r: Result<DiskWork, PersistError>,
    after: SlotBook,
    tables_after: Map<Seq<char>, TableMetadataFileContract>,
)
    requires
        book.wf(),
        table matches Some(state) ==> !state.attributes.persist || state.rows@.len() == 0,
        is_done(
            book,
            tables,
            compress_data,
            Task::Partition(name.0, name.1),
            table,
            r,
            after,
            tables_after,
        ),
    ensures
        tables_after == tables,
        after.index == book.index.remove(name),
        after.next_version == book.next_version,
        after.classes.dom() == book.classes.dom(),
        !book.index.contains_key(name) ==> r == Ok::<DiskWork, PersistError>(
            DiskWork::ZeroSlot(None),
        ) && after == book,
        book.index.contains_key(name) ==> {
            let slot = book.index[name];
            &&& r == Ok::<DiskWork, PersistError>(DiskWork::ZeroSlot(Some(slot)))
            &&& after.classes[slot.size_class].free.contains(slot.slot_index)
            &&& after.classes[slot.size_class].slot_count
                == book.classes[slot.size_class].slot_count
        },
{
    if book.index.contains_key(name) {
        let slot = book.index[name];
        book.book_has_class(name);
        let free = after.classes[slot.size_class].free;
        assert(free[free.len() - 1] == slot.slot_index);
        assert(after.classes.dom() =~= book.classes.dom());
    } else {
        assert(after.index =~= book.index.remove(name));
    }
}

/// What is not compressed is always written down: a partition of which nothing can be
/// written is one whose compression failed, or for which there is no slot.
pub proof fn what_is_not_compressed_is_never_refused_for_it(
    book: SlotBook,
    tables: Map<Seq<char>, TableMetadataFileContract>,
    task: Task,
    table: Option<TableState>,
    r: Result<DiskWork, PersistError>,
    after: SlotBook,
    tables_after: Map<Seq<char>, TableMetadataFileContract>,
)
    requires
        is_done(book, tables, false, task, table, r, after, tables_after),
    ensures
        r matches Err(err) ==> err is DoesNotFit,
        task is TableMetadata ==> r is Ok,
        table is None ==> r is Ok,
        table matches Some(state) && !state.attributes.persist ==> r is Ok,
        table matches Some(state) && state.rows@.len() == 0 ==> r is Ok,
{
}

}
