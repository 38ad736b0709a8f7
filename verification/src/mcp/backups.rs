//! Reading inside an archive, shared by the backup tools.
//!
//! A backup is a zip of one namespace, so every one of them starts the same
//! way - name the namespace, name the file, read it into memory - and then goes
//! one level deeper than the last. Doing that in one place is what keeps them
//! saying the same thing when a name is wrong.

use crate::app::resolve_name;
use crate::mcp::context::{given_name, meant_namespace};
use crate::persist::backup::backup_zip::{
    BackupContent, BackupPartitionContent, BackupTableContent,
};
use crate::text::same_text;
use vstd::prelude::*;

verus! {

/// The namespace a backup call names.
///
/// **Not** resolved through the live namespaces: an archive outlives the
/// namespace it was taken of, and refusing to look inside the snapshots of a
/// namespace somebody has just deleted would hide the only copy left.
pub fn backup_namespace_name(namespace: Option<&str>) -> (r: String)
    ensures
        r@ == meant_namespace(namespace),
{
    match namespace {
        Some(name) => resolve_name(name).to_owned(),
        None => {
            proof {
                reveal_strlit("");
                assert(""@ =~= given_name(namespace));
            }
            resolve_name("").to_owned()
        },
    }
}

/// What a caller hears of a backup which can not be read, for the reason given.
pub open spec fn unreadable_backup(reason: Seq<char>, name_space: Seq<char>) -> Seq<char> {
    reason + ". Call get_list_of_backups to see which snapshots '"@ + name_space + "' has."@
}

/// What a caller hears of a backup which can not be read, for the reason given.
pub fn backup_error(reason: &str, name_space: &str) -> (r: String)
    ensures
        r@ == unreadable_backup(reason@, name_space@),
{
    let mut err = reason.to_owned();
    err.append(". Call get_list_of_backups to see which snapshots '");
    err.append(name_space);
    err.append("' has.");
    err
}

/// The names of some tables, in a row.
pub open spec fn name_list(tables: Seq<BackupTableContent>) -> Seq<char>
    decreases tables.len(),
{
    if tables.len() == 0 {
        Seq::empty()
    } else if tables.len() == 1 {
        tables[0].table_name@
    } else {
        name_list(tables.drop_last()) + ", "@ + tables.last().table_name@
    }
}

/// The tables of a backup, as they are listed to a caller.
pub open spec fn listed_names(content: BackupContent) -> Seq<char> {
    if content.tables@.len() == 0 {
        "none"@
    } else {
        name_list(content.tables@)
    }
}

fn names(content: &BackupContent) -> (r: String)
    ensures
        r@ == listed_names(*content),
{
    let tables = &content.tables;
    if tables.len() == 0 {
        return "none".to_owned();
    }
    let mut r = String::new();
    proof {
        assert(tables@.take(0) =~= Seq::<BackupTableContent>::empty());
        assert(r@ =~= name_list(tables@.take(0)));
    }
    for i in 0..tables.len()
        invariant
            r@ == name_list(tables@.take(i as int)),
    {
        if i > 0 {
            r.append(", ");
        }
        r.append(tables[i].table_name.as_str());
        proof {
            let so_far = tables@.take(i + 1);
            assert(so_far.drop_last() =~= tables@.take(i as int));
            assert(so_far.last() == tables@[i as int]);
            assert(so_far[0] == tables@[0]);
            assert(r@ =~= name_list(so_far));
        }
    }
    assert(tables@.take(tables@.len() as int) =~= tables@);
    r
}

/// What a caller hears who names a table the backup does not have.
pub open spec fn no_backup_table(
    content: BackupContent,
    file_name: Seq<char>,
    table_name: Seq<char>,
) -> Seq<char> {
    "The backup '"@ + file_name + "' has no table '"@ + table_name + "'. It has: "@ + listed_names(
        content,
    )
}

/// Whether the table is the first of its name.
pub open spec fn is_first_table(
    tables: Seq<BackupTableContent>,
    i: int,
    table_name: Seq<char>,
) -> bool {
    &&& 0 <= i < tables.len()
    &&& tables[i].table_name@ == table_name
    &&& forall|k: int| 0 <= k < i ==> (#[trigger] tables[k]).table_name@ != table_name
}

/// A table of a backup.
pub fn find_backup_table<'s>(
    content: &'s BackupContent,
    file_name: &str,
    table_name: &str,
) -> (r: Result<&'s BackupTableContent, String>)
    ensures
        match r {
            Ok(table) => exists|i: int| #[trigger]
                is_first_table(content.tables@, i, table_name@) && *table == content.tables@[i],
            Err(err) => {
                &&& forall|k: int|
                    0 <= k < content.tables@.len() ==> (#[trigger] content.tables@[k]).table_name@
                        != table_name@
                &&& err@ == no_backup_table(*content, file_name@, table_name@)
            },
        },
{
    for i in 0..content.tables.len()
        invariant
            forall|k: int|
                0 <= k < i ==> (#[trigger] content.tables@[k]).table_name@ != table_name@,
    {
        if same_text(content.tables[i].table_name.as_str(), table_name) {
            assert(is_first_table(content.tables@, i as int, table_name@));
            return Ok(&content.tables[i]);
        }
    }
    let mut err = "The backup '".to_owned();
    err.append(file_name);
    err.append("' has no table '");
    err.append(table_name);
    err.append("'. It has: ");
    err.append(names(content).as_str());
    assert(err@ =~= no_backup_table(*content, file_name@, table_name@));
    Err(err)
}

/// What a caller hears who names a partition the backup does not have.
pub open spec fn no_backup_partition(
    file_name: Seq<char>,
    partition_key: Seq<char>,
    table_name: Seq<char>,
) -> Seq<char> {
    "The backup '"@ + file_name + "' has no partition '"@ + partition_key + "' of table '"@
        + table_name + "'."@
}

/// Whether the partition is the first of its key.
pub open spec fn is_first_partition(
    partitions: Seq<BackupPartitionContent>,
    i: int,
    partition_key: Seq<char>,
) -> bool {
    &&& 0 <= i < partitions.len()
    &&& partitions[i].partition_key@ == partition_key
    &&& forall|k: int| 0 <= k < i ==> (#[trigger] partitions[k]).partition_key@ != partition_key
}

/// A partition of a table of a backup.
pub fn find_backup_partition<'s>(
    table: &'s BackupTableContent,
    file_name: &str,
    table_name: &str,
    partition_key: &str,
) -> (r: Result<&'s BackupPartitionContent, String>)
    ensures
        match r {
            Ok(partition) => exists|i: int| #[trigger]
                is_first_partition(table.partitions@, i, partition_key@) && *partition
                    == table.partitions@[i],
            Err(err) => {
                &&& forall|k: int|
                    0 <= k < table.partitions@.len() ==> (#[trigger] table.partitions@[k]).partition_key@
                        != partition_key@
                &&& err@ == no_backup_partition(file_name@, partition_key@, table_name@)
            },
        },
{
    for i in 0..table.partitions.len()
        invariant
            forall|k: int|
                0 <= k < i ==> (#[trigger] table.partitions@[k]).partition_key@ != partition_key@,
    {
        if same_text(table.partitions[i].partition_key.as_str(), partition_key) {
            assert(is_first_partition(table.partitions@, i as int, partition_key@));
            return Ok(&table.partitions[i]);
        }
    }
    let mut err = "The backup '".to_owned();
    err.append(file_name);
    err.append("' has no partition '");
    err.append(partition_key);
    err.append("' of table '");
    err.append(table_name);
    err.append("'.");
    assert(err@ =~= no_backup_partition(file_name@, partition_key@, table_name@));
    Err(err)
}

}
