//! The tools which change something.

use crate::app::{window_left, AppContext, DbNamespace, DbTable};
use crate::db::{DateTimeAsMicroseconds, EntitySchema, PartitionRowKeys};
use crate::mcp::backups::backup_namespace_name;
use crate::mcp::context::{
    answers, check_if_initialized, ensure_writes_are_open, get_namespace, get_table_to_write,
    is_table_of, meant_namespace, namespace_refusal, pick_schema, read_refusal, schema_refusal,
    still_loading, write_refusal, writes_are_shut,
};
use crate::mcp::rows_to_delete::{body_keys, keys_views, parse, JsonMember, KeysToDelete};
use crate::names::is_listed;
use crate::sorting::{is_sorted, lemma_same_items, sort, Ordered};
use crate::text::{lemma_text_before_once, same_text};
use vstd::prelude::*;

verus! {

/// Where a row is written, and through which schema.
pub struct RowsToWrite<'a> {
    pub db_namespace: &'a DbNamespace,
    pub db_table: &'a DbTable,
    pub schema: &'a EntitySchema,
}

/// Where rows are written, and through which schema; or the first thing which
/// stands against it.
pub fn get_schema_to_write<'a, P, A>(
    app: &'a AppContext<P, A>,
    namespace: Option<&str>,
    table_name: &str,
    missing_table: &str,
    schema_id: Option<u64>,
    now: DateTimeAsMicroseconds,
) -> (r: Result<RowsToWrite<'a>, String>)
    requires
        app.wf(),
    ensures
        write_refusal(*app, namespace, table_name@, missing_table@, now) is Some ==> answers(
            r,
            write_refusal(*app, namespace, table_name@, missing_table@, now),
        ),
        write_refusal(*app, namespace, table_name@, missing_table@, now) is None ==> exists|
            db_namespace: DbNamespace,
            db_table: DbTable,
        |
            {
                &&& #[trigger] is_table_of(
                    *app,
                    meant_namespace(namespace),
                    table_name@,
                    db_namespace,
                    db_table,
                )
                &&& answers(r, schema_refusal(db_table, schema_id))
                &&& r matches Ok(found) ==> {
                    &&& *found.db_namespace == db_namespace
                    &&& *found.db_table == db_table
                    &&& db_table.attributes.schemas@.contains(*found.schema)
                    &&& schema_id matches Some(id) ==> found.schema.id == id
                }
            },
{
    let (db_namespace, db_table) = match get_table_to_write(
        app,
        namespace,
        table_name,
        missing_table,
        now,
    ) {
        Ok(found) => found,
        Err(err) => {
            return Err(err);
        },
    };
    proof {
        assert(is_table_of(
            *app,
            meant_namespace(namespace),
            table_name@,
            *db_namespace,
            *db_table,
        ));
        let at = choose|at: int|
            0 <= at < app.namespaces@.len() && app.namespaces@[at] == *db_namespace;
        assert(app.namespaces@[at].wf());
        let i = choose|i: int|
            0 <= i < db_namespace.tables@.len() && db_namespace.tables@[i] == *db_table;
        assert(app.namespaces@[at].tables@[i].attributes.wf());
    }
    match pick_schema(db_table, schema_id) {
        Ok(schema) => Ok(RowsToWrite { db_namespace, db_table, schema }),
        Err(err) => Err(err),
    }
}

/// An item of a batch, and what building a row of it gave.
pub enum BuiltRow<E> {
    Row(E),
    /// It is not an object.
    NotAnObject,
    /// It can not be written through the schema, or is not an entity.
    Refused(String),
    /// The batch is broken here.
    Broken(String),
}

/// What is wrong with an item, if something is.
pub open spec fn item_refusal<E>(item: BuiltRow<E>) -> Option<Seq<char>> {
    match item {
        BuiltRow::Row(_) => None,
        BuiltRow::NotAnObject => Some(
            "`entities_json` holds something which is not a row object"@,
        ),
        BuiltRow::Refused(reason) => Some(reason@),
        BuiltRow::Broken(reason) => Some("`entities_json` is not a JSON array: "@ + reason@),
    }
}

/// Why a batch is not written, if it is not: the first item with something wrong,
/// or that there is none at all.
pub open spec fn batch_refusal<E>(items: Seq<BuiltRow<E>>) -> Option<Seq<char>> {
    if exists|i: int| is_first_refused(items, i) {
        item_refusal(items[choose|i: int| is_first_refused(items, i)])
    } else if items.len() == 0 {
        Some("`entities_json` holds no rows - nothing to write."@)
    } else {
        None
    }
}

/// Whether this is the first item with something wrong.
pub open spec fn is_first_refused<E>(items: Seq<BuiltRow<E>>, i: int) -> bool {
    &&& 0 <= i < items.len()
    &&& item_refusal(items[i]) is Some
    &&& forall|k: int| 0 <= k < i ==> item_refusal(#[trigger] items[k]) is None
}

/// The rows of a batch. Every row is built before any of them is applied: a batch
/// the server could not read to the end leaves the table exactly as it was.
pub fn rows_of_batch<E>(items: Vec<BuiltRow<E>>) -> (r: Result<Vec<E>, String>)
    ensures
        answers(r, batch_refusal(items@)),
        r matches Ok(rows) ==> rows@.len() == items@.len() && forall|i: int|
            0 <= i < items@.len() ==> items@[i] == BuiltRow::Row(#[trigger] rows@[i]),
{
    let ghost given = items@;
    let total: usize = items.len();
    let mut rows: Vec<E> = Vec::new();
    let mut i: usize = 0;
    for item in it: items
        invariant
            it.seq() == given,
            it.index() == i,
            i <= total,
            total == given.len(),
            rows@.len() == i,
            forall|k: int| 0 <= k < i ==> given[k] == BuiltRow::Row(#[trigger] rows@[k]),
    {
        let ghost refusal = item_refusal(item);
        proof {
            if refusal is Some {
                assert forall|k: int| 0 <= k < i implies item_refusal(
                    #[trigger] given[k],
                ) is None by {
                    assert(given[k] == BuiltRow::Row(rows@[k]));
                }
                lemma_first_refused(given, i as int);
            }
        }
        match item {
            BuiltRow::Row(row) => {
                rows.push(row);
            },
            BuiltRow::NotAnObject => {
                return Err("`entities_json` holds something which is not a row object".to_owned());
            },
            BuiltRow::Refused(reason) => {
                return Err(reason);
            },
            BuiltRow::Broken(reason) => {
                let mut err = "`entities_json` is not a JSON array: ".to_owned();
                err.append(reason.as_str());
                return Err(err);
            },
        }
        i = i + 1;
    }
    proof {
        assert forall|k: int| !is_first_refused(given, k) by {
            if 0 <= k < given.len() {
                assert(given[k] == BuiltRow::Row(rows@[k]));
            }
        }
    }
    if total == 0 {
        return Err("`entities_json` holds no rows - nothing to write.".to_owned());
    }
    Ok(rows)
}

proof fn lemma_first_refused<E>(items: Seq<BuiltRow<E>>, i: int)
    requires
        is_first_refused(items, i),
    ensures
        batch_refusal(items) == item_refusal(items[i]),
{
    let j = choose|j: int| is_first_refused(items, j);
    assert(is_first_refused(items, j));
    assert(i == j) by {
        if i < j {
            assert(item_refusal(items[i]) is None);
        } else if j < i {
            assert(item_refusal(items[j]) is None);
        }
    }
}

/// The different names in a list.
pub open spec fn different_names(names: Seq<String>) -> Set<Seq<char>>
    decreases names.len(),
{
    if names.len() == 0 {
        Set::empty()
    } else {
        different_names(names.drop_last()).insert(names.last()@)
    }
}

proof fn lemma_different_names(names: Seq<String>)
    ensures
        different_names(names).finite(),
        forall|name: Seq<char>| #[trigger]
            different_names(names).contains(name) <==> is_listed(names, name),
    decreases names.len(),
{
    if names.len() > 0 {
        let front = names.drop_last();
        lemma_different_names(front);
        assert forall|name: Seq<char>| #[trigger] different_names(names).contains(
            name,
        ) <==> is_listed(names, name) by {
            if is_listed(front, name) {
                let k = choose|k: int| 0 <= k < front.len() && (#[trigger] front[k])@ == name;
                assert(names[k]@ == name);
            }
            if names.last()@ == name {
                assert(names[names.len() - 1]@ == name);
            }
            if is_listed(names, name) && names.last()@ != name {
                let k = choose|k: int| 0 <= k < names.len() && (#[trigger] names[k])@ == name;
                assert(front[k]@ == name);
            }
        }
    }
}

/// How many different names there are in a list.
pub fn count_different(names: Vec<String>) -> (r: usize)
    ensures
        r == different_names(names@).len(),
{
    let ghost given = names@;
    let sorted = sort(names);
    proof {
        lemma_same_items(given, sorted@);
        lemma_different_names(given);
        lemma_different_names(sorted@);
        assert forall|name: Seq<char>| different_names(given).contains(name)
            <==> #[trigger] different_names(sorted@).contains(name) by {
            if is_listed(given, name) {
                let k = choose|k: int| 0 <= k < given.len() && (#[trigger] given[k])@ == name;
                assert(given.contains(given[k]));
                assert(sorted@.contains(given[k]));
            }
            if is_listed(sorted@, name) {
                let k = choose|k: int| 0 <= k < sorted@.len() && (#[trigger] sorted@[k])@ == name;
                assert(sorted@.contains(sorted@[k]));
                assert(given.contains(sorted@[k]));
            }
        }
        assert(different_names(given) =~= different_names(sorted@));
        assert(sorted@.take(0) =~= Seq::<String>::empty());
    }
    let mut count: usize = 0;
    for i in 0..sorted.len()
        invariant
            is_sorted(sorted@),
            count <= i,
            count == different_names(sorted@.take(i as int)).len(),
    {
        proof {
            let so_far = sorted@.take(i as int);
            lemma_different_names(so_far);
            assert(sorted@.take(i + 1).drop_last() =~= so_far);
            assert(sorted@.take(i + 1).last() == sorted@[i as int]);
            if is_listed(so_far, sorted@[i as int]@) {
                let k = choose|k: int|
                    0 <= k < so_far.len() && (#[trigger] so_far[k])@ == sorted@[i as int]@;
                assert(sorted@[i - 1]@ == sorted@[i as int]@) by {
                    if k < i - 1 {
                        assert(sorted@[k].may_precede(&sorted@[i - 1]));
                        assert(sorted@[i - 1].may_precede(&sorted@[i as int]));
                        lemma_text_before_once(sorted@[k]@, sorted@[i - 1]@);
                    }
                }
            } else if i > 0 {
                assert(so_far[i - 1] == sorted@[i - 1]);
                assert(sorted@[i - 1]@ != sorted@[i as int]@);
            }
            if i > 0 && sorted@[i - 1]@ == sorted@[i as int]@ {
                assert(so_far[i - 1]@ == sorted@[i as int]@);
                assert(is_listed(so_far, sorted@[i as int]@));
                assert(different_names(so_far).insert(sorted@[i as int]@) =~= different_names(
                    so_far,
                ));
            }
        }
        if i == 0 || !same_text(sorted[i - 1].as_str(), sorted[i].as_str()) {
            count = count + 1;
        }
    }
    assert(sorted@.take(sorted@.len() as int) =~= sorted@);
    count
}

pub struct BulkInsertOrReplaceRowsResponse {
    pub status: String,
    pub rows_written: usize,
    pub partitions_affected: usize,
    pub schema_id: u64,
}

/// What is answered to a batch which is written; `partition_keys` are those of its
/// rows.
pub fn bulk_insert_or_replace_rows(partition_keys: Vec<String>, schema_id: u64) -> (r:
    BulkInsertOrReplaceRowsResponse)
    ensures
        r.status@ == "written"@,
        r.rows_written == partition_keys@.len(),
        r.partitions_affected == different_names(partition_keys@).len(),
        r.schema_id == schema_id,
{
    let rows_written: usize = partition_keys.len();
    let partitions_affected: usize = count_different(partition_keys);
    BulkInsertOrReplaceRowsResponse {
        status: "written".to_owned(),
        rows_written,
        partitions_affected,
        schema_id,
    }
}

pub struct DeleteRowResponse {
    pub status: String,
    pub deleted: bool,
}

/// What is answered to the deletion of a row.
pub fn delete_row(deleted: bool) -> (r: DeleteRowResponse)
    ensures
        r.deleted == deleted,
        r.status@ == (if deleted {
            "deleted"@
        } else {
            "there was no such row"@
        }),
{
    DeleteRowResponse {
        status: if deleted {
            "deleted".to_owned()
        } else {
            "there was no such row".to_owned()
        },
        deleted,
    }
}

/// Which rows are deleted, and of which table.
pub struct RowsToDelete<'a> {
    pub db_namespace: &'a DbNamespace,
    pub db_table: &'a DbTable,
    pub partitions: Vec<PartitionRowKeys>,
}

/// Why nothing is deleted, if nothing is.
pub open spec fn bulk_delete_refusal<P, A>(
    app: AppContext<P, A>,
    namespace: Option<&str>,
    table_name: Seq<char>,
    missing_table: Seq<char>,
    members: Seq<JsonMember>,
    now: DateTimeAsMicroseconds,
) -> Option<Seq<char>> {
    if write_refusal(app, namespace, table_name, missing_table, now) is Some {
        write_refusal(app, namespace, table_name, missing_table, now)
    } else {
        match body_keys(members) {
            Err(err) => Some(err),
            Ok(partitions) => if partitions.len() == 0 {
                Some("`rows_json` names no partitions - nothing to delete."@)
            } else {
                None
            },
        }
    }
}

/// Which rows are deleted, and of which table; or the first thing which stands
/// against it.
pub fn bulk_delete_rows<'a, P, A>(
    app: &'a AppContext<P, A>,
    namespace: Option<&str>,
    table_name: &str,
    missing_table: &str,
    members: Vec<JsonMember>,
    now: DateTimeAsMicroseconds,
) -> (r: Result<RowsToDelete<'a>, String>)
    requires
        app.wf(),
    ensures
        answers(
            r,
            bulk_delete_refusal(*app, namespace, table_name@, missing_table@, members@, now),
        ),
        r matches Ok(found) ==> {
            &&& is_table_of(
                *app,
                meant_namespace(namespace),
                table_name@,
                *found.db_namespace,
                *found.db_table,
            )
            &&& body_keys(members@) == Ok::<Seq<KeysToDelete>, Seq<char>>(
                keys_views(found.partitions@),
            )
        },
{
    let (db_namespace, db_table) = match get_table_to_write(
        app,
        namespace,
        table_name,
        missing_table,
        now,
    ) {
        Ok(found) => found,
        Err(err) => {
            return Err(err);
        },
    };
    let partitions = match parse(members) {
        Ok(partitions) => partitions,
        Err(err) => {
            return Err(err);
        },
    };
    if partitions.len() == 0 {
        return Err("`rows_json` names no partitions - nothing to delete.".to_owned());
    }
    Ok(RowsToDelete { db_namespace, db_table, partitions })
}

/// Why no partition is deleted, if none is. Whether any is named is asked before
/// the window is.
pub open spec fn delete_partitions_refusal<P, A>(
    app: AppContext<P, A>,
    namespace: Option<&str>,
    table_name: Seq<char>,
    missing_table: Seq<char>,
    partition_keys: Seq<String>,
    now: DateTimeAsMicroseconds,
) -> Option<Seq<char>> {
    if namespace_refusal(app, namespace) is Some {
        namespace_refusal(app, namespace)
    } else if partition_keys.len() == 0 {
        Some("`partition_keys` is empty - nothing to delete."@)
    } else {
        write_refusal(app, namespace, table_name, missing_table, now)
    }
}

/// The table whose partitions are deleted, or the first thing which stands against
/// it.
pub fn delete_partitions<'a, P, A>(
    app: &'a AppContext<P, A>,
    namespace: Option<&str>,
    table_name: &str,
    missing_table: &str,
    partition_keys: &Vec<String>,
    now: DateTimeAsMicroseconds,
) -> (r: Result<(&'a DbNamespace, &'a DbTable), String>)
    requires
        app.wf(),
    ensures
        answers(
            r,
            delete_partitions_refusal(
                *app,
                namespace,
                table_name@,
                missing_table@,
                partition_keys@,
                now,
            ),
        ),
        r matches Ok(found) ==> is_table_of(
            *app,
            meant_namespace(namespace),
            table_name@,
            *found.0,
            *found.1,
        ),
{
    match get_namespace(app, namespace) {
        Ok(_) => {},
        Err(err) => {
            return Err(err);
        },
    }
    if partition_keys.len() == 0 {
        return Err("`partition_keys` is empty - nothing to delete.".to_owned());
    }
    get_table_to_write(app, namespace, table_name, missing_table, now)
}

pub struct CleanTableResponse {
    pub status: String,
    pub rows_removed: usize,
}

/// What is answered to the cleaning of a table. How many rows that removes is read
/// before the clean, which is the only moment it is still true.
pub fn clean_table(db_table: &DbTable) -> (r: CleanTableResponse)
    ensures
        r.status@ == "Table '"@ + db_table.name@ + "' is empty"@,
        r.rows_removed == db_table.metrics.rows_amount,
{
    let mut status = "Table '".to_owned();
    status.append(db_table.name.as_str());
    status.append("' is empty");
    CleanTableResponse { status, rows_removed: db_table.metrics.rows_amount }
}

/// Why no table is moved out of a namespace, if none is.
pub open spec fn move_refusal<P, A>(
    app: AppContext<P, A>,
    from_namespace: Option<&str>,
    now: DateTimeAsMicroseconds,
) -> Option<Seq<char>> {
    if window_left(app.mcp_writes_opened, now) <= 0 {
        Some(writes_are_shut())
    } else {
        namespace_refusal(app, from_namespace)
    }
}

/// The namespace a table is moved out of. It has to exist - there is nothing to
/// move out of a namespace nobody ever wrote to. The destination may well be new:
/// moving a table into a fresh namespace is the point of the call.
pub fn move_table_from<'a, P, A>(
    app: &'a AppContext<P, A>,
    from_namespace: Option<&str>,
    now: DateTimeAsMicroseconds,
) -> (r: Result<&'a DbNamespace, String>)
    ensures
        answers(r, move_refusal(*app, from_namespace, now)),
        r matches Ok(namespace) ==> app.namespaces@.contains(*namespace) && namespace.name@
            == meant_namespace(from_namespace),
{
    match ensure_writes_are_open(app, now) {
        Ok(_) => get_namespace(app, from_namespace),
        Err(err) => Err(err),
    }
}

pub struct MoveTableToNamespaceResponse {
    pub status: String,
    pub from_namespace: String,
    pub to_namespace: String,
}

/// What is answered to the move of a table.
pub fn move_table_to_namespace(table_name: &str, from: &str, to: &str) -> (r:
    MoveTableToNamespaceResponse)
    ensures
        r.status@ == "Table '"@ + table_name@ + "' moved from '"@ + from@ + "' to '"@ + to@ + "'"@,
        r.from_namespace@ == from@,
        r.to_namespace@ == to@,
{
    let mut status = "Table '".to_owned();
    status.append(table_name);
    status.append("' moved from '");
    status.append(from);
    status.append("' to '");
    status.append(to);
    status.append("'");
    MoveTableToNamespaceResponse {
        status,
        from_namespace: from.to_owned(),
        to_namespace: to.to_owned(),
    }
}

/// One partition of a backup.
pub struct RestoreOne {
    pub table_name: String,
    pub partition_key: String,
}

/// What is restored, and into which namespace. Without a partition it is the whole
/// snapshot.
pub struct RestoreFrom {
    pub name_space: String,
    pub only: Option<RestoreOne>,
}

/// Why nothing is restored, if nothing is. Half a name is a request nobody can act
/// on: naming a table without a partition would read as "restore this table",
/// which is not what the operation does.
pub open spec fn restore_refusal<P, A>(
    app: AppContext<P, A>,
    table_name: Option<String>,
    partition_key: Option<String>,
    now: DateTimeAsMicroseconds,
) -> Option<Seq<char>> {
    if !app.initialized {
        Some(still_loading())
    } else if window_left(app.mcp_writes_opened, now) <= 0 {
        Some(writes_are_shut())
    } else if (table_name is Some) != (partition_key is Some) {
        Some(
            "Naming one partition takes both `table_name` and `partition_key`. Leave both out to restore the whole snapshot."@,
        )
    } else {
        None
    }
}

/// What is restored, and into which namespace; or the first thing which stands
/// against it.
pub fn restore_backup<P, A>(
    app: &AppContext<P, A>,
    namespace: Option<&str>,
    table_name: Option<String>,
    partition_key: Option<String>,
    now: DateTimeAsMicroseconds,
) -> (r: Result<RestoreFrom, String>)
    ensures
        answers(r, restore_refusal(*app, table_name, partition_key, now)),
        r matches Ok(restore) ==> {
            &&& restore.name_space@ == meant_namespace(namespace)
            &&& restore.only is Some <==> table_name is Some
            &&& restore.only matches Some(one) ==> table_name == Some(one.table_name)
                && partition_key == Some(one.partition_key)
        },
{
    match check_if_initialized(app) {
        Ok(_) => {},
        Err(err) => {
            return Err(err);
        },
    }
    match ensure_writes_are_open(app, now) {
        Ok(_) => {},
        Err(err) => {
            return Err(err);
        },
    }
    let only = match (table_name, partition_key) {
        (None, None) => None,
        (Some(table_name), Some(partition_key)) => Some(RestoreOne { table_name, partition_key }),
        _ => {
            return Err(
                "Naming one partition takes both `table_name` and `partition_key`. Leave both out to restore the whole snapshot.".to_owned(),
            );
        },
    };
    Ok(RestoreFrom { name_space: backup_namespace_name(namespace), only })
}

pub struct RestoreBackupResponse {
    pub status: String,
    pub partitions_restored: usize,
}

/// What is answered to a restore.
pub fn restored(file_name: &str, name_space: &str, partitions_restored: usize) -> (r:
    RestoreBackupResponse)
    ensures
        r.status@ == "Restored from snapshot '"@ + file_name@ + "' into namespace '"@ + name_space@
            + "'"@,
        r.partitions_restored == partitions_restored,
{
    let mut status = "Restored from snapshot '".to_owned();
    status.append(file_name);
    status.append("' into namespace '");
    status.append(name_space);
    status.append("'");
    RestoreBackupResponse { status, partitions_restored }
}

/// While the window is shut, no tool writes, deletes, moves or restores anything:
/// each of them has something which stands against it.
pub proof fn nothing_changes_while_the_window_is_shut<P, A>(
    app: AppContext<P, A>,
    namespace: Option<&str>,
    table_name: Seq<char>,
    missing_table: Seq<char>,
    members: Seq<JsonMember>,
    partition_keys: Seq<String>,
    one_table: Option<String>,
    one_partition: Option<String>,
    now: DateTimeAsMicroseconds,
)
    requires
        window_left(app.mcp_writes_opened, now) <= 0,
    ensures
        write_refusal(app, namespace, table_name, missing_table, now) is Some,
        bulk_delete_refusal(app, namespace, table_name, missing_table, members, now) is Some,
        delete_partitions_refusal(
            app,
            namespace,
            table_name,
            missing_table,
            partition_keys,
            now,
        ) is Some,
        move_refusal(app, namespace, now) == Some(writes_are_shut()),
        restore_refusal(app, one_table, one_partition, now) is Some,
{
}

/// Until the tables are loaded, no tool reads, writes, deletes, moves or restores
/// anything, and what it says is just that - but for a move, which is refused for
/// the window first.
pub proof fn nothing_is_answered_before_the_tables_are_loaded<P, A>(
    app: AppContext<P, A>,
    namespace: Option<&str>,
    table_name: Seq<char>,
    missing_table: Seq<char>,
    members: Seq<JsonMember>,
    partition_keys: Seq<String>,
    one_table: Option<String>,
    one_partition: Option<String>,
    now: DateTimeAsMicroseconds,
)
    requires
        !app.initialized,
    ensures
        namespace_refusal(app, namespace) == Some(still_loading()),
        read_refusal(app, namespace, table_name, missing_table) == Some(still_loading()),
        write_refusal(app, namespace, table_name, missing_table, now) == Some(still_loading()),
        bulk_delete_refusal(app, namespace, table_name, missing_table, members, now) == Some(
            still_loading(),
        ),
        delete_partitions_refusal(
            app,
            namespace,
            table_name,
            missing_table,
            partition_keys,
            now,
        ) == Some(still_loading()),
        move_refusal(app, namespace, now) == Some(
            if window_left(app.mcp_writes_opened, now) <= 0 {
                writes_are_shut()
            } else {
                still_loading()
            },
        ),
        restore_refusal(app, one_table, one_partition, now) == Some(still_loading()),
{
}

}
