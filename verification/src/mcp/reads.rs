//! The tools which only look.

use crate::app::{AppContext, DbNamespace, DbTable};
use crate::mcp::backups::{
    backup_namespace_name, find_backup_partition, find_backup_table, is_first_partition,
    is_first_table, no_backup_partition, no_backup_table,
};
use crate::mcp::context::{
    answers, check_if_initialized, get_namespace, get_table_to_read, is_table_of, meant_namespace,
    namespace_refusal, read_refusal, still_loading,
};
use crate::names::{names_ascend, sort_by_name, Named};
use crate::persist::backup::backup_zip::BackupContent;
use crate::persist::backup::backups_repo::BackupOnDisk;
use crate::persist::partition_blob::{
    blob_rows, deserialize, restored_rows, PersistedRow, StoredRow,
};
use vstd::prelude::*;

verus! {

/// How many rows come back when the caller does not say. A whole table does not
/// belong into a context window, and the answer to "what is in traders" is the
/// first page of it - `has_more` says whether to ask again.
pub const DEFAULT_LIMIT: usize = 100;

/// How many rows a page has at most.
pub open spec fn page_limit(limit: Option<usize>) -> usize {
    match limit {
        Some(limit) => limit,
        None => DEFAULT_LIMIT,
    }
}

/// How many rows are asked of the table: one past the window, which is what
/// answers "is there more" without walking the table a second time to count it.
pub open spec fn rows_asked(limit: usize) -> nat {
    if limit == usize::MAX {
        usize::MAX as nat
    } else {
        limit as nat + 1
    }
}

/// What reading a page of a table comes down to.
pub struct PageToRead<'a> {
    pub db_namespace: &'a DbNamespace,
    pub db_table: &'a DbTable,
    pub limit: usize,
    pub wanted: usize,
}

/// Where a page of rows is read from, and how many of them.
pub fn get_rows<'a, P, A>(
    app: &'a AppContext<P, A>,
    namespace: Option<&str>,
    table_name: &str,
    missing_table: &str,
    limit: Option<usize>,
) -> (r: Result<PageToRead<'a>, String>)
    requires
        app.wf(),
    ensures
        answers(r, read_refusal(*app, namespace, table_name@, missing_table@)),
        r matches Ok(page) ==> {
            &&& is_table_of(
                *app,
                meant_namespace(namespace),
                table_name@,
                *page.db_namespace,
                *page.db_table,
            )
            &&& page.limit == page_limit(limit)
            &&& page.wanted == rows_asked(page.limit)
        },
{
    match get_table_to_read(app, namespace, table_name, missing_table) {
        Err(err) => Err(err),
        Ok((db_namespace, db_table)) => {
            let limit: usize = match limit {
                Some(limit) => limit,
                None => DEFAULT_LIMIT,
            };
            let wanted: usize = if limit == usize::MAX {
                limit
            } else {
                limit + 1
            };
            Ok(PageToRead { db_namespace, db_table, limit, wanted })
        },
    }
}

/// Cuts what a table gave down to a page, and says whether there is more.
pub fn cut_page<T>(rows: Vec<T>, limit: usize) -> (r: (Vec<T>, bool))
    ensures
        r.1 == (rows@.len() > limit),
        r.0@ == (if rows@.len() > limit {
            rows@.take(limit as int)
        } else {
            rows@
        }),
{
    let ghost given = rows@;
    let mut rows = rows;
    let has_more = rows.len() > limit;
    rows.truncate(limit);
    proof {
        if has_more {
            assert(rows@ =~= given.take(limit as int));
        } else {
            assert(rows@ =~= given);
        }
    }
    (rows, has_more)
}

/// What a table gives when it is asked for so many of its rows.
pub open spec fn first_rows<T>(all: Seq<T>, amount: nat) -> Seq<T> {
    if all.len() <= amount {
        all
    } else {
        all.take(amount as int)
    }
}

/// A page is the first rows, as many as fit; and it says there is more exactly
/// when there is: when the table has more rows than the page may have.
pub proof fn a_page_says_whether_there_is_more<T>(all: Seq<T>, limit: usize)
    requires
        all.len() <= usize::MAX,
    ensures
        ({
            let given = first_rows(all, rows_asked(limit));
            &&& given.len() > limit <==> all.len() > limit
            &&& all.len() > limit ==> given.take(limit as int) == all.take(limit as int)
            &&& all.len() <= limit ==> given == all
        }),
{
    let given = first_rows(all, rows_asked(limit));
    if all.len() > limit {
        assert(given.take(limit as int) =~= all.take(limit as int));
    }
}

/// A table, as it is listed.
pub struct TableModel {
    pub name: String,
    pub partitions_count: usize,
    pub rows_count: usize,
    pub schemas_count: usize,
}

impl Named for TableModel {
    open spec fn called(&self) -> Seq<char> {
        self.name@
    }

    fn get_name(&self) -> (r: &str) {
        self.name.as_str()
    }
}

impl TableModel {
    /// Whether the table is listed as it is.
    pub open spec fn shows(&self, table: DbTable) -> bool {
        &&& self.name@ == table.name@
        &&& self.partitions_count == table.metrics.partitions_amount
        &&& self.rows_count == table.metrics.rows_amount
        &&& self.schemas_count == table.attributes.schemas@.len()
    }
}

pub struct GetListOfTablesResponse {
    pub count: usize,
    pub tables: Vec<TableModel>,
}

/// Whether a table is in the list.
pub open spec fn table_is_listed(listed: Seq<TableModel>, table: DbTable) -> bool {
    exists|i: int| 0 <= i < listed.len() && (#[trigger] listed[i]).shows(table)
}

/// Whether the list holds every table of a namespace once, in the order of their
/// names.
pub open spec fn lists_tables(r: GetListOfTablesResponse, namespace: DbNamespace) -> bool {
    &&& r.count == r.tables@.len()
    &&& r.tables@.len() == namespace.tables@.len()
    &&& names_ascend(r.tables@)
    &&& forall|j: int|
        0 <= j < namespace.tables@.len() ==> table_is_listed(
            r.tables@,
            #[trigger] namespace.tables@[j],
        )
}

/// The tables of a namespace.
pub fn get_list_of_tables<P, A>(app: &AppContext<P, A>, namespace: Option<&str>) -> (r: Result<
    GetListOfTablesResponse,
    String,
>)
    requires
        app.wf(),
    ensures
        answers(r, namespace_refusal(*app, namespace)),
        r matches Ok(list) ==> exists|i: int|
            0 <= i < app.namespaces@.len() && (#[trigger] app.namespaces@[i]).name@
                == meant_namespace(namespace) && lists_tables(list, app.namespaces@[i]),
{
    let db_namespace = match get_namespace(app, namespace) {
        Ok(db_namespace) => db_namespace,
        Err(err) => {
            return Err(err);
        },
    };
    let ghost at = choose|at: int|
        0 <= at < app.namespaces@.len() && app.namespaces@[at] == *db_namespace;
    let ghost given = db_namespace.tables@;
    assert(app.namespaces@[at].wf());
    let mut listed: Vec<TableModel> = Vec::new();
    for i in 0..db_namespace.tables.len()
        invariant
            given == db_namespace.tables@,
            listed@.len() == i,
            forall|k: int| 0 <= k < i ==> (#[trigger] listed@[k]).shows(given[k]),
    {
        let db_table = &db_namespace.tables[i];
        listed.push(
            TableModel {
                name: db_table.name.clone(),
                partitions_count: db_table.metrics.partitions_amount,
                rows_count: db_table.metrics.rows_amount,
                schemas_count: db_table.attributes.schemas.len(),
            },
        );
    }
    let ghost unsorted = listed@;
    proof {
        assert forall|i: int, j: int|
            #![trigger unsorted[i], unsorted[j]]
            0 <= i < j < unsorted.len() implies unsorted[i].called() != unsorted[j].called() by {
            assert(unsorted[i].shows(given[i]) && unsorted[j].shows(given[j]));
            assert(given[i].called() != given[j].called());
        }
    }
    let tables = sort_by_name(listed);
    proof {
        assert forall|j: int| 0 <= j < given.len() implies table_is_listed(
            tables@,
            #[trigger] given[j],
        ) by {
            assert(unsorted[j].shows(given[j]));
            assert(unsorted.contains(unsorted[j]));
            assert(tables@.contains(unsorted[j]));
        }
        assert(app.namespaces@[at].name@ == meant_namespace(namespace));
    }
    Ok(GetListOfTablesResponse { count: tables.len(), tables })
}

/// A namespace, as it is listed.
pub struct NamespaceModel {
    pub name: String,
    pub tables_count: usize,
}

impl Named for NamespaceModel {
    open spec fn called(&self) -> Seq<char> {
        self.name@
    }

    fn get_name(&self) -> (r: &str) {
        self.name.as_str()
    }
}

impl NamespaceModel {
    /// Whether the namespace is listed as it is.
    pub open spec fn shows(&self, namespace: DbNamespace) -> bool {
        &&& self.name@ == namespace.name@
        &&& self.tables_count == namespace.tables@.len()
    }
}

pub struct GetNamespacesResponse {
    pub count: usize,
    pub namespaces: Vec<NamespaceModel>,
}

/// Whether a namespace is in the list.
pub open spec fn namespace_is_listed(listed: Seq<NamespaceModel>, namespace: DbNamespace) -> bool {
    exists|i: int| 0 <= i < listed.len() && (#[trigger] listed[i]).shows(namespace)
}

/// The namespaces this server holds. The map behind them has no order of its own,
/// and a list which comes back shuffled between two calls reads as a server
/// changing under you.
pub fn get_namespaces<P, A>(app: &AppContext<P, A>) -> (r: Result<GetNamespacesResponse, String>)
    requires
        app.wf(),
    ensures
        answers(
            r,
            if app.initialized {
                None
            } else {
                Some(still_loading())
            },
        ),
        r matches Ok(list) ==> {
            &&& list.count == list.namespaces@.len()
            &&& list.namespaces@.len() == app.namespaces@.len()
            &&& names_ascend(list.namespaces@)
            &&& forall|j: int|
                0 <= j < app.namespaces@.len() ==> namespace_is_listed(
                    list.namespaces@,
                    #[trigger] app.namespaces@[j],
                )
        },
{
    match check_if_initialized(app) {
        Ok(_) => {},
        Err(err) => {
            return Err(err);
        },
    }
    let ghost given = app.namespaces@;
    let mut listed: Vec<NamespaceModel> = Vec::new();
    for i in 0..app.namespaces.len()
        invariant
            given == app.namespaces@,
            listed@.len() == i,
            forall|k: int| 0 <= k < i ==> (#[trigger] listed@[k]).shows(given[k]),
    {
        let db_namespace = &app.namespaces[i];
        listed.push(
            NamespaceModel {
                name: db_namespace.name.clone(),
                tables_count: db_namespace.tables.len(),
            },
        );
    }
    let ghost unsorted = listed@;
    proof {
        assert forall|i: int, j: int|
            #![trigger unsorted[i], unsorted[j]]
            0 <= i < j < unsorted.len() implies unsorted[i].called() != unsorted[j].called() by {
            assert(unsorted[i].shows(given[i]) && unsorted[j].shows(given[j]));
            assert(given[i].called() != given[j].called());
        }
    }
    let namespaces = sort_by_name(listed);
    proof {
        assert forall|j: int| 0 <= j < given.len() implies namespace_is_listed(
            namespaces@,
            #[trigger] given[j],
        ) by {
            assert(unsorted[j].shows(given[j]));
            assert(unsorted.contains(unsorted[j]));
            assert(namespaces@.contains(unsorted[j]));
        }
    }
    Ok(GetNamespacesResponse { count: namespaces.len(), namespaces })
}

/// The namespace whose backups are listed. It is not looked up among the live
/// ones.
pub fn get_list_of_backups<P, A>(app: &AppContext<P, A>, namespace: Option<&str>) -> (r: Result<
    String,
    String,
>)
    ensures
        answers(
            r,
            if app.initialized {
                None
            } else {
                Some(still_loading())
            },
        ),
        r matches Ok(name) ==> name@ == meant_namespace(namespace),
{
    match check_if_initialized(app) {
        Ok(_) => Ok(backup_namespace_name(namespace)),
        Err(err) => Err(err),
    }
}

/// A backup, as it is listed.
pub struct BackupFileModel {
    pub file_name: String,
    pub size: u64,
}

pub struct GetListOfBackupsResponse {
    pub count: usize,
    pub files: Vec<BackupFileModel>,
}

/// Backups as they are listed.
pub fn list_of_backups(files: Vec<BackupOnDisk>) -> (r: GetListOfBackupsResponse)
    ensures
        r.count == files@.len(),
        r.files@.len() == files@.len(),
        forall|i: int|
            0 <= i < files@.len() ==> (#[trigger] r.files@[i]).file_name == files@[i].name
                && r.files@[i].size == files@[i].size,
{
    let ghost given = files@;
    let total: usize = files.len();
    let mut listed: Vec<BackupFileModel> = Vec::new();
    let mut i: usize = 0;
    for file in it: files
        invariant
            it.seq() == given,
            it.index() == i,
            i <= total,
            total == given.len(),
            listed@.len() == i,
            forall|k: int|
                0 <= k < i ==> (#[trigger] listed@[k]).file_name == given[k].name
                    && listed@[k].size == given[k].size,
    {
        listed.push(BackupFileModel { file_name: file.name, size: file.size });
        i = i + 1;
    }
    GetListOfBackupsResponse { count: listed.len(), files: listed }
}

/// The stored rows of a partition inside a backup.
pub fn get_backup_rows(
    content: &BackupContent,
    file_name: &str,
    table_name: &str,
    partition_key: &str,
) -> (r: Result<Vec<PersistedRow>, String>)
    ensures
        is_answer_of_backup(
            reading_of_rows(r),
            *content,
            file_name@,
            table_name@,
            partition_key@,
        ),
{
    let table = match find_backup_table(content, file_name, table_name) {
        Ok(table) => table,
        Err(err) => {
            return Err(err);
        },
    };
    let ghost at = choose|i: int| #[trigger]
        is_first_table(content.tables@, i, table_name@) && *table == content.tables@[i];
    let partition = match find_backup_partition(table, file_name, table_name, partition_key) {
        Ok(partition) => partition,
        Err(err) => {
            assert(is_first_table(content.tables@, at, table_name@));
            return Err(err);
        },
    };
    let ghost place = choose|i: int| #[trigger]
        is_first_partition(table.partitions@, i, partition_key@) && *partition
            == table.partitions@[i];
    assert(is_backup_partition(*content, table_name@, partition_key@, at, place));
    assert(content.tables@[at].table_name@ == table_name@);
    deserialize(partition.blob.as_slice())
}

/// What some rows say, or why there are none.
pub open spec fn reading_of_rows(r: Result<Vec<PersistedRow>, String>) -> Result<
    Seq<StoredRow>,
    Seq<char>,
> {
    match r {
        Ok(rows) => Ok(restored_rows(rows@)),
        Err(err) => Err(err@),
    }
}

/// Whether this is the partition of a backup which is asked for.
pub open spec fn is_backup_partition(
    content: BackupContent,
    table_name: Seq<char>,
    partition_key: Seq<char>,
    at: int,
    place: int,
) -> bool {
    &&& is_first_table(content.tables@, at, table_name)
    &&& is_first_partition(content.tables@[at].partitions@, place, partition_key)
}

/// Whether the answer is what the payload of the partition reads as, or says what
/// the backup does not have.
pub open spec fn is_answer_of_backup(
    r: Result<Seq<StoredRow>, Seq<char>>,
    content: BackupContent,
    file_name: Seq<char>,
    table_name: Seq<char>,
    partition_key: Seq<char>,
) -> bool {
    if forall|k: int|
        0 <= k < content.tables@.len() ==> (#[trigger] content.tables@[k]).table_name@
            != table_name {
        r == Err::<Seq<StoredRow>, Seq<char>>(no_backup_table(content, file_name, table_name))
    } else {
        ||| exists|at: int|
            {
                &&& #[trigger] is_first_table(content.tables@, at, table_name)
                &&& forall|k: int|
                    0 <= k < content.tables@[at].partitions@.len() ==> (
                    #[trigger] content.tables@[at].partitions@[k]).partition_key@ != partition_key
                &&& r == Err::<Seq<StoredRow>, Seq<char>>(
                    no_backup_partition(file_name, partition_key, table_name),
                )
            }
        ||| exists|at: int, place: int|
            {
                &&& #[trigger] is_backup_partition(content, table_name, partition_key, at, place)
                &&& r == blob_rows(content.tables@[at].partitions@[place].blob@)
            }
    }
}

}
