//! Everything this server can say about itself, as one answer.
//!
//! It covers **every** namespace rather than taking one by name. A namespace is
//! the unit of everything here - its own tables, its own folder and its own
//! persist queue - so a status of one of them is not a status of the server.

use crate::app::{AppContext, DbNamespace, DbTable, DbTableMetrics};
use crate::db::DateTimeAsMicroseconds;
use crate::monitoring::metrics::{table_numbers, table_value, TableColumn};
use crate::monitoring::moments::{millis_ago, time_ago};
use crate::monitoring::readers::{readers_in_order, show_all, ReaderView};
use crate::names::{names_ascend, names_differ, sort_by_name, Named};
use crate::persist::markers::persist_task::PersistQueueMetrics;
use crate::transactions::registry::are_the_transactions;
use crate::transactions::transaction::Transaction;
use vstd::prelude::*;

verus! {

/// What is said of a table.
pub struct TableStatus {
    pub name: String,
    pub persist: bool,
    pub max_partitions_amount: Option<usize>,
    pub max_rows_per_partition_amount: Option<usize>,
    pub partitions_count: usize,
    pub rows_count: usize,
    /// One table is one entity in about every real case, so anything but 1 is
    /// worth seeing: it is either a deploy going through or two different
    /// entities aimed at one table.
    pub schemas_count: usize,
    pub data_size: usize,
    pub created: DateTimeAsMicroseconds,
    pub last_write_at: Option<DateTimeAsMicroseconds>,
}

impl Named for TableStatus {
    open spec fn called(&self) -> Seq<char> {
        self.name@
    }

    fn get_name(&self) -> (r: &str) {
        self.name.as_str()
    }
}

impl TableStatus {
    /// Whether the table is shown as it is.
    pub open spec fn shows(&self, table: DbTable) -> bool {
        &&& self.name@ == table.name@
        &&& self.persist == table.attributes.persist
        &&& self.max_partitions_amount == table.attributes.max_partitions_amount
        &&& self.max_rows_per_partition_amount == table.attributes.max_rows_per_partition_amount
        &&& self.partitions_count == table.metrics.partitions_amount
        &&& self.rows_count == table.metrics.rows_amount
        &&& self.schemas_count == table.attributes.schemas@.len()
        &&& self.data_size == table.metrics.content_size
        &&& self.created == table.attributes.created
        &&& self.last_write_at == table.last_write_moment
    }
}

/// Whether some table is shown.
pub open spec fn table_is_shown(shown: Seq<TableStatus>, table: DbTable) -> bool {
    exists|i: int| 0 <= i < shown.len() && (#[trigger] shown[i]).shows(table)
}

/// Whether every table is shown once, in the order of their names.
pub open spec fn show_tables(shown: Seq<TableStatus>, tables: Seq<DbTable>) -> bool {
    &&& shown.len() == tables.len()
    &&& names_ascend(shown)
    &&& forall|j: int| 0 <= j < tables.len() ==> table_is_shown(shown, #[trigger] tables[j])
}

/// What all tables together hold.
pub open spec fn total(tables: Seq<DbTable>, column: TableColumn) -> int
    decreases tables.len(),
{
    if tables.len() == 0 {
        0
    } else {
        total(tables.drop_last(), column) + table_value(table_numbers(tables.last()), column)
    }
}

/// What is said of a namespace.
pub struct NamespaceStatus {
    pub name: String,
    pub partitions_count: u128,
    pub rows_count: u128,
    pub data_size: u128,
    pub persist_queue: PersistQueueMetrics,
    pub last_persisted_at: Option<DateTimeAsMicroseconds>,
    pub tables: Vec<TableStatus>,
}

impl Named for NamespaceStatus {
    open spec fn called(&self) -> Seq<char> {
        self.name@
    }

    fn get_name(&self) -> (r: &str) {
        self.name.as_str()
    }
}

impl NamespaceStatus {
    /// Whether the namespace is shown as it is.
    pub open spec fn shows(&self, namespace: DbNamespace) -> bool {
        &&& self.name@ == namespace.name@
        &&& show_tables(self.tables@, namespace.tables@)
        &&& self.partitions_count == total(namespace.tables@, TableColumn::Partitions)
        &&& self.rows_count == total(namespace.tables@, TableColumn::Rows)
        &&& self.data_size == total(namespace.tables@, TableColumn::ContentSize)
        &&& self.persist_queue.partitions == namespace.persist_markers@.partitions.dom().len()
        &&& self.persist_queue.tables_metadata == namespace.persist_markers@.metadata.dom().len()
        &&& self.last_persisted_at == namespace.last_persisted
    }
}

/// Whether some namespace is shown.
pub open spec fn namespace_is_shown(shown: Seq<NamespaceStatus>, namespace: DbNamespace) -> bool {
    exists|i: int| 0 <= i < shown.len() && (#[trigger] shown[i]).shows(namespace)
}

/// Whether every namespace is shown once, in the order of their names.
pub open spec fn show_namespaces(
    shown: Seq<NamespaceStatus>,
    namespaces: Seq<DbNamespace>,
) -> bool {
    &&& shown.len() == namespaces.len()
    &&& names_ascend(shown)
    &&& forall|j: int|
        0 <= j < namespaces.len() ==> namespace_is_shown(shown, #[trigger] namespaces[j])
}

/// What is said of a transaction.
pub struct TransactionStatus {
    pub id: String,
    pub namespace: String,
    pub table: String,
    pub actions: usize,
    pub started_at: DateTimeAsMicroseconds,
    pub last_incoming_millis_ago: u64,
}

impl Named for TransactionStatus {
    open spec fn called(&self) -> Seq<char> {
        self.id@
    }

    fn get_name(&self) -> (r: &str) {
        self.id.as_str()
    }
}

impl TransactionStatus {
    /// Whether the transaction is shown as it is.
    pub open spec fn shows<P, A>(
        &self,
        transaction: Transaction<P, A>,
        now: DateTimeAsMicroseconds,
    ) -> bool {
        &&& self.id@ == transaction.id@
        &&& self.namespace@ == transaction.namespace@
        &&& self.table@ == transaction.table_name@
        &&& self.actions == transaction.actions@.len()
        &&& self.started_at == transaction.started
        &&& self.last_incoming_millis_ago == time_ago(now, transaction.last_incoming)
    }
}

/// Whether a transaction with the id is shown.
pub open spec fn transaction_is_shown(shown: Seq<TransactionStatus>, id: Seq<char>) -> bool {
    exists|i: int| 0 <= i < shown.len() && (#[trigger] shown[i]).id@ == id
}

/// Whether every transaction is shown once, in the order of their ids.
pub open spec fn show_transactions<P, A>(
    shown: Seq<TransactionStatus>,
    transactions: Map<Seq<char>, Transaction<P, A>>,
    now: DateTimeAsMicroseconds,
) -> bool {
    &&& names_ascend(shown)
    &&& forall|i: int|
        0 <= i < shown.len() ==> transactions.contains_key((#[trigger] shown[i]).id@)
            && shown[i].shows(transactions[shown[i].id@], now)
    &&& forall|id: Seq<char>| #[trigger]
        transactions.contains_key(id) ==> transaction_is_shown(shown, id)
}

/// What is said of the server itself.
pub struct ServerStatus {
    pub version: String,
    pub location: String,
    pub started_at: DateTimeAsMicroseconds,
    pub up_time_millis: u64,
    /// The endpoints as the server bound them, host included: a deployment may
    /// narrow one of them to loopback, and the port alone would hide that.
    pub grpc_endpoint: String,
    pub http_endpoint: String,
    pub compress_data: bool,
    pub persistence_dest: String,
    pub backups_configured: bool,
    /// Absent where there is no policy - zero is a policy.
    pub backup_interval_secs: Option<u64>,
    pub max_backups: Option<usize>,
    /// A window nobody can see is a window nobody remembers to shut. Absent while
    /// the write tools are shut.
    pub mcp_writes_remaining_secs: Option<i64>,
}

impl ServerStatus {
    /// Whether the server is shown as it is.
    pub open spec fn shows<P, A>(
        &self,
        app: AppContext<P, A>,
        persistence_dest: Seq<char>,
        now: DateTimeAsMicroseconds,
    ) -> bool {
        let left = crate::app::window_left(app.mcp_writes_opened, now);
        &&& self.version@ == app.version@
        &&& self.location@ == app.settings.location@
        &&& self.started_at == app.created
        &&& self.up_time_millis == time_ago(now, app.created)
        &&& self.grpc_endpoint@ == app.grpc_endpoint@
        &&& self.http_endpoint@ == app.http_endpoint@
        &&& self.compress_data == app.settings.compress_data
        &&& self.persistence_dest@ == persistence_dest
        &&& self.backups_configured == app.settings.backups_dest is Some
        &&& self.backup_interval_secs == app.settings.backup_interval_secs
        &&& self.max_backups == app.settings.max_backups
        &&& self.mcp_writes_remaining_secs is Some <==> left > 0
        &&& self.mcp_writes_remaining_secs matches Some(secs) ==> secs == left / 1_000_000
    }
}

/// Everything the server says about itself.
pub struct Status {
    pub server: ServerStatus,
    pub namespaces: Vec<NamespaceStatus>,
    pub readers: Vec<ReaderView>,
    pub transactions: Vec<TransactionStatus>,
}

fn show_table(table: &DbTable) -> (r: TableStatus)
    ensures
        r.shows(*table),
{
    let metrics: DbTableMetrics = table.metrics;
    TableStatus {
        name: table.name.clone(),
        persist: table.attributes.persist,
        max_partitions_amount: table.attributes.max_partitions_amount,
        max_rows_per_partition_amount: table.attributes.max_rows_per_partition_amount,
        partitions_count: metrics.partitions_amount,
        rows_count: metrics.rows_amount,
        schemas_count: table.attributes.schemas.len(),
        data_size: metrics.content_size,
        created: table.attributes.created,
        last_write_at: table.last_write_moment,
    }
}

/// What is said of a namespace. The totals are rolled up from what was collected:
/// asking the tables again would be a second round of locks answering about a
/// different moment.
fn show_namespace(namespace: &DbNamespace) -> (r: NamespaceStatus)
    requires
        namespace.wf(),
    ensures
        r.shows(*namespace),
{
    let queue = namespace.persist_markers.get_queue_metrics();
    let ghost given = namespace.tables@;
    let mut tables: Vec<TableStatus> = Vec::new();
    let mut partitions_count: u128 = 0;
    let mut rows_count: u128 = 0;
    let mut data_size: u128 = 0;
    assert(given.take(0) =~= Seq::<DbTable>::empty());
    for i in 0..namespace.tables.len()
        invariant
            given == namespace.tables@,
            tables@.len() == i,
            forall|k: int| 0 <= k < i ==> (#[trigger] tables@[k]).shows(given[k]),
            partitions_count == total(given.take(i as int), TableColumn::Partitions),
            rows_count == total(given.take(i as int), TableColumn::Rows),
            data_size == total(given.take(i as int), TableColumn::ContentSize),
            partitions_count <= i * 0xffff_ffff_ffff_ffff,
            rows_count <= i * 0xffff_ffff_ffff_ffff,
            data_size <= i * 0xffff_ffff_ffff_ffff,
    {
        let table = &namespace.tables[i];
        proof {
            assert(given.take(i + 1).drop_last() =~= given.take(i as int));
            assert(given.take(i + 1).last() == *table);
        }
        tables.push(show_table(table));
        partitions_count = partitions_count + table.metrics.partitions_amount as u128;
        rows_count = rows_count + table.metrics.rows_amount as u128;
        data_size = data_size + table.metrics.content_size as u128;
    }
    let ghost unsorted = tables@;
    proof {
        assert(given.take(given.len() as int) =~= given);
        assert forall|i: int, j: int|
            #![trigger unsorted[i], unsorted[j]]
            0 <= i < j < unsorted.len() implies unsorted[i].called() != unsorted[j].called() by {
            assert(unsorted[i].shows(given[i]) && unsorted[j].shows(given[j]));
            assert(given[i].called() != given[j].called());
        }
    }
    let tables = sort_by_name(tables);
    proof {
        assert forall|j: int| 0 <= j < given.len() implies table_is_shown(
            tables@,
            #[trigger] given[j],
        ) by {
            assert(unsorted[j].shows(given[j]));
            assert(unsorted.contains(unsorted[j]));
            assert(tables@.contains(unsorted[j]));
        }
    }
    NamespaceStatus {
        name: namespace.name.clone(),
        partitions_count,
        rows_count,
        data_size,
        persist_queue: queue,
        last_persisted_at: namespace.last_persisted,
        tables,
    }
}

fn show_all_namespaces(namespaces: &Vec<DbNamespace>) -> (r: Vec<NamespaceStatus>)
    requires
        names_differ(namespaces@),
        forall|i: int| 0 <= i < namespaces@.len() ==> (#[trigger] namespaces@[i]).wf(),
    ensures
        show_namespaces(r@, namespaces@),
{
    let mut shown: Vec<NamespaceStatus> = Vec::new();
    for i in 0..namespaces.len()
        invariant
            forall|k: int| 0 <= k < namespaces@.len() ==> (#[trigger] namespaces@[k]).wf(),
            shown@.len() == i,
            forall|k: int| 0 <= k < i ==> (#[trigger] shown@[k]).shows(namespaces@[k]),
    {
        assert(namespaces@[i as int].wf());
        shown.push(show_namespace(&namespaces[i]));
    }
    let ghost unsorted = shown@;
    proof {
        assert forall|i: int, j: int|
            #![trigger unsorted[i], unsorted[j]]
            0 <= i < j < unsorted.len() implies unsorted[i].called() != unsorted[j].called() by {
            assert(unsorted[i].shows(namespaces@[i]) && unsorted[j].shows(namespaces@[j]));
            assert(namespaces@[i].called() != namespaces@[j].called());
        }
    }
    let r = sort_by_name(shown);
    proof {
        assert forall|j: int| 0 <= j < namespaces@.len() implies namespace_is_shown(
            r@,
            #[trigger] namespaces@[j],
        ) by {
            assert(unsorted[j].shows(namespaces@[j]));
            assert(unsorted.contains(unsorted[j]));
            assert(r@.contains(unsorted[j]));
        }
    }
    r
}

fn show_all_transactions<P, A>(app: &AppContext<P, A>, now: DateTimeAsMicroseconds) -> (r: Vec<
    TransactionStatus,
>)
    requires
        app.wf(),
    ensures
        show_transactions(r@, app.transactions.map(), now),
{
    let transactions = app.transactions.get_all();
    let ghost map = app.transactions.map();
    let mut shown: Vec<TransactionStatus> = Vec::new();
    for i in 0..transactions.len()
        invariant
            are_the_transactions(transactions@, map),
            shown@.len() == i,
            forall|k: int| 0 <= k < i ==> (#[trigger] shown@[k]).shows(*transactions@[k], now),
    {
        let transaction = transactions[i];
        shown.push(
            TransactionStatus {
                id: transaction.id.clone(),
                namespace: transaction.namespace.clone(),
                table: transaction.table_name.clone(),
                actions: transaction.get_actions_amount(),
                started_at: transaction.started,
                last_incoming_millis_ago: millis_ago(now, transaction.get_last_incoming()),
            },
        );
    }
    let ghost unsorted = shown@;
    proof {
        assert forall|i: int, j: int|
            #![trigger unsorted[i], unsorted[j]]
            0 <= i < j < unsorted.len() implies unsorted[i].called() != unsorted[j].called() by {
            assert(transactions@[i].id@ != transactions@[j].id@);
        }
    }
    let r = sort_by_name(shown);
    proof {
        assert forall|i: int| 0 <= i < r@.len() implies map.contains_key((#[trigger] r@[i]).id@)
            && r@[i].shows(map[r@[i].id@], now) by {
            assert(r@.contains(r@[i]));
            assert(unsorted.contains(r@[i]));
            let k = choose|k: int| 0 <= k < unsorted.len() && unsorted[k] == r@[i];
            assert(unsorted[k].shows(*transactions@[k], now));
            assert(map[transactions@[k].id@] == *transactions@[k]);
        }
        assert forall|id: Seq<char>| #[trigger] map.contains_key(id) implies transaction_is_shown(
            r@,
            id,
        ) by {
            let k = choose|k: int|
                0 <= k < transactions@.len() && (#[trigger] transactions@[k]).id@ == id;
            assert(unsorted[k].shows(*transactions@[k], now));
            assert(unsorted.contains(unsorted[k]));
            assert(r@.contains(unsorted[k]));
        }
    }
    r
}

/// Everything the server says about itself. `persistence_dest` is where its data
/// is, with everything in the setting resolved.
pub fn collect<P, A>(
    app: &AppContext<P, A>,
    persistence_dest: String,
    now: DateTimeAsMicroseconds,
) -> (r: Status)
    requires
        app.wf(),
    ensures
        r.server.shows(*app, persistence_dest@, now),
        show_namespaces(r.namespaces@, app.namespaces@),
        show_all(r.readers@, app.reader_sessions.map()),
        readers_in_order(r.readers@),
        show_transactions(r.transactions@, app.transactions.map(), now),
{
    let server = ServerStatus {
        version: app.version.clone(),
        location: app.settings.location.clone(),
        started_at: app.created,
        up_time_millis: millis_ago(now, app.created),
        grpc_endpoint: app.grpc_endpoint.clone(),
        http_endpoint: app.http_endpoint.clone(),
        compress_data: app.settings.compress_data,
        persistence_dest,
        backups_configured: app.settings.backups_dest.is_some(),
        backup_interval_secs: app.settings.backup_interval_secs,
        max_backups: app.settings.max_backups,
        mcp_writes_remaining_secs: app.mcp_writes_remaining_secs(now),
    };
    Status {
        server,
        namespaces: show_all_namespaces(&app.namespaces),
        readers: crate::monitoring::readers::collect(app),
        transactions: show_all_transactions(app, now),
    }
}

}
