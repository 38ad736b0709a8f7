//! What the status says of everything there is.

use super::metrics::{table_numbers, table_value, TableColumn};
use super::moments::time_ago;
use super::readers::{is_shown, readers_in_order, show_all, ReaderView};
use super::scrape_laws::{are_all_sessions, is_session_shown};
use super::status::{
    namespace_is_shown, show_namespaces, show_tables, show_transactions, table_is_shown, total,
    transaction_is_shown, NamespaceStatus, ServerStatus, Status, TableStatus, TransactionStatus,
};
use crate::app::{AppContext, DbNamespace, DbTable};
use crate::db::DateTimeAsMicroseconds;
use crate::names::Named;
use crate::text::text_before;
use crate::transactions::transaction::Transaction;
use vstd::prelude::*;

verus! {

/// Whether the status of a table is what the table holds.
pub open spec fn is_status_of_table(shown: TableStatus, table: DbTable) -> bool {
    &&& shown.name@ == table.name@
    &&& shown.persist == table.attributes.persist
    &&& shown.max_partitions_amount == table.attributes.max_partitions_amount
    &&& shown.max_rows_per_partition_amount == table.attributes.max_rows_per_partition_amount
    &&& shown.partitions_count == table.metrics.partitions_amount
    &&& shown.rows_count == table.metrics.rows_amount
    &&& shown.schemas_count == table.attributes.schemas@.len()
    &&& shown.data_size == table.metrics.content_size
    &&& shown.created == table.attributes.created
    &&& shown.last_write_at == table.last_write_moment
}

/// Whether some status is that of the table.
pub open spec fn has_table_status(shown: Seq<TableStatus>, table: DbTable) -> bool {
    exists|i: int| 0 <= i < shown.len() && is_status_of_table(#[trigger] shown[i], table)
}

/// Whether every table has its status, and nothing else does.
pub open spec fn are_statuses_of_tables(shown: Seq<TableStatus>, tables: Seq<DbTable>) -> bool {
    &&& shown.len() == tables.len()
    &&& forall|j: int|
        0 <= j < tables.len() ==> has_table_status(shown, #[trigger] tables[j])
    &&& forall|i: int, j: int|
        #![trigger shown[i], shown[j]]
        0 <= i < j < shown.len() ==> text_before(shown[i].name@, shown[j].name@)
}

/// What some tables hold together.
pub open spec fn sum_of_tables(tables: Seq<DbTable>, value: spec_fn(DbTable) -> int) -> int {
    tables.fold_left(0int, |n: int, table: DbTable| n + value(table))
}

proof fn lemma_total(tables: Seq<DbTable>, column: TableColumn, value: spec_fn(DbTable) -> int)
    requires
        forall|t: DbTable| #[trigger] value(t) == table_value(table_numbers(t), column),
    ensures
        total(tables, column) == sum_of_tables(tables, value),
    decreases tables.len(),
{
    if tables.len() > 0 {
        lemma_total(tables.drop_last(), column, value);
    }
}

/// Whether the status of a namespace is what the namespace holds.
pub open spec fn is_status_of_namespace(shown: NamespaceStatus, namespace: DbNamespace) -> bool {
    let tables = namespace.tables@;
    &&& shown.name@ == namespace.name@
    &&& are_statuses_of_tables(shown.tables@, tables)
    &&& shown.partitions_count == sum_of_tables(
        tables,
        |t: DbTable| t.metrics.partitions_amount as int,
    )
    &&& shown.rows_count == sum_of_tables(tables, |t: DbTable| t.metrics.rows_amount as int)
    &&& shown.data_size == sum_of_tables(tables, |t: DbTable| t.metrics.content_size as int)
    &&& shown.persist_queue.partitions == namespace.persist_markers@.partitions.dom().len()
    &&& shown.persist_queue.tables_metadata == namespace.persist_markers@.metadata.dom().len()
    &&& shown.last_persisted_at == namespace.last_persisted
}

/// Whether this is the moment of so many milliseconds ago, rounded: never more than half a
/// millisecond off, and none where the moment is still to come.
pub open spec fn is_ago(
    millis: u64,
    now: DateTimeAsMicroseconds,
    moment: DateTimeAsMicroseconds,
) -> bool {
    if now.unix_microseconds <= moment.unix_microseconds {
        millis == 0
    } else {
        -500 < 1000 * millis - (now.unix_microseconds - moment.unix_microseconds) <= 500
    }
}

/// Milliseconds are rounded to the nearest one, upwards from a half on.
pub proof fn how_long_ago_is_rounded(
    now: DateTimeAsMicroseconds,
    moment: DateTimeAsMicroseconds,
    millis: u64,
)
    ensures
        millis == time_ago(now, moment) <==> is_ago(millis, now, moment),
{
}

/// Whether the status of a transaction is what the transaction is.
pub open spec fn is_status_of_transaction<P, A>(
    shown: TransactionStatus,
    transaction: Transaction<P, A>,
    now: DateTimeAsMicroseconds,
) -> bool {
    &&& shown.id@ == transaction.id@
    &&& shown.namespace@ == transaction.namespace@
    &&& shown.table@ == transaction.table_name@
    &&& shown.actions == transaction.actions@.len()
    &&& shown.started_at == transaction.started
    &&& is_ago(shown.last_incoming_millis_ago, now, transaction.last_incoming)
}

/// Whether the status of the server is what the server is.
pub open spec fn is_status_of_server<P, A>(
    shown: ServerStatus,
    app: AppContext<P, A>,
    persistence_dest: Seq<char>,
    now: DateTimeAsMicroseconds,
) -> bool {
    &&& shown.version@ == app.version@
    &&& shown.location@ == app.settings.location@
    &&& shown.started_at == app.created
    &&& is_ago(shown.up_time_millis, now, app.created)
    &&& shown.grpc_endpoint@ == app.grpc_endpoint@
    &&& shown.http_endpoint@ == app.http_endpoint@
    &&& shown.compress_data == app.settings.compress_data
    &&& shown.persistence_dest@ == persistence_dest
    &&& shown.backups_configured <==> app.settings.backups_dest is Some
    &&& shown.backup_interval_secs == app.settings.backup_interval_secs
    &&& shown.max_backups == app.settings.max_backups
    &&& match app.mcp_writes_opened {
        Some(opened) => {
            let passed = now.unix_microseconds - opened.unix_microseconds;
            if passed < 600_000_000 {
                &&& shown.mcp_writes_remaining_secs matches Some(secs)
                &&& secs * 1_000_000 <= 600_000_000 - passed < (secs + 1) * 1_000_000
            } else {
                shown.mcp_writes_remaining_secs is None
            }
        },
        None => shown.mcp_writes_remaining_secs is None,
    }
}

proof fn lemma_table_status(shown: Seq<TableStatus>, tables: Seq<DbTable>)
    requires
        show_tables(shown, tables),
    ensures
        are_statuses_of_tables(shown, tables),
{
    assert forall|j: int| 0 <= j < tables.len() implies has_table_status(
        shown,
        #[trigger] tables[j],
    ) by {
        assert(table_is_shown(shown, tables[j]));
        let i = choose|i: int| 0 <= i < shown.len() && (#[trigger] shown[i]).shows(tables[j]);
        assert(is_status_of_table(shown[i], tables[j]));
    }
    assert forall|i: int, j: int|
        #![trigger shown[i], shown[j]]
        0 <= i < j < shown.len() implies text_before(shown[i].name@, shown[j].name@) by {
        assert(text_before(shown[i].called(), shown[j].called()));
    }
}

proof fn lemma_namespace_status(shown: NamespaceStatus, namespace: DbNamespace)
    requires
        shown.shows(namespace),
    ensures
        is_status_of_namespace(shown, namespace),
{
    let tables = namespace.tables@;
    lemma_table_status(shown.tables@, tables);
    lemma_total(
        tables,
        TableColumn::Partitions,
        |t: DbTable| t.metrics.partitions_amount as int,
    );
    lemma_total(tables, TableColumn::Rows, |t: DbTable| t.metrics.rows_amount as int);
    lemma_total(tables, TableColumn::ContentSize, |t: DbTable| t.metrics.content_size as int);
}

/// Whether some status is that of the namespace.
pub open spec fn has_status(shown: Seq<NamespaceStatus>, namespace: DbNamespace) -> bool {
    exists|i: int| 0 <= i < shown.len() && is_status_of_namespace(#[trigger] shown[i], namespace)
}

/// The status covers everything there is, as it is: the server, every namespace with every
/// table of it and the totals of them, every reader and every transaction, each of them
/// once and in the order of their names.
pub proof fn the_status_covers_everything<P, A>(
    status: Status,
    app: AppContext<P, A>,
    persistence_dest: Seq<char>,
    now: DateTimeAsMicroseconds,
)
    requires
        status.server.shows(app, persistence_dest, now),
        show_namespaces(status.namespaces@, app.namespaces@),
        show_all(status.readers@, app.reader_sessions.map()),
        show_transactions(status.transactions@, app.transactions.map(), now),
    ensures
        is_status_of_server(status.server, app, persistence_dest, now),
        status.namespaces@.len() == app.namespaces@.len(),
        forall|k: int|
            0 <= k < app.namespaces@.len() ==> has_status(
                status.namespaces@,
                #[trigger] app.namespaces@[k],
            ),
        forall|i: int, j: int|
            #![trigger status.namespaces@[i], status.namespaces@[j]]
            0 <= i < j < status.namespaces@.len() ==> text_before(
                status.namespaces@[i].name@,
                status.namespaces@[j].name@,
            ),
        are_all_sessions(status.readers@, app.reader_sessions.map()),
        forall|id: Seq<char>| #[trigger]
            app.transactions.map().contains_key(id) ==> exists|i: int|
                0 <= i < status.transactions@.len() && (#[trigger] status.transactions@[i]).id@
                    == id,
        forall|i: int|
            0 <= i < status.transactions@.len() ==> app.transactions.map().contains_key(
                (#[trigger] status.transactions@[i]).id@,
            ) && is_status_of_transaction(
                status.transactions@[i],
                app.transactions.map()[status.transactions@[i].id@],
                now,
            ),
        forall|i: int, j: int|
            #![trigger status.transactions@[i], status.transactions@[j]]
            0 <= i < j < status.transactions@.len() ==> text_before(
                status.transactions@[i].id@,
                status.transactions@[j].id@,
            ),
{
    let shown = status.namespaces@;
    assert forall|k: int| 0 <= k < app.namespaces@.len() implies has_status(
        shown,
        #[trigger] app.namespaces@[k],
    ) by {
        assert(namespace_is_shown(shown, app.namespaces@[k]));
        let i = choose|i: int|
            0 <= i < shown.len() && (#[trigger] shown[i]).shows(app.namespaces@[k]);
        lemma_namespace_status(shown[i], app.namespaces@[k]);
    }
    let readers = status.readers@;
    let sessions = app.reader_sessions.map();
    assert forall|id: Seq<char>| #[trigger] sessions.contains_key(id) implies exists|i: int|
        0 <= i < readers.len() && (#[trigger] readers[i]).id@ == id by {
        assert(is_shown(readers, id));
    }
    assert forall|i: int| 0 <= i < readers.len() implies is_session_shown(
        #[trigger] readers[i],
        sessions[readers[i].id@],
    ) by {
        assert(readers[i].shows(sessions[readers[i].id@]));
    }
    let transactions = status.transactions@;
    assert forall|id: Seq<char>| #[trigger] app.transactions.map().contains_key(id) implies exists|
        i: int,
    | 0 <= i < transactions.len() && (#[trigger] transactions[i]).id@ == id by {
        assert(transaction_is_shown(transactions, id));
    }
    assert forall|i: int| 0 <= i < transactions.len() implies is_status_of_transaction(
        #[trigger] transactions[i],
        app.transactions.map()[transactions[i].id@],
        now,
    ) by {
        let transaction = app.transactions.map()[transactions[i].id@];
        how_long_ago_is_rounded(
            now,
            transaction.last_incoming,
            transactions[i].last_incoming_millis_ago,
        );
    }
    how_long_ago_is_rounded(now, app.created, status.server.up_time_millis);
}

/// Readers are shown by namespace, then by application, then by session.
pub proof fn readers_stand_in_order(readers: Seq<ReaderView>, i: int, j: int)
    requires
        readers_in_order(readers),
        0 <= i < j < readers.len(),
    ensures
        ({
            let (a, b) = (readers[i], readers[j]);
            ||| text_before(a.namespace@, b.namespace@)
            ||| a.namespace@ == b.namespace@ && text_before(a.app_name@, b.app_name@)
            ||| a.namespace@ == b.namespace@ && a.app_name@ == b.app_name@ && text_before(
                a.id@,
                b.id@,
            )
        }),
{
}

}
