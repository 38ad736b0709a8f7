//! The metric set.
//!
//! Computed **per scrape**, not pushed by a timer: a table which was deleted
//! stops being reported the same second, instead of holding its last value until
//! the process restarts.

use crate::app::{AppContext, DbNamespace, DbTable, DbTableMetrics};
use crate::hashed_list::HashedList;
use crate::monitoring::metrics_writer::{
    exposition, family_text, lemma_exposition_concat, sample_of, sample_text,
    samples_text, Family,
    FamilyWriter, MetricKind, MetricValue, MetricsWriter, Sample,
};
use crate::monitoring::readers::{collect, readers_in_order, show_all, ReaderView};
use crate::names::{names_differ, sort_by_name, Named};
use crate::sorting::{lemma_same_items, sort, Ordered};
use crate::text::text_before;
use crate::triples::{
    lemma_triple_before_once, lemma_triple_not_before_chain, triple_before, triple_comes_before,
    TextTriple,
};
use ahash::AHashMap;
use vstd::prelude::*;

verus! {

/// What is reported of a table.
#[verifier::ext_equal]
pub struct TableNumbers {
    pub name: Seq<char>,
    pub schemas: nat,
    pub partitions: nat,
    pub rows: nat,
    pub content_size: nat,
}

/// What is reported of a namespace.
#[verifier::ext_equal]
pub struct NamespaceNumbers {
    pub name: Seq<char>,
    pub tables: Seq<TableNumbers>,
    pub queued_partitions: nat,
    pub queued_tables_metadata: nat,
    pub persisted_total: nat,
}

/// What is reported of a table.
pub open spec fn table_numbers(table: DbTable) -> TableNumbers {
    TableNumbers {
        name: table.name@,
        schemas: table.attributes.schemas@.len(),
        partitions: table.metrics.partitions_amount as nat,
        rows: table.metrics.rows_amount as nat,
        content_size: table.metrics.content_size as nat,
    }
}

/// Whether every table is reported once, in the order of their names.
pub open spec fn report_tables(reported: Seq<TableNumbers>, tables: Seq<DbTable>) -> bool {
    &&& reported.len() == tables.len()
    &&& forall|i: int, j: int|
        #![trigger reported[i], reported[j]]
        0 <= i < j < reported.len() ==> text_before(reported[i].name, reported[j].name)
    &&& forall|j: int|
        0 <= j < tables.len() ==> reported.contains(table_numbers(#[trigger] tables[j]))
}

/// Whether a namespace is reported as it is.
pub open spec fn reports(reported: NamespaceNumbers, namespace: DbNamespace) -> bool {
    &&& reported.name == namespace.name@
    &&& report_tables(reported.tables, namespace.tables@)
    &&& reported.queued_partitions == namespace.persist_markers@.partitions.dom().len()
    &&& reported.queued_tables_metadata == namespace.persist_markers@.metadata.dom().len()
    &&& reported.persisted_total == namespace.persisted_total
}

/// Whether some namespace is reported by one of these.
pub open spec fn is_reported(reported: Seq<NamespaceNumbers>, namespace: DbNamespace) -> bool {
    exists|i: int| 0 <= i < reported.len() && reports(#[trigger] reported[i], namespace)
}

/// Whether every namespace is reported once, in the order of their names.
pub open spec fn report_namespaces(
    reported: Seq<NamespaceNumbers>,
    namespaces: Seq<DbNamespace>,
) -> bool {
    &&& reported.len() == namespaces.len()
    &&& forall|i: int, j: int|
        #![trigger reported[i], reported[j]]
        0 <= i < j < reported.len() ==> text_before(reported[i].name, reported[j].name)
    &&& forall|j: int|
        0 <= j < namespaces.len() ==> is_reported(reported, #[trigger] namespaces[j])
}

/// What is asked of a namespace.
#[derive(Clone, Copy)]
pub enum NamespaceColumn {
    Tables,
    QueuedPartitions,
    QueuedTablesMetadata,
    PersistedTotal,
}

/// What is asked of a table.
#[derive(Clone, Copy)]
pub enum TableColumn {
    Schemas,
    Partitions,
    Rows,
    ContentSize,
}

pub open spec fn namespace_value(reported: NamespaceNumbers, column: NamespaceColumn) -> int {
    match column {
        NamespaceColumn::Tables => reported.tables.len() as int,
        NamespaceColumn::QueuedPartitions => reported.queued_partitions as int,
        NamespaceColumn::QueuedTablesMetadata => reported.queued_tables_metadata as int,
        NamespaceColumn::PersistedTotal => reported.persisted_total as int,
    }
}

pub open spec fn table_value(reported: TableNumbers, column: TableColumn) -> int {
    match column {
        TableColumn::Schemas => reported.schemas as int,
        TableColumn::Partitions => reported.partitions as int,
        TableColumn::Rows => reported.rows as int,
        TableColumn::ContentSize => reported.content_size as int,
    }
}

/// A sample per namespace.
pub open spec fn per_namespace(reported: Seq<NamespaceNumbers>, column: NamespaceColumn) -> Seq<
    Sample,
> {
    Seq::new(
        reported.len(),
        |i: int|
            Sample {
                labels: seq![("ns"@, reported[i].name)],
                value: namespace_value(reported[i], column),
            },
    )
}

/// A sample per table of a namespace.
pub open spec fn tables_of(
    name_space: Seq<char>,
    reported: Seq<TableNumbers>,
    column: TableColumn,
) -> Seq<Sample> {
    Seq::new(
        reported.len(),
        |i: int|
            Sample {
                labels: seq![("ns"@, name_space), ("table"@, reported[i].name)],
                value: table_value(reported[i], column),
            },
    )
}

/// A sample per table, namespace by namespace.
pub open spec fn per_table(reported: Seq<NamespaceNumbers>, column: TableColumn) -> Seq<Sample>
    decreases reported.len(),
{
    if reported.len() == 0 {
        Seq::empty()
    } else {
        per_table(reported.drop_last(), column) + tables_of(
            reported.last().name,
            reported.last().tables,
            column,
        )
    }
}

/// A sample which is one of a kind.
pub open spec fn single(value: int) -> Seq<Sample> {
    seq![Sample { labels: Seq::empty(), value }]
}

pub open spec fn gauge(name: Seq<char>, help: Seq<char>, samples: Seq<Sample>) -> Family {
    Family { name, help, kind: MetricKind::Gauge, samples }
}

/// What is said of the server itself.
pub open spec fn server_families<P, A>(app: AppContext<P, A>, http_connections: int) -> Seq<Family> {
    seq![
        gauge(
            "mynosql_build_info"@,
            "Always 1. What it carries are its labels."@,
            seq![
                Sample {
                    labels: seq![
                        ("version"@, app.version@),
                        ("location"@, app.settings.location@),
                    ],
                    value: 1,
                },
            ],
        ),
        gauge(
            "mynosql_initialized"@,
            "1 once the tables are loaded from disk and the server answers."@,
            single(
                if app.initialized {
                    1
                } else {
                    0
                },
            ),
        ),
        gauge(
            "mynosql_http_connections"@,
            "Open connections on the HTTP port."@,
            single(http_connections),
        ),
        gauge(
            "mynosql_transactions_open"@,
            "Transactions which are still being built. None of them has reached a table."@,
            single(app.transactions.map().dom().len() as int),
        ),
    ]
}

/// What is said of the namespaces and their tables.
pub open spec fn namespace_families(reported: Seq<NamespaceNumbers>) -> Seq<Family> {
    seq![
        gauge(
            "mynosql_namespaces"@,
            "Namespaces this server holds."@,
            single(reported.len() as int),
        ),
        gauge(
            "mynosql_tables"@,
            "Tables of the namespace."@,
            per_namespace(reported, NamespaceColumn::Tables),
        ),
        gauge(
            "mynosql_table_schemas"@,
            "Entity schemas the table's rows were written under. One is the normal answer; anything else is a deploy going through or two entities aimed at one table."@,
            per_table(reported, TableColumn::Schemas),
        ),
        gauge(
            "mynosql_table_partitions"@,
            "Partitions of the table."@,
            per_table(reported, TableColumn::Partitions),
        ),
        gauge(
            "mynosql_table_rows"@,
            "Rows of the table."@,
            per_table(reported, TableColumn::Rows),
        ),
        gauge(
            "mynosql_table_content_size_bytes"@,
            "Stored size of the table's rows."@,
            per_table(reported, TableColumn::ContentSize),
        ),
        gauge(
            "mynosql_persist_queue_partitions"@,
            "Partitions waiting to be written to disk."@,
            per_namespace(reported, NamespaceColumn::QueuedPartitions),
        ),
        gauge(
            "mynosql_persist_queue_tables_metadata"@,
            "Table attributes waiting to be written to disk."@,
            per_namespace(reported, NamespaceColumn::QueuedTablesMetadata),
        ),
        Family {
            name: "mynosql_persist_tasks_written_total"@,
            help: "Persist tasks written since start up. A queue which is not draining has a total which is not moving."@,
            kind: MetricKind::Counter,
            samples: per_namespace(reported, NamespaceColumn::PersistedTotal),
        },
    ]
}

/// What is reported of readers of one kind.
#[verifier::ext_equal]
pub struct GroupNumbers {
    pub sessions: nat,
    pub subscriptions: nat,
    pub pending_chunks: nat,
    /// The worst of them. One reader stuck behind a big batch is invisible in a
    /// sum.
    pub pending_chunks_max: nat,
}

/// What is asked of readers of one kind.
#[derive(Clone, Copy)]
pub enum GroupColumn {
    Sessions,
    Subscriptions,
    PendingChunks,
    PendingChunksMax,
}

pub open spec fn group_value(reported: GroupNumbers, column: GroupColumn) -> int {
    match column {
        GroupColumn::Sessions => reported.sessions as int,
        GroupColumn::Subscriptions => reported.subscriptions as int,
        GroupColumn::PendingChunks => reported.pending_chunks as int,
        GroupColumn::PendingChunksMax => reported.pending_chunks_max as int,
    }
}

/// What a reader is, whichever session it happens to hold.
pub open spec fn kind_of(reader: ReaderView) -> TextTriple {
    (reader.namespace@, reader.app_name@, reader.version@)
}

/// What is reported of the readers of one kind among some.
pub open spec fn group_of(readers: Seq<ReaderView>, key: TextTriple) -> GroupNumbers
    decreases readers.len(),
{
    if readers.len() == 0 {
        GroupNumbers { sessions: 0, subscriptions: 0, pending_chunks: 0, pending_chunks_max: 0 }
    } else {
        let before = group_of(readers.drop_last(), key);
        let reader = readers.last();
        if kind_of(reader) == key {
            GroupNumbers {
                sessions: before.sessions + 1,
                subscriptions: before.subscriptions + reader.tables@.len(),
                pending_chunks: before.pending_chunks + reader.pending_chunks as nat,
                pending_chunks_max: if before.pending_chunks_max < reader.pending_chunks {
                    reader.pending_chunks as nat
                } else {
                    before.pending_chunks_max
                },
            }
        } else {
            before
        }
    }
}

/// Whether some reader is of the kind.
pub open spec fn has_kind(readers: Seq<ReaderView>, key: TextTriple) -> bool {
    exists|i: int| 0 <= i < readers.len() && kind_of(#[trigger] readers[i]) == key
}

/// Whether every kind of reader is there once, in order.
pub open spec fn are_the_kinds(keys: Seq<TextTriple>, readers: Seq<ReaderView>) -> bool {
    &&& forall|i: int, j: int|
        #![trigger keys[i], keys[j]]
        0 <= i < j < keys.len() ==> triple_before(keys[i], keys[j])
    &&& forall|key: TextTriple| #[trigger] keys.contains(key) <==> has_kind(readers, key)
}

/// A sample per kind of reader.
pub open spec fn per_group(
    keys: Seq<TextTriple>,
    readers: Seq<ReaderView>,
    column: GroupColumn,
) -> Seq<Sample> {
    Seq::new(
        keys.len(),
        |i: int|
            Sample {
                labels: seq![
                    ("ns"@, keys[i].0),
                    ("app"@, keys[i].1),
                    ("version"@, keys[i].2),
                ],
                value: group_value(group_of(readers, keys[i]), column),
            },
    )
}

/// What is said of the readers.
pub open spec fn reader_families(keys: Seq<TextTriple>, readers: Seq<ReaderView>) -> Seq<Family> {
    seq![
        gauge(
            "mynosql_reader_sessions"@,
            "Live reader sessions."@,
            per_group(keys, readers, GroupColumn::Sessions),
        ),
        gauge(
            "mynosql_reader_subscriptions"@,
            "Table subscriptions held by those sessions."@,
            per_group(keys, readers, GroupColumn::Subscriptions),
        ),
        gauge(
            "mynosql_reader_pending_chunks"@,
            "Chunks queued for those sessions and not yet collected."@,
            per_group(keys, readers, GroupColumn::PendingChunks),
        ),
        gauge(
            "mynosql_reader_pending_chunks_max"@,
            "The worst of them. One reader stuck behind a big batch is invisible in a sum."@,
            per_group(keys, readers, GroupColumn::PendingChunksMax),
        ),
    ]
}

/// Whether a piece of a scrape says what the namespaces are made of, with this
/// reported of them.
pub open spec fn says_namespaces(
    text: Seq<char>,
    namespaces: Seq<DbNamespace>,
    reported: Seq<NamespaceNumbers>,
) -> bool {
    &&& report_namespaces(reported, namespaces)
    &&& text == exposition(namespace_families(reported))
}

/// Whether a piece of a scrape says what the namespaces are made of, and nothing else.
pub open spec fn is_said_of_namespaces(text: Seq<char>, namespaces: Seq<DbNamespace>) -> bool {
    exists|reported: Seq<NamespaceNumbers>| #[trigger]
        says_namespaces(text, namespaces, reported)
}

/// Whether a scrape says what the server is made of, with this reported of its
/// namespaces and of its readers.
pub open spec fn says<P, A>(
    text: Seq<char>,
    app: AppContext<P, A>,
    http_connections: int,
    reported: Seq<NamespaceNumbers>,
    readers: Seq<ReaderView>,
    keys: Seq<TextTriple>,
) -> bool {
    &&& report_namespaces(reported, app.namespaces@)
    &&& show_all(readers, app.reader_sessions.map())
    &&& readers_in_order(readers)
    &&& are_the_kinds(keys, readers)
    &&& text == exposition(
        server_families(app, http_connections) + namespace_families(reported) + reader_families(
            keys,
            readers,
        ),
    )
}

/// Whether a scrape says what the server is made of, and nothing else.
pub open spec fn is_scrape_of<P, A>(
    text: Seq<char>,
    app: AppContext<P, A>,
    http_connections: int,
) -> bool {
    exists|
        reported: Seq<NamespaceNumbers>,
        readers: Seq<ReaderView>,
        keys: Seq<TextTriple>,
    | #[trigger] says(text, app, http_connections, reported, readers, keys)
}

/// One table, collected once and rendered several times: asking the table again
/// per family would be one round of locks per metric, each answering about a
/// different moment.
pub struct CollectedTable {
    pub name: String,
    pub metrics: DbTableMetrics,
    pub schemas: usize,
}

impl CollectedTable {
    pub open spec fn numbers(self) -> TableNumbers {
        TableNumbers {
            name: self.name@,
            schemas: self.schemas as nat,
            partitions: self.metrics.partitions_amount as nat,
            rows: self.metrics.rows_amount as nat,
            content_size: self.metrics.content_size as nat,
        }
    }
}

impl Named for CollectedTable {
    open spec fn called(&self) -> Seq<char> {
        self.name@
    }

    fn get_name(&self) -> (r: &str) {
        self.name.as_str()
    }
}

/// One namespace, collected once and rendered several times.
pub struct Collected {
    pub name_space: String,
    pub tables: Vec<CollectedTable>,
    pub persist_queue_partitions: u128,
    pub persist_queue_tables_metadata: usize,
    pub persisted_total: u64,
}

/// What is reported of collected tables.
pub open spec fn tables_numbers(tables: Seq<CollectedTable>) -> Seq<TableNumbers> {
    Seq::new(tables.len(), |i: int| tables[i].numbers())
}

impl Collected {
    pub open spec fn numbers(self) -> NamespaceNumbers {
        NamespaceNumbers {
            name: self.name_space@,
            tables: tables_numbers(self.tables@),
            queued_partitions: self.persist_queue_partitions as nat,
            queued_tables_metadata: self.persist_queue_tables_metadata as nat,
            persisted_total: self.persisted_total as nat,
        }
    }
}

impl Named for Collected {
    open spec fn called(&self) -> Seq<char> {
        self.name_space@
    }

    fn get_name(&self) -> (r: &str) {
        self.name_space.as_str()
    }
}

/// What is reported of collected namespaces.
pub open spec fn namespaces_numbers(collected: Seq<Collected>) -> Seq<NamespaceNumbers> {
    Seq::new(collected.len(), |i: int| collected[i].numbers())
}

fn collect_tables(tables: &Vec<DbTable>) -> (r: Vec<CollectedTable>)
    requires
        names_differ(tables@),
    ensures
        report_tables(tables_numbers(r@), tables@),
{
    let mut collected: Vec<CollectedTable> = Vec::new();
    for i in 0..tables.len()
        invariant
            collected@.len() == i,
            forall|k: int|
                0 <= k < i ==> (#[trigger] collected@[k]).numbers() == table_numbers(tables@[k]),
    {
        let table = &tables[i];
        collected.push(
            CollectedTable {
                name: table.name.clone(),
                metrics: table.metrics,
                schemas: table.attributes.schemas.len(),
            },
        );
    }
    let ghost unsorted = collected@;
    proof {
        assert forall|i: int, j: int|
            #![trigger unsorted[i], unsorted[j]]
            0 <= i < j < unsorted.len() implies unsorted[i].called() != unsorted[j].called() by {
            assert(unsorted[i].numbers() == table_numbers(tables@[i]));
            assert(unsorted[j].numbers() == table_numbers(tables@[j]));
            assert(tables@[i].called() != tables@[j].called());
        }
    }
    let r = sort_by_name(collected);
    proof {
        let reported = tables_numbers(r@);
        assert forall|i: int, j: int|
            #![trigger reported[i], reported[j]]
            0 <= i < j < reported.len() implies text_before(reported[i].name, reported[j].name) by {
            assert(text_before(r@[i].called(), r@[j].called()));
        }
        assert forall|j: int| 0 <= j < tables@.len() implies reported.contains(
            table_numbers(#[trigger] tables@[j]),
        ) by {
            assert(unsorted[j].numbers() == table_numbers(tables@[j]));
            assert(unsorted.contains(unsorted[j]));
            assert(r@.contains(unsorted[j]));
            let i = choose|i: int| 0 <= i < r@.len() && r@[i] == unsorted[j];
            assert(reported[i] == table_numbers(tables@[j]));
        }
    }
    r
}

fn collect_namespaces(namespaces: &Vec<DbNamespace>) -> (r: Vec<Collected>)
    requires
        names_differ(namespaces@),
        forall|i: int| 0 <= i < namespaces@.len() ==> (#[trigger] namespaces@[i]).wf(),
    ensures
        report_namespaces(namespaces_numbers(r@), namespaces@),
{
    let mut collected: Vec<Collected> = Vec::new();
    for i in 0..namespaces.len()
        invariant
            forall|k: int| 0 <= k < namespaces@.len() ==> (#[trigger] namespaces@[k]).wf(),
            collected@.len() == i,
            forall|k: int|
                0 <= k < i ==> reports((#[trigger] collected@[k]).numbers(), namespaces@[k]),
    {
        let namespace = &namespaces[i];
        assert(namespaces@[i as int].wf());
        let queue = namespace.persist_markers.get_queue_metrics();
        collected.push(
            Collected {
                name_space: namespace.name.clone(),
                tables: collect_tables(&namespace.tables),
                persist_queue_partitions: queue.partitions,
                persist_queue_tables_metadata: queue.tables_metadata,
                persisted_total: namespace.persisted_total,
            },
        );
    }
    let ghost unsorted = collected@;
    proof {
        assert forall|i: int, j: int|
            #![trigger unsorted[i], unsorted[j]]
            0 <= i < j < unsorted.len() implies unsorted[i].called() != unsorted[j].called() by {
            assert(reports(unsorted[i].numbers(), namespaces@[i]));
            assert(reports(unsorted[j].numbers(), namespaces@[j]));
            assert(namespaces@[i].called() != namespaces@[j].called());
        }
    }
    // The registry is a hash map: sorting is what makes two scrapes comparable
    // by eye.
    let r = sort_by_name(collected);
    proof {
        let reported = namespaces_numbers(r@);
        assert forall|i: int, j: int|
            #![trigger reported[i], reported[j]]
            0 <= i < j < reported.len() implies text_before(reported[i].name, reported[j].name) by {
            assert(text_before(r@[i].called(), r@[j].called()));
        }
        assert forall|j: int| 0 <= j < namespaces@.len() implies is_reported(
            reported,
            #[trigger] namespaces@[j],
        ) by {
            assert(reports(unsorted[j].numbers(), namespaces@[j]));
            assert(unsorted.contains(unsorted[j]));
            assert(r@.contains(unsorted[j]));
            let i = choose|i: int| 0 <= i < r@.len() && r@[i] == unsorted[j];
            assert(reported[i] == unsorted[j].numbers());
        }
    }
    r
}

/// Writes a number without labels.
fn sample_single<V: MetricValue>(family: &mut FamilyWriter<'_>, value: V)
    ensures
        final(family).name == old(family).name,
        final(family).out@ == old(family).out@ + samples_text(
            old(family).name@,
            single(value.amount()),
        ),
{
    let labels: Vec<(&str, &str)> = Vec::new();
    let ghost sample = sample_of(labels@, value.amount());
    family.sample(labels.as_slice(), value);
    proof {
        assert(sample =~= single(value.amount())[0]);
        lemma_one_sample(family.name@, sample);
    }
}

proof fn lemma_one_sample(name: Seq<char>, sample: Sample)
    ensures
        samples_text(name, seq![sample]) == sample_text(name, sample),
{
    let samples = seq![sample];
    assert(samples.drop_last() =~= Seq::<Sample>::empty());
    reveal_with_fuel(samples_text, 2);
    assert(Seq::<char>::empty() + sample_text(name, sample) =~= sample_text(name, sample));
}

/// A metric which is one number.
fn write_single<V: MetricValue>(writer: &mut MetricsWriter, name: &str, help: &str, value: V)
    ensures
        final(writer).out@ == old(writer).out@ + family_text(
            gauge(name@, help@, single(value.amount())),
        ),
{
    let ghost before = writer.out@;
    let ghost samples = single(value.amount());
    writer.family(
        name,
        help,
        MetricKind::Gauge,
        |family: &mut FamilyWriter|
            ensures
                final(family).out@ == old(family).out@ + samples_text(old(family).name@, samples)
            {
                sample_single(family, value);
            },
    );
    assert(writer.out@ =~= before + family_text(gauge(name@, help@, samples)));
}

/// The number of a namespace which is asked for.
fn namespace_amount(collected: &Collected, column: NamespaceColumn) -> (r: u128)
    ensures
        r == namespace_value(collected.numbers(), column),
{
    match column {
        NamespaceColumn::Tables => collected.tables.len() as u128,
        NamespaceColumn::QueuedPartitions => collected.persist_queue_partitions,
        NamespaceColumn::QueuedTablesMetadata => collected.persist_queue_tables_metadata as u128,
        NamespaceColumn::PersistedTotal => collected.persisted_total as u128,
    }
}

/// The number of a table which is asked for.
fn table_amount(collected: &CollectedTable, column: TableColumn) -> (r: usize)
    ensures
        r == table_value(collected.numbers(), column),
{
    match column {
        TableColumn::Schemas => collected.schemas,
        TableColumn::Partitions => collected.metrics.partitions_amount,
        TableColumn::Rows => collected.metrics.rows_amount,
        TableColumn::ContentSize => collected.metrics.content_size,
    }
}

/// Samples with one more of them.
proof fn lemma_one_more_sample(name: Seq<char>, samples: Seq<Sample>, n: int)
    requires
        0 <= n < samples.len(),
    ensures
        samples_text(name, samples.take(n + 1)) == samples_text(name, samples.take(n))
            + sample_text(name, samples[n]),
{
    assert(samples.take(n + 1).drop_last() =~= samples.take(n));
    assert(samples.take(n + 1).last() == samples[n]);
}

/// Samples after samples.
proof fn lemma_samples_concat(name: Seq<char>, a: Seq<Sample>, b: Seq<Sample>)
    ensures
        samples_text(name, a + b) == samples_text(name, a) + samples_text(name, b),
    decreases b.len(),
{
    if b.len() == 0 {
        assert(a + b =~= a);
        assert(samples_text(name, a) + samples_text(name, b) =~= samples_text(name, a));
    } else {
        assert((a + b).drop_last() =~= a + b.drop_last());
        lemma_samples_concat(name, a, b.drop_last());
        assert(samples_text(name, a) + samples_text(name, b.drop_last()) + sample_text(
            name,
            b.last(),
        ) =~= samples_text(name, a) + samples_text(name, b));
    }
}

/// Writes a number per namespace.
fn sample_namespaces(
    family: &mut FamilyWriter<'_>,
    collected: &Vec<Collected>,
    column: NamespaceColumn,
)
    ensures
        final(family).name == old(family).name,
        final(family).out@ == old(family).out@ + samples_text(
            old(family).name@,
            per_namespace(namespaces_numbers(collected@), column),
        ),
{
    let ghost samples = per_namespace(namespaces_numbers(collected@), column);
    let ghost before = family.out@;
    assert(samples.take(0) =~= Seq::<Sample>::empty());
    assert(family.out@ =~= before + samples_text(family.name@, samples.take(0)));
    for i in 0..collected.len()
        invariant
            family.name == old(family).name,
            samples == per_namespace(namespaces_numbers(collected@), column),
            family.out@ == before + samples_text(family.name@, samples.take(i as int)),
    {
        let ghost so_far = family.out@;
        let itm = &collected[i];
        let mut labels: Vec<(&str, &str)> = Vec::new();
        labels.push(("ns", itm.name_space.as_str()));
        let amount: u128 = namespace_amount(itm, column);
        family.sample(labels.as_slice(), amount);
        proof {
            lemma_one_more_sample(family.name@, samples, i as int);
            assert(sample_of(labels@, amount as int) =~= samples[i as int]);
            assert(family.out@ =~= before + samples_text(family.name@, samples.take(i + 1)));
        }
    }
    assert(samples.take(collected@.len() as int) =~= samples);
}

/// Writes a number per table of a namespace.
fn sample_tables_of(family: &mut FamilyWriter<'_>, collected: &Collected, column: TableColumn)
    ensures
        final(family).name == old(family).name,
        final(family).out@ == old(family).out@ + samples_text(
            old(family).name@,
            tables_of(collected.numbers().name, collected.numbers().tables, column),
        ),
{
    let ghost samples = tables_of(collected.numbers().name, collected.numbers().tables, column);
    let ghost before = family.out@;
    assert(samples.take(0) =~= Seq::<Sample>::empty());
    assert(family.out@ =~= before + samples_text(family.name@, samples.take(0)));
    for i in 0..collected.tables.len()
        invariant
            family.name == old(family).name,
            samples == tables_of(collected.numbers().name, collected.numbers().tables, column),
            family.out@ == before + samples_text(family.name@, samples.take(i as int)),
    {
        let table = &collected.tables[i];
        let mut labels: Vec<(&str, &str)> = Vec::new();
        labels.push(("ns", collected.name_space.as_str()));
        labels.push(("table", table.name.as_str()));
        let amount: usize = table_amount(table, column);
        family.sample(labels.as_slice(), amount);
        proof {
            lemma_one_more_sample(family.name@, samples, i as int);
            assert(sample_of(labels@, amount as int) =~= samples[i as int]);
            assert(family.out@ =~= before + samples_text(family.name@, samples.take(i + 1)));
        }
    }
    assert(samples.take(collected.tables@.len() as int) =~= samples);
}

/// Writes a number per table.
fn sample_tables(family: &mut FamilyWriter<'_>, collected: &Vec<Collected>, column: TableColumn)
    ensures
        final(family).name == old(family).name,
        final(family).out@ == old(family).out@ + samples_text(
            old(family).name@,
            per_table(namespaces_numbers(collected@), column),
        ),
{
    let ghost reported = namespaces_numbers(collected@);
    let ghost before = family.out@;
    assert(reported.take(0) =~= Seq::<NamespaceNumbers>::empty());
    assert(family.out@ =~= before + samples_text(family.name@, per_table(reported.take(0), column)));
    for i in 0..collected.len()
        invariant
            family.name == old(family).name,
            reported == namespaces_numbers(collected@),
            family.out@ == before + samples_text(
                family.name@,
                per_table(reported.take(i as int), column),
            ),
    {
        sample_tables_of(family, &collected[i], column);
        proof {
            let so_far = reported.take(i + 1);
            assert(so_far.drop_last() =~= reported.take(i as int));
            assert(so_far.last() == collected@[i as int].numbers());
            lemma_samples_concat(
                family.name@,
                per_table(reported.take(i as int), column),
                tables_of(so_far.last().name, so_far.last().tables, column),
            );
            assert(family.out@ =~= before + samples_text(family.name@, per_table(so_far, column)));
        }
    }
    assert(reported.take(collected@.len() as int) =~= reported);
}

/// A metric with a number per namespace.
fn write_per_namespace(
    writer: &mut MetricsWriter,
    name: &str,
    help: &str,
    kind: MetricKind,
    collected: &Vec<Collected>,
    column: NamespaceColumn,
)
    ensures
        final(writer).out@ == old(writer).out@ + family_text(
            (Family {
                name: name@,
                help: help@,
                kind,
                samples: per_namespace(namespaces_numbers(collected@), column),
            }),
        ),
{
    let ghost before = writer.out@;
    let ghost samples = per_namespace(namespaces_numbers(collected@), column);
    writer.family(
        name,
        help,
        kind,
        |family: &mut FamilyWriter|
            ensures
                final(family).out@ == old(family).out@ + samples_text(old(family).name@, samples)
            {
                sample_namespaces(family, collected, column);
            },
    );
    assert(writer.out@ =~= before + family_text(
        Family { name: name@, help: help@, kind, samples },
    ));
}

/// A metric with a number per table.
fn write_per_table(
    writer: &mut MetricsWriter,
    name: &str,
    help: &str,
    collected: &Vec<Collected>,
    column: TableColumn,
)
    ensures
        final(writer).out@ == old(writer).out@ + family_text(
            gauge(name@, help@, per_table(namespaces_numbers(collected@), column)),
        ),
{
    let ghost before = writer.out@;
    let ghost samples = per_table(namespaces_numbers(collected@), column);
    writer.family(
        name,
        help,
        MetricKind::Gauge,
        |family: &mut FamilyWriter|
            ensures
                final(family).out@ == old(family).out@ + samples_text(old(family).name@, samples)
            {
                sample_tables(family, collected, column);
            },
    );
    assert(writer.out@ =~= before + family_text(gauge(name@, help@, samples)));
}

/// One more metric at the end of what is written.
proof fn lemma_one_more_family(before: Seq<char>, out: Seq<char>, families: Seq<Family>, n: int)
    requires
        0 <= n < families.len(),
        out == before + exposition(families.take(n)),
    ensures
        out + family_text(families[n]) == before + exposition(families.take(n + 1)),
{
    assert(families.take(n + 1).drop_last() =~= families.take(n));
    assert(families.take(n + 1).last() == families[n]);
    assert(out + family_text(families[n]) =~= before + (exposition(families.take(n)) + family_text(
        families[n],
    )));
}

fn write_server<P, A>(app: &AppContext<P, A>, http_connections: i64, writer: &mut MetricsWriter)
    requires
        app.wf(),
    ensures
        final(writer).out@ == old(writer).out@ + exposition(
            server_families(*app, http_connections as int),
        ),
{
    let ghost before = writer.out@;
    let ghost families = server_families(*app, http_connections as int);
    proof {
        assert(families.take(0) =~= Seq::<Family>::empty());
        assert(families.take(4) =~= families);
        assert(before =~= before + exposition(families.take(0)));
    }
    let ghost so_far = writer.out@;
    let version = app.version.as_str();
    let location = app.settings.location.as_str();
    let ghost samples = families[0].samples;
    writer.family(
        "mynosql_build_info",
        "Always 1. What it carries are its labels.",
        MetricKind::Gauge,
        |family: &mut FamilyWriter|
            ensures
                final(family).out@ == old(family).out@ + samples_text(old(family).name@, samples)
            {
                sample_build_info(family, version, location);
            },
    );
    assert(writer.out@ =~= so_far + family_text(families[0]));
    proof {
        lemma_one_more_family(before, so_far, families, 0);
    }
    let ghost so_far = writer.out@;
    write_single(
        writer,
        "mynosql_initialized",
        "1 once the tables are loaded from disk and the server answers.",
        if app.initialized {
            1i32
        } else {
            0i32
        },
    );
    proof {
        lemma_one_more_family(before, so_far, families, 1);
    }
    let ghost so_far = writer.out@;
    write_single(
        writer,
        "mynosql_http_connections",
        "Open connections on the HTTP port.",
        http_connections,
    );
    proof {
        lemma_one_more_family(before, so_far, families, 2);
    }
    let ghost so_far = writer.out@;
    write_single(
        writer,
        "mynosql_transactions_open",
        "Transactions which are still being built. None of them has reached a table.",
        app.transactions.len(),
    );
    proof {
        lemma_one_more_family(before, so_far, families, 3);
    }
}

/// Writes what build this is.
fn sample_build_info(family: &mut FamilyWriter<'_>, version: &str, location: &str)
    ensures
        final(family).name == old(family).name,
        final(family).out@ == old(family).out@ + samples_text(
            old(family).name@,
            seq![
                (Sample {
                    labels: seq![("version"@, version@), ("location"@, location@)],
                    value: 1,
                }),
            ],
        ),
{
    let mut labels: Vec<(&str, &str)> = Vec::new();
    labels.push(("version", version));
    labels.push(("location", location));
    family.sample(labels.as_slice(), 1i32);
    proof {
        let sample = Sample {
            labels: seq![("version"@, version@), ("location"@, location@)],
            value: 1,
        };
        assert(sample_of(labels@, 1) =~= sample);
        lemma_one_sample(family.name@, sample);
    }
}

fn write_collected(collected: &Vec<Collected>, writer: &mut MetricsWriter)
    ensures
        final(writer).out@ == old(writer).out@ + exposition(
            namespace_families(namespaces_numbers(collected@)),
        ),
{
    let ghost before = writer.out@;
    let ghost families = namespace_families(namespaces_numbers(collected@));
    proof {
        assert(families.take(0) =~= Seq::<Family>::empty());
        assert(families.take(9) =~= families);
        assert(before =~= before + exposition(families.take(0)));
    }
    let ghost so_far = writer.out@;
    write_single(
        writer,
        "mynosql_namespaces",
        "Namespaces this server holds.",
        collected.len(),
    );
    proof {
        lemma_one_more_family(before, so_far, families, 0);
    }
    let ghost so_far = writer.out@;
    write_per_namespace(
        writer,
        "mynosql_tables",
        "Tables of the namespace.",
        MetricKind::Gauge,
        collected,
        NamespaceColumn::Tables,
    );
    proof {
        lemma_one_more_family(before, so_far, families, 1);
    }
    let ghost so_far = writer.out@;
    write_per_table(
        writer,
        "mynosql_table_schemas",
        "Entity schemas the table's rows were written under. One is the normal answer; anything else is a deploy going through or two entities aimed at one table.",
        collected,
        TableColumn::Schemas,
    );
    proof {
        lemma_one_more_family(before, so_far, families, 2);
    }
    let ghost so_far = writer.out@;
    write_per_table(
        writer,
        "mynosql_table_partitions",
        "Partitions of the table.",
        collected,
        TableColumn::Partitions,
    );
    proof {
        lemma_one_more_family(before, so_far, families, 3);
    }
    let ghost so_far = writer.out@;
    write_per_table(
        writer,
        "mynosql_table_rows",
        "Rows of the table.",
        collected,
        TableColumn::Rows,
    );
    proof {
        lemma_one_more_family(before, so_far, families, 4);
    }
    let ghost so_far = writer.out@;
    write_per_table(
        writer,
        "mynosql_table_content_size_bytes",
        "Stored size of the table's rows.",
        collected,
        TableColumn::ContentSize,
    );
    proof {
        lemma_one_more_family(before, so_far, families, 5);
    }
    let ghost so_far = writer.out@;
    write_per_namespace(
        writer,
        "mynosql_persist_queue_partitions",
        "Partitions waiting to be written to disk.",
        MetricKind::Gauge,
        collected,
        NamespaceColumn::QueuedPartitions,
    );
    proof {
        lemma_one_more_family(before, so_far, families, 6);
    }
    let ghost so_far = writer.out@;
    write_per_namespace(
        writer,
        "mynosql_persist_queue_tables_metadata",
        "Table attributes waiting to be written to disk.",
        MetricKind::Gauge,
        collected,
        NamespaceColumn::QueuedTablesMetadata,
    );
    proof {
        lemma_one_more_family(before, so_far, families, 7);
    }
    let ghost so_far = writer.out@;
    write_per_namespace(
        writer,
        "mynosql_persist_tasks_written_total",
        "Persist tasks written since start up. A queue which is not draining has a total which is not moving.",
        MetricKind::Counter,
        collected,
        NamespaceColumn::PersistedTotal,
    );
    proof {
        lemma_one_more_family(before, so_far, families, 8);
    }
}

/// Readers of one kind, counted.
#[derive(Clone, Copy)]
pub struct Group {
    pub sessions: u64,
    pub subscriptions: u128,
    pub pending_chunks: u128,
    pub pending_chunks_max: usize,
}

impl Group {
    pub open spec fn numbers(self) -> GroupNumbers {
        GroupNumbers {
            sessions: self.sessions as nat,
            subscriptions: self.subscriptions as nat,
            pending_chunks: self.pending_chunks as nat,
            pending_chunks_max: self.pending_chunks_max as nat,
        }
    }

    /// Whether so few readers can have been counted into it.
    spec fn counts_at_most(self, readers: int) -> bool {
        &&& self.sessions <= readers
        &&& self.subscriptions <= readers * 0xffff_ffff_ffff_ffff
        &&& self.pending_chunks <= readers * 0xffff_ffff_ffff_ffff
    }
}

/// A kind of readers, and how many of them there are of everything.
pub struct GroupRow {
    pub key: (String, String, String),
    pub group: Group,
}

impl GroupRow {
    pub open spec fn kind(&self) -> TextTriple {
        (self.key.0@, self.key.1@, self.key.2@)
    }
}

impl Ordered for GroupRow {
    open spec fn may_precede(&self, other: &Self) -> bool {
        !triple_before(other.kind(), self.kind())
    }

    proof fn precede_either_way(a: &Self, b: &Self) {
        lemma_triple_before_once(a.kind(), b.kind());
    }

    proof fn precede_on_and_on(a: &Self, b: &Self, c: &Self) {
        lemma_triple_not_before_chain(a.kind(), b.kind(), c.kind());
    }

    fn precedes(&self, other: &Self) -> (r: bool) {
        !triple_comes_before(
            (other.key.0.as_str(), other.key.1.as_str(), other.key.2.as_str()),
            (self.key.0.as_str(), self.key.1.as_str(), self.key.2.as_str()),
        )
    }
}

/// The kinds of some rows.
pub open spec fn kinds_of(rows: Seq<GroupRow>) -> Seq<TextTriple> {
    Seq::new(rows.len(), |i: int| rows[i].kind())
}

/// The number of a kind of readers which is asked for.
fn group_amount(group: &Group, column: GroupColumn) -> (r: u128)
    ensures
        r == group_value(group.numbers(), column),
{
    match column {
        GroupColumn::Sessions => group.sessions as u128,
        GroupColumn::Subscriptions => group.subscriptions,
        GroupColumn::PendingChunks => group.pending_chunks,
        GroupColumn::PendingChunksMax => group.pending_chunks_max as u128,
    }
}

type Groups = HashedList<AHashMap<(String, String, String), usize>, Group>;

/// Whether the groups are those of some readers.
spec fn are_groups_of(groups: Map<TextTriple, Group>, readers: Seq<ReaderView>) -> bool {
    &&& forall|key: TextTriple| #[trigger] groups.contains_key(key) <==> has_kind(readers, key)
    &&& forall|key: TextTriple| #[trigger]
        groups.contains_key(key) ==> groups[key].numbers() == group_of(readers, key)
            && groups[key].counts_at_most(readers.len() as int)
}

proof fn lemma_no_kind(readers: Seq<ReaderView>, key: TextTriple)
    requires
        !has_kind(readers, key),
    ensures
        group_of(readers, key) == (GroupNumbers {
            sessions: 0,
            subscriptions: 0,
            pending_chunks: 0,
            pending_chunks_max: 0,
        }),
    decreases readers.len(),
{
    if readers.len() > 0 {
        let front = readers.drop_last();
        if has_kind(front, key) {
            let i = choose|i: int| 0 <= i < front.len() && kind_of(#[trigger] front[i]) == key;
            assert(kind_of(readers[i]) == key);
        }
        assert(kind_of(readers[readers.len() - 1]) != key);
        lemma_no_kind(front, key);
    }
}

proof fn lemma_kind_of_one_more(readers: Seq<ReaderView>, n: int, key: TextTriple)
    requires
        0 <= n < readers.len(),
    ensures
        has_kind(readers.take(n + 1), key) <==> has_kind(readers.take(n), key) || kind_of(
            readers[n],
        ) == key,
        group_of(readers.take(n + 1), key) == (if kind_of(readers[n]) == key {
            let before = group_of(readers.take(n), key);
            let reader = readers[n];
            GroupNumbers {
                sessions: before.sessions + 1,
                subscriptions: before.subscriptions + reader.tables@.len(),
                pending_chunks: before.pending_chunks + reader.pending_chunks as nat,
                pending_chunks_max: if before.pending_chunks_max < reader.pending_chunks {
                    reader.pending_chunks as nat
                } else {
                    before.pending_chunks_max
                },
            }
        } else {
            group_of(readers.take(n), key)
        }),
{
    let less = readers.take(n);
    let more = readers.take(n + 1);
    assert(more.drop_last() =~= less);
    assert(more.last() == readers[n]);
    if has_kind(less, key) {
        let i = choose|i: int| 0 <= i < less.len() && kind_of(#[trigger] less[i]) == key;
        assert(kind_of(more[i]) == key);
    }
    if kind_of(readers[n]) == key {
        assert(kind_of(more[n]) == key);
    }
    if has_kind(more, key) && kind_of(readers[n]) != key {
        let i = choose|i: int| 0 <= i < more.len() && kind_of(#[trigger] more[i]) == key;
        assert(kind_of(less[i]) == key);
    }
}

/// Counts a reader into its group.
fn count_reader(
    groups: &mut Groups,
    reader: &ReaderView,
    Ghost(readers): Ghost<Seq<ReaderView>>,
    Ghost(n): Ghost<int>,
)
    requires
        old(groups).wf(),
        0 <= n < readers.len() <= u64::MAX,
        *reader == readers[n],
        are_groups_of(old(groups).map(), readers.take(n)),
    ensures
        final(groups).wf(),
        are_groups_of(final(groups).map(), readers.take(n + 1)),
{
    let ghost before = groups.map();
    let ghost kind = kind_of(*reader);
    let key = (reader.namespace.clone(), reader.app_name.clone(), reader.version.clone());
    let subscriptions: usize = reader.tables.len();
    let pending: usize = reader.pending_chunks;
    let counted = match groups.get(&key) {
        Some(group) => *group,
        None => {
            proof {
                lemma_no_kind(readers.take(n), kind);
            }
            Group { sessions: 0, subscriptions: 0, pending_chunks: 0, pending_chunks_max: 0 }
        },
    };
    assert(counted.numbers() == group_of(readers.take(n), kind));
    assert(counted.counts_at_most(n));
    let group = Group {
        sessions: counted.sessions + 1,
        subscriptions: counted.subscriptions + subscriptions as u128,
        pending_chunks: counted.pending_chunks + pending as u128,
        pending_chunks_max: if counted.pending_chunks_max < pending {
            pending
        } else {
            counted.pending_chunks_max
        },
    };
    groups.insert(key, group);
    proof {
        assert(groups.map() == before.insert(kind, group));
        assert forall|k: TextTriple| #[trigger] groups.map().contains_key(k) <==> has_kind(
            readers.take(n + 1),
            k,
        ) by {
            lemma_kind_of_one_more(readers, n, k);
            assert(before.contains_key(k) <==> has_kind(readers.take(n), k));
        }
        assert forall|k: TextTriple| #[trigger] groups.map().contains_key(k) implies groups.map()[k].numbers()
            == group_of(readers.take(n + 1), k) && groups.map()[k].counts_at_most(n + 1) by {
            lemma_kind_of_one_more(readers, n, k);
            if k != kind {
                assert(before.contains_key(k));
            }
        }
    }
}

/// Groups readers by what they *are*, not by which session they happen to hold:
/// a session id is minted per greeting, so labelling by it would leave a dead
/// time series behind every reconnect, forever. What an operator asks is "is
/// this application keeping up", and the group answers it.
fn group_readers(readers: &Vec<ReaderView>) -> (r: Vec<GroupRow>)
    ensures
        are_the_kinds(kinds_of(r@), readers@),
        forall|i: int|
            0 <= i < r@.len() ==> (#[trigger] r@[i]).group.numbers() == group_of(
                readers@,
                r@[i].kind(),
            ),
{
    let mut groups: Groups = HashedList::new();
    let count: usize = readers.len();
    assert(readers@.take(0) =~= Seq::<ReaderView>::empty());
    for i in 0..count
        invariant
            count == readers@.len(),
            groups.wf(),
            are_groups_of(groups.map(), readers@.take(i as int)),
    {
        count_reader(&mut groups, &readers[i], Ghost(readers@), Ghost(i as int));
    }
    assert(readers@.take(count as int) =~= readers@);
    let ghost list = groups;
    proof {
        list.keys_differ();
        assert forall|i: int| 0 <= i < list.entries().len() implies are_entry_numbers(
            list,
            #[trigger] list.entries()[i],
            readers@,
        ) by {
            list.entry_is_in_map(i);
        }
    }
    let mut rows: Vec<GroupRow> = Vec::new();
    let entries = groups.into_entries();
    let ghost given = entries@;
    let total: usize = entries.len();
    let mut i: usize = 0;
    for entry in it: entries
        invariant
            it.seq() == given,
            it.index() == i,
            i <= total,
            total == given.len(),
            rows@.len() == i,
            forall|k: int|
                0 <= k < i ==> (#[trigger] rows@[k]).key == given[k].0 && rows@[k].group
                    == given[k].1,
    {
        rows.push(GroupRow { key: entry.0, group: entry.1 });
        i = i + 1;
    }
    let ghost unsorted = rows@;
    let r = sort(rows);
    proof {
        assert forall|a: int, b: int|
            #![trigger unsorted[a], unsorted[b]]
            0 <= a < b < unsorted.len() implies unsorted[a].kind() != unsorted[b].kind() by {
            assert(list.name_at(a) != list.name_at(b));
        }
        assert(unsorted.no_duplicates());
        lemma_same_items(unsorted, r@);
        assert forall|i: int| 0 <= i < r@.len() implies unsorted.contains(#[trigger] r@[i]) by {
            assert(r@.contains(r@[i]));
            assert(unsorted.contains(r@[i]) <==> r@.contains(r@[i]));
        }
        assert forall|i: int| 0 <= i < r@.len() implies (#[trigger] r@[i]).group.numbers()
            == group_of(readers@, r@[i].kind()) && list.map().contains_key(r@[i].kind()) by {
            let k = choose|k: int| 0 <= k < unsorted.len() && unsorted[k] == r@[i];
            assert(are_entry_numbers(list, list.entries()[k], readers@));
        }
        let kinds = kinds_of(r@);
        assert forall|i: int, j: int|
            #![trigger kinds[i], kinds[j]]
            0 <= i < j < kinds.len() implies triple_before(kinds[i], kinds[j]) by {
            assert(r@[i].may_precede(&r@[j]));
            assert(unsorted.contains(r@[i]) && unsorted.contains(r@[j]));
            assert(r@[i] != r@[j]);
            lemma_triple_before_once(r@[i].kind(), r@[j].kind());
        }
        assert forall|key: TextTriple| #[trigger] kinds.contains(key) <==> has_kind(
            readers@,
            key,
        ) by {
            assert(list.map().contains_key(key) <==> has_kind(readers@, key));
            if kinds.contains(key) {
                let i = choose|i: int| 0 <= i < kinds.len() && kinds[i] == key;
                assert(r@[i].kind() == key);
            }
            if has_kind(readers@, key) {
                let k = list.place_of(key);
                assert(list.has(key));
                assert(list.name_at(k) == key);
                assert(unsorted[k].kind() == key);
                assert(unsorted.contains(unsorted[k]));
                assert(r@.contains(unsorted[k]));
                let i = choose|i: int| 0 <= i < r@.len() && r@[i] == unsorted[k];
                assert(kinds[i] == key);
            }
        }
    }
    r
}

/// Whether an entry of the groups says what is to be said of its kind.
spec fn are_entry_numbers(
    list: Groups,
    entry: ((String, String, String), Group),
    readers: Seq<ReaderView>,
) -> bool {
    let key = (entry.0.0@, entry.0.1@, entry.0.2@);
    &&& list.map().contains_key(key)
    &&& entry.1.numbers() == group_of(readers, key)
}

/// Writes a number per kind of reader.
fn sample_groups(
    family: &mut FamilyWriter<'_>,
    rows: &Vec<GroupRow>,
    column: GroupColumn,
    Ghost(readers): Ghost<Seq<ReaderView>>,
)
    requires
        forall|i: int|
            0 <= i < rows@.len() ==> (#[trigger] rows@[i]).group.numbers() == group_of(
                readers,
                rows@[i].kind(),
            ),
    ensures
        final(family).name == old(family).name,
        final(family).out@ == old(family).out@ + samples_text(
            old(family).name@,
            per_group(kinds_of(rows@), readers, column),
        ),
{
    let ghost samples = per_group(kinds_of(rows@), readers, column);
    let ghost before = family.out@;
    assert(samples.take(0) =~= Seq::<Sample>::empty());
    assert(family.out@ =~= before + samples_text(family.name@, samples.take(0)));
    for i in 0..rows.len()
        invariant
            family.name == old(family).name,
            samples == per_group(kinds_of(rows@), readers, column),
            forall|i: int|
                0 <= i < rows@.len() ==> (#[trigger] rows@[i]).group.numbers() == group_of(
                    readers,
                    rows@[i].kind(),
                ),
            family.out@ == before + samples_text(family.name@, samples.take(i as int)),
    {
        let row = &rows[i];
        let mut labels: Vec<(&str, &str)> = Vec::new();
        labels.push(("ns", row.key.0.as_str()));
        labels.push(("app", row.key.1.as_str()));
        labels.push(("version", row.key.2.as_str()));
        let amount: u128 = group_amount(&row.group, column);
        family.sample(labels.as_slice(), amount);
        proof {
            lemma_one_more_sample(family.name@, samples, i as int);
            assert(rows@[i as int].group.numbers() == group_of(readers, rows@[i as int].kind()));
            assert(sample_of(labels@, amount as int) =~= samples[i as int]);
            assert(family.out@ =~= before + samples_text(family.name@, samples.take(i + 1)));
        }
    }
    assert(samples.take(rows@.len() as int) =~= samples);
}

/// A metric with a number per kind of reader.
fn write_per_group(
    writer: &mut MetricsWriter,
    name: &str,
    help: &str,
    rows: &Vec<GroupRow>,
    column: GroupColumn,
    Ghost(readers): Ghost<Seq<ReaderView>>,
)
    requires
        forall|i: int|
            0 <= i < rows@.len() ==> (#[trigger] rows@[i]).group.numbers() == group_of(
                readers,
                rows@[i].kind(),
            ),
    ensures
        final(writer).out@ == old(writer).out@ + family_text(
            gauge(name@, help@, per_group(kinds_of(rows@), readers, column)),
        ),
{
    let ghost before = writer.out@;
    let ghost samples = per_group(kinds_of(rows@), readers, column);
    writer.family(
        name,
        help,
        MetricKind::Gauge,
        |family: &mut FamilyWriter|
            ensures
                final(family).out@ == old(family).out@ + samples_text(old(family).name@, samples)
            {
                sample_groups(family, rows, column, Ghost(readers));
            },
    );
    assert(writer.out@ =~= before + family_text(gauge(name@, help@, samples)));
}

fn write_readers(readers: &Vec<ReaderView>, writer: &mut MetricsWriter) -> (keys: Ghost<
    Seq<TextTriple>,
>)
    ensures
        are_the_kinds(keys@, readers@),
        final(writer).out@ == old(writer).out@ + exposition(reader_families(keys@, readers@)),
{
    let groups = group_readers(readers);
    let ghost keys = kinds_of(groups@);
    let ghost before = writer.out@;
    let ghost families = reader_families(keys, readers@);
    proof {
        assert(families.take(0) =~= Seq::<Family>::empty());
        assert(families.take(4) =~= families);
        assert(before =~= before + exposition(families.take(0)));
    }
    let ghost so_far = writer.out@;
    write_per_group(
        writer,
        "mynosql_reader_sessions",
        "Live reader sessions.",
        &groups,
        GroupColumn::Sessions,
        Ghost(readers@),
    );
    proof {
        lemma_one_more_family(before, so_far, families, 0);
    }
    let ghost so_far = writer.out@;
    write_per_group(
        writer,
        "mynosql_reader_subscriptions",
        "Table subscriptions held by those sessions.",
        &groups,
        GroupColumn::Subscriptions,
        Ghost(readers@),
    );
    proof {
        lemma_one_more_family(before, so_far, families, 1);
    }
    let ghost so_far = writer.out@;
    write_per_group(
        writer,
        "mynosql_reader_pending_chunks",
        "Chunks queued for those sessions and not yet collected.",
        &groups,
        GroupColumn::PendingChunks,
        Ghost(readers@),
    );
    proof {
        lemma_one_more_family(before, so_far, families, 2);
    }
    let ghost so_far = writer.out@;
    write_per_group(
        writer,
        "mynosql_reader_pending_chunks_max",
        "The worst of them. One reader stuck behind a big batch is invisible in a sum.",
        &groups,
        GroupColumn::PendingChunksMax,
        Ghost(readers@),
    );
    proof {
        lemma_one_more_family(before, so_far, families, 3);
    }
    Ghost(keys)
}

/// Writes what the namespaces and their tables are made of.
pub fn write_namespaces<P, A>(app: &AppContext<P, A>, writer: &mut MetricsWriter)
    requires
        app.wf(),
    ensures
        old(writer).out@.is_prefix_of(final(writer).out@),
        is_said_of_namespaces(
            final(writer).out@.skip(old(writer).out@.len() as int),
            app.namespaces@,
        ),
{
    let collected = collect_namespaces(&app.namespaces);
    write_collected(&collected, writer);
    proof {
        let reported = namespaces_numbers(collected@);
        let text = exposition(namespace_families(reported));
        assert(writer.out@.skip(old(writer).out@.len() as int) =~= text);
        assert(says_namespaces(text, app.namespaces@, reported));
    }
}

/// Renders the whole metric set from live state.
pub fn render<P, A>(app: &AppContext<P, A>, http_connections: i64) -> (r: String)
    requires
        app.wf(),
    ensures
        is_scrape_of(r@, *app, http_connections as int),
{
    let mut writer = MetricsWriter::new();
    write_server(app, http_connections, &mut writer);
    let ghost server = writer.out@;
    write_namespaces(app, &mut writer);
    let ghost namespaces = writer.out@.skip(server.len() as int);
    assert(writer.out@ =~= server + namespaces);
    let readers = collect(app);
    let keys = write_readers(&readers, &mut writer);
    proof {
        let first = server_families(*app, http_connections as int);
        let reported = choose|reported: Seq<NamespaceNumbers>| #[trigger]
            says_namespaces(namespaces, app.namespaces@, reported);
        let second = namespace_families(reported);
        let third = reader_families(keys@, readers@);
        lemma_exposition_concat(first, second);
        lemma_exposition_concat(first + second, third);
        assert(Seq::<char>::empty() + exposition(first) + exposition(second) + exposition(third)
            =~= exposition(first + second + third));
        assert(says(writer.out@, *app, http_connections as int, reported, readers@, keys@));
    }
    writer.build()
}

}
