//! What a scrape says, metric by metric and line by line.

use super::metrics::{
    are_the_kinds, group_of, is_scrape_of, kind_of, namespace_families, namespace_value, per_group,
    per_namespace, per_table, reader_families, report_namespaces, says, server_families,
    table_numbers, table_value, GroupColumn, NamespaceColumn, NamespaceNumbers, TableColumn,
};
use super::metrics_laws::{
    every_namespace_has_one_sample, every_table_has_one_sample, has_sample, is_of_a_namespace,
    is_of_a_table, is_of_namespace, table_sample,
};
use super::metrics_writer::{
    escaped, exposition, family_text, header_text, labels_inside, sample_text, samples_text, Family,
    MetricKind, Sample,
};
use super::readers::{is_shown, ReaderView};
use crate::app::{AppContext, DbNamespace, DbTable};
use crate::names::{is_listed, names_differ};
use crate::reader::reader_session::ReaderSession;
use crate::text::{decimal, lemma_text_before_once, signed_decimal};
use crate::triples::{lemma_triple_before_once, TextTriple};
use vstd::prelude::*;

verus! {

/// The sample of a table.
pub open spec fn of_table(name_space: DbNamespace, table: DbTable, value: int) -> Sample {
    Sample {
        labels: seq![("ns"@, name_space.name@), ("table"@, table.name@)],
        value,
    }
}

/// The sample of a namespace.
pub open spec fn of_namespace(name_space: DbNamespace, value: int) -> Sample {
    Sample { labels: seq![("ns"@, name_space.name@)], value }
}

/// Whether the sample is that of some table.
pub open spec fn is_some_table(
    sample: Sample,
    namespaces: Seq<DbNamespace>,
    value: spec_fn(DbTable) -> int,
) -> bool {
    exists|k: int, m: int|
        0 <= k < namespaces.len() && 0 <= m < namespaces[k].tables@.len() && sample == of_table(
            namespaces[k],
            #[trigger] namespaces[k].tables@[m],
            value(namespaces[k].tables@[m]),
        )
}

/// Whether the sample is that of some namespace.
pub open spec fn is_some_namespace(
    sample: Sample,
    namespaces: Seq<DbNamespace>,
    value: spec_fn(DbNamespace) -> int,
) -> bool {
    exists|k: int|
        0 <= k < namespaces.len() && sample == of_namespace(
            #[trigger] namespaces[k],
            value(namespaces[k]),
        )
}

/// Whether no two samples have the same labels.
pub open spec fn are_of_different_things(samples: Seq<Sample>) -> bool {
    forall|i: int, j: int|
        #![trigger samples[i], samples[j]]
        0 <= i < j < samples.len() ==> samples[i].labels != samples[j].labels
}

/// Whether a metric says the value of every table, once, and nothing else.
#[verifier::opaque]
pub open spec fn says_of_tables(
    family: Family,
    namespaces: Seq<DbNamespace>,
    value: spec_fn(DbTable) -> int,
) -> bool {
    &&& forall|k: int, m: int|
        0 <= k < namespaces.len() && 0 <= m < namespaces[k].tables@.len()
            ==> family.samples.contains(
            of_table(
                namespaces[k],
                #[trigger] namespaces[k].tables@[m],
                value(namespaces[k].tables@[m]),
            ),
        )
    &&& forall|i: int|
        0 <= i < family.samples.len() ==> is_some_table(
            #[trigger] family.samples[i],
            namespaces,
            value,
        )
    &&& are_of_different_things(family.samples)
}

/// Whether a metric says the value of every namespace, once, and nothing else.
#[verifier::opaque]
pub open spec fn says_of_namespaces(
    family: Family,
    namespaces: Seq<DbNamespace>,
    value: spec_fn(DbNamespace) -> int,
) -> bool {
    &&& forall|k: int|
        0 <= k < namespaces.len() ==> family.samples.contains(
            of_namespace(#[trigger] namespaces[k], value(namespaces[k])),
        )
    &&& forall|i: int|
        0 <= i < family.samples.len() ==> is_some_namespace(
            #[trigger] family.samples[i],
            namespaces,
            value,
        )
    &&& are_of_different_things(family.samples)
}

/// Whether a metric has one number of the server itself.
pub open spec fn says_one(family: Family, value: int) -> bool {
    family.samples == seq![Sample { labels: Seq::empty(), value }]
}

/// Whether a reader is of a namespace, an application and a version.
pub open spec fn is_kind(reader: ReaderView, kind: TextTriple) -> bool {
    reader.namespace@ == kind.0 && reader.app_name@ == kind.1 && reader.version@ == kind.2
}

/// The readers of a kind.
pub open spec fn of_kind(readers: Seq<ReaderView>, kind: TextTriple) -> Seq<ReaderView> {
    readers.filter(|reader: ReaderView| is_kind(reader, kind))
}

/// What readers hold together.
pub open spec fn sum(readers: Seq<ReaderView>, value: spec_fn(ReaderView) -> int) -> int {
    readers.fold_left(0int, |n: int, reader: ReaderView| n + value(reader))
}

/// Whether this is the highest number of chunks one of the readers has pending.
pub open spec fn is_worst(readers: Seq<ReaderView>, value: int) -> bool {
    &&& forall|i: int| 0 <= i < readers.len() ==> (#[trigger] readers[i]).pending_chunks <= value
    &&& exists|i: int| 0 <= i < readers.len() && (#[trigger] readers[i]).pending_chunks == value
}

/// Whether a metric says the value of every kind of reader, once, and nothing else.
pub open spec fn says_of_readers(
    family: Family,
    kinds: Seq<TextTriple>,
    readers: Seq<ReaderView>,
    is_value: spec_fn(Seq<ReaderView>, int) -> bool,
) -> bool {
    &&& family.samples.len() == kinds.len()
    &&& forall|i: int|
        0 <= i < kinds.len() ==> {
            &&& (#[trigger] family.samples[i]).labels == seq![
                ("ns"@, kinds[i].0),
                ("app"@, kinds[i].1),
                ("version"@, kinds[i].2),
            ]
            &&& is_value(of_kind(readers, kinds[i]), family.samples[i].value)
        }
}

/// Whether these are the kinds of the readers, each once.
pub open spec fn are_kinds(kinds: Seq<TextTriple>, readers: Seq<ReaderView>) -> bool {
    &&& kinds.no_duplicates()
    &&& forall|kind: TextTriple| #[trigger]
        kinds.contains(kind) <==> of_kind(readers, kind).len() > 0
}

/// Whether a reader is shown as the session it is.
pub open spec fn is_session_shown(reader: ReaderView, session: ReaderSession) -> bool {
    &&& reader.id@ == session.id@
    &&& reader.namespace@ == session.namespace@
    &&& reader.app_name@ == session.app_name@
    &&& reader.version@ == session.version@
    &&& reader.ip@ == session.ip@
    &&& reader.connected == session.connected
    &&& reader.last_incoming == session.last_incoming
    &&& reader.pending_chunks == session.queue@.len()
    &&& forall|name: Seq<char>| #[trigger]
        is_listed(reader.tables@, name) <==> session.tables().contains(name)
}

/// Whether every session is shown once as it is, and nothing else.
pub open spec fn are_all_sessions(
    readers: Seq<ReaderView>,
    sessions: Map<Seq<char>, ReaderSession>,
) -> bool {
    &&& forall|i: int|
        0 <= i < readers.len() ==> sessions.contains_key((#[trigger] readers[i]).id@)
            && is_session_shown(readers[i], sessions[readers[i].id@])
    &&& forall|id: Seq<char>| #[trigger]
        sessions.contains_key(id) ==> exists|i: int|
            0 <= i < readers.len() && (#[trigger] readers[i]).id@ == id
    &&& forall|i: int, j: int|
        #![trigger readers[i], readers[j]]
        0 <= i < j < readers.len() ==> readers[i].id@ != readers[j].id@
}

/// Whether the metric has this name and this type.
pub open spec fn is_called(family: Family, name: Seq<char>, kind: MetricKind) -> bool {
    family.name == name && family.kind == kind
}

/// Whether the metrics are those of the server, each with the numbers it is named after.
pub open spec fn are_the_metrics<P, A>(
    families: Seq<Family>,
    app: AppContext<P, A>,
    http_connections: int,
    kinds: Seq<TextTriple>,
    readers: Seq<ReaderView>,
) -> bool {
    let namespaces = app.namespaces@;
    &&& families.len() == 17
    &&& is_called(families[0], "mynosql_build_info"@, MetricKind::Gauge)
    &&& families[0].samples == seq![
        Sample {
            labels: seq![("version"@, app.version@), ("location"@, app.settings.location@)],
            value: 1,
        },
    ]
    &&& is_called(families[1], "mynosql_initialized"@, MetricKind::Gauge)
    &&& app.initialized ==> says_one(families[1], 1)
    &&& !app.initialized ==> says_one(families[1], 0)
    &&& is_called(families[2], "mynosql_http_connections"@, MetricKind::Gauge)
    &&& says_one(families[2], http_connections)
    &&& is_called(families[3], "mynosql_transactions_open"@, MetricKind::Gauge)
    &&& says_one(families[3], app.transactions.map().dom().len() as int)
    &&& is_called(families[4], "mynosql_namespaces"@, MetricKind::Gauge)
    &&& says_one(families[4], namespaces.len() as int)
    &&& is_called(families[5], "mynosql_tables"@, MetricKind::Gauge)
    &&& says_of_namespaces(families[5], namespaces, |n: DbNamespace| n.tables@.len() as int)
    &&& is_called(families[6], "mynosql_table_schemas"@, MetricKind::Gauge)
    &&& says_of_tables(
        families[6],
        namespaces,
        |t: DbTable| t.attributes.schemas@.len() as int,
    )
    &&& is_called(families[7], "mynosql_table_partitions"@, MetricKind::Gauge)
    &&& says_of_tables(families[7], namespaces, |t: DbTable| t.metrics.partitions_amount as int)
    &&& is_called(families[8], "mynosql_table_rows"@, MetricKind::Gauge)
    &&& says_of_tables(families[8], namespaces, |t: DbTable| t.metrics.rows_amount as int)
    &&& is_called(families[9], "mynosql_table_content_size_bytes"@, MetricKind::Gauge)
    &&& says_of_tables(families[9], namespaces, |t: DbTable| t.metrics.content_size as int)
    &&& is_called(families[10], "mynosql_persist_queue_partitions"@, MetricKind::Gauge)
    &&& says_of_namespaces(
        families[10],
        namespaces,
        |n: DbNamespace| n.persist_markers@.partitions.dom().len() as int,
    )
    &&& is_called(families[11], "mynosql_persist_queue_tables_metadata"@, MetricKind::Gauge)
    &&& says_of_namespaces(
        families[11],
        namespaces,
        |n: DbNamespace| n.persist_markers@.metadata.dom().len() as int,
    )
    &&& is_called(families[12], "mynosql_persist_tasks_written_total"@, MetricKind::Counter)
    &&& says_of_namespaces(
        families[12],
        namespaces,
        |n: DbNamespace| n.persisted_total as int,
    )
    &&& are_all_sessions(readers, app.reader_sessions.map())
    &&& are_kinds(kinds, readers)
    &&& is_called(families[13], "mynosql_reader_sessions"@, MetricKind::Gauge)
    &&& says_of_readers(
        families[13],
        kinds,
        readers,
        |of: Seq<ReaderView>, value: int| value == of.len(),
    )
    &&& is_called(families[14], "mynosql_reader_subscriptions"@, MetricKind::Gauge)
    &&& says_of_readers(
        families[14],
        kinds,
        readers,
        |of: Seq<ReaderView>, value: int|
            value == sum(of, |reader: ReaderView| reader.tables@.len() as int),
    )
    &&& is_called(families[15], "mynosql_reader_pending_chunks"@, MetricKind::Gauge)
    &&& says_of_readers(
        families[15],
        kinds,
        readers,
        |of: Seq<ReaderView>, value: int|
            value == sum(of, |reader: ReaderView| reader.pending_chunks as int),
    )
    &&& is_called(families[16], "mynosql_reader_pending_chunks_max"@, MetricKind::Gauge)
    &&& says_of_readers(
        families[16],
        kinds,
        readers,
        |of: Seq<ReaderView>, value: int| is_worst(of, value),
    )
}

/// Whether a scrape is made of the metrics of the server.
pub open spec fn is_made_of<P, A>(
    text: Seq<char>,
    app: AppContext<P, A>,
    http_connections: int,
    families: Seq<Family>,
    kinds: Seq<TextTriple>,
    readers: Seq<ReaderView>,
) -> bool {
    &&& are_the_metrics(families, app, http_connections, kinds, readers)
    &&& text == exposition(families)
}

proof fn lemma_tables_said(
    reported: Seq<NamespaceNumbers>,
    namespaces: Seq<DbNamespace>,
    column: TableColumn,
    family: Family,
    value: spec_fn(DbTable) -> int,
)
    requires
        report_namespaces(reported, namespaces),
        names_differ(namespaces),
        forall|i: int| 0 <= i < namespaces.len() ==> (#[trigger] namespaces[i]).wf(),
        family.samples == per_table(reported, column),
        forall|t: DbTable| #[trigger] value(t) == table_value(table_numbers(t), column),
    ensures
        says_of_tables(family, namespaces, value),
{
    reveal(says_of_tables);
    every_table_has_one_sample(reported, namespaces, column);
    let samples = per_table(reported, column);
    assert forall|k: int, m: int|
        0 <= k < namespaces.len() && 0 <= m < namespaces[k].tables@.len() implies samples.contains(
        of_table(
            namespaces[k],
            #[trigger] namespaces[k].tables@[m],
            value(namespaces[k].tables@[m]),
        ),
    ) by {
        let table = namespaces[k].tables@[m];
        assert(of_table(namespaces[k], table, value(table)) =~= table_sample(
            namespaces[k].name@,
            table_numbers(table),
            column,
        ));
    }
    assert forall|i: int| 0 <= i < samples.len() implies is_some_table(
        #[trigger] samples[i],
        namespaces,
        value,
    ) by {
        assert(is_of_a_table(samples[i], namespaces, column));
        let (k, m) = choose|k: int, m: int|
            0 <= k < namespaces.len() && 0 <= m < namespaces[k].tables@.len() && samples[i]
                == table_sample(
                namespaces[k].name@,
                table_numbers(#[trigger] namespaces[k].tables@[m]),
                column,
            );
        let table = namespaces[k].tables@[m];
        assert(samples[i] =~= of_table(namespaces[k], table, value(table)));
    }
    assert forall|i: int, j: int|
        #![trigger samples[i], samples[j]]
        0 <= i < j < samples.len() implies samples[i].labels != samples[j].labels by {
        lemma_text_before_once(samples[i].labels[0].1, samples[j].labels[0].1);
        lemma_text_before_once(samples[i].labels[1].1, samples[j].labels[1].1);
    }
}

proof fn lemma_namespaces_said(
    reported: Seq<NamespaceNumbers>,
    namespaces: Seq<DbNamespace>,
    column: NamespaceColumn,
    family: Family,
    value: spec_fn(DbNamespace) -> int,
)
    requires
        report_namespaces(reported, namespaces),
        names_differ(namespaces),
        family.samples == per_namespace(reported, column),
        forall|n: DbNamespace, r: NamespaceNumbers| #[trigger]
            super::metrics::reports(r, n) ==> value(n) == namespace_value(r, column),
    ensures
        says_of_namespaces(family, namespaces, value),
{
    reveal(says_of_namespaces);
    every_namespace_has_one_sample(reported, namespaces, column);
    let samples = per_namespace(reported, column);
    assert forall|i: int| 0 <= i < samples.len() implies is_some_namespace(
        #[trigger] samples[i],
        namespaces,
        value,
    ) by {
        assert(is_of_a_namespace(samples[i], namespaces, column));
        let k = choose|k: int|
            0 <= k < namespaces.len() && is_of_namespace(samples[i], #[trigger] namespaces[k], column);
        assert(samples[i] =~= of_namespace(namespaces[k], value(namespaces[k])));
    }
    assert forall|k: int| 0 <= k < namespaces.len() implies samples.contains(
        of_namespace(#[trigger] namespaces[k], value(namespaces[k])),
    ) by {
        assert(has_sample(samples, namespaces[k], column));
        let i = choose|i: int|
            0 <= i < samples.len() && is_of_namespace(#[trigger] samples[i], namespaces[k], column);
        assert(samples[i] =~= of_namespace(namespaces[k], value(namespaces[k])));
    }
    assert forall|i: int, j: int|
        #![trigger samples[i], samples[j]]
        0 <= i < j < samples.len() implies samples[i].labels != samples[j].labels by {
        lemma_text_before_once(samples[i].labels[0].1, samples[j].labels[0].1);
    }
}

proof fn lemma_group(readers: Seq<ReaderView>, kind: TextTriple)
    ensures
        group_of(readers, kind).sessions == of_kind(readers, kind).len(),
        group_of(readers, kind).subscriptions == sum(
            of_kind(readers, kind),
            |reader: ReaderView| reader.tables@.len() as int,
        ),
        group_of(readers, kind).pending_chunks == sum(
            of_kind(readers, kind),
            |reader: ReaderView| reader.pending_chunks as int,
        ),
        of_kind(readers, kind).len() > 0 ==> is_worst(
            of_kind(readers, kind),
            group_of(readers, kind).pending_chunks_max as int,
        ),
        of_kind(readers, kind).len() == 0 ==> group_of(readers, kind).pending_chunks_max == 0,
    decreases readers.len(),
{
    reveal(Seq::filter);
    if readers.len() > 0 {
        let fewer = readers.drop_last();
        lemma_group(fewer, kind);
        let before = of_kind(fewer, kind);
        let now = of_kind(readers, kind);
        if is_kind(readers.last(), kind) {
            assert(now == before.push(readers.last()));
            assert(now.drop_last() =~= before);
            assert(now.last() == readers.last());
            assert(kind_of(readers.last()) == kind);
            let worst = group_of(readers, kind).pending_chunks_max as int;
            assert forall|i: int| 0 <= i < now.len() implies (#[trigger] now[i]).pending_chunks
                <= worst by {
                if i < before.len() {
                    assert(before[i] == now[i]);
                }
            }
            if group_of(fewer, kind).pending_chunks_max < readers.last().pending_chunks
                || before.len() == 0 {
                assert(now[before.len() as int].pending_chunks == worst);
            } else {
                let i = choose|i: int|
                    0 <= i < before.len() && (#[trigger] before[i]).pending_chunks == group_of(
                        fewer,
                        kind,
                    ).pending_chunks_max;
                assert(now[i].pending_chunks == worst);
            }
        } else {
            assert(now == before);
            assert(kind_of(readers.last()) != kind);
        }
    }
}

proof fn lemma_kinds(kinds: Seq<TextTriple>, readers: Seq<ReaderView>)
    requires
        are_the_kinds(kinds, readers),
    ensures
        are_kinds(kinds, readers),
{
    assert forall|i: int, j: int| 0 <= i < kinds.len() && 0 <= j < kinds.len() && i != j implies
        kinds[i] != kinds[j] by {
        if i < j {
            lemma_triple_before_once(kinds[i], kinds[j]);
        } else {
            lemma_triple_before_once(kinds[j], kinds[i]);
        }
    }
    assert forall|kind: TextTriple| #[trigger] kinds.contains(kind) <==> of_kind(
        readers,
        kind,
    ).len() > 0 by {
        let wanted = |reader: ReaderView| is_kind(reader, kind);
        if super::metrics::has_kind(readers, kind) {
            let i = choose|i: int| 0 <= i < readers.len() && kind_of(#[trigger] readers[i]) == kind;
            readers.lemma_filter_contains(wanted, i);
        }
        if of_kind(readers, kind).len() > 0 {
            let first = of_kind(readers, kind)[0];
            readers.lemma_filter_contains_rev(wanted, first);
            readers.lemma_filter_pred(wanted, 0);
            let i = choose|i: int| 0 <= i < readers.len() && readers[i] == first;
            assert(kind_of(readers[i]) == kind);
        }
    }
}

/// Every number of a scrape is the one its metric is named after: of every table, of every
/// namespace and of every kind of reader there is one sample in each of their metrics, with
/// that very number, and no other. A reader is counted by what its session holds.
pub proof fn every_metric_says_what_it_is_named_after<P, A>(
    text: Seq<char>,
    app: AppContext<P, A>,
    http_connections: int,
)
    requires
        app.wf(),
        is_scrape_of(text, app, http_connections),
    ensures
        exists|families: Seq<Family>, kinds: Seq<TextTriple>, readers: Seq<ReaderView>| #[trigger]
            is_made_of(text, app, http_connections, families, kinds, readers),
{
    let (reported, readers, kinds) = choose|
        reported: Seq<NamespaceNumbers>,
        readers: Seq<ReaderView>,
        keys: Seq<TextTriple>,
    | #[trigger] says(text, app, http_connections, reported, readers, keys);
    let families = server_families(app, http_connections) + namespace_families(reported)
        + reader_families(kinds, readers);
    let namespaces = app.namespaces@;
    assert(families[5].samples == per_namespace(reported, NamespaceColumn::Tables));
    lemma_namespaces_said(
        reported,
        namespaces,
        NamespaceColumn::Tables,
        families[5],
        |n: DbNamespace| n.tables@.len() as int,
    );
    lemma_tables_said(
        reported,
        namespaces,
        TableColumn::Schemas,
        families[6],
        |t: DbTable| t.attributes.schemas@.len() as int,
    );
    lemma_tables_said(
        reported,
        namespaces,
        TableColumn::Partitions,
        families[7],
        |t: DbTable| t.metrics.partitions_amount as int,
    );
    lemma_tables_said(
        reported,
        namespaces,
        TableColumn::Rows,
        families[8],
        |t: DbTable| t.metrics.rows_amount as int,
    );
    lemma_tables_said(
        reported,
        namespaces,
        TableColumn::ContentSize,
        families[9],
        |t: DbTable| t.metrics.content_size as int,
    );
    lemma_namespaces_said(
        reported,
        namespaces,
        NamespaceColumn::QueuedPartitions,
        families[10],
        |n: DbNamespace| n.persist_markers@.partitions.dom().len() as int,
    );
    lemma_namespaces_said(
        reported,
        namespaces,
        NamespaceColumn::QueuedTablesMetadata,
        families[11],
        |n: DbNamespace| n.persist_markers@.metadata.dom().len() as int,
    );
    lemma_namespaces_said(
        reported,
        namespaces,
        NamespaceColumn::PersistedTotal,
        families[12],
        |n: DbNamespace| n.persisted_total as int,
    );
    lemma_kinds(kinds, readers);
    assert forall|i: int| 0 <= i < kinds.len() implies {
        &&& (#[trigger] per_group(kinds, readers, GroupColumn::Sessions)[i]).value == of_kind(
            readers,
            kinds[i],
        ).len()
        &&& per_group(kinds, readers, GroupColumn::Subscriptions)[i].value == sum(
            of_kind(readers, kinds[i]),
            |reader: ReaderView| reader.tables@.len() as int,
        )
        &&& per_group(kinds, readers, GroupColumn::PendingChunks)[i].value == sum(
            of_kind(readers, kinds[i]),
            |reader: ReaderView| reader.pending_chunks as int,
        )
        &&& is_worst(
            of_kind(readers, kinds[i]),
            per_group(kinds, readers, GroupColumn::PendingChunksMax)[i].value,
        )
    } by {
        lemma_group(readers, kinds[i]);
        assert(kinds.contains(kinds[i]));
    }
    assert(are_all_sessions(readers, app.reader_sessions.map())) by {
        assert forall|id: Seq<char>| #[trigger]
            app.reader_sessions.map().contains_key(id) implies exists|i: int|
            0 <= i < readers.len() && (#[trigger] readers[i]).id@ == id by {
            assert(is_shown(readers, id));
        }
        assert forall|i: int| 0 <= i < readers.len() implies is_session_shown(
            #[trigger] readers[i],
            app.reader_sessions.map()[readers[i].id@],
        ) by {
            assert(readers[i].shows(app.reader_sessions.map()[readers[i].id@]));
        }
    }
    assert forall|i: int| 0 <= i < kinds.len() implies per_group(
        kinds,
        readers,
        GroupColumn::Subscriptions,
    )[i].value == (#[trigger] families[14].samples[i]).value by {}
    assert(says_of_readers(
        families[13],
        kinds,
        readers,
        |of: Seq<ReaderView>, value: int| value == of.len(),
    )) by {
        assert(families[13].samples == per_group(kinds, readers, GroupColumn::Sessions));
    }
    assert(says_of_readers(
        families[14],
        kinds,
        readers,
        |of: Seq<ReaderView>, value: int|
            value == sum(of, |reader: ReaderView| reader.tables@.len() as int),
    )) by {
        assert(families[14].samples == per_group(kinds, readers, GroupColumn::Subscriptions));
        assert forall|i: int| 0 <= i < kinds.len() implies (
        #[trigger] families[14].samples[i]).value == sum(
            of_kind(readers, kinds[i]),
            |reader: ReaderView| reader.tables@.len() as int,
        ) by {
            let same = per_group(kinds, readers, GroupColumn::Sessions)[i];
        }
    }
    assert(says_of_readers(
        families[15],
        kinds,
        readers,
        |of: Seq<ReaderView>, value: int|
            value == sum(of, |reader: ReaderView| reader.pending_chunks as int),
    )) by {
        assert(families[15].samples == per_group(kinds, readers, GroupColumn::PendingChunks));
        assert forall|i: int| 0 <= i < kinds.len() implies (
        #[trigger] families[15].samples[i]).value == sum(
            of_kind(readers, kinds[i]),
            |reader: ReaderView| reader.pending_chunks as int,
        ) by {
            let same = per_group(kinds, readers, GroupColumn::Sessions)[i];
        }
    }
    assert(says_of_readers(
        families[16],
        kinds,
        readers,
        |of: Seq<ReaderView>, value: int| is_worst(of, value),
    )) by {
        assert(families[16].samples == per_group(kinds, readers, GroupColumn::PendingChunksMax));
        assert forall|i: int| 0 <= i < kinds.len() implies is_worst(
            of_kind(readers, kinds[i]),
            (#[trigger] families[16].samples[i]).value,
        ) by {
            let same = per_group(kinds, readers, GroupColumn::Sessions)[i];
        }
    }
    assert(is_made_of(text, app, http_connections, families, kinds, readers));
}

/// Whether a text has the line: it starts where a line starts, and ends with it.
pub open spec fn is_line(text: Seq<char>, line: Seq<char>) -> bool {
    exists|before: Seq<char>, after: Seq<char>| #[trigger] is_line_between(text, before, line, after)
}

/// Whether the line stands between these two.
pub open spec fn is_line_between(
    text: Seq<char>,
    before: Seq<char>,
    line: Seq<char>,
    after: Seq<char>,
) -> bool {
    &&& text == before + line + after
    &&& before.len() == 0 || before.last() == '\n'
    &&& line.len() > 0 && line.last() == '\n'
}

/// The line which says a number of a table.
pub open spec fn table_line(
    metric: Seq<char>,
    name_space: DbNamespace,
    table: DbTable,
    value: int,
) -> Seq<char> {
    metric + "{ns=\""@ + escaped(name_space.name@) + "\",table=\""@ + escaped(table.name@)
        + "\"} "@ + signed_decimal(value) + "\n"@
}

/// The line which says a number of a namespace.
pub open spec fn namespace_line(metric: Seq<char>, name_space: DbNamespace, value: int) -> Seq<
    char,
> {
    metric + "{ns=\""@ + escaped(name_space.name@) + "\"} "@ + signed_decimal(value) + "\n"@
}

/// A sample is one line: the name of its metric, its labels in braces if it has any, and its
/// number.
pub proof fn a_sample_is_one_line(name: Seq<char>, sample: Sample)
    ensures
        sample.labels.len() == 0 ==> sample_text(name, sample) == name + " "@ + signed_decimal(
            sample.value,
        ) + "\n"@,
        sample.labels.len() == 1 ==> sample_text(name, sample) == name + "{"@ + sample.labels[0].0
            + "=\""@ + escaped(sample.labels[0].1) + "\"} "@ + signed_decimal(sample.value) + "\n"@,
        sample.labels.len() == 2 ==> sample_text(name, sample) == name + "{"@ + sample.labels[0].0
            + "=\""@ + escaped(sample.labels[0].1) + "\","@ + sample.labels[1].0 + "=\""@ + escaped(
            sample.labels[1].1,
        ) + "\"} "@ + signed_decimal(sample.value) + "\n"@,
        sample_text(name, sample).len() > 0,
        sample_text(name, sample).last() == '\n',
{
    reveal_strlit("{");
    reveal_strlit("}");
    reveal_strlit(" ");
    reveal_strlit("\"");
    reveal_strlit("=\"");
    reveal_strlit("\"} ");
    reveal_strlit("\",");
    reveal_strlit("\n");
    reveal_with_fuel(labels_inside, 3);
    let labels = sample.labels;
    if labels.len() == 0 {
        assert(sample_text(name, sample) =~= name + " "@ + signed_decimal(sample.value) + "\n"@);
    } else if labels.len() == 1 {
        assert(sample_text(name, sample) =~= name + "{"@ + labels[0].0 + "=\""@ + escaped(
            labels[0].1,
        ) + "\"} "@ + signed_decimal(sample.value) + "\n"@);
    } else if labels.len() == 2 {
        assert(labels.drop_last().last() == labels[0]);
        assert(sample_text(name, sample) =~= name + "{"@ + labels[0].0 + "=\""@ + escaped(
            labels[0].1,
        ) + "\","@ + labels[1].0 + "=\""@ + escaped(labels[1].1) + "\"} "@ + signed_decimal(
            sample.value,
        ) + "\n"@);
    }
}

/// A label as it is written.
pub open spec fn label_text(label: (Seq<char>, Seq<char>)) -> Seq<char> {
    label.0 + "=\""@ + escaped(label.1) + "\""@
}

/// However many labels a sample has, each stands in it by its name and with its value in
/// quotes, and commas stand between them.
pub proof fn labels_stand_in_a_row(labels: Seq<(Seq<char>, Seq<char>)>)
    requires
        labels.len() > 0,
    ensures
        labels.len() == 1 ==> labels_inside(labels) == label_text(labels[0]),
        labels.len() > 1 ==> labels_inside(labels) == labels_inside(labels.drop_last()) + seq![',']
            + label_text(labels.last()),
{
    let label = labels.last();
    if labels.len() == 1 {
        assert(labels_inside(labels) =~= label_text(label));
    } else {
        let front = labels_inside(labels.drop_last());
        assert(front.push(',') =~= front + seq![',']);
        assert(labels_inside(labels) =~= front + seq![','] + label_text(label));
    }
}

/// The line of a sample with labels.
pub proof fn labels_stand_in_braces(name: Seq<char>, sample: Sample)
    requires
        sample.labels.len() > 0,
    ensures
        sample_text(name, sample) == name + "{"@ + labels_inside(sample.labels) + "} "@
            + signed_decimal(sample.value) + "\n"@,
{
    reveal_strlit("{");
    reveal_strlit("}");
    reveal_strlit(" ");
    reveal_strlit("} ");
    assert(sample_text(name, sample) =~= name + "{"@ + labels_inside(sample.labels) + "} "@
        + signed_decimal(sample.value) + "\n"@);
}

/// A line stays a line when more is written behind it, or whole lines in front of it.
proof fn lemma_line_stays(front: Seq<char>, text: Seq<char>, back: Seq<char>, line: Seq<char>)
    requires
        is_line(text, line),
        front.len() == 0 || front.last() == '\n',
    ensures
        is_line(front + text + back, line),
{
    let (before, after) = choose|before: Seq<char>, after: Seq<char>| #[trigger]
        is_line_between(text, before, line, after);
    assert(front + text + back =~= (front + before) + line + (after + back));
    assert(is_line_between(front + text + back, front + before, line, after + back));
}

proof fn lemma_samples_are_lines(name: Seq<char>, samples: Seq<Sample>)
    ensures
        samples_text(name, samples).len() == 0 || samples_text(name, samples).last() == '\n',
        forall|i: int|
            0 <= i < samples.len() ==> is_line(
                samples_text(name, samples),
                sample_text(name, #[trigger] samples[i]),
            ),
    decreases samples.len(),
{
    if samples.len() > 0 {
        let fewer = samples.drop_last();
        lemma_samples_are_lines(name, fewer);
        a_sample_is_one_line(name, samples.last());
        let front = samples_text(name, fewer);
        let last = sample_text(name, samples.last());
        assert forall|i: int| 0 <= i < samples.len() implies is_line(
            samples_text(name, samples),
            sample_text(name, #[trigger] samples[i]),
        ) by {
            if i < fewer.len() {
                assert(fewer[i] == samples[i]);
                lemma_line_stays(Seq::empty(), front, last, sample_text(name, samples[i]));
                assert(Seq::<char>::empty() + front + last =~= samples_text(name, samples));
            } else {
                assert(is_line_between(samples_text(name, samples), front, last, Seq::empty())) by {
                    assert(samples_text(name, samples) =~= front + last + Seq::<char>::empty());
                }
            }
        }
    }
}

proof fn lemma_exposition_ends_a_line(families: Seq<Family>)
    ensures
        exposition(families).len() == 0 || exposition(families).last() == '\n',
{
    if families.len() > 0 {
        let last = families.last();
        lemma_header_ends_a_line(last);
        lemma_samples_are_lines(last.name, last.samples);
    }
}

proof fn lemma_header_ends_a_line(family: Family)
    ensures
        header_text(family.name, family.help, family.kind).len() > 0,
        header_text(family.name, family.help, family.kind).last() == '\n',
{
    reveal_strlit("\n");
}

proof fn lemma_sample_line(families: Seq<Family>, f: int, i: int)
    requires
        0 <= f < families.len(),
        0 <= i < families[f].samples.len(),
    ensures
        is_line(
            exposition(families),
            sample_text(families[f].name, families[f].samples[i]),
        ),
    decreases families.len(),
{
    let fewer = families.drop_last();
    let line = sample_text(families[f].name, families[f].samples[i]);
    let front = exposition(fewer);
    let last = families.last();
    if f < fewer.len() {
        lemma_sample_line(fewer, f, i);
        lemma_line_stays(Seq::empty(), front, family_text(last), line);
        assert(Seq::<char>::empty() + front + family_text(last) =~= exposition(families));
    } else {
        let header = header_text(last.name, last.help, last.kind);
        let lines = samples_text(last.name, last.samples);
        lemma_exposition_ends_a_line(fewer);
        lemma_header_ends_a_line(last);
        lemma_samples_are_lines(last.name, last.samples);
        assert(is_line(lines, sample_text(last.name, last.samples[i])));
        lemma_line_stays(front + header, lines, Seq::empty(), line);
        assert((front + header) + lines + Seq::<char>::empty() =~= exposition(families));
    }
}

/// Every sample of every metric has its line.
pub proof fn every_sample_has_its_line(families: Seq<Family>)
    ensures
        forall|f: int, i: int|
            0 <= f < families.len() && 0 <= i < families[f].samples.len() ==> is_line(
                exposition(families),
                sample_text(families[f].name, #[trigger] families[f].samples[i]),
            ),
{
    assert forall|f: int, i: int|
        0 <= f < families.len() && 0 <= i < families[f].samples.len() implies is_line(
        exposition(families),
        sample_text(families[f].name, #[trigger] families[f].samples[i]),
    ) by {
        lemma_sample_line(families, f, i);
    }
}

/// Whether a scrape has the lines of a table.
pub open spec fn has_table_lines(
    text: Seq<char>,
    name_space: DbNamespace,
    table: DbTable,
) -> bool {
    &&& is_line(
        text,
        table_line(
            "mynosql_table_schemas"@,
            name_space,
            table,
            table.attributes.schemas@.len() as int,
        ),
    )
    &&& is_line(
        text,
        table_line(
            "mynosql_table_partitions"@,
            name_space,
            table,
            table.metrics.partitions_amount as int,
        ),
    )
    &&& is_line(
        text,
        table_line(
            "mynosql_table_rows"@,
            name_space,
            table,
            table.metrics.rows_amount as int,
        ),
    )
    &&& is_line(
        text,
        table_line(
            "mynosql_table_content_size_bytes"@,
            name_space,
            table,
            table.metrics.content_size as int,
        ),
    )
}

/// Whether a scrape has the lines of a namespace.
pub open spec fn has_namespace_lines(text: Seq<char>, name_space: DbNamespace) -> bool {
    &&& is_line(
        text,
        namespace_line("mynosql_tables"@, name_space, name_space.tables@.len() as int),
    )
    &&& is_line(
        text,
        namespace_line(
            "mynosql_persist_queue_partitions"@,
            name_space,
            name_space.persist_markers@.partitions.dom().len() as int,
        ),
    )
    &&& is_line(
        text,
        namespace_line(
            "mynosql_persist_queue_tables_metadata"@,
            name_space,
            name_space.persist_markers@.metadata.dom().len() as int,
        ),
    )
    &&& is_line(
        text,
        namespace_line(
            "mynosql_persist_tasks_written_total"@,
            name_space,
            name_space.persisted_total as int,
        ),
    )
}

proof fn lemma_table_line(
    families: Seq<Family>,
    f: int,
    metric: Seq<char>,
    namespaces: Seq<DbNamespace>,
    k: int,
    m: int,
    value: spec_fn(DbTable) -> int,
)
    requires
        0 <= f < families.len(),
        families[f].name == metric,
        says_of_tables(families[f], namespaces, value),
        0 <= k < namespaces.len(),
        0 <= m < namespaces[k].tables@.len(),
    ensures
        is_line(
            exposition(families),
            table_line(
                metric,
                namespaces[k],
                namespaces[k].tables@[m],
                value(namespaces[k].tables@[m]),
            ),
        ),
{
    reveal(says_of_tables);
    reveal_strlit("ns");
    reveal_strlit("table");
    reveal_strlit("{");
    reveal_strlit("=\"");
    reveal_strlit("\",");
    reveal_strlit("{ns=\"");
    reveal_strlit("\",table=\"");
    let table = namespaces[k].tables@[m];
    let sample = of_table(namespaces[k], table, value(table));
    let samples = families[f].samples;
    assert(samples.contains(sample));
    let i = choose|i: int| 0 <= i < samples.len() && samples[i] == sample;
    every_sample_has_its_line(families);
    assert(is_line(exposition(families), sample_text(families[f].name, families[f].samples[i])));
    a_sample_is_one_line(metric, sample);
    assert(sample_text(metric, sample) =~= table_line(
        metric,
        namespaces[k],
        table,
        value(table),
    ));
}

proof fn lemma_namespace_line(
    families: Seq<Family>,
    f: int,
    metric: Seq<char>,
    namespaces: Seq<DbNamespace>,
    k: int,
    value: spec_fn(DbNamespace) -> int,
)
    requires
        0 <= f < families.len(),
        families[f].name == metric,
        says_of_namespaces(families[f], namespaces, value),
        0 <= k < namespaces.len(),
    ensures
        is_line(
            exposition(families),
            namespace_line(metric, namespaces[k], value(namespaces[k])),
        ),
{
    reveal(says_of_namespaces);
    reveal_strlit("ns");
    reveal_strlit("{");
    reveal_strlit("=\"");
    reveal_strlit("{ns=\"");
    let sample = of_namespace(namespaces[k], value(namespaces[k]));
    let samples = families[f].samples;
    assert(samples.contains(sample));
    let i = choose|i: int| 0 <= i < samples.len() && samples[i] == sample;
    every_sample_has_its_line(families);
    assert(is_line(exposition(families), sample_text(families[f].name, families[f].samples[i])));
    a_sample_is_one_line(metric, sample);
    assert(sample_text(metric, sample) =~= namespace_line(
        metric,
        namespaces[k],
        value(namespaces[k]),
    ));
}

#[verifier::spinoff_prover]
proof fn lemma_lines_of_table<P, A>(
    text: Seq<char>,
    app: AppContext<P, A>,
    http_connections: int,
    families: Seq<Family>,
    kinds: Seq<TextTriple>,
    readers: Seq<ReaderView>,
    k: int,
    m: int,
)
    requires
        is_made_of(text, app, http_connections, families, kinds, readers),
        0 <= k < app.namespaces@.len(),
        0 <= m < app.namespaces@[k].tables@.len(),
    ensures
        has_table_lines(text, app.namespaces@[k], app.namespaces@[k].tables@[m]),
{
    let namespaces = app.namespaces@;
    lemma_table_line(
        families,
        6,
        "mynosql_table_schemas"@,
        namespaces,
        k,
        m,
        |t: DbTable| t.attributes.schemas@.len() as int,
    );
    lemma_table_line(
        families,
        7,
        "mynosql_table_partitions"@,
        namespaces,
        k,
        m,
        |t: DbTable| t.metrics.partitions_amount as int,
    );
    lemma_table_line(
        families,
        8,
        "mynosql_table_rows"@,
        namespaces,
        k,
        m,
        |t: DbTable| t.metrics.rows_amount as int,
    );
    lemma_table_line(
        families,
        9,
        "mynosql_table_content_size_bytes"@,
        namespaces,
        k,
        m,
        |t: DbTable| t.metrics.content_size as int,
    );
}

#[verifier::spinoff_prover]
proof fn lemma_lines_of_namespace<P, A>(
    text: Seq<char>,
    app: AppContext<P, A>,
    http_connections: int,
    families: Seq<Family>,
    kinds: Seq<TextTriple>,
    readers: Seq<ReaderView>,
    k: int,
)
    requires
        is_made_of(text, app, http_connections, families, kinds, readers),
        0 <= k < app.namespaces@.len(),
    ensures
        has_namespace_lines(text, app.namespaces@[k]),
{
    let namespaces = app.namespaces@;
    lemma_namespace_line(
        families,
        5,
        "mynosql_tables"@,
        namespaces,
        k,
        |n: DbNamespace| n.tables@.len() as int,
    );
    lemma_namespace_line(
        families,
        10,
        "mynosql_persist_queue_partitions"@,
        namespaces,
        k,
        |n: DbNamespace| n.persist_markers@.partitions.dom().len() as int,
    );
    lemma_namespace_line(
        families,
        11,
        "mynosql_persist_queue_tables_metadata"@,
        namespaces,
        k,
        |n: DbNamespace| n.persist_markers@.metadata.dom().len() as int,
    );
    lemma_namespace_line(
        families,
        12,
        "mynosql_persist_tasks_written_total"@,
        namespaces,
        k,
        |n: DbNamespace| n.persisted_total as int,
    );
}

/// A scrape has, of every table and of every namespace, the lines which say its numbers.
pub proof fn a_scrape_has_a_line_for_every_number<P, A>(
    text: Seq<char>,
    app: AppContext<P, A>,
    http_connections: int,
)
    requires
        app.wf(),
        is_scrape_of(text, app, http_connections),
    ensures
        forall|k: int, m: int|
            0 <= k < app.namespaces@.len() && 0 <= m < app.namespaces@[k].tables@.len()
                ==> has_table_lines(
                text,
                app.namespaces@[k],
                #[trigger] app.namespaces@[k].tables@[m],
            ),
        forall|k: int|
            0 <= k < app.namespaces@.len() ==> has_namespace_lines(
                text,
                #[trigger] app.namespaces@[k],
            ),
{
    every_metric_says_what_it_is_named_after(text, app, http_connections);
    let (families, kinds, readers) = choose|
        families: Seq<Family>,
        kinds: Seq<TextTriple>,
        readers: Seq<ReaderView>,
    | #[trigger] is_made_of(text, app, http_connections, families, kinds, readers);
    assert forall|k: int, m: int|
        0 <= k < app.namespaces@.len() && 0 <= m
            < app.namespaces@[k].tables@.len() implies has_table_lines(
        text,
        app.namespaces@[k],
        #[trigger] app.namespaces@[k].tables@[m],
    ) by {
        lemma_lines_of_table(text, app, http_connections, families, kinds, readers, k, m);
    }
    assert forall|k: int| 0 <= k < app.namespaces@.len() implies has_namespace_lines(
        text,
        #[trigger] app.namespaces@[k],
    ) by {
        lemma_lines_of_namespace(text, app, http_connections, families, kinds, readers, k);
    }
}

/// A scrape has the lines which say the numbers of the server itself.
pub proof fn a_scrape_has_the_lines_of_the_server<P, A>(
    text: Seq<char>,
    app: AppContext<P, A>,
    http_connections: int,
)
    requires
        app.wf(),
        is_scrape_of(text, app, http_connections),
    ensures
        is_line(
            text,
            "mynosql_namespaces "@ + decimal(app.namespaces@.len()) + "\n"@,
        ),
        is_line(
            text,
            "mynosql_transactions_open "@ + decimal(app.transactions.map().dom().len()) + "\n"@,
        ),
        is_line(
            text,
            "mynosql_http_connections "@ + signed_decimal(http_connections) + "\n"@,
        ),
        is_line(
            text,
            "mynosql_initialized "@ + (if app.initialized {
                "1"@
            } else {
                "0"@
            }) + "\n"@,
        ),
{
    every_metric_says_what_it_is_named_after(text, app, http_connections);
    let (families, kinds, readers) = choose|
        families: Seq<Family>,
        kinds: Seq<TextTriple>,
        readers: Seq<ReaderView>,
    | #[trigger] is_made_of(text, app, http_connections, families, kinds, readers);
    lemma_one_line(families, 4, app.namespaces@.len() as int);
    lemma_one_line(families, 3, app.transactions.map().dom().len() as int);
    lemma_one_line(families, 2, http_connections);
    let initialized: int = if app.initialized {
        1
    } else {
        0
    };
    lemma_one_line(families, 1, initialized);
    assert("mynosql_namespaces"@ + " "@ =~= "mynosql_namespaces "@) by {
        reveal_strlit("mynosql_namespaces");
        reveal_strlit("mynosql_namespaces ");
        reveal_strlit(" ");
    }
    assert("mynosql_transactions_open"@ + " "@ =~= "mynosql_transactions_open "@) by {
        reveal_strlit("mynosql_transactions_open");
        reveal_strlit("mynosql_transactions_open ");
        reveal_strlit(" ");
    }
    assert("mynosql_http_connections"@ + " "@ =~= "mynosql_http_connections "@) by {
        reveal_strlit("mynosql_http_connections");
        reveal_strlit("mynosql_http_connections ");
        reveal_strlit(" ");
    }
    assert("mynosql_initialized"@ + " "@ =~= "mynosql_initialized "@) by {
        reveal_strlit("mynosql_initialized");
        reveal_strlit("mynosql_initialized ");
        reveal_strlit(" ");
    }
    assert(decimal(0) =~= "0"@ && decimal(1) =~= "1"@) by {
        reveal_strlit("0");
        reveal_strlit("1");
    }
}

/// A metric with one number of the server itself is one line.
proof fn lemma_one_line(families: Seq<Family>, f: int, value: int)
    requires
        0 <= f < families.len(),
        says_one(families[f], value),
    ensures
        is_line(
            exposition(families),
            families[f].name + " "@ + signed_decimal(value) + "\n"@,
        ),
{
    let sample = Sample { labels: Seq::empty(), value };
    assert(families[f].samples[0] == sample);
    every_sample_has_its_line(families);
    assert(is_line(exposition(families), sample_text(families[f].name, families[f].samples[0])));
    a_sample_is_one_line(families[f].name, sample);
}

/// The two lines a metric declares itself with.
pub open spec fn declaration(family: Family) -> Seq<char> {
    "# HELP "@ + family.name + " "@ + family.help + "\n# TYPE "@ + family.name + (match family.kind {
        MetricKind::Gauge => " gauge\n"@,
        MetricKind::Counter => " counter\n"@,
    })
}

/// A metric as it is written: its declaration, and its samples line by line.
pub open spec fn metric_block(family: Family) -> Seq<char> {
    declaration(family) + Seq::new(
        family.samples.len(),
        |i: int| sample_text(family.name, family.samples[i]),
    ).flatten()
}

proof fn lemma_block(family: Family)
    ensures
        family_text(family) == metric_block(family),
{
    lemma_samples_in_a_row(family.name, family.samples);
    lemma_declaration(family);
}

proof fn lemma_declaration(family: Family)
    ensures
        header_text(family.name, family.help, family.kind) == declaration(family),
{
    reveal_strlit("\n");
    reveal_strlit(" ");
    reveal_strlit("# TYPE ");
    reveal_strlit("\n# TYPE ");
    reveal_strlit(" gauge\n");
    reveal_strlit(" counter\n");
    reveal_strlit("gauge");
    reveal_strlit("counter");
    assert(header_text(family.name, family.help, family.kind) =~= declaration(family));
}

/// A metric is declared right in front of its samples, by its name, with what it means and
/// what type it is, and the samples follow line by line.
pub proof fn a_metric_stands_in_front_of_its_samples(families: Seq<Family>, f: int)
    requires
        0 <= f < families.len(),
    ensures
        exists|before: Seq<char>, after: Seq<char>|
            exposition(families) == #[trigger] (before + metric_block(families[f]) + after),
    decreases families.len(),
{
    let family = families[f];
    let block = metric_block(family);
    lemma_block(family);
    let fewer = families.drop_last();
    if f == fewer.len() {
        let none = Seq::<char>::empty();
        assert(exposition(families) =~= exposition(fewer) + block + none);
    } else {
        a_metric_stands_in_front_of_its_samples(fewer, f);
        assert(fewer[f] == family);
        let (before, after) = choose|before: Seq<char>, after: Seq<char>|
            exposition(fewer) == #[trigger] (before + metric_block(fewer[f]) + after);
        let tail = after + family_text(families.last());
        assert(exposition(families) =~= before + block + tail);
    }
}

proof fn lemma_samples_in_a_row(name: Seq<char>, samples: Seq<Sample>)
    ensures
        samples_text(name, samples) == Seq::new(
            samples.len(),
            |i: int| sample_text(name, samples[i]),
        ).flatten(),
    decreases samples.len(),
{
    let lines = Seq::new(samples.len(), |i: int| sample_text(name, samples[i]));
    lines.lemma_flatten_and_flatten_alt_are_equivalent();
    if samples.len() > 0 {
        let front = samples.drop_last();
        lemma_samples_in_a_row(name, front);
        let fewer = Seq::new(front.len(), |i: int| sample_text(name, front[i]));
        assert(lines.drop_last() =~= fewer);
        fewer.lemma_flatten_and_flatten_alt_are_equivalent();
    }
}

}
