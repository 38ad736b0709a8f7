//! What holds of every scrape.

use crate::app::{AppContext, DbNamespace, DbTable};
use crate::monitoring::metrics::{
    are_the_kinds, group_of, has_kind, is_reported, is_said_of_namespaces, is_scrape_of,
    kind_of, namespace_value, per_group, per_namespace, per_table, reader_families,
    report_namespaces, report_tables, reports, says, says_namespaces, table_numbers,
    table_value, tables_of, GroupColumn, NamespaceColumn, NamespaceNumbers, TableColumn,
    TableNumbers,
};
use crate::monitoring::metrics_writer::Sample;
use crate::monitoring::readers::{is_shown, readers_in_order, show_all, ReaderView};
use crate::names::{is_ascending, is_listed, names_differ};
use crate::reader::reader_session::ReaderSession;
use crate::text::{lemma_text_before_once, text_before};
use crate::triples::{lemma_triple_before_once, triple_before, TextTriple};
use vstd::prelude::*;
use vstd::set_lib::lemma_subset_equality;

verus! {

/// Whether everything comes before everything behind it.
spec fn ascends<K>(keys: Seq<K>, before: spec_fn(K, K) -> bool) -> bool {
    forall|i: int, j: int|
        #![trigger keys[i], keys[j]]
        0 <= i < j < keys.len() ==> before(keys[i], keys[j])
}

/// An order leaves nothing open: two lists of the same things in it are the same.
proof fn lemma_one_order<K>(a: Seq<K>, b: Seq<K>, before: spec_fn(K, K) -> bool)
    requires
        forall|x: K, y: K| #[trigger] before(x, y) ==> !before(y, x),
        ascends(a, before),
        ascends(b, before),
        forall|x: K| #[trigger] a.contains(x) <==> b.contains(x),
    ensures
        a == b,
    decreases a.len(),
{
    if a.len() == 0 {
        if b.len() > 0 {
            assert(b.contains(b[0]));
            assert(a.contains(b[0]));
        }
        assert(a =~= b);
    } else {
        assert(a.contains(a.last()));
        assert(b.contains(a.last()));
        let j = choose|j: int| 0 <= j < b.len() && b[j] == a.last();
        assert(b.contains(b.last()));
        assert(a.contains(b.last()));
        let i = choose|i: int| 0 <= i < a.len() && a[i] == b.last();
        assert(a.last() == b.last()) by {
            if j < b.len() - 1 && i < a.len() - 1 {
                assert(before(b[j], b[b.len() - 1]));
                assert(before(a[i], a[a.len() - 1]));
            }
        }
        let (fewer, less) = (a.drop_last(), b.drop_last());
        assert forall|x: K| #[trigger] fewer.contains(x) <==> less.contains(x) by {
            if fewer.contains(x) {
                let k = choose|k: int| 0 <= k < fewer.len() && fewer[k] == x;
                assert(a[k] == x);
                assert(a.contains(x));
                let m = choose|m: int| 0 <= m < b.len() && b[m] == x;
                assert(before(a[k], a[a.len() - 1]));
                assert(m < less.len());
                assert(less[m] == x);
            }
            if less.contains(x) {
                let k = choose|k: int| 0 <= k < less.len() && less[k] == x;
                assert(b[k] == x);
                assert(b.contains(x));
                assert(a.contains(x));
                let m = choose|m: int| 0 <= m < a.len() && a[m] == x;
                assert(before(b[k], b[b.len() - 1]));
                assert(m < fewer.len());
                assert(fewer[m] == x);
            }
        }
        lemma_one_order(fewer, less, before);
        assert(a =~= fewer.push(a.last()));
        assert(b =~= less.push(b.last()));
    }
}

/// Where there are as many names as there are places for them, every place has one.
proof fn lemma_all_places(places: Seq<Seq<char>>, names: Seq<Seq<char>>, i: int)
    requires
        places.no_duplicates(),
        names.no_duplicates(),
        places.len() == names.len(),
        forall|j: int| 0 <= j < names.len() ==> places.contains(#[trigger] names[j]),
        0 <= i < places.len(),
    ensures
        names.contains(places[i]),
{
    places.unique_seq_to_set();
    names.unique_seq_to_set();
    assert(names.to_set().subset_of(places.to_set())) by {
        assert forall|x: Seq<char>| names.to_set().contains(x) implies places.to_set().contains(
            x,
        ) by {
            let j = choose|j: int| 0 <= j < names.len() && names[j] == x;
            assert(places.contains(names[j]));
        }
    }
    lemma_subset_equality(names.to_set(), places.to_set());
    assert(places.contains(places[i]));
    assert(places.to_set().contains(places[i]));
}

spec fn table_names(tables: Seq<DbTable>) -> Seq<Seq<char>> {
    Seq::new(tables.len(), |i: int| tables[i].name@)
}

spec fn reported_names(reported: Seq<TableNumbers>) -> Seq<Seq<char>> {
    Seq::new(reported.len(), |i: int| reported[i].name)
}

spec fn namespace_names(namespaces: Seq<DbNamespace>) -> Seq<Seq<char>> {
    Seq::new(namespaces.len(), |i: int| namespaces[i].name@)
}

spec fn reported_namespaces(reported: Seq<NamespaceNumbers>) -> Seq<Seq<char>> {
    Seq::new(reported.len(), |i: int| reported[i].name)
}

spec fn text_order() -> spec_fn(Seq<char>, Seq<char>) -> bool {
    |a: Seq<char>, b: Seq<char>| text_before(a, b)
}

proof fn lemma_text_order()
    ensures
        forall|a: Seq<char>, b: Seq<char>| #[trigger] text_order()(a, b) ==> !text_order()(b, a),
{
    assert forall|a: Seq<char>, b: Seq<char>| #[trigger]
        text_order()(a, b) implies !text_order()(b, a) by {
        lemma_text_before_once(a, b);
    }
}

proof fn lemma_ascending_names(names: Seq<Seq<char>>)
    requires
        ascends(names, text_order()),
    ensures
        names.no_duplicates(),
{
    assert forall|i: int, j: int|
        0 <= i < names.len() && 0 <= j < names.len() && i != j implies names[i] != names[j] by {
        lemma_text_before_once(names[i], names[j]);
        if i < j {
            assert(text_order()(names[i], names[j]));
        } else {
            assert(text_order()(names[j], names[i]));
        }
    }
}

/// What is reported at a place is reported of a table.
proof fn lemma_reported_table(reported: Seq<TableNumbers>, tables: Seq<DbTable>, i: int) -> (j: int)
    requires
        report_tables(reported, tables),
        names_differ(tables),
        0 <= i < reported.len(),
    ensures
        0 <= j < tables.len(),
        reported[i] == table_numbers(tables[j]),
{
    let places = reported_names(reported);
    let names = table_names(tables);
    assert(ascends(places, text_order()));
    lemma_ascending_names(places);
    assert forall|a: int, b: int|
        0 <= a < names.len() && 0 <= b < names.len() && a != b implies names[a] != names[b] by {
        if a < b {
            assert(tables[a].name@ != tables[b].name@);
        } else {
            assert(tables[b].name@ != tables[a].name@);
        }
    }
    assert forall|k: int| 0 <= k < names.len() implies places.contains(#[trigger] names[k]) by {
        assert(reported.contains(table_numbers(tables[k])));
        let m = choose|m: int| 0 <= m < reported.len() && reported[m] == table_numbers(tables[k]);
        assert(places[m] == names[k]);
    }
    lemma_all_places(places, names, i);
    let j = choose|j: int| 0 <= j < names.len() && names[j] == places[i];
    assert(reported.contains(table_numbers(tables[j])));
    let m = choose|m: int| 0 <= m < reported.len() && reported[m] == table_numbers(tables[j]);
    assert(places[m] == places[i]);
    j
}

/// There is one way to report some tables.
proof fn lemma_one_report_of_tables(
    a: Seq<TableNumbers>,
    b: Seq<TableNumbers>,
    tables: Seq<DbTable>,
)
    requires
        report_tables(a, tables),
        report_tables(b, tables),
        names_differ(tables),
    ensures
        a == b,
{
    let order = |x: TableNumbers, y: TableNumbers| text_before(x.name, y.name);
    assert forall|x: TableNumbers, y: TableNumbers| #[trigger] order(x, y) implies !order(y, x) by {
        lemma_text_before_once(x.name, y.name);
    }
    assert forall|x: TableNumbers| #[trigger] a.contains(x) <==> b.contains(x) by {
        if a.contains(x) {
            let i = choose|i: int| 0 <= i < a.len() && a[i] == x;
            let j = lemma_reported_table(a, tables, i);
            assert(b.contains(table_numbers(tables[j])));
        }
        if b.contains(x) {
            let i = choose|i: int| 0 <= i < b.len() && b[i] == x;
            let j = lemma_reported_table(b, tables, i);
            assert(a.contains(table_numbers(tables[j])));
        }
    }
    lemma_one_order(a, b, order);
}

/// There is one way to report a namespace.
proof fn lemma_one_report(a: NamespaceNumbers, b: NamespaceNumbers, namespace: DbNamespace)
    requires
        reports(a, namespace),
        reports(b, namespace),
        namespace.wf(),
    ensures
        a == b,
{
    lemma_one_report_of_tables(a.tables, b.tables, namespace.tables@);
    assert(a =~= b);
}

/// What is reported at a place is reported of a namespace.
proof fn lemma_reported_namespace(
    reported: Seq<NamespaceNumbers>,
    namespaces: Seq<DbNamespace>,
    i: int,
) -> (j: int)
    requires
        report_namespaces(reported, namespaces),
        names_differ(namespaces),
        0 <= i < reported.len(),
    ensures
        0 <= j < namespaces.len(),
        reports(reported[i], namespaces[j]),
{
    let places = reported_namespaces(reported);
    let names = namespace_names(namespaces);
    assert(ascends(places, text_order()));
    lemma_ascending_names(places);
    assert forall|a: int, b: int|
        0 <= a < names.len() && 0 <= b < names.len() && a != b implies names[a] != names[b] by {
        if a < b {
            assert(namespaces[a].name@ != namespaces[b].name@);
        } else {
            assert(namespaces[b].name@ != namespaces[a].name@);
        }
    }
    assert forall|k: int| 0 <= k < names.len() implies places.contains(#[trigger] names[k]) by {
        assert(is_reported(reported, namespaces[k]));
        let m = choose|m: int|
            0 <= m < reported.len() && reports(#[trigger] reported[m], namespaces[k]);
        assert(places[m] == names[k]);
    }
    lemma_all_places(places, names, i);
    let j = choose|j: int| 0 <= j < names.len() && names[j] == places[i];
    assert(is_reported(reported, namespaces[j]));
    let m = choose|m: int|
        0 <= m < reported.len() && reports(#[trigger] reported[m], namespaces[j]);
    assert(places[m] == places[i]);
    j
}

/// There is one way to report some namespaces.
proof fn lemma_one_report_of_namespaces(
    a: Seq<NamespaceNumbers>,
    b: Seq<NamespaceNumbers>,
    namespaces: Seq<DbNamespace>,
)
    requires
        report_namespaces(a, namespaces),
        report_namespaces(b, namespaces),
        names_differ(namespaces),
        forall|i: int| 0 <= i < namespaces.len() ==> (#[trigger] namespaces[i]).wf(),
    ensures
        a == b,
{
    let order = |x: NamespaceNumbers, y: NamespaceNumbers| text_before(x.name, y.name);
    assert forall|x: NamespaceNumbers, y: NamespaceNumbers| #[trigger]
        order(x, y) implies !order(y, x) by {
        lemma_text_before_once(x.name, y.name);
    }
    assert forall|x: NamespaceNumbers| #[trigger] a.contains(x) <==> b.contains(x) by {
        if a.contains(x) {
            let i = choose|i: int| 0 <= i < a.len() && a[i] == x;
            let j = lemma_reported_namespace(a, namespaces, i);
            assert(is_reported(b, namespaces[j]));
            let m = choose|m: int| 0 <= m < b.len() && reports(#[trigger] b[m], namespaces[j]);
            lemma_one_report(a[i], b[m], namespaces[j]);
        }
        if b.contains(x) {
            let i = choose|i: int| 0 <= i < b.len() && b[i] == x;
            let j = lemma_reported_namespace(b, namespaces, i);
            assert(is_reported(a, namespaces[j]));
            let m = choose|m: int| 0 <= m < a.len() && reports(#[trigger] a[m], namespaces[j]);
            lemma_one_report(b[i], a[m], namespaces[j]);
        }
    }
    lemma_one_order(a, b, order);
}

spec fn texts(names: Seq<String>) -> Seq<Seq<char>> {
    Seq::new(names.len(), |i: int| names[i]@)
}

/// There is one way to list some names in order.
proof fn lemma_one_list(a: Seq<String>, b: Seq<String>)
    requires
        is_ascending(a),
        is_ascending(b),
        forall|name: Seq<char>| #[trigger] is_listed(a, name) <==> is_listed(b, name),
    ensures
        a.len() == b.len(),
{
    lemma_text_order();
    assert forall|x: Seq<char>| #[trigger] texts(a).contains(x) <==> texts(b).contains(x) by {
        if texts(a).contains(x) {
            let i = choose|i: int| 0 <= i < a.len() && texts(a)[i] == x;
            assert(a[i]@ == x);
            assert(is_listed(a, x));
            let k = choose|k: int| 0 <= k < b.len() && (#[trigger] b[k])@ == x;
            assert(texts(b)[k] == x);
        }
        if texts(b).contains(x) {
            let i = choose|i: int| 0 <= i < b.len() && texts(b)[i] == x;
            assert(b[i]@ == x);
            assert(is_listed(b, x));
            assert(is_listed(a, x));
            let k = choose|k: int| 0 <= k < a.len() && (#[trigger] a[k])@ == x;
            assert(texts(a)[k] == x);
        }
    }
    lemma_one_order(texts(a), texts(b), text_order());
}

spec fn reader_places(readers: Seq<ReaderView>) -> Seq<TextTriple> {
    Seq::new(readers.len(), |i: int| readers[i].place())
}

spec fn triple_order() -> spec_fn(TextTriple, TextTriple) -> bool {
    |a: TextTriple, b: TextTriple| triple_before(a, b)
}

proof fn lemma_triple_order()
    ensures
        forall|a: TextTriple, b: TextTriple| #[trigger]
            triple_order()(a, b) ==> !triple_order()(b, a),
{
    assert forall|a: TextTriple, b: TextTriple| #[trigger]
        triple_order()(a, b) implies !triple_order()(b, a) by {
        lemma_triple_before_once(a, b);
    }
}

/// Whether two readers are reported alike.
spec fn alike(a: ReaderView, b: ReaderView) -> bool {
    &&& kind_of(a) == kind_of(b)
    &&& a.tables@.len() == b.tables@.len()
    &&& a.pending_chunks == b.pending_chunks
}

/// Of a reader which is shown the place is known.
proof fn lemma_shown_place(
    a: Seq<ReaderView>,
    b: Seq<ReaderView>,
    sessions: Map<Seq<char>, ReaderSession>,
    i: int,
) -> (j: int)
    requires
        show_all(a, sessions),
        show_all(b, sessions),
        0 <= i < a.len(),
    ensures
        0 <= j < b.len(),
        a[i].place() == b[j].place(),
        alike(a[i], b[j]),
{
    let id = a[i].id@;
    assert(is_shown(b, id));
    let j = choose|j: int| 0 <= j < b.len() && (#[trigger] b[j]).id@ == id;
    assert(a[i].shows(sessions[id]) && b[j].shows(sessions[id]));
    lemma_one_list(a[i].tables@, b[j].tables@);
    j
}

/// Readers which are shown twice are shown alike.
proof fn lemma_one_show(
    a: Seq<ReaderView>,
    b: Seq<ReaderView>,
    sessions: Map<Seq<char>, ReaderSession>,
)
    requires
        show_all(a, sessions),
        show_all(b, sessions),
        readers_in_order(a),
        readers_in_order(b),
    ensures
        a.len() == b.len(),
        forall|i: int| 0 <= i < a.len() ==> alike(#[trigger] a[i], b[i]),
{
    lemma_triple_order();
    let (x, y) = (reader_places(a), reader_places(b));
    assert forall|p: TextTriple| #[trigger] x.contains(p) <==> y.contains(p) by {
        if x.contains(p) {
            let i = choose|i: int| 0 <= i < x.len() && x[i] == p;
            let j = lemma_shown_place(a, b, sessions, i);
            assert(y[j] == p);
        }
        if y.contains(p) {
            let i = choose|i: int| 0 <= i < y.len() && y[i] == p;
            let j = lemma_shown_place(b, a, sessions, i);
            assert(x[j] == p);
        }
    }
    lemma_one_order(x, y, triple_order());
    assert forall|i: int| 0 <= i < a.len() implies alike(#[trigger] a[i], b[i]) by {
        let j = lemma_shown_place(a, b, sessions, i);
        assert(x[i] == y[i] && x[i] == y[j]);
        if i < j {
            assert(triple_before(b[i].place(), b[j].place()));
            lemma_triple_before_once(b[i].place(), b[j].place());
        } else if j < i {
            assert(triple_before(b[j].place(), b[i].place()));
            lemma_triple_before_once(b[j].place(), b[i].place());
        }
    }
}

proof fn lemma_groups_alike(a: Seq<ReaderView>, b: Seq<ReaderView>, key: TextTriple)
    requires
        a.len() == b.len(),
        forall|i: int| 0 <= i < a.len() ==> alike(#[trigger] a[i], b[i]),
    ensures
        group_of(a, key) == group_of(b, key),
    decreases a.len(),
{
    if a.len() > 0 {
        assert forall|i: int| 0 <= i < a.len() - 1 implies alike(
            #[trigger] a.drop_last()[i],
            b.drop_last()[i],
        ) by {
            assert(alike(a[i], b[i]));
        }
        lemma_groups_alike(a.drop_last(), b.drop_last(), key);
        assert(alike(a[a.len() - 1], b[b.len() - 1]));
    }
}

proof fn lemma_kinds_alike(a: Seq<ReaderView>, b: Seq<ReaderView>, key: TextTriple)
    requires
        a.len() == b.len(),
        forall|i: int| 0 <= i < a.len() ==> alike(#[trigger] a[i], b[i]),
        has_kind(a, key),
    ensures
        has_kind(b, key),
{
    let i = choose|i: int| 0 <= i < a.len() && kind_of(#[trigger] a[i]) == key;
    assert(alike(a[i], b[i]));
    assert(kind_of(b[i]) == key);
}

/// Readers which are shown alike are reported alike.
proof fn lemma_one_report_of_readers(
    a: Seq<ReaderView>,
    b: Seq<ReaderView>,
    x: Seq<TextTriple>,
    y: Seq<TextTriple>,
)
    requires
        a.len() == b.len(),
        forall|i: int| 0 <= i < a.len() ==> alike(#[trigger] a[i], b[i]),
        are_the_kinds(x, a),
        are_the_kinds(y, b),
    ensures
        reader_families(x, a) == reader_families(y, b),
{
    lemma_triple_order();
    assert forall|i: int| 0 <= i < b.len() implies alike(#[trigger] b[i], a[i]) by {
        assert(alike(a[i], b[i]));
    }
    assert forall|key: TextTriple| #[trigger] x.contains(key) <==> y.contains(key) by {
        if has_kind(a, key) {
            lemma_kinds_alike(a, b, key);
        }
        if has_kind(b, key) {
            lemma_kinds_alike(b, a, key);
        }
    }
    lemma_one_order(x, y, triple_order());
    assert forall|column: GroupColumn| #[trigger] per_group(x, a, column) == per_group(
        y,
        b,
        column,
    ) by {
        assert forall|i: int| 0 <= i < x.len() implies group_of(a, #[trigger] x[i]) == group_of(
            b,
            x[i],
        ) by {
            lemma_groups_alike(a, b, x[i]);
        }
        assert(per_group(x, a, column) =~= per_group(y, b, column));
    }
    assert(reader_families(x, a) =~= reader_families(y, b));
}

/// A server which did not change is reported in the same words: whatever order its
/// tables, namespaces and sessions happen to be held in, two scrapes can be compared.
pub proof fn two_scrapes_of_an_unchanged_server_are_the_same<P, A>(
    app: AppContext<P, A>,
    http_connections: int,
    first: Seq<char>,
    second: Seq<char>,
)
    requires
        app.wf(),
        is_scrape_of(first, app, http_connections),
        is_scrape_of(second, app, http_connections),
    ensures
        first == second,
{
    let (reported, readers, keys) = choose|
        reported: Seq<NamespaceNumbers>,
        readers: Seq<ReaderView>,
        keys: Seq<TextTriple>,
    |
        says(first, app, http_connections, reported, readers, keys);
    let (again, others, kinds) = choose|
        reported: Seq<NamespaceNumbers>,
        readers: Seq<ReaderView>,
        keys: Seq<TextTriple>,
    |
        says(second, app, http_connections, reported, readers, keys);
    lemma_one_report_of_namespaces(reported, again, app.namespaces@);
    lemma_one_show(readers, others, app.reader_sessions.map());
    lemma_one_report_of_readers(readers, others, keys, kinds);
}

/// Which table of which namespace a sample of a table metric is about.
pub open spec fn subject(sample: Sample) -> (Seq<char>, Seq<char>) {
    (sample.labels[0].1, sample.labels[1].1)
}

/// Whether a table comes before another one: by namespace, then by name.
pub open spec fn subject_before(a: (Seq<char>, Seq<char>), b: (Seq<char>, Seq<char>)) -> bool {
    text_before(a.0, b.0) || (a.0 == b.0 && text_before(a.1, b.1))
}

/// The sample of a table.
pub open spec fn table_sample(
    name_space: Seq<char>,
    table: TableNumbers,
    column: TableColumn,
) -> Sample {
    Sample {
        labels: seq![("ns"@, name_space), ("table"@, table.name)],
        value: table_value(table, column),
    }
}

/// The sample of a namespace.
pub open spec fn namespace_sample(reported: NamespaceNumbers, column: NamespaceColumn) -> Sample {
    Sample {
        labels: seq![("ns"@, reported.name)],
        value: namespace_value(reported, column),
    }
}

/// Whether the sample is that of some table which is there.
pub open spec fn is_of_a_table(
    sample: Sample,
    namespaces: Seq<DbNamespace>,
    column: TableColumn,
) -> bool {
    exists|k: int, m: int|
        0 <= k < namespaces.len() && 0 <= m < namespaces[k].tables@.len() && sample
            == table_sample(
            namespaces[k].name@,
            table_numbers(#[trigger] namespaces[k].tables@[m]),
            column,
        )
}

spec fn is_of_a_reported_table(
    sample: Sample,
    reported: Seq<NamespaceNumbers>,
    column: TableColumn,
) -> bool {
    exists|k: int, m: int|
        0 <= k < reported.len() && 0 <= m < reported[k].tables.len() && sample == table_sample(
            reported[k].name,
            #[trigger] reported[k].tables[m],
            column,
        )
}

/// The samples of the tables which are reported: theirs, nobody else's, in order.
proof fn lemma_table_samples(reported: Seq<NamespaceNumbers>, column: TableColumn)
    requires
        forall|i: int, j: int|
            #![trigger reported[i], reported[j]]
            0 <= i < j < reported.len() ==> text_before(reported[i].name, reported[j].name),
        forall|k: int, i: int, j: int|
            #![trigger reported[k].tables[i], reported[k].tables[j]]
            0 <= k < reported.len() && 0 <= i < j < reported[k].tables.len() ==> text_before(
                reported[k].tables[i].name,
                reported[k].tables[j].name,
            ),
    ensures
        forall|i: int|
            0 <= i < per_table(reported, column).len() ==> is_of_a_reported_table(
                #[trigger] per_table(reported, column)[i],
                reported,
                column,
            ),
        forall|k: int, m: int|
            0 <= k < reported.len() && 0 <= m < reported[k].tables.len() ==> per_table(
                reported,
                column,
            ).contains(table_sample(reported[k].name, #[trigger] reported[k].tables[m], column)),
        forall|i: int, j: int|
            #![trigger per_table(reported, column)[i], per_table(reported, column)[j]]
            0 <= i < j < per_table(reported, column).len() ==> subject_before(
                subject(per_table(reported, column)[i]),
                subject(per_table(reported, column)[j]),
            ),
    decreases reported.len(),
{
    if reported.len() > 0 {
        let fewer = reported.drop_last();
        let last = reported.last();
        let end = reported.len() - 1;
        let front = per_table(fewer, column);
        let back = tables_of(last.name, last.tables, column);
        let all = per_table(reported, column);
        assert(all == front + back);
        assert forall|k: int, i: int, j: int|
            #![trigger fewer[k].tables[i], fewer[k].tables[j]]
            0 <= k < fewer.len() && 0 <= i < j < fewer[k].tables.len() implies text_before(
            fewer[k].tables[i].name,
            fewer[k].tables[j].name,
        ) by {
            assert(reported[k].tables[i] == fewer[k].tables[i]);
            assert(reported[k].tables[j] == fewer[k].tables[j]);
        }
        lemma_table_samples(fewer, column);
        assert forall|i: int| 0 <= i < back.len() implies #[trigger] back[i] == table_sample(
            last.name,
            last.tables[i],
            column,
        ) by {}
        assert forall|i: int| 0 <= i < all.len() implies is_of_a_reported_table(
            #[trigger] all[i],
            reported,
            column,
        ) by {
            if i < front.len() {
                assert(all[i] == front[i]);
                assert(is_of_a_reported_table(front[i], fewer, column));
                let (k, m) = choose|k: int, m: int|
                    0 <= k < fewer.len() && 0 <= m < fewer[k].tables.len() && front[i]
                        == table_sample(fewer[k].name, #[trigger] fewer[k].tables[m], column);
                assert(reported[k].tables[m] == fewer[k].tables[m]);
            } else {
                let m = i - front.len();
                assert(all[i] == back[m]);
                assert(reported[end].tables[m] == last.tables[m]);
            }
        }
        assert forall|k: int, m: int|
            0 <= k < reported.len() && 0 <= m < reported[k].tables.len() implies all.contains(
            table_sample(reported[k].name, #[trigger] reported[k].tables[m], column),
        ) by {
            if k < end {
                assert(fewer[k].tables[m] == reported[k].tables[m]);
                let i = choose|i: int|
                    0 <= i < front.len() && front[i] == table_sample(
                        fewer[k].name,
                        fewer[k].tables[m],
                        column,
                    );
                assert(all[i] == front[i]);
            } else {
                assert(all[front.len() + m] == back[m]);
            }
        }
        assert forall|i: int, j: int|
            #![trigger all[i], all[j]]
            0 <= i < j < all.len() implies subject_before(subject(all[i]), subject(all[j])) by {
            if j < front.len() {
                assert(all[i] == front[i] && all[j] == front[j]);
            } else if i < front.len() {
                assert(all[i] == front[i] && all[j] == back[j - front.len()]);
                assert(is_of_a_reported_table(front[i], fewer, column));
                let (k, m) = choose|k: int, m: int|
                    0 <= k < fewer.len() && 0 <= m < fewer[k].tables.len() && front[i]
                        == table_sample(fewer[k].name, #[trigger] fewer[k].tables[m], column);
                assert(text_before(reported[k].name, reported[end].name));
            } else {
                assert(all[i] == back[i - front.len()] && all[j] == back[j - front.len()]);
                assert(text_before(
                    reported[end].tables[i - front.len()].name,
                    reported[end].tables[j - front.len()].name,
                ));
            }
        }
    }
}

/// Whether there is one sample for every table of every namespace and no other, by
/// namespace and then by table.
pub open spec fn is_one_sample_per_table(
    samples: Seq<Sample>,
    namespaces: Seq<DbNamespace>,
    column: TableColumn,
) -> bool {
    &&& forall|i: int|
        0 <= i < samples.len() ==> is_of_a_table(#[trigger] samples[i], namespaces, column)
    &&& forall|k: int, m: int|
        0 <= k < namespaces.len() && 0 <= m < namespaces[k].tables@.len() ==> samples.contains(
            table_sample(
                namespaces[k].name@,
                table_numbers(#[trigger] namespaces[k].tables@[m]),
                column,
            ),
        )
    &&& forall|i: int, j: int|
        #![trigger samples[i], samples[j]]
        0 <= i < j < samples.len() ==> subject_before(subject(samples[i]), subject(samples[j]))
}

/// A metric of tables has one sample for every table of every namespace and no other
/// - a table which is deleted has none - by namespace and then by table: each stands
/// behind those which come before it, so none is there twice.
pub proof fn every_table_has_one_sample(
    reported: Seq<NamespaceNumbers>,
    namespaces: Seq<DbNamespace>,
    column: TableColumn,
)
    requires
        report_namespaces(reported, namespaces),
        names_differ(namespaces),
        forall|i: int| 0 <= i < namespaces.len() ==> (#[trigger] namespaces[i]).wf(),
    ensures
        is_one_sample_per_table(per_table(reported, column), namespaces, column),
{
    let samples = per_table(reported, column);
    assert forall|k: int, i: int, j: int|
        #![trigger reported[k].tables[i], reported[k].tables[j]]
        0 <= k < reported.len() && 0 <= i < j < reported[k].tables.len() implies text_before(
        reported[k].tables[i].name,
        reported[k].tables[j].name,
    ) by {
        let at = lemma_reported_namespace(reported, namespaces, k);
        assert(report_tables(reported[k].tables, namespaces[at].tables@));
    }
    lemma_table_samples(reported, column);
    assert forall|i: int| 0 <= i < samples.len() implies is_of_a_table(
        #[trigger] samples[i],
        namespaces,
        column,
    ) by {
        assert(is_of_a_reported_table(samples[i], reported, column));
        let (k, m) = choose|k: int, m: int|
            0 <= k < reported.len() && 0 <= m < reported[k].tables.len() && samples[i]
                == table_sample(reported[k].name, #[trigger] reported[k].tables[m], column);
        let at = lemma_reported_namespace(reported, namespaces, k);
        assert(namespaces[at].wf());
        let j = lemma_reported_table(reported[k].tables, namespaces[at].tables@, m);
        assert(samples[i] == table_sample(
            namespaces[at].name@,
            table_numbers(namespaces[at].tables@[j]),
            column,
        ));
    }
    assert forall|k: int, m: int|
        0 <= k < namespaces.len() && 0 <= m < namespaces[k].tables@.len() implies samples.contains(
        table_sample(
            namespaces[k].name@,
            table_numbers(#[trigger] namespaces[k].tables@[m]),
            column,
        ),
    ) by {
        assert(is_reported(reported, namespaces[k]));
        let at = choose|at: int|
            0 <= at < reported.len() && reports(#[trigger] reported[at], namespaces[k]);
        assert(reported[at].tables.contains(table_numbers(namespaces[k].tables@[m])));
        let j = choose|j: int|
            0 <= j < reported[at].tables.len() && reported[at].tables[j] == table_numbers(
                namespaces[k].tables@[m],
            );
        assert(samples.contains(
            table_sample(reported[at].name, reported[at].tables[j], column),
        ));
    }
}

/// Whether the sample is that of a namespace.
pub open spec fn is_of_namespace(
    sample: Sample,
    namespace: DbNamespace,
    column: NamespaceColumn,
) -> bool {
    exists|numbers: NamespaceNumbers| #[trigger]
        reports(numbers, namespace) && sample == namespace_sample(numbers, column)
}

/// Whether the sample is that of some namespace which is there.
pub open spec fn is_of_a_namespace(
    sample: Sample,
    namespaces: Seq<DbNamespace>,
    column: NamespaceColumn,
) -> bool {
    exists|j: int|
        0 <= j < namespaces.len() && is_of_namespace(sample, #[trigger] namespaces[j], column)
}

/// Whether a namespace has a sample among some.
pub open spec fn has_sample(
    samples: Seq<Sample>,
    namespace: DbNamespace,
    column: NamespaceColumn,
) -> bool {
    exists|i: int|
        0 <= i < samples.len() && is_of_namespace(#[trigger] samples[i], namespace, column)
}

/// Whether there is one sample for every namespace and no other, by name.
pub open spec fn is_one_sample_per_namespace(
    samples: Seq<Sample>,
    namespaces: Seq<DbNamespace>,
    column: NamespaceColumn,
) -> bool {
    &&& samples.len() == namespaces.len()
    &&& forall|i: int|
        0 <= i < namespaces.len() ==> is_of_a_namespace(#[trigger] samples[i], namespaces, column)
    &&& forall|j: int|
        0 <= j < namespaces.len() ==> has_sample(samples, #[trigger] namespaces[j], column)
    &&& forall|i: int, j: int|
        #![trigger samples[i], samples[j]]
        0 <= i < j < namespaces.len() ==> text_before(
            samples[i].labels[0].1,
            samples[j].labels[0].1,
        )
}

/// A metric of namespaces has one sample for every namespace and no other, by name:
/// each stands behind those which come before it, so none is there twice.
pub proof fn every_namespace_has_one_sample(
    reported: Seq<NamespaceNumbers>,
    namespaces: Seq<DbNamespace>,
    column: NamespaceColumn,
)
    requires
        report_namespaces(reported, namespaces),
        names_differ(namespaces),
    ensures
        is_one_sample_per_namespace(per_namespace(reported, column), namespaces, column),
{
    let samples = per_namespace(reported, column);
    assert forall|i: int| 0 <= i < namespaces.len() implies is_of_a_namespace(
        #[trigger] samples[i],
        namespaces,
        column,
    ) by {
        let j = lemma_reported_namespace(reported, namespaces, i);
        assert(samples[i] == namespace_sample(reported[i], column));
        assert(is_of_namespace(samples[i], namespaces[j], column));
    }
    assert forall|j: int| 0 <= j < namespaces.len() implies has_sample(
        samples,
        #[trigger] namespaces[j],
        column,
    ) by {
        assert(is_reported(reported, namespaces[j]));
        let i = choose|i: int|
            0 <= i < reported.len() && reports(#[trigger] reported[i], namespaces[j]);
        assert(samples[i] == namespace_sample(reported[i], column));
        assert(is_of_namespace(samples[i], namespaces[j], column));
    }
    assert forall|i: int, j: int|
        #![trigger samples[i], samples[j]]
        0 <= i < j < namespaces.len() implies text_before(
        samples[i].labels[0].1,
        samples[j].labels[0].1,
    ) by {
        assert(text_before(reported[i].name, reported[j].name));
    }
}

/// Whether what was reported gives every table and every namespace its one sample in
/// every metric.
pub open spec fn is_reported_once(
    reported: Seq<NamespaceNumbers>,
    namespaces: Seq<DbNamespace>,
) -> bool {
    &&& forall|column: TableColumn| #[trigger]
        is_one_sample_per_table(per_table(reported, column), namespaces, column)
    &&& forall|column: NamespaceColumn| #[trigger]
        is_one_sample_per_namespace(per_namespace(reported, column), namespaces, column)
}

/// What is written of the namespaces has, in every metric, one sample for every table
/// and one for every namespace, in the order of their names, and what is written of
/// them twice is the same text.
pub proof fn namespaces_are_written_in_one_way(
    text: Seq<char>,
    again: Seq<char>,
    namespaces: Seq<DbNamespace>,
)
    requires
        is_said_of_namespaces(text, namespaces),
        is_said_of_namespaces(again, namespaces),
        names_differ(namespaces),
        forall|i: int| 0 <= i < namespaces.len() ==> (#[trigger] namespaces[i]).wf(),
    ensures
        again == text,
        exists|reported: Seq<NamespaceNumbers>| #[trigger]
            says_namespaces(text, namespaces, reported) && is_reported_once(reported, namespaces),
{
    let a = choose|reported: Seq<NamespaceNumbers>| #[trigger]
        says_namespaces(text, namespaces, reported);
    let b = choose|reported: Seq<NamespaceNumbers>| #[trigger]
        says_namespaces(again, namespaces, reported);
    lemma_one_report_of_namespaces(a, b, namespaces);
    assert forall|column: TableColumn| #[trigger]
        is_one_sample_per_table(per_table(a, column), namespaces, column) by {
        every_table_has_one_sample(a, namespaces, column);
    }
    assert forall|column: NamespaceColumn| #[trigger]
        is_one_sample_per_namespace(per_namespace(a, column), namespaces, column) by {
        every_namespace_has_one_sample(a, namespaces, column);
    }
    assert(is_reported_once(a, namespaces));
}

}
