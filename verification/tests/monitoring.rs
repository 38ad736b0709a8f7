//! What the server says about itself.

use my_no_sql_server_grpc::app::{AppContext, DbNamespace, DbTable, DbTableMetrics};
use my_no_sql_server_grpc::db::{DateTimeAsMicroseconds, DbTableAttributes, EntitySchema};
use my_no_sql_server_grpc::monitoring::metrics;
use my_no_sql_server_grpc::monitoring::metrics_writer::{MetricKind, MetricsWriter};
use my_no_sql_server_grpc::monitoring::moments::millis_ago;
use my_no_sql_server_grpc::monitoring::readers;
use my_no_sql_server_grpc::monitoring::status;
use my_no_sql_server_grpc::persist::markers::persist_markers::PersistMarkers;
use my_no_sql_server_grpc::reader::sync_chunk::SyncChunk;
use my_no_sql_server_grpc::settings_reader::{SettingsModel, SETTINGS_FILE};

type App = AppContext<u32, u32>;

fn moment(micros: i64) -> DateTimeAsMicroseconds {
    DateTimeAsMicroseconds::new(micros)
}

fn settings() -> SettingsModel {
    SettingsModel {
        persistence_dest: "/data".to_string(),
        location: "test".to_string(),
        compress_data: true,
        skip_broken_partitions: false,
        backups_dest: None,
        backup_interval_secs: None,
        max_backups: None,
        api_key: None,
    }
}

fn table(name: &str, rows_amount: usize) -> DbTable {
    DbTable {
        name: name.to_string(),
        attributes: DbTableAttributes {
            schemas: vec![EntitySchema {
                id: 1,
                schema: vec![1],
            }],
            ..DbTableAttributes::create_default(moment(3))
        },
        metrics: DbTableMetrics {
            partitions_amount: 1,
            rows_amount,
            content_size: rows_amount * 10,
        },
        last_write_moment: Some(moment(4)),
    }
}

fn namespace(name: &str, tables: Vec<DbTable>) -> DbNamespace {
    let mut persist_markers = PersistMarkers::new();
    for table in &tables {
        persist_markers.persist_partition(&table.name, "acc-1", moment(60_000_000));
        persist_markers.persist_table_metadata(&table.name, moment(60_000_000));
    }
    DbNamespace {
        name: name.to_string(),
        tables,
        persist_markers,
        persisted_total: 9,
        last_persisted: None,
    }
}

fn start() -> App {
    let mut app: App = AppContext::new(
        settings(),
        "1.2.3".to_string(),
        "127.0.0.1:8888".to_string(),
        "0.0.0.0:8000".to_string(),
        moment(1_000_000),
    );
    app.initialized = true;
    app.namespaces.push(namespace("default", vec![table("traders", 1)]));
    app
}

/// A line of the exposition format, as a scraper would read it.
fn sample(rendered: &str, prefix: &str) -> Option<String> {
    rendered
        .lines()
        .find(|line| line.starts_with(prefix))
        .map(|line| line.to_string())
}

#[test]
fn a_family_carries_its_header_and_its_samples() {
    let mut writer = MetricsWriter::new();

    writer.family("some_total", "How many", MetricKind::Counter, |family| {
        family.sample(&[("ns", "default")], 42);
        family.sample(&[], 7);
    });

    assert_eq!(
        writer.build(),
        "# HELP some_total How many\n\
         # TYPE some_total counter\n\
         some_total{ns=\"default\"} 42\n\
         some_total 7\n"
    );
}

#[test]
fn a_table_name_can_not_break_the_scrape() {
    let mut writer = MetricsWriter::new();

    writer.family("rows", "Rows", MetricKind::Gauge, |family| {
        family.sample(&[("table", "a\"b\\c\nd")], 1);
    });

    assert_eq!(
        writer.build().lines().last().unwrap(),
        "rows{table=\"a\\\"b\\\\c\\nd\"} 1"
    );
}

#[test]
fn every_kind_of_number_is_written() {
    let mut writer = MetricsWriter::new();
    writer.family("n", "N", MetricKind::Gauge, |family| {
        family.sample(&[("a", "1"), ("b", "2")], -5i64);
        family.sample(&[], usize::MAX);
        family.sample(&[], u64::MAX);
        family.sample(&[], u128::MAX);
        family.sample(&[], i32::MIN);
    });
    let text = writer.build();
    let lines: Vec<&str> = text.lines().collect();
    assert_eq!(lines[2], "n{a=\"1\",b=\"2\"} -5");
    assert_eq!(lines[3], format!("n {}", usize::MAX));
    assert_eq!(lines[4], format!("n {}", u64::MAX));
    assert_eq!(lines[5], format!("n {}", u128::MAX));
    assert_eq!(lines[6], format!("n {}", i32::MIN));
}

#[test]
fn the_metrics_report_what_the_tables_hold() {
    let app = start();

    let rendered = metrics::render(&app, 3);

    assert_eq!(
        sample(&rendered, "mynosql_table_rows{"),
        Some("mynosql_table_rows{ns=\"default\",table=\"traders\"} 1".to_string())
    );
    assert_eq!(
        sample(&rendered, "mynosql_table_partitions{"),
        Some("mynosql_table_partitions{ns=\"default\",table=\"traders\"} 1".to_string())
    );
    assert_eq!(
        sample(&rendered, "mynosql_tables{"),
        Some("mynosql_tables{ns=\"default\"} 1".to_string())
    );
    assert_eq!(
        sample(&rendered, "mynosql_table_schemas{"),
        Some("mynosql_table_schemas{ns=\"default\",table=\"traders\"} 1".to_string())
    );
    assert_eq!(
        sample(&rendered, "mynosql_http_connections "),
        Some("mynosql_http_connections 3".to_string())
    );

    // Marked to be written later, so it is owed to the disk and not yet on it.
    assert_eq!(
        sample(&rendered, "mynosql_persist_queue_partitions{"),
        Some("mynosql_persist_queue_partitions{ns=\"default\"} 1".to_string())
    );
    assert_eq!(
        sample(&rendered, "mynosql_persist_queue_tables_metadata{"),
        Some("mynosql_persist_queue_tables_metadata{ns=\"default\"} 1".to_string())
    );
    assert_eq!(
        sample(&rendered, "mynosql_persist_tasks_written_total{"),
        Some("mynosql_persist_tasks_written_total{ns=\"default\"} 9".to_string())
    );
    assert_eq!(
        sample(&rendered, "mynosql_build_info{"),
        Some("mynosql_build_info{version=\"1.2.3\",location=\"test\"} 1".to_string())
    );
    assert_eq!(
        sample(&rendered, "mynosql_initialized "),
        Some("mynosql_initialized 1".to_string())
    );

    // Every sample belongs to a family which declared itself first.
    for line in rendered.lines().filter(|line| !line.starts_with('#')) {
        let name = line.split(['{', ' ']).next().unwrap();
        assert!(
            rendered.contains(&format!("# TYPE {name} ")),
            "{name} has samples and no # TYPE"
        );
    }
}

#[test]
fn a_table_which_was_deleted_stops_being_reported() {
    let mut app = start();
    assert!(metrics::render(&app, 0).contains("table=\"traders\""));

    app.namespaces[0].tables.clear();

    assert!(!metrics::render(&app, 0).contains("table=\"traders\""));
}

#[test]
fn namespaces_and_tables_are_reported_in_the_order_of_their_names() {
    let mut app = start();
    app.namespaces
        .insert(0, namespace("zeta", vec![table("b", 2), table("a", 3)]));
    let rendered = metrics::render(&app, 0);
    let rows: Vec<&str> = rendered
        .lines()
        .filter(|line| line.starts_with("mynosql_table_rows{"))
        .collect();
    assert_eq!(
        rows,
        vec![
            "mynosql_table_rows{ns=\"default\",table=\"traders\"} 1",
            "mynosql_table_rows{ns=\"zeta\",table=\"a\"} 3",
            "mynosql_table_rows{ns=\"zeta\",table=\"b\"} 2",
        ]
    );
    assert_eq!(
        sample(&rendered, "mynosql_namespaces "),
        Some("mynosql_namespaces 2".to_string())
    );
}

fn greet(app: &mut App, name: &str, version: &str, tables: &[&str], chunks: usize) -> String {
    let id = app.reader_sessions.create(
        name.to_string(),
        version.to_string(),
        "default".to_string(),
        "10.0.0.7:51422".to_string(),
        moment(2_000_000),
    );
    let session = app.reader_sessions.get_mut(&id).unwrap();
    for table in tables {
        session.subscribe(table);
    }
    session.enqueue(
        (0..chunks)
            .map(|_| SyncChunk::CleanTable {
                table_name: "traders".to_string(),
            })
            .collect(),
    );
    id
}

#[test]
fn readers_are_counted_by_what_they_are() {
    let mut app = start();
    greet(&mut app, "bot", "1.0", &["traders", "orders"], 3);
    greet(&mut app, "bot", "1.0", &["traders"], 5);
    greet(&mut app, "bot", "0.9", &[], 0);
    greet(&mut app, "api", "1.0", &[], 1);
    let rendered = metrics::render(&app, 0);
    let of = |name: &str| -> Vec<String> {
        rendered
            .lines()
            .filter(|line| line.starts_with(&format!("{name}{{")))
            .map(|line| line[name.len()..].to_string())
            .collect()
    };
    assert_eq!(
        of("mynosql_reader_sessions"),
        vec![
            "{ns=\"default\",app=\"api\",version=\"1.0\"} 1",
            "{ns=\"default\",app=\"bot\",version=\"0.9\"} 1",
            "{ns=\"default\",app=\"bot\",version=\"1.0\"} 2",
        ]
    );
    assert_eq!(
        of("mynosql_reader_subscriptions")[2],
        "{ns=\"default\",app=\"bot\",version=\"1.0\"} 3"
    );
    assert_eq!(
        of("mynosql_reader_pending_chunks")[2],
        "{ns=\"default\",app=\"bot\",version=\"1.0\"} 8"
    );
    assert_eq!(
        of("mynosql_reader_pending_chunks_max")[2],
        "{ns=\"default\",app=\"bot\",version=\"1.0\"} 5"
    );
}

#[test]
fn a_greeted_reader_shows_up_with_what_it_is_subscribed_to() {
    let mut app = start();
    greet(&mut app, "trading-bot", "1.4.2", &["orders", "traders"], 0);

    let shown = readers::collect(&app);
    assert_eq!(shown.len(), 1);
    assert_eq!(shown[0].app_name, "trading-bot");
    assert_eq!(shown[0].version, "1.4.2");
    assert_eq!(shown[0].namespace, "default");
    assert_eq!(shown[0].ip, "10.0.0.7:51422");
    assert_eq!(shown[0].pending_chunks, 0);
    assert_eq!(shown[0].tables, vec!["orders", "traders"]);
    assert_eq!(shown[0].connected.unix_microseconds, 2_000_000);

    let id = shown[0].id.clone();
    app.reader_sessions
        .get_mut(&id)
        .unwrap()
        .enqueue(vec![SyncChunk::UpdateRowsEnd {
            table_name: "traders".to_string(),
        }]);
    assert_eq!(readers::collect(&app)[0].pending_chunks, 1);
}

#[test]
fn the_status_says_what_the_server_is_made_of() {
    let mut app = start();
    app.namespaces[0].tables.push(table("orders", 4));
    let id = app.transactions.create(
        "default".to_string(),
        "traders".to_string(),
        1,
        moment(3_000_000),
    );
    app.transactions.get_mut(&id).unwrap().append(vec![1, 2]);

    let shown = status::collect(&app, "/data/resolved".to_string(), moment(4_500_999));

    assert_eq!(shown.server.version, "1.2.3");
    assert_eq!(shown.server.location, "test");
    // The endpoint as the server bound it, host included: a deployment may
    // narrow gRPC to loopback, and the port alone would hide that.
    assert_eq!(shown.server.grpc_endpoint, app.grpc_endpoint);
    assert_eq!(shown.server.http_endpoint, app.http_endpoint);
    assert_eq!(shown.server.up_time_millis, 3_501);
    assert!(shown.server.compress_data);
    assert_eq!(shown.server.persistence_dest, "/data/resolved");
    assert!(!shown.server.backups_configured);
    // Backups are not configured, so the two policy numbers are absent rather
    // than zero - zero is a policy, and absent is the lack of one.
    assert!(shown.server.backup_interval_secs.is_none());
    assert!(shown.server.mcp_writes_remaining_secs.is_none());

    assert_eq!(shown.namespaces.len(), 1);
    let namespace = &shown.namespaces[0];
    assert_eq!(namespace.name, "default");
    assert_eq!(namespace.rows_count, 5);
    assert_eq!(namespace.partitions_count, 2);
    assert_eq!(namespace.data_size, 50);
    assert_eq!(namespace.persist_queue.partitions, 1);
    assert!(namespace.last_persisted_at.is_none());
    assert_eq!(namespace.tables[0].name, "orders");
    assert_eq!(namespace.tables[1].name, "traders");
    assert_eq!(namespace.tables[1].rows_count, 1);
    assert_eq!(namespace.tables[1].schemas_count, 1);
    assert!(namespace.tables[1].last_write_at.is_some());

    assert!(shown.readers.is_empty());
    assert_eq!(shown.transactions.len(), 1);
    assert_eq!(shown.transactions[0].id, id);
    assert_eq!(shown.transactions[0].table, "traders");
    assert_eq!(shown.transactions[0].actions, 2);
    assert_eq!(shown.transactions[0].last_incoming_millis_ago, 1_501);
}

#[test]
fn what_is_not_over_yet_was_just_now() {
    assert_eq!(millis_ago(moment(5), moment(6)), 0);
    assert_eq!(millis_ago(moment(0), moment(1_523_600)), 0);
    assert_eq!(millis_ago(moment(i64::MAX), moment(i64::MIN)), 18_446_744_073_709_552);
}

#[test]
fn how_long_ago_is_rounded_to_the_millisecond() {
    assert_eq!(millis_ago(moment(1_523_600), moment(0)), 1_524);
    assert_eq!(millis_ago(moment(1_523_499), moment(0)), 1_523);
    assert_eq!(millis_ago(moment(1_523_500), moment(0)), 1_524);
    assert_eq!(millis_ago(moment(1_999), moment(0)), 2);
    assert_eq!(millis_ago(moment(499), moment(0)), 0);
}

#[test]
fn a_settings_dump_does_not_tell_the_key() {
    let mut with_key = settings();
    with_key.api_key = Some("a\"secret".to_string());
    with_key.backups_dest = Some("/back\\ups".to_string());
    with_key.backup_interval_secs = Some(60);
    let dump = with_key.debug_text();
    assert!(!dump.contains("secret"));
    assert_eq!(
        dump,
        "SettingsModel { persistence_dest: \"/data\", location: \"test\", compress_data: true, \
         skip_broken_partitions: false, backups_dest: Some(\"/back\\\\ups\"), \
         backup_interval_secs: Some(60), max_backups: None, api_key: Some(\"<set>\") }"
    );
    with_key.api_key = Some("another".to_string());
    assert_eq!(with_key.debug_text(), dump);
    assert!(settings().debug_text().ends_with("api_key: None }"));
    assert_eq!(SETTINGS_FILE, "~/.mynosqlservergrpc");
}

#[test]
fn two_scrapes_of_an_unchanged_server_are_the_same() {
    let with = |names: [&str; 2]| {
        let mut app = start();
        for name in names {
            app.namespaces.push(namespace(
                name,
                names.iter().map(|table_name| table(table_name, 2)).collect(),
            ));
        }
        app
    };
    let app = with(["alpha", "beta"]);
    let first = metrics::render(&app, 3);
    assert_eq!(first, metrics::render(&app, 3));
    // Nor does it matter in which order they happen to be held.
    assert_eq!(first, metrics::render(&with(["beta", "alpha"]), 3));

    let rows: Vec<&str> = first
        .lines()
        .filter(|line| line.starts_with("mynosql_table_rows{"))
        .collect();
    assert_eq!(
        rows,
        vec![
            "mynosql_table_rows{ns=\"alpha\",table=\"alpha\"} 2",
            "mynosql_table_rows{ns=\"alpha\",table=\"beta\"} 2",
            "mynosql_table_rows{ns=\"beta\",table=\"alpha\"} 2",
            "mynosql_table_rows{ns=\"beta\",table=\"beta\"} 2",
            "mynosql_table_rows{ns=\"default\",table=\"traders\"} 1",
        ]
    );
}

#[test]
fn what_is_written_of_the_namespaces_is_the_same_each_time() {
    let mut app = start();
    app.namespaces.push(namespace("alpha", vec![table("orders", 2), table("clients", 1)]));
    let mut writer = MetricsWriter::new();
    metrics::write_namespaces(&app, &mut writer);
    let once = writer.build();
    let mut writer = MetricsWriter::new();
    metrics::write_namespaces(&app, &mut writer);
    metrics::write_namespaces(&app, &mut writer);
    assert_eq!(writer.build(), format!("{once}{once}"));

    assert!(once.contains("mynosql_namespaces 2\n"));
    let rows: Vec<&str> = once
        .lines()
        .filter(|line| line.starts_with("mynosql_table_rows{"))
        .collect();
    assert_eq!(
        rows,
        vec![
            "mynosql_table_rows{ns=\"alpha\",table=\"clients\"} 1",
            "mynosql_table_rows{ns=\"alpha\",table=\"orders\"} 2",
            "mynosql_table_rows{ns=\"default\",table=\"traders\"} 1",
        ]
    );
    assert!(metrics::render(&app, 0).contains(&once));
}

#[test]
fn a_server_says_whether_it_is_in_order() {
    let mut app = start();
    assert!(app.is_in_order());
    app.namespaces.push(namespace("default", vec![]));
    assert!(!app.is_in_order());

    let mut app = start();
    app.namespaces[0].tables.push(table("traders", 2));
    assert!(!app.is_in_order());

    let mut app = start();
    let mut orders = table("orders", 1);
    orders.attributes.schemas.push(EntitySchema {
        id: 1,
        schema: vec![2],
    });
    app.namespaces[0].tables.push(orders);
    assert!(!app.is_in_order());
}
