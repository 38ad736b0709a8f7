//! What the tools answer before they do anything.

use my_no_sql_server_grpc::app::{
    resolve_name, AppContext, DbNamespace, DbTable, DbTableMetrics, MCP_WRITES_WINDOW_SECS,
};
use my_no_sql_server_grpc::db::{
    find_schema, DateTimeAsMicroseconds, DbRow, DbTableAttributes, EntitySchema, PartitionRowKeys,
};
use my_no_sql_server_grpc::mcp::backups::{
    backup_error, backup_namespace_name, find_backup_partition, find_backup_table,
};
use my_no_sql_server_grpc::mcp::context::{
    build_index, check_if_initialized, get_namespace, get_table, pick_schema,
};
use my_no_sql_server_grpc::mcp::reads::{
    cut_page, get_backup_rows, get_list_of_backups, get_list_of_tables, get_namespaces, get_rows,
    list_of_backups, DEFAULT_LIMIT,
};
use my_no_sql_server_grpc::mcp::rows_to_delete::{parse, JsonItem, JsonMember, JsonValue};
use my_no_sql_server_grpc::mcp::tools::{prompt_names, tool_names, MCP_PATH};
use my_no_sql_server_grpc::mcp::writes::{
    bulk_delete_rows, bulk_insert_or_replace_rows, clean_table, count_different, delete_partitions,
    delete_row, get_schema_to_write, move_table_from, move_table_to_namespace, restore_backup,
    restored, rows_of_batch, BuiltRow,
};
use my_no_sql_server_grpc::persist::backup::backup_zip::{
    BackupContent, BackupPartitionContent, BackupTableContent,
};
use my_no_sql_server_grpc::persist::backup::backups_repo::BackupOnDisk;
use my_no_sql_server_grpc::persist::markers::persist_markers::PersistMarkers;
use my_no_sql_server_grpc::persist::partition_blob::serialize;
use my_no_sql_server_grpc::settings_reader::SettingsModel;
use std::sync::Arc;

type App = AppContext<u32, u32>;

const TABLE: &str = "traders";
const MISSING: &str = "Table not found";

fn now() -> DateTimeAsMicroseconds {
    DateTimeAsMicroseconds::new(1_786_346_055_530_973)
}

fn later(secs: i64) -> DateTimeAsMicroseconds {
    DateTimeAsMicroseconds::new(now().unix_microseconds + secs * 1_000_000)
}

fn new_app() -> App {
    AppContext::new(
        SettingsModel {
            persistence_dest: "/tmp/mcp-window-test".to_string(),
            location: "test".to_string(),
            compress_data: false,
            skip_broken_partitions: false,
            backups_dest: None,
            backup_interval_secs: None,
            max_backups: None,
            api_key: None,
        },
        "1".to_string(),
        "g".to_string(),
        "h".to_string(),
        now(),
    )
}

fn schema(id: u64) -> EntitySchema {
    EntitySchema {
        id,
        schema: vec![1],
    }
}

fn table(name: &str, schemas: Vec<EntitySchema>) -> DbTable {
    DbTable {
        name: name.to_string(),
        attributes: DbTableAttributes {
            schemas,
            ..DbTableAttributes::create_default(now())
        },
        metrics: DbTableMetrics {
            partitions_amount: 2,
            rows_amount: 17,
            content_size: 5,
        },
        last_write_moment: None,
    }
}

fn app_with_tables(tables: Vec<DbTable>) -> App {
    let mut app = new_app();
    app.initialized = true;
    app.namespaces.push(DbNamespace {
        name: "default".to_string(),
        tables,
        persist_markers: PersistMarkers::new(),
        persisted_total: 0,
        last_persisted: None,
    });
    app
}

fn app_with_table() -> App {
    app_with_tables(vec![table(TABLE, vec![schema(42)])])
}

#[test]
fn a_schema_is_found_by_its_id() {
    let schemas = vec![schema(3), schema(7), schema(9)];
    assert_eq!(find_schema(&schemas, 7).map(|found| found.id), Some(7));
    assert_eq!(find_schema(&schemas, 9).map(|found| found.id), Some(9));
    assert!(find_schema(&schemas, 8).is_none());
    assert!(find_schema(&Vec::new(), 3).is_none());
}

#[test]
fn the_registered_tools_are_the_ones_that_were_declared() {
    assert_eq!(
        tool_names(),
        vec![
            "get_namespaces",
            "get_list_of_tables",
            "get_rows",
            "get_list_of_backups",
            "get_backup_tables",
            "get_backup_partitions",
            "get_backup_rows",
            "insert_or_replace_row",
            "bulk_insert_or_replace_rows",
            "delete_row",
            "bulk_delete_rows",
            "delete_partitions",
            "clean_table",
            "move_table_to_namespace",
            "restore_backup",
        ]
    );
    assert_eq!(
        prompt_names(),
        vec!["entity_schema_policy", "mcp_writes_enable_policy"]
    );
    assert_eq!(MCP_PATH, "/mcp");
}

#[test]
fn the_write_window_closes_on_its_own() {
    let mut app = new_app();

    let now = now();
    assert!(!app.mcp_writes_are_open(now));

    app.open_mcp_writes(now);
    assert_eq!(
        app.mcp_writes_remaining_secs(now),
        Some(MCP_WRITES_WINDOW_SECS)
    );

    assert!(app.mcp_writes_are_open(later(MCP_WRITES_WINDOW_SECS - 1)));
    assert_eq!(
        app.mcp_writes_remaining_secs(later(MCP_WRITES_WINDOW_SECS - 1)),
        Some(1)
    );

    assert!(!app.mcp_writes_are_open(later(MCP_WRITES_WINDOW_SECS)));
    assert!(app
        .mcp_writes_remaining_secs(later(MCP_WRITES_WINDOW_SECS))
        .is_none());

    // ...and shutting it is immediate.
    app.open_mcp_writes(now);
    app.close_mcp_writes();
    assert!(!app.mcp_writes_are_open(now));
}

#[test]
fn every_write_is_refused_until_the_window_is_open() {
    let mut app = app_with_table();

    let err = get_schema_to_write(&app, None, TABLE, MISSING, None, now())
        .err()
        .unwrap();
    assert!(err.contains("SHUT"), "{err}");

    let err = delete_partitions(
        &app,
        None,
        TABLE,
        MISSING,
        &vec!["acc-1".to_string()],
        now(),
    )
    .err()
    .unwrap();
    assert!(err.contains("SHUT"), "{err}");

    let err = bulk_delete_rows(&app, None, TABLE, MISSING, Vec::new(), now())
        .err()
        .unwrap();
    assert!(err.contains("SHUT"), "{err}");
    let err = restore_backup(&app, None, None, None, now()).err().unwrap();
    assert!(err.contains("SHUT"), "{err}");
    let err = move_table_from(&app, None, now()).err().unwrap();
    assert!(err.contains("SHUT"), "{err}");

    // ...while reading is never gated.
    assert!(get_rows(&app, None, TABLE, MISSING, None).is_ok());

    app.open_mcp_writes(now());
    let found = get_schema_to_write(&app, None, TABLE, MISSING, None, now())
        .ok()
        .unwrap();
    assert_eq!(found.schema.id, 42);
    assert_eq!(found.db_table.name, TABLE);
    assert_eq!(found.db_namespace.name, "default");
    assert_eq!(
        move_table_from(&app, None, now()).ok().unwrap().name,
        "default"
    );
}

#[test]
fn a_server_which_is_still_loading_answers_nothing() {
    let app = new_app();
    let text = "The server is still loading its tables from disk. Try again in a moment.";
    assert_eq!(check_if_initialized(&app).err().unwrap(), text);
    assert_eq!(get_namespace(&app, None).err().unwrap(), text);
    assert_eq!(get_namespaces(&app).err().unwrap(), text);
    assert_eq!(get_list_of_backups(&app, None).err().unwrap(), text);
    assert_eq!(
        restore_backup(&app, None, None, None, now()).err().unwrap(),
        text
    );
}

#[test]
fn a_namespace_which_is_not_there_is_named_in_the_answer() {
    let app = app_with_table();

    let err = get_list_of_tables(&app, Some("prod")).err().unwrap();

    assert!(err.contains("prod"), "{err}");
    assert!(err.contains("get_namespaces"), "{err}");
    assert_eq!(
        err,
        "There is no namespace 'prod'. Call get_namespaces to see which there are."
    );
    assert_eq!(get_namespace(&app, Some("")).ok().unwrap().name, "default");
    assert_eq!(resolve_name("alpha"), "alpha");
}

#[test]
fn a_table_which_is_not_there_is_answered_with_where_to_look() {
    let app = app_with_table();
    let namespace = get_namespace(&app, None).ok().unwrap();
    assert_eq!(get_table(namespace, TABLE, MISSING).ok().unwrap().name, TABLE);
    assert_eq!(
        get_table(namespace, "orders", MISSING).err().unwrap(),
        "Table not found. Call get_list_of_tables to see which tables the namespace has."
    );
    assert!(get_rows(&app, None, "orders", MISSING, None).is_err());
}

#[test]
fn a_table_without_a_schema_can_not_be_written_to_from_here() {
    let mut app = app_with_tables(vec![table(TABLE, Vec::new())]);
    app.open_mcp_writes(now());
    let err = get_schema_to_write(&app, None, TABLE, MISSING, None, now())
        .err()
        .unwrap();
    assert!(err.contains("never been written to"), "{err}");
    let err = pick_schema(&app.namespaces[0].tables[0], Some(5))
        .err()
        .unwrap();
    assert_eq!(err, "Table 'traders' has no schema 5. It has: none");
}

#[test]
fn two_schemas_make_the_write_ask_which_one() {
    let two = table(TABLE, vec![schema(7), schema(42)]);
    let err = pick_schema(&two, None).err().unwrap();
    assert!(err.contains("more than one entity version"), "{err}");
    assert!(err.ends_with("`schema_id`: 7, 42"), "{err}");
    assert_eq!(pick_schema(&two, Some(42)).ok().unwrap().id, 42);
    assert_eq!(
        pick_schema(&two, Some(8)).err().unwrap(),
        "Table 'traders' has no schema 8. It has: 7, 42"
    );
}

#[test]
fn a_schema_which_does_not_read_back_is_reported() {
    assert_eq!(build_index(Some("index"), &schema(7)).ok().unwrap(), "index");
    assert_eq!(
        build_index::<u8>(None, &schema(7)).err().unwrap(),
        "Schema 7 is stored but does not read back, so rows can not be built through it."
    );
}

#[test]
fn rows_come_back_a_page_at_a_time() {
    let app = app_with_table();
    let page = get_rows(&app, None, TABLE, MISSING, Some(2)).ok().unwrap();
    assert_eq!(page.limit, 2);
    assert_eq!(page.wanted, 3);

    let all = ["rk-0", "rk-1", "rk-2", "rk-3", "rk-4"];
    let (rows, has_more) = cut_page(all[..page.wanted].to_vec(), page.limit);
    assert_eq!(rows, vec!["rk-0", "rk-1"]);
    assert!(has_more);

    let (rows, has_more) = cut_page(all[3..].to_vec(), page.limit);
    assert_eq!(rows, vec!["rk-3", "rk-4"]);
    assert!(!has_more);

    let page = get_rows(&app, None, TABLE, MISSING, None).ok().unwrap();
    assert_eq!(page.limit, DEFAULT_LIMIT);
    let page = get_rows(&app, None, TABLE, MISSING, Some(usize::MAX))
        .ok()
        .unwrap();
    assert_eq!(page.wanted, usize::MAX);
}

#[test]
fn lists_are_in_the_order_of_their_names() {
    let mut app = app_with_tables(vec![table("b", Vec::new()), table("a", vec![schema(1)])]);
    let listed = get_list_of_tables(&app, None).ok().unwrap();
    assert_eq!(listed.count, 2);
    assert_eq!(listed.tables[0].name, "a");
    assert_eq!(listed.tables[0].schemas_count, 1);
    assert_eq!(listed.tables[1].rows_count, 17);
    app.namespaces.push(DbNamespace {
        name: "alpha".to_string(),
        tables: Vec::new(),
        persist_markers: PersistMarkers::new(),
        persisted_total: 0,
        last_persisted: None,
    });
    let listed = get_namespaces(&app).ok().unwrap();
    assert_eq!(listed.count, 2);
    assert_eq!(listed.namespaces[0].name, "alpha");
    assert_eq!(listed.namespaces[1].tables_count, 2);
}

fn member(partition_key: &str, row_keys: &[&str]) -> JsonMember {
    JsonMember::Member(
        partition_key.to_string(),
        JsonValue::Array(
            row_keys
                .iter()
                .map(|row_key| JsonItem::Text(row_key.to_string()))
                .collect(),
        ),
    )
}

#[test]
fn a_body_becomes_the_keys_to_delete() {
    let parsed: Vec<PartitionRowKeys> = parse(vec![
        member("acc-1", &["rk-1", "rk-2"]),
        member("acc-2", &["rk-3"]),
    ])
    .unwrap();

    assert_eq!(parsed.len(), 2);
    assert_eq!(parsed[0].partition_key, "acc-1");
    assert_eq!(parsed[0].row_keys, vec!["rk-1", "rk-2"]);
    assert_eq!(parsed[1].partition_key, "acc-2");
    assert_eq!(parsed[1].row_keys, vec!["rk-3"]);
}

#[test]
fn a_body_which_is_not_that_shape_is_refused() {
    let error = |members: Vec<JsonMember>| parse(members).err().unwrap();
    assert_eq!(
        error(vec![JsonMember::Broken("not an object".to_string())]),
        "`rows_json` is not a JSON object of partition key -> row keys: not an object"
    );
    assert_eq!(
        error(vec![
            member("acc-0", &["rk"]),
            JsonMember::Member("acc-1".to_string(), JsonValue::NotAnArray)
        ]),
        "the row keys of partition 'acc-1' are not an array"
    );
    let items = |items: Vec<JsonItem>| {
        vec![JsonMember::Member(
            "acc-1".to_string(),
            JsonValue::Array(items),
        )]
    };
    assert_eq!(
        error(items(vec![JsonItem::NotText, JsonItem::NotText])),
        "a row key of partition 'acc-1' is not a string"
    );
    assert_eq!(
        error(items(vec![
            JsonItem::Text("rk".to_string()),
            JsonItem::UnreadableText
        ])),
        "a row key of partition 'acc-1' can not be read"
    );
    assert!(error(items(vec![JsonItem::Broken("eof".to_string())])).ends_with(": eof"));
}

#[test]
fn a_bulk_delete_names_what_is_deleted() {
    let mut app = app_with_table();
    app.open_mcp_writes(now());
    let plan = bulk_delete_rows(
        &app,
        None,
        TABLE,
        MISSING,
        vec![member("acc-1", &["rk-1"])],
        now(),
    )
    .ok()
    .unwrap();
    assert_eq!(plan.db_table.name, TABLE);
    assert_eq!(plan.partitions[0].row_keys, vec!["rk-1"]);
    assert_eq!(
        bulk_delete_rows(&app, None, TABLE, MISSING, Vec::new(), now())
            .err()
            .unwrap(),
        "`rows_json` names no partitions - nothing to delete."
    );
    assert_eq!(
        delete_partitions(&app, None, TABLE, MISSING, &Vec::new(), now())
            .err()
            .unwrap(),
        "`partition_keys` is empty - nothing to delete."
    );
    assert!(delete_partitions(&app, None, TABLE, MISSING, &vec!["a".to_string()], now()).is_ok());
}

#[test]
fn a_batch_is_read_to_its_end_before_anything_is_written() {
    assert_eq!(
        rows_of_batch(vec![BuiltRow::Row(1), BuiltRow::Row(2)]).unwrap(),
        vec![1, 2]
    );
    let error = |items: Vec<BuiltRow<u8>>| rows_of_batch(items).err().unwrap();
    assert_eq!(
        error(Vec::new()),
        "`entities_json` holds no rows - nothing to write."
    );
    assert_eq!(
        error(vec![BuiltRow::Row(1), BuiltRow::NotAnObject]),
        "`entities_json` holds something which is not a row object"
    );
    assert_eq!(
        error(vec![
            BuiltRow::Refused("there is no field Amonut".to_string()),
            BuiltRow::NotAnObject
        ]),
        "there is no field Amonut"
    );
    assert_eq!(
        error(vec![BuiltRow::Broken("eof".to_string())]),
        "`entities_json` is not a JSON array: eof"
    );
}

#[test]
fn a_batch_counts_its_partitions_once() {
    let keys = |keys: &[&str]| keys.iter().map(|key| key.to_string()).collect::<Vec<String>>();
    assert_eq!(count_different(keys(&["b", "a", "b", "b", "c"])), 3);
    assert_eq!(count_different(Vec::new()), 0);
    let answer = bulk_insert_or_replace_rows(keys(&["b", "a", "b"]), 42);
    assert_eq!(answer.status, "written");
    assert_eq!(answer.rows_written, 3);
    assert_eq!(answer.partitions_affected, 2);
    assert_eq!(answer.schema_id, 42);
}

#[test]
fn what_was_done_is_answered() {
    assert_eq!(delete_row(true).status, "deleted");
    assert_eq!(delete_row(false).status, "there was no such row");
    let cleaned = clean_table(&table(TABLE, Vec::new()));
    assert_eq!(cleaned.status, "Table 'traders' is empty");
    assert_eq!(cleaned.rows_removed, 17);
    let moved = move_table_to_namespace(TABLE, "default", "archive");
    assert_eq!(
        moved.status,
        "Table 'traders' moved from 'default' to 'archive'"
    );
    let answer = restored("20260810T071415.zip", "default", 3);
    assert_eq!(
        answer.status,
        "Restored from snapshot '20260810T071415.zip' into namespace 'default'"
    );
    assert_eq!(answer.partitions_restored, 3);
}

#[test]
fn restoring_one_partition_takes_both_halves_of_its_name() {
    let mut app = app_with_table();
    app.open_mcp_writes(now());

    let err = restore_backup(&app, None, Some(TABLE.to_string()), None, now())
        .err()
        .unwrap();
    assert!(err.contains("partition_key"), "{err}");
    assert!(restore_backup(&app, None, None, Some("acc-1".to_string()), now()).is_err());

    let whole = restore_backup(&app, None, None, None, now()).ok().unwrap();
    assert_eq!(whole.name_space, "default");
    assert!(whole.only.is_none());
    let one = restore_backup(
        &app,
        Some("gone"),
        Some(TABLE.to_string()),
        Some("acc-1".to_string()),
        now(),
    )
    .ok()
    .unwrap();
    assert_eq!(one.name_space, "gone");
    assert_eq!(one.only.unwrap().partition_key, "acc-1");
}

#[test]
fn a_backup_is_walked_into() {
    let row = Arc::new(DbRow {
        partition_key: "acc-1".to_string(),
        row_key: "rk-1".to_string(),
        schema_id: 42,
        content_size: 3,
        content: vec![1, 2, 3],
    });
    let content = BackupContent {
        tables: vec![BackupTableContent {
            table_name: TABLE.to_string(),
            metadata: None,
            partitions: vec![BackupPartitionContent {
                partition_key: "acc-1".to_string(),
                blob: serialize(&[row], true).unwrap(),
            }],
        }],
    };
    let rows = get_backup_rows(&content, "b.zip", TABLE, "acc-1").unwrap();
    assert_eq!(rows.len(), 1);
    assert_eq!(rows[0].schema_id, 42);
    assert_eq!(rows[0].row, vec![1, 2, 3]);

    let table = find_backup_table(&content, "b.zip", TABLE).ok().unwrap();
    assert!(find_backup_partition(table, "b.zip", TABLE, "acc-1").is_ok());
    assert_eq!(
        get_backup_rows(&content, "b.zip", "orders", "acc-1")
            .err()
            .unwrap(),
        "The backup 'b.zip' has no table 'orders'. It has: traders"
    );
    assert_eq!(
        get_backup_rows(&content, "b.zip", TABLE, "acc-2")
            .err()
            .unwrap(),
        "The backup 'b.zip' has no partition 'acc-2' of table 'traders'."
    );
    let empty = BackupContent { tables: Vec::new() };
    assert_eq!(
        find_backup_table(&empty, "b.zip", TABLE).err().unwrap(),
        "The backup 'b.zip' has no table 'traders'. It has: none"
    );
    assert_eq!(
        backup_error("no such file", "default"),
        "no such file. Call get_list_of_backups to see which snapshots 'default' has."
    );
    assert_eq!(backup_namespace_name(None), "default");
    assert_eq!(backup_namespace_name(Some("gone")), "gone");
    let listed = list_of_backups(vec![BackupOnDisk {
        name: "b.zip".to_string(),
        size: 9,
    }]);
    assert_eq!(listed.count, 1);
    assert_eq!(listed.files[0].file_name, "b.zip");
    assert_eq!(listed.files[0].size, 9);
}
