//! Loading a namespace back from disk.

use my_no_sql_server_grpc::db::{DateTimeAsMicroseconds, DbRow, DbTableAttributes};
use my_no_sql_server_grpc::operations::init::{
    judge_partition, namespaces_to_load, read_partition, restore_rows, NamespaceLoad, ParsedRow,
    PartitionRead, RestoredRow, RowToRestore,
};
use my_no_sql_server_grpc::persist::loaded_from_disk::LoadedPartition;
use my_no_sql_server_grpc::persist::partition_blob::serialize;
use std::sync::Arc;

fn now() -> DateTimeAsMicroseconds {
    DateTimeAsMicroseconds::new(500)
}

#[test]
fn the_default_namespace_is_always_loaded() {
    let names = |names: &[&str]| names.iter().map(|name| name.to_string()).collect::<Vec<String>>();
    assert_eq!(namespaces_to_load(Vec::new()), names(&["default"]));
    assert_eq!(
        namespaces_to_load(names(&["beta", "alpha"])),
        names(&["beta", "alpha", "default"])
    );
    assert_eq!(
        namespaces_to_load(names(&["default", "alpha"])),
        names(&["default", "alpha"])
    );
}

fn loaded(payload: Vec<u8>) -> LoadedPartition {
    LoadedPartition {
        table_name: "traders".to_string(),
        partition_key: "acc-1".to_string(),
        payload,
    }
}

#[test]
fn a_partition_is_read_or_says_why_it_is_not() {
    let row = Arc::new(DbRow {
        partition_key: "acc-1".to_string(),
        row_key: "rk".to_string(),
        schema_id: 7,
        content_size: 2,
        content: vec![8, 9],
    });
    let good = loaded(serialize(&[row], true).unwrap());
    match read_partition(&good, "default", false) {
        PartitionRead::Rows(rows) => {
            assert_eq!(rows.len(), 1);
            assert_eq!(rows[0].schema_id, 7);
            assert_eq!(rows[0].row, vec![8, 9]);
        }
        _ => panic!("expected rows"),
    }

    let text = "Can not read partition 'acc-1' of table 'traders' in namespace 'default': \
                partition payload is empty";
    match read_partition(&loaded(Vec::new()), "default", true) {
        PartitionRead::Skipped(msg) => assert_eq!(msg, text),
        _ => panic!("expected the partition to be skipped"),
    }
    match read_partition(&loaded(Vec::new()), "default", false) {
        PartitionRead::Broken(msg) => assert_eq!(msg, text),
        _ => panic!("expected the start to stop"),
    }
    assert!(matches!(
        judge_partition(Ok(Vec::new()), &good, "default", false),
        PartitionRead::Rows(_)
    ));
}

fn row(schema_id: u64, entity: &str, time_stamp: Option<i64>) -> RowToRestore<String> {
    RowToRestore {
        schema_id,
        parsed: Ok(ParsedRow {
            entity: entity.to_string(),
            time_stamp,
        }),
    }
}

fn broken(reason: &str) -> RowToRestore<String> {
    RowToRestore {
        schema_id: 0,
        parsed: Err(reason.to_string()),
    }
}

fn restore(
    rows: Vec<RowToRestore<String>>,
    skip_errors: bool,
) -> Result<(Vec<RestoredRow<String>>, Vec<String>), String> {
    restore_rows(rows, "acc-1", "traders", "default", skip_errors, now())
}

#[test]
fn a_restored_row_keeps_its_schema_id_and_time_stamp() {
    let (rows, skipped) = restore(
        vec![
            row(4242, "one", Some(1_700_000_000_000_000)),
            row(1, "two", None),
        ],
        false,
    )
    .unwrap();
    assert!(skipped.is_empty());
    assert_eq!(rows[0].schema_id, 4242);
    assert_eq!(rows[0].entity, "one");
    assert_eq!(rows[0].time_stamp.unix_microseconds, 1_700_000_000_000_000);
    assert_eq!(rows[1].time_stamp.unix_microseconds, 500);
}

#[test]
fn a_row_which_can_not_be_parsed_is_skipped_or_stops_the_start() {
    let rows = || vec![row(1, "one", None), broken("no key"), broken("no end"), row(2, "two", None)];
    let (kept, skipped) = restore(rows(), true).unwrap();
    assert_eq!(kept.len(), 2);
    assert_eq!(kept[1].entity, "two");
    assert_eq!(
        skipped,
        vec![
            "Can not parse a row of partition 'acc-1' of table 'traders' in namespace 'default': no key",
            "Can not parse a row of partition 'acc-1' of table 'traders' in namespace 'default': no end",
        ]
    );
    assert_eq!(
        restore(rows(), false).err().unwrap(),
        "Can not parse a row of partition 'acc-1' of table 'traders' in namespace 'default': no key"
    );
}

#[test]
fn a_partition_without_a_table_gets_one_with_default_attributes() {
    let mut attributes = DbTableAttributes::create_default(DateTimeAsMicroseconds::new(3));
    attributes.persist = false;
    let mut load: NamespaceLoad<String> =
        NamespaceLoad::start(vec![("traders".to_string(), attributes)]);
    assert_eq!(load.get_partitions_loaded(), 0);

    let (rows, _) = restore(vec![row(1, "one", None), row(1, "two", None)], false).unwrap();
    assert!(!load.restore_partition("traders".to_string(), "acc-1".to_string(), rows, now()));
    let (rows, _) = restore(vec![row(1, "three", None)], false).unwrap();
    assert!(load.restore_partition("orders".to_string(), "acc-9".to_string(), rows, now()));

    assert_eq!(load.get_partitions_loaded(), 2);
    assert_eq!(load.get_rows_loaded(), 3);
    let traders = load.get_table("traders").unwrap();
    assert!(!traders.attributes.persist);
    assert_eq!(traders.partitions[0].partition_key, "acc-1");
    assert_eq!(traders.partitions[0].rows[1].entity, "two");
    let orders = load.get_table("orders").unwrap();
    assert!(orders.attributes.persist);
    assert_eq!(orders.attributes.created.unix_microseconds, 500);
    assert!(load.get_table("nobody").is_none());
    assert_eq!(load.into_tables().len(), 2);
}
