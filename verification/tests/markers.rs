//! The queue of what is owed to the disk.

use my_no_sql_server_grpc::db::DateTimeAsMicroseconds;
use my_no_sql_server_grpc::persist::markers::persist_markers::PersistMarkers;
use my_no_sql_server_grpc::persist::markers::persist_task::PersistTask;

fn moment(micros: i64) -> DateTimeAsMicroseconds {
    DateTimeAsMicroseconds::new(micros)
}

#[test]
fn nothing_is_given_out_before_it_is_due() {
    let mut markers = PersistMarkers::new();
    markers.persist_partition("table", "pk", moment(100));

    assert!(markers.get_task(Some(moment(99))).is_none());
    assert!(markers.has_something_to_persist());

    assert_eq!(
        markers.get_task(Some(moment(100))),
        Some(PersistTask::Partition {
            table_name: "table".to_string(),
            partition_key: "pk".to_string(),
        })
    );

    assert!(!markers.has_something_to_persist());
}

#[test]
fn a_more_urgent_write_moves_the_due_moment_earlier() {
    let mut markers = PersistMarkers::new();

    markers.persist_partition("table", "pk", moment(1000));
    markers.persist_partition("table", "pk", moment(10));
    // The relaxed one must not push it back again.
    markers.persist_partition("table", "pk", moment(5000));

    assert!(markers.get_task(Some(moment(10))).is_some());
}

#[test]
fn table_metadata_goes_before_its_partitions() {
    let mut markers = PersistMarkers::new();

    markers.persist_partition("table", "pk", moment(10));
    markers.persist_table_metadata("table", moment(10));

    assert_eq!(
        markers.get_task(Some(moment(10))),
        Some(PersistTask::TableMetadata {
            table_name: "table".to_string(),
        })
    );
    assert_eq!(
        markers.get_task(Some(moment(10))),
        Some(PersistTask::Partition {
            table_name: "table".to_string(),
            partition_key: "pk".to_string(),
        })
    );
    assert!(markers.get_task(Some(moment(10))).is_none());
}

#[test]
fn no_partition_is_given_out_while_the_metadata_of_its_table_is_queued() {
    let mut markers = PersistMarkers::new();

    markers.persist_table_metadata("table", moment(100));
    markers.persist_partition("table", "pk", moment(10));

    assert!(markers.get_task(Some(moment(9))).is_none());
    // The partition is due, so the metadata goes now and the partition behind it.
    assert_eq!(
        markers.get_task(Some(moment(10))),
        Some(PersistTask::TableMetadata {
            table_name: "table".to_string(),
        })
    );
    assert_eq!(
        markers.get_task(Some(moment(10))),
        Some(PersistTask::Partition {
            table_name: "table".to_string(),
            partition_key: "pk".to_string(),
        })
    );
    assert!(!markers.has_something_to_persist());
}

#[test]
fn the_metadata_of_one_table_does_not_go_early_for_another() {
    let mut markers = PersistMarkers::new();

    markers.persist_table_metadata("one", moment(100));
    markers.persist_partition("two", "pk", moment(10));

    assert_eq!(
        markers.get_task(Some(moment(10))),
        Some(PersistTask::Partition {
            table_name: "two".to_string(),
            partition_key: "pk".to_string(),
        })
    );
    assert!(markers.get_task(Some(moment(10))).is_none());
    assert!(markers.get_task(Some(moment(100))).is_some());
}

#[test]
fn a_flush_takes_everything_at_once_in_the_order_a_pass_would_have() {
    let mut markers = PersistMarkers::new();

    markers.persist_partition("table", "pk", moment(i64::MAX));
    markers.persist_table_metadata("table", moment(i64::MAX));

    let taken = markers.take_all();

    // Nothing is due, and all of it comes out anyway - that is the whole
    // point of a flush.
    assert_eq!(taken.len(), 2);
    assert_eq!(
        taken[0],
        PersistTask::TableMetadata {
            table_name: "table".to_string(),
        }
    );
    assert_eq!(
        taken[1],
        PersistTask::Partition {
            table_name: "table".to_string(),
            partition_key: "pk".to_string(),
        }
    );

    assert!(!markers.has_something_to_persist());
    assert!(markers.take_all().is_empty());
}

#[test]
fn what_is_marked_after_a_flush_took_the_queue_stays_queued() {
    let mut markers = PersistMarkers::new();
    markers.persist_partition("table", "first", moment(1));

    assert_eq!(markers.take_all().len(), 1);

    markers.persist_partition("table", "second", moment(1));

    assert!(markers.has_something_to_persist());
    assert_eq!(
        markers.get_task(Some(moment(1))),
        Some(PersistTask::Partition {
            table_name: "table".to_string(),
            partition_key: "second".to_string(),
        })
    );
}

#[test]
fn the_queue_says_how_much_it_owes() {
    let mut markers = PersistMarkers::new();

    let empty = markers.get_queue_metrics();
    assert_eq!(empty.partitions, 0);
    assert_eq!(empty.tables_metadata, 0);

    markers.persist_partition("one", "pk-1", moment(1));
    markers.persist_partition("one", "pk-2", moment(1));
    // The same partition twice is one thing to write, not two.
    markers.persist_partition("one", "pk-2", moment(1));
    markers.persist_table_metadata("two", moment(1));

    let metrics = markers.get_queue_metrics();

    assert_eq!(metrics.partitions, 2);
    assert_eq!(metrics.tables_metadata, 1);
}

#[test]
fn the_drain_takes_everything_regardless_of_the_due_moment() {
    let mut markers = PersistMarkers::new();
    markers.persist_partition("table", "pk", moment(i64::MAX));

    assert!(markers.get_task(None).is_some());
    assert!(!markers.has_something_to_persist());
}

#[test]
fn every_marked_partition_is_given_out_once() {
    let mut markers = PersistMarkers::new();

    for no in 0..10 {
        markers.persist_partition("table", &format!("pk-{no}"), moment(1));
    }

    let mut taken = Vec::new();
    while let Some(task) = markers.get_task(Some(moment(1))) {
        taken.push(task);
    }

    assert_eq!(taken.len(), 10);
    assert!(!markers.has_something_to_persist());
}

#[test]
fn a_drain_runs_until_nothing_is_left() {
    let mut markers = PersistMarkers::new();
    markers.persist_partition("one", "pk", moment(5));
    markers.persist_partition("two", "pk", moment(i64::MAX));
    markers.persist_table_metadata("two", moment(7));

    let mut taken = 0;
    while markers.get_task(None).is_some() {
        taken += 1;
    }
    assert_eq!(taken, 3);
    assert!(!markers.has_something_to_persist());
}

#[test]
fn one_table_does_not_disturb_the_other() {
    let mut markers = PersistMarkers::new();
    markers.persist_partition("one", "pk", moment(5));
    markers.persist_partition("two", "pk", moment(50));

    assert_eq!(
        markers.get_task(Some(moment(10))),
        Some(PersistTask::Partition {
            table_name: "one".to_string(),
            partition_key: "pk".to_string(),
        })
    );
    assert!(markers.get_task(Some(moment(10))).is_none());
    assert!(markers.get_task(Some(moment(50))).is_some());
}
