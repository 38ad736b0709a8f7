//! Page-files written, left behind and scanned again. The disk is a map of
//! page-files in memory, and what it is told to do it does.

use my_no_sql_server_grpc::db::{DateTimeAsMicroseconds, DbRow, DbTableAttributes, EntitySchema};
use my_no_sql_server_grpc::operations::persist::{
    execute, next_step, DiskWork, PersistError, PersistStep, TableState,
};
use my_no_sql_server_grpc::persist::files_repo_inner::{
    parse_class_name, FilesRepoInner, FoundFile, RecoveryError, SavePlan,
};
use my_no_sql_server_grpc::persist::markers::persist_markers::PersistMarkers;
use my_no_sql_server_grpc::persist::markers::persist_task::PersistTask;
use my_no_sql_server_grpc::persist::page_scan::PageFile;
use my_no_sql_server_grpc::persist::partition_blob::{deserialize, serialize};
use my_no_sql_server_grpc::persist::slot::{
    decode_slot, encode_slot, SlotState, SLOT_PREFIX_LEN,
};
use my_no_sql_server_grpc::persist::slot_book::SlotLocation;
use my_no_sql_server_grpc::persist::table_metadata_contract::TableMetadataFileContract;
use std::collections::BTreeMap;
use std::sync::Arc;

struct Disk {
    files: BTreeMap<u32, Vec<u8>>,
    meta: Vec<(String, TableMetadataFileContract)>,
}

impl Disk {
    fn new() -> Self {
        Disk {
            files: BTreeMap::new(),
            meta: Vec::new(),
        }
    }

    fn open(&self) -> FilesRepoInner {
        let found = self
            .files
            .iter()
            .map(|(size_class, bytes)| FoundFile {
                name: size_class.to_string(),
                len: bytes.len() as u64,
            })
            .collect();
        let meta = self
            .meta
            .iter()
            .map(|(name, contract)| (name.clone(), contract.copy()))
            .collect();
        FilesRepoInner::open("/data".to_string(), meta, &found)
    }

    fn pages(&self) -> Vec<PageFile> {
        self.files
            .iter()
            .map(|(size_class, bytes)| PageFile {
                size_class: *size_class,
                bytes: bytes.clone(),
            })
            .collect()
    }

    fn write(&mut self, location: &SlotLocation, slot: &[u8]) {
        let at = location.offset() as usize;
        let file = self.files.entry(location.size_class).or_default();
        if file.len() < at + slot.len() {
            file.resize(at + slot.len(), 0);
        }
        file[at..at + slot.len()].copy_from_slice(slot);
    }

    fn zero(&mut self, location: &SlotLocation) {
        self.write(location, &[0; SLOT_PREFIX_LEN]);
    }

    fn save(&mut self, plan: &SavePlan) {
        self.write(&plan.target, &plan.bytes);
        if let Some(freed) = &plan.freed {
            self.zero(freed);
        }
    }

    fn partitions(&self) -> Vec<(String, String, Vec<u8>)> {
        let mut repo = self.open();
        let recovery = match repo.load_all_partitions(&self.pages(), false) {
            Ok(recovery) => recovery,
            Err(_) => panic!("the scan gave up"),
        };
        let mut result: Vec<(String, String, Vec<u8>)> = recovery
            .partitions
            .into_iter()
            .map(|partition| {
                (
                    partition.table_name,
                    partition.partition_key,
                    partition.payload,
                )
            })
            .collect();
        result.sort();
        result
    }
}

fn build_row(partition_key: &str, row_key: &str, payload: &str, schema_id: u64) -> Arc<DbRow> {
    Arc::new(DbRow {
        partition_key: partition_key.to_string(),
        row_key: row_key.to_string(),
        schema_id,
        content_size: payload.len(),
        content: format!("{partition_key}/{row_key}/{payload}").into_bytes(),
    })
}

fn save(disk: &mut Disk, repo: &mut FilesRepoInner, table: &str, key: &str, rows: &[Arc<DbRow>]) {
    let payload = serialize(rows, false).unwrap();
    assert!(repo.can_save_partition(table, key, payload.len()));
    let plan = repo.save_partition(table, key, &payload);
    disk.save(&plan);
}

fn keys(disk: &Disk) -> Vec<(String, String)> {
    disk.partitions()
        .into_iter()
        .map(|(table, key, _)| (table, key))
        .collect()
}

#[test]
fn partitions_survive_a_reopen() {
    for compress in [false, true] {
        let mut disk = Disk::new();
        let mut repo = disk.open();
        for (key, rows) in [
            (
                "pk-1",
                vec![
                    build_row("pk-1", "rk-1", "one", 7),
                    build_row("pk-1", "rk-2", "two", 7),
                ],
            ),
            ("pk-2", vec![build_row("pk-2", "rk-1", "three", 7)]),
        ] {
            let payload = serialize(&rows, compress).unwrap();
            let plan = repo.save_partition("traders", key, &payload);
            disk.save(&plan);
        }

        let reloaded = disk.partitions();
        assert_eq!(reloaded.len(), 2);
        assert_eq!(
            (reloaded[0].0.as_str(), reloaded[0].1.as_str()),
            ("traders", "pk-1")
        );
        let rows = deserialize(&reloaded[0].2).unwrap();
        assert_eq!(rows.len(), 2);
        assert_eq!(rows[1].row, b"pk-1/rk-2/two");
        let rows = deserialize(&reloaded[1].2).unwrap();
        assert_eq!(rows.len(), 1);
        assert_eq!(rows[0].schema_id, 7);
    }
}

#[test]
fn a_deleted_partition_does_not_come_back() {
    let mut disk = Disk::new();
    let mut repo = disk.open();
    save(&mut disk, &mut repo, "t", "keep", &[build_row("keep", "rk", "x", 1)]);
    save(&mut disk, &mut repo, "t", "drop", &[build_row("drop", "rk", "x", 1)]);
    let freed = repo.delete_partition("t", "drop").unwrap();
    disk.zero(&freed);

    assert_eq!(keys(&disk), vec![("t".to_string(), "keep".to_string())]);
    // What is not there has no slot to zero.
    assert!(repo.delete_partition("t", "drop").is_none());
}

#[test]
fn a_partition_that_changes_size_class_leaves_no_duplicate() {
    let mut disk = Disk::new();
    let mut repo = disk.open();
    save(&mut disk, &mut repo, "t", "pk", &[build_row("pk", "rk", "small", 1)]);
    let big = "x".repeat(4096);
    save(&mut disk, &mut repo, "t", "pk", &[build_row("pk", "rk-big", &big, 1)]);

    let reloaded = disk.partitions();
    assert_eq!(reloaded.len(), 1);
    assert_eq!(
        deserialize(&reloaded[0].2).unwrap()[0].row,
        format!("pk/rk-big/{big}").into_bytes()
    );
    // The slot it had is free, and its class has nothing left in it.
    assert!(matches!(decode_slot(&disk.files[&512]), SlotState::Free));
    assert_eq!(repo.fully_free_classes(), vec![512]);
}

/// A crash between the two writes of a move leaves two copies. The newer wins.
#[test]
fn a_move_which_was_cut_off_gives_back_the_newer_copy() {
    let mut disk = Disk::new();
    let mut repo = disk.open();
    save(&mut disk, &mut repo, "t", "pk", &[build_row("pk", "rk", "small", 1)]);
    let payload = serialize(&[build_row("pk", "rk", &"y".repeat(4096), 1)], false).unwrap();
    let plan = repo.save_partition("t", "pk", &payload);
    assert!(plan.freed.is_some());
    disk.write(&plan.target, &plan.bytes);

    let mut reopened = disk.open();
    let recovery = match reopened.load_all_partitions(&disk.pages(), false) {
        Ok(recovery) => recovery,
        Err(_) => panic!("the scan gave up"),
    };
    assert_eq!(recovery.partitions.len(), 1);
    assert_eq!(recovery.partitions[0].payload, payload);
    assert_eq!(recovery.losers.len(), 1);
    assert!(Some(recovery.losers[0]) == plan.freed);
}

#[test]
fn a_namespace_opened_at_runtime_writes_above_what_its_folder_already_holds() {
    let mut disk = Disk::new();
    let mut repo = disk.open();
    for row_key in ["one", "two"] {
        save(&mut disk, &mut repo, "traders", "pk-1", &[build_row("pk-1", row_key, "x", 1)]);
    }

    let mut reopened = disk.open();
    assert!(reopened.load_all_partitions(&disk.pages(), false).is_ok());
    save(&mut disk, &mut reopened, "traders", "pk-1", &[build_row("pk-1", "three", "x", 1)]);

    let reloaded = disk.partitions();
    assert_eq!(reloaded.len(), 1);
    assert_eq!(deserialize(&reloaded[0].2).unwrap()[0].row, b"pk-1/three/x");
}

#[test]
fn vacuum_keeps_the_live_partitions() {
    let mut disk = Disk::new();
    let mut repo = disk.open();
    for no in 0..10 {
        let key = format!("pk-{no}");
        save(&mut disk, &mut repo, "t", &key, &[build_row(&key, "rk", "x", 1)]);
    }
    for no in 0..8 {
        let freed = repo.delete_partition("t", &format!("pk-{no}")).unwrap();
        disk.zero(&freed);
    }

    assert_eq!(repo.compact_candidates(), vec![512]);
    let moves = repo.plan_compaction(512).unwrap();
    assert_eq!(moves.len(), 2);
    for planned in &moves {
        let from = planned.from as usize * 512;
        let slot = disk.files[&512][from..from + 512].to_vec();
        disk.write(
            &SlotLocation {
                size_class: 512,
                slot_index: planned.to,
            },
            &slot,
        );
    }
    assert_eq!(repo.live_slots(512), 2);
    disk.files.get_mut(&512).unwrap().truncate(2 * 512);
    repo.finish_compaction(512, &moves);

    assert_eq!(
        keys(&disk),
        vec![
            ("t".to_string(), "pk-8".to_string()),
            ("t".to_string(), "pk-9".to_string())
        ]
    );
    // The file is full again, so the next partition goes to its end.
    let payload = serialize(&[build_row("pk-10", "rk", "x", 1)], false).unwrap();
    let plan = repo.save_partition("t", "pk-10", &payload);
    assert_eq!(plan.target.slot_index, 2);
}

/// One page-file is removed, one is compacted, and one is not worth it.
#[test]
fn a_whole_vacuum_pass_loses_nothing() {
    let mut disk = Disk::new();
    let mut repo = disk.open();
    let mut fill = |disk: &mut Disk, prefix: &str, amount: usize, len: usize, gone: usize| {
        let payload = "x".repeat(len);
        for no in 0..amount {
            let key = format!("{prefix}-{no}");
            save(disk, &mut repo, "t", &key, &[build_row(&key, "rk", &payload, 1)]);
        }
        for no in 0..gone {
            let freed = repo.delete_partition("t", &format!("{prefix}-{no}")).unwrap();
            disk.zero(&freed);
        }
    };
    fill(&mut disk, "half", 6, 1, 4);
    fill(&mut disk, "gone", 2, 700, 2);
    fill(&mut disk, "kept", 3, 1500, 1);
    let before = disk.partitions();
    assert_eq!(before.len(), 4);
    let kept = disk.files[&2048].clone();
    assert_eq!(kept.len(), 3 * 2048);

    assert_eq!(repo.fully_free_classes(), vec![1024]);
    for size_class in repo.fully_free_classes() {
        disk.files.remove(&size_class);
        repo.drop_class(size_class);
    }
    assert_eq!(repo.compact_candidates(), vec![512]);
    for size_class in repo.compact_candidates() {
        let moves = repo.plan_compaction(size_class).unwrap();
        let size = size_class as usize;
        for planned in &moves {
            let from = planned.from as usize * size;
            let slot = disk.files[&size_class][from..from + size].to_vec();
            let slot_index = planned.to;
            disk.write(&SlotLocation { size_class, slot_index }, &slot);
        }
        let live = repo.live_slots(size_class) as usize;
        disk.files.get_mut(&size_class).unwrap().truncate(live * size);
        repo.finish_compaction(size_class, &moves);
    }

    assert!(!disk.files.contains_key(&1024));
    assert_eq!(disk.files[&512].len(), 2 * 512);
    assert_eq!(disk.files[&2048], kept);
    assert_eq!(disk.partitions(), before);
    // The next pass has nothing to do.
    assert!(repo.fully_free_classes().is_empty());
    assert!(repo.compact_candidates().is_empty());
}

/// A compaction which stopped at any point finds every partition again: after some
/// of its copies, and in the middle of one.
#[test]
fn a_compaction_which_was_cut_off_loses_nothing() {
    let mut disk = Disk::new();
    let mut repo = disk.open();
    for no in 0..6 {
        let key = format!("pk-{no}");
        save(&mut disk, &mut repo, "t", &key, &[build_row(&key, "rk", "x", 1)]);
    }
    for no in 0..3 {
        let freed = repo.delete_partition("t", &format!("pk-{no}")).unwrap();
        disk.zero(&freed);
    }
    let before = disk.partitions();
    assert_eq!(before.len(), 3);

    let moves = repo.plan_compaction(512).unwrap();
    assert_eq!(moves.len(), 3);
    for planned in &moves {
        let from = planned.from as usize * 512;
        let slot = disk.files[&512][from..from + 512].to_vec();
        let target = SlotLocation {
            size_class: 512,
            slot_index: planned.to,
        };

        // Half of the copy: it fails its checksum.
        disk.write(&target, &slot[..40]);
        let mut reopened = disk.open();
        assert!(matches!(
            reopened.load_all_partitions(&disk.pages(), false),
            Err(RecoveryError::CorruptSlot(_))
        ));
        let recovery = match reopened.load_all_partitions(&disk.pages(), true) {
            Ok(recovery) => recovery,
            Err(_) => panic!("the scan gave up"),
        };
        assert_eq!(recovery.partitions.len(), 3);
        for partition in &recovery.partitions {
            assert!(before.contains(&(
                partition.table_name.clone(),
                partition.partition_key.clone(),
                partition.payload.clone()
            )));
        }

        // The whole of it: the copy and the original are the same.
        disk.write(&target, &slot);
        assert_eq!(disk.partitions(), before);
    }
}

#[test]
fn a_file_with_nothing_in_it_can_go() {
    let mut disk = Disk::new();
    let mut repo = disk.open();
    save(&mut disk, &mut repo, "t", "pk", &[build_row("pk", "rk", "x", 1)]);
    let freed = repo.delete_partition("t", "pk").unwrap();
    disk.zero(&freed);
    assert_eq!(repo.fully_free_classes(), vec![512]);
    repo.drop_class(512);
    disk.files.remove(&512);
    assert!(repo.class_sizes().is_empty());
    assert!(keys(&disk).is_empty());
}

#[test]
fn a_freed_slot_is_used_again() {
    let mut disk = Disk::new();
    let mut repo = disk.open();
    for key in ["a", "b", "c"] {
        save(&mut disk, &mut repo, "t", key, &[build_row(key, "rk", "x", 1)]);
    }
    let freed = repo.delete_partition("t", "b").unwrap();
    disk.zero(&freed);
    save(&mut disk, &mut repo, "t", "d", &[build_row("d", "rk", "x", 1)]);
    assert_eq!(disk.files[&512].len(), 3 * 512);
    assert_eq!(keys(&disk).len(), 3);
}

#[test]
fn a_broken_slot_is_skipped_or_stops_the_scan() {
    let mut disk = Disk::new();
    let mut repo = disk.open();
    for key in ["a", "b"] {
        save(&mut disk, &mut repo, "t", key, &[build_row(key, "rk", "x", 1)]);
    }
    disk.files.get_mut(&512).unwrap()[512 + 20] ^= 0xff;

    let mut reopened = disk.open();
    match reopened.load_all_partitions(&disk.pages(), false) {
        Err(RecoveryError::CorruptSlot(location)) => assert!(
            location
                == SlotLocation {
                    size_class: 512,
                    slot_index: 1
                }
        ),
        _ => panic!("expected a broken slot"),
    }

    let mut reopened = disk.open();
    match reopened.load_all_partitions(&disk.pages(), true) {
        Ok(recovery) => {
            assert_eq!(recovery.partitions.len(), 1);
            assert_eq!(recovery.partitions[0].partition_key, "a");
        }
        Err(_) => panic!("broken slots are skipped"),
    }
    // The slot is free again, so the next partition goes there.
    let payload = serialize(&[build_row("c", "rk", "x", 1)], false).unwrap();
    assert_eq!(reopened.save_partition("t", "c", &payload).target.slot_index, 1);
}

#[test]
fn a_version_nothing_can_follow_is_reported() {
    let mut disk = Disk::new();
    disk.files
        .insert(512, encode_slot(512, u64::MAX, "t", "p", &[1]));
    let mut repo = disk.open();
    assert!(matches!(
        repo.load_all_partitions(&disk.pages(), false),
        Err(RecoveryError::VersionsExhausted)
    ));
}

#[test]
fn only_a_plain_number_is_a_page_file() {
    assert_eq!(parse_class_name("512"), Some(512));
    assert_eq!(parse_class_name("tables.meta"), None);
    assert_eq!(parse_class_name(""), None);
    assert_eq!(parse_class_name("4294967296"), None);
    let repo = FilesRepoInner::open(
        "/data".to_string(),
        Vec::new(),
        &vec![FoundFile {
            name: "tables.meta".to_string(),
            len: 3,
        }],
    );
    assert!(repo.class_sizes().is_empty());
    assert_eq!(repo.class_path(1024), "/data/1024");
}

fn attributes(persist: bool) -> DbTableAttributes {
    DbTableAttributes {
        persist,
        max_partitions_amount: Some(100),
        max_rows_per_partition_amount: None,
        created: DateTimeAsMicroseconds::new(1_700_000_000_000_000),
        schemas: vec![
            EntitySchema {
                id: 7,
                schema: vec![1, 2, 3],
            },
            EntitySchema {
                id: 9,
                schema: vec![4, 5],
            },
        ],
    }
}

fn state(persist: bool, rows: Vec<Arc<DbRow>>) -> Option<TableState> {
    Some(TableState {
        attributes: attributes(persist),
        created: "2023-11-14T22:13:20+00:00".to_string(),
        rows,
    })
}

#[test]
fn table_metadata_and_its_schemas_survive_a_reopen() {
    let mut disk = Disk::new();
    let mut repo = disk.open();
    let task = PersistTask::TableMetadata {
        table_name: "traders".to_string(),
    };
    assert!(matches!(
        execute(&mut repo, false, &task, &state(true, Vec::new())),
        Ok(DiskWork::TablesMeta { changed: true })
    ));
    disk.meta = repo
        .get_tables()
        .into_iter()
        .map(|table| (table.table_name, table.attr))
        .collect();

    let tables = disk.open().get_tables();
    assert_eq!(tables.len(), 1);
    assert_eq!(tables[0].table_name, "traders");
    let attr = DbTableAttributes::from_contract(
        &tables[0].attr,
        Some(DateTimeAsMicroseconds::new(1_700_000_000_000_000)),
        DateTimeAsMicroseconds::new(1),
    );
    assert_eq!(attr.max_partitions_amount, Some(100));
    assert_eq!(attr.max_rows_per_partition_amount, None);
    assert_eq!(attr.created.unix_microseconds, 1_700_000_000_000_000);
    assert_eq!(attr.schemas.len(), 2);
    assert_eq!(attr.schemas[0].schema, vec![1, 2, 3]);
    assert_eq!(attr.schemas[1].schema, vec![4, 5]);

    // A table which is gone is gone from the file, once.
    assert!(matches!(
        execute(&mut repo, false, &task, &None),
        Ok(DiskWork::TablesMeta { changed: true })
    ));
    assert!(matches!(
        execute(&mut repo, false, &task, &None),
        Ok(DiskWork::TablesMeta { changed: false })
    ));
    assert!(repo.get_tables().is_empty());
}

#[test]
fn what_a_task_comes_down_to() {
    let partition = PersistTask::Partition {
        table_name: "t".to_string(),
        partition_key: "pk".to_string(),
    };
    let metadata = PersistTask::TableMetadata {
        table_name: "t".to_string(),
    };
    let rows = || vec![build_row("pk", "rk", "x", 1)];
    assert!(next_step(&metadata, &state(false, Vec::new())) == PersistStep::SaveTableMetadata);
    assert!(next_step(&metadata, &None) == PersistStep::DeleteTableMetadata);
    assert!(next_step(&partition, &state(true, rows())) == PersistStep::SavePartition);
    assert!(next_step(&partition, &state(true, Vec::new())) == PersistStep::DeletePartition);
    assert!(next_step(&partition, &state(false, rows())) == PersistStep::DeletePartition);
    assert!(next_step(&partition, &None) == PersistStep::DeletePartition);
}

#[test]
fn what_was_persisted_comes_back_after_a_restart() {
    for compress in [false, true] {
        let mut disk = Disk::new();
        let mut repo = disk.open();
        let task = PersistTask::Partition {
            table_name: "t".to_string(),
            partition_key: "pk".to_string(),
        };
        match execute(
            &mut repo,
            compress,
            &task,
            &state(true, vec![build_row("pk", "rk", "x", 4242)]),
        ) {
            Ok(DiskWork::WriteSlot(plan)) => disk.save(&plan),
            _ => panic!("expected a slot to be written"),
        }
        let reloaded = disk.partitions();
        assert_eq!(reloaded.len(), 1);
        let rows = deserialize(&reloaded[0].2).unwrap();
        assert_eq!(rows[0].schema_id, 4242);
        assert_eq!(rows[0].row, b"pk/rk/x");

        // Turning persistence off frees what was written while it was on.
        match execute(
            &mut repo,
            compress,
            &task,
            &state(false, vec![build_row("pk", "rk", "x", 4242)]),
        ) {
            Ok(DiskWork::ZeroSlot(Some(location))) => disk.zero(&location),
            _ => panic!("expected a slot to be zeroed"),
        }
        assert!(disk.partitions().is_empty());
    }
}

#[test]
fn a_partition_whose_key_does_not_fit_is_reported() {
    let disk = Disk::new();
    let mut repo = disk.open();
    let key = "k".repeat(70_000);
    assert!(!repo.can_save_partition("t", &key, 1));
    let task = PersistTask::Partition {
        table_name: "t".to_string(),
        partition_key: key,
    };
    assert!(matches!(
        execute(
            &mut repo,
            false,
            &task,
            &state(true, vec![build_row("pk", "rk", "x", 1)])
        ),
        Err(PersistError::DoesNotFit)
    ));
    assert!(repo.class_sizes().is_empty());
}

#[test]
fn everything_can_be_given_up_at_once() {
    let mut disk = Disk::new();
    let mut repo = disk.open();
    save(&mut disk, &mut repo, "t", "pk", &[build_row("pk", "rk", "x", 1)]);
    assert_eq!(repo.class_sizes(), vec![512]);
    repo.delete_everything();
    assert!(repo.class_sizes().is_empty());
    assert!(repo.delete_partition("t", "pk").is_none());
}

/// Whatever the queue is asked for, what reaches the disk is never a row whose schema
/// is not there.
#[test]
fn no_partition_reaches_the_disk_before_the_schemas_of_its_table() {
    let mut disk = Disk::new();
    let mut repo = disk.open();
    let mut markers = PersistMarkers::new();
    markers.persist_table_metadata("t", DateTimeAsMicroseconds::new(1000));
    markers.persist_partition("t", "pk", DateTimeAsMicroseconds::new(10));

    let mut partitions = 0;
    while let Some(task) = markers.get_task(Some(DateTimeAsMicroseconds::new(10))) {
        let rows = vec![build_row("pk", "rk", "x", attributes(true).schemas[0].id)];
        match execute(&mut repo, false, &task, &state(true, rows)) {
            Ok(DiskWork::TablesMeta { changed }) => assert!(changed),
            Ok(DiskWork::WriteSlot(plan)) => {
                let known = repo.get_tables();
                assert_eq!(known.len(), 1);
                assert_eq!(
                    known[0].attr.schemas[0].id,
                    attributes(true).schemas[0].id
                );
                disk.save(&plan);
                partitions += 1;
            }
            _ => panic!("expected something to be written"),
        }
    }
    assert_eq!(partitions, 1);
    assert!(!markers.has_something_to_persist());
}
