//! Backups: what they are called, and what is in them.

use my_no_sql_server_grpc::persist::backup::backup_zip::{
    decode_table_name, encode_table_name, is_path_segment, read, BackupZipBuilder,
};
use my_no_sql_server_grpc::persist::backup::backups_repo::{
    backups_to_remove, compile_name, is_valid_name, list_backups, BackupOnDisk, BackupsRepo,
    NameSearch, MAX_BACKUPS_PER_SECOND,
};
use my_no_sql_server_grpc::persist::base64url;
use std::io::{Cursor, Write};

const NOW: &str = "2026-08-10T07:14:15.530973+00:00";
const NEXT_SECOND: &str = "2026-08-10T07:14:16.530973+00:00";

const METADATA: &str = "Persist: true\nMaxPartitionsAmount: 10\n";

fn built() -> Vec<u8> {
    let mut builder = BackupZipBuilder::new();

    builder.add_table("traders", METADATA.as_bytes()).unwrap();

    // A key which would have had a path in it under standard base64.
    builder
        .add_partition("traders", "acc/1", &[9, 8, 7])
        .unwrap();

    builder.build().unwrap()
}

#[test]
fn a_backup_round_trips() {
    let content = read(&built()).unwrap();

    assert_eq!(content.tables.len(), 1);
    let table = &content.tables[0];
    assert_eq!(table.table_name, "traders");
    assert_eq!(table.metadata.as_deref(), Some(METADATA.as_bytes()));

    assert_eq!(table.partitions.len(), 1);
    assert_eq!(table.partitions[0].partition_key, "acc/1");
    assert_eq!(table.partitions[0].blob, vec![9, 8, 7]);
}

#[test]
fn the_entries_are_named_after_the_table_and_the_partition() {
    let bytes = built();
    let mut archive = zip::ZipArchive::new(Cursor::new(bytes.as_slice())).unwrap();

    let names: Vec<String> = (0..archive.len())
        .map(|index| archive.by_index(index).unwrap().name().to_string())
        .collect();

    assert!(names.contains(&"traders/.metadata".to_string()));
    // One entry per partition, and none of them nested any deeper.
    assert!(names.iter().all(|name| name.matches('/').count() <= 1));
}

#[test]
fn a_table_whose_name_is_a_path_does_not_cost_the_whole_archive() {
    let mut builder = BackupZipBuilder::new();

    builder
        .add_table("eu/traders", METADATA.as_bytes())
        .unwrap();
    builder.add_partition("eu/traders", "acc-1", &[1]).unwrap();
    builder.add_partition("plain", "acc-2", &[2]).unwrap();

    let content = read(&builder.build().unwrap()).unwrap();

    let nested = content
        .tables
        .iter()
        .find(|itm| itm.table_name == "eu/traders")
        .unwrap();
    assert!(nested.metadata.is_some());
    assert_eq!(nested.partitions.len(), 1);
    assert_eq!(nested.partitions[0].partition_key, "acc-1");

    let plain = content
        .tables
        .iter()
        .find(|itm| itm.table_name == "plain")
        .unwrap();
    assert_eq!(plain.partitions.len(), 1);
    assert!(plain.metadata.is_none());
}

#[test]
fn a_backup_written_before_table_names_were_encoded_still_reads() {
    let mut zip = zip::ZipWriter::new(Cursor::new(Vec::new()));
    let options = zip::write::SimpleFileOptions::default();

    zip.start_file("traders/.metadata", options).unwrap();
    zip.write_all(METADATA.as_bytes()).unwrap();

    zip.start_file(format!("traders/{}", base64url::encode("acc-1")), options)
        .unwrap();
    zip.write_all(&[7]).unwrap();

    let content = read(&zip.finish().unwrap().into_inner()).unwrap();

    assert_eq!(content.tables.len(), 1);
    assert_eq!(content.tables[0].table_name, "traders");
    assert_eq!(content.tables[0].partitions[0].partition_key, "acc-1");
}

#[test]
fn something_which_is_not_a_zip_is_refused() {
    assert!(read(b"hello").is_err());
    assert!(read(&[]).is_err());
}

#[test]
fn a_truncated_backup_is_reported_not_panicked() {
    let mut bytes = built();
    bytes.truncate(bytes.len() / 2);

    assert!(read(&bytes).is_err());
}

#[test]
fn an_entry_which_is_not_understood_is_skipped() {
    let options = zip::write::SimpleFileOptions::default();
    // What a newer server may have written: something which belongs to no table,
    // something deeper, something which is not base64url, and something which is
    // base64url of what is not a text.
    for unknown in ["loose", "deep/er/still", "traders/new!entry", "other/_w"] {
        let mut zip = zip::ZipWriter::new(Cursor::new(Vec::new()));
        zip.start_file(unknown, options).unwrap();
        zip.write_all(&[1, 2, 3]).unwrap();
        zip.start_file("traders/.metadata", options).unwrap();
        zip.write_all(METADATA.as_bytes()).unwrap();
        zip.start_file("traders/YWNjLTE", options).unwrap();
        zip.write_all(&[7]).unwrap();

        let content = read(&zip.finish().unwrap().into_inner()).unwrap();

        assert_eq!(content.tables.len(), 1, "{unknown}");
        let table = &content.tables[0];
        assert_eq!(table.table_name, "traders");
        assert_eq!(table.metadata.as_deref(), Some(METADATA.as_bytes()));
        assert_eq!(table.partitions.len(), 1);
        assert_eq!(table.partitions[0].partition_key, "acc-1");
        assert_eq!(table.partitions[0].blob, vec![7]);
    }
}

#[test]
fn the_content_of_an_entry_is_compressed_and_comes_back_whole() {
    let mut builder = BackupZipBuilder::new();
    let blob = vec![7u8; 100_000];
    builder.add_partition("t", "pk", &blob).unwrap();
    let bytes = builder.build().unwrap();
    assert!(bytes.len() < blob.len());
    assert_eq!(read(&bytes).unwrap().tables[0].partitions[0].blob, blob);
}

#[test]
fn an_entry_which_is_there_already_is_refused() {
    let mut builder = BackupZipBuilder::new();
    builder.add_partition("t", "pk", &[1]).unwrap();
    assert!(builder
        .add_partition("t", "pk", &[2])
        .err()
        .unwrap()
        .starts_with("can not start t/cGs inside the backup: "));

    // What was refused left the archive as it was, and it goes on.
    builder.add_partition("t", "other", &[3]).unwrap();
    let content = read(&builder.build().unwrap()).unwrap();
    assert_eq!(content.tables.len(), 1);
    assert_eq!(content.tables[0].partitions.len(), 2);
    assert_eq!(content.tables[0].partitions[0].blob, vec![1]);
    assert_eq!(content.tables[0].partitions[1].blob, vec![3]);
}

#[test]
fn a_table_name_survives_becoming_a_folder() {
    for name in ["traders", "eu/traders", "..", "", "~x", "ключ"] {
        let entry = encode_table_name(name);
        assert!(!entry.contains('/') && entry != ".." && !entry.is_empty(), "{entry}");
        assert_eq!(decode_table_name(&entry), name);
    }
    assert_eq!(encode_table_name("traders"), "traders");
    assert_eq!(encode_table_name("eu/traders"), "~ZXUvdHJhZGVycw");
    assert!(!is_path_segment("eu/traders"));
    assert!(!is_path_segment(".."));
    assert!(!is_path_segment(""));
}

#[test]
fn a_name_is_the_moment_it_was_taken() {
    let name = compile_name(NOW, 1);

    assert!(name.ends_with(".zip"));
    assert_eq!(name.len(), "20260810T071415.zip".len());
    assert!(is_valid_name(&name));
    assert_eq!(name, "20260810T071415.zip");
}

#[test]
fn a_second_backup_of_one_second_sorts_after_the_first() {
    let first = compile_name(NOW, 1);
    let second = compile_name(NOW, 2);
    let tenth = compile_name(NOW, 10);

    assert!(is_valid_name(&second) && is_valid_name(&tenth));

    assert!(first < second);
    assert!(second < tenth);
    assert!(tenth < compile_name(NEXT_SECOND, 1));
}

#[test]
fn nothing_with_a_path_in_it_is_a_backup_name() {
    assert!(is_valid_name("20260810T071415.zip"));

    assert!(!is_valid_name("../../etc/passwd.zip"));
    assert!(!is_valid_name("other-namespace/20260810T071415.zip"));
    assert!(!is_valid_name("..\\backup.zip"));
    assert!(!is_valid_name("20260810T071415"));
    assert!(!is_valid_name(""));
}

#[test]
fn a_namespace_which_is_not_a_name_can_not_become_a_path() {
    let repo = BackupsRepo::new(Some("/tmp/backups".to_string()));

    assert_eq!(repo.get_folder("").unwrap(), "/tmp/backups/default");
    assert_eq!(repo.get_folder("alpha").unwrap(), "/tmp/backups/alpha");

    assert!(repo.get_folder("../../etc").is_err());
    assert!(repo.get_folder("with/slash").is_err());

    // A name of nothing but dots carries no separator, so it passes every
    // other check - and `..` alone is still one level out of the backups
    // folder, which is where every namespace's snapshots sit side by side.
    assert!(repo.get_folder("..").is_err());
    assert!(repo.get_folder(".").is_err());
    assert!(repo.get_folder("...").is_err());
}

#[test]
fn every_call_says_so_when_there_is_nowhere_to_put_them() {
    let repo = BackupsRepo::new(None);

    assert!(!repo.is_configured());
    assert!(repo.get_folder("default").is_err());
    assert!(repo
        .backup_path("default", "20260810T071415.zip")
        .is_err());
    assert!(BackupsRepo::new(Some("/tmp/backups".to_string())).is_configured());
}

#[test]
fn a_backup_is_asked_for_by_its_name() {
    let repo = BackupsRepo::new(Some("/tmp/backups/".to_string()));
    assert_eq!(
        repo.backup_path("alpha", "20260810T071415.zip").unwrap(),
        "/tmp/backups/alpha/20260810T071415.zip"
    );
    assert!(repo.backup_path("alpha", "../x.zip").is_err());
}

#[test]
fn names_of_one_second_run_out() {
    let mut search = NameSearch::new();
    assert_eq!(search.next(NOW).unwrap(), compile_name(NOW, 1));
    for attempt in 2..=MAX_BACKUPS_PER_SECOND {
        assert_eq!(search.next(NOW).unwrap(), compile_name(NOW, attempt));
    }
    assert_eq!(
        search.next(NOW).err().unwrap(),
        "99 backups of this namespace were already taken this second"
    );
}

fn on_disk(name: &str) -> BackupOnDisk {
    BackupOnDisk {
        name: name.to_string(),
        size: 1,
    }
}

#[test]
fn the_newest_backups_are_kept() {
    let all = list_backups(vec![
        on_disk("20260810T071415.zip"),
        on_disk("notes.txt"),
        on_disk("20260812T071415.zip"),
        on_disk("20260811T071415.zip"),
    ]);
    let names: Vec<&str> = all.iter().map(|itm| itm.name.as_str()).collect();
    assert_eq!(all.len(), 3);
    assert!(!names.contains(&"notes.txt"));

    assert_eq!(
        backups_to_remove(&all, 2),
        vec!["20260810T071415.zip".to_string()]
    );
    assert!(backups_to_remove(&all, 3).is_empty());
    assert_eq!(backups_to_remove(&all, 0).len(), 3);
}
