//! What goes into files, and what comes back out of them.

use my_no_sql_server_grpc::db::DbRow;
use my_no_sql_server_grpc::persist::base64url::{decode, decode_bytes, encode, encode_bytes};
use my_no_sql_server_grpc::persist::binary_reader::{write_u32_prefixed_bytes, BinaryReader};
use my_no_sql_server_grpc::persist::layout::{
    get_namespace_folder, is_valid_namespace_name, namespaces_among,
};
use my_no_sql_server_grpc::persist::partition_blob::{
    deserialize, deserialize_with, serialize, FORMAT_RAW, FORMAT_ZSTD,
};
use my_no_sql_server_grpc::persist::size_class::{size_class_for, MAX_SIZE_CLASS};
use my_no_sql_server_grpc::persist::slot::{
    decode_slot, encode_slot, slot_bytes_needed, SlotState, MAX_KEY_LEN, SLOT_PREFIX_LEN,
};
use std::sync::Arc;

fn round_trip_of_key(src: &str) {
    let encoded = encode(src);

    assert!(
        !encoded.contains('/') && !encoded.contains('\\') && !encoded.contains('='),
        "'{encoded}' can not be a file name"
    );

    assert_eq!(decode(&encoded).unwrap(), src);
}

#[test]
fn a_partition_key_survives_becoming_a_file_name() {
    for key in [
        "a",
        "ab",
        "abc",
        "abcd",
        "acc-1",
        "trader/account",
        "..",
        "ключ на кириллице",
        "with spaces and \\ backslashes",
        &"x".repeat(300),
    ] {
        round_trip_of_key(key);
    }
}

#[test]
fn arbitrary_bytes_survive_becoming_a_line_of_yaml() {
    for length in 0..40usize {
        let src: Vec<u8> = (0..length).map(|itm| (itm * 7 + 3) as u8).collect();
        assert_eq!(decode_bytes(&encode_bytes(&src)).unwrap(), src);
    }

    let all: Vec<u8> = (0..=255u8).collect();
    assert_eq!(decode_bytes(&encode_bytes(&all)).unwrap(), all);
}

#[test]
fn something_which_is_not_an_encoded_key_is_refused() {
    assert!(decode("not base64!").is_err());
    // One symbol on its own is not the tail of any group.
    assert!(decode("A").is_err());
}

#[test]
fn no_key_encodes_into_something_with_a_path_in_it() {
    for byte in 0..=255u8 {
        let key = format!("a{}", byte as char);
        assert!(!encode(&key).contains('/'));
    }
}

#[test]
fn the_alphabet_is_the_url_one() {
    assert_eq!(encode("acc-1"), "YWNjLTE");
    assert_eq!(encode_bytes(&[0xfb, 0xff, 0xfe]), "-__-");
    assert_eq!(encode(""), "");
    assert_eq!(decode("YWNjLTE").unwrap(), "acc-1");
    assert_eq!(decode("").unwrap(), "");
    // Bytes which are not a text are no key.
    assert!(decode("_w").is_err());
    assert_eq!(decode_bytes("_w").unwrap(), vec![0xff]);
}

#[test]
fn different_keys_are_encoded_differently() {
    assert_ne!(encode("acc-1"), encode("acc-2"));
    assert_ne!(encode(""), encode("a"));
}

#[test]
fn a_name_which_could_step_out_of_the_root_is_not_a_namespace_name() {
    assert!(is_valid_namespace_name("default"));
    assert!(is_valid_namespace_name("archive-2026"));
    assert!(is_valid_namespace_name("my.name_space"));

    assert!(!is_valid_namespace_name(".."));
    assert!(!is_valid_namespace_name("."));
    assert!(!is_valid_namespace_name("..."));
    assert!(!is_valid_namespace_name("../../../../tmp/pwn"));
    assert!(!is_valid_namespace_name("with/slash"));
    assert!(!is_valid_namespace_name("with\\backslash"));
    assert!(!is_valid_namespace_name(""));
}

#[test]
fn a_name_which_would_be_skipped_at_the_next_start_is_refused_now() {
    assert!(!is_valid_namespace_name("with space"));
    assert!(!is_valid_namespace_name(&"a".repeat(65)));

    assert!(is_valid_namespace_name(&"a".repeat(64)));
}

#[test]
fn what_was_written_as_a_namespace_is_found_as_one() {
    assert_eq!(get_namespace_folder("/data", "alpha"), "/data/alpha");
    assert_eq!(
        namespaces_among(vec![
            "beta".to_string(),
            "..".to_string(),
            "alpha".to_string(),
            "with space".to_string(),
        ]),
        vec!["beta".to_string(), "alpha".to_string()]
    );
}

#[test]
fn boundaries() {
    assert_eq!(size_class_for(0), 512);
    assert_eq!(size_class_for(1), 512);
    assert_eq!(size_class_for(512), 512);
    assert_eq!(size_class_for(513), 1024);
    assert_eq!(size_class_for(1024), 1024);
    assert_eq!(size_class_for(1025), 2048);
    assert_eq!(size_class_for(100_000), 131_072);
}

#[test]
fn the_largest_class_is_still_a_class() {
    assert_eq!(size_class_for(MAX_SIZE_CLASS as usize), MAX_SIZE_CLASS);
    assert_eq!(
        size_class_for(MAX_SIZE_CLASS as usize / 2 + 1),
        MAX_SIZE_CLASS
    );
}

#[test]
fn encode_decode_roundtrip() {
    let payload = vec![1u8, 2, 3, 250, 0, 7];
    let needed = slot_bytes_needed("my-table", "pk-42", payload.len());
    let size_class = size_class_for(needed);

    let buf = encode_slot(size_class, 12345, "my-table", "pk-42", &payload);
    assert_eq!(buf.len(), size_class as usize);

    match decode_slot(&buf) {
        SlotState::Occupied(slot) => {
            assert_eq!(slot.version, 12345);
            assert_eq!(slot.table_name, "my-table");
            assert_eq!(slot.partition_key, "pk-42");
            assert_eq!(slot.payload, payload);
        }
        _ => panic!("expected occupied slot"),
    }
}

#[test]
fn zeroed_slot_is_free() {
    let buf = vec![0u8; 512];
    assert!(matches!(decode_slot(&buf), SlotState::Free));
}

#[test]
fn torn_payload_is_corrupt() {
    let payload = vec![10u8; 100];
    let size_class = size_class_for(slot_bytes_needed("t", "p", payload.len()));
    let mut buf = encode_slot(size_class, 1, "t", "p", &payload);
    // Flip a byte inside the crc-covered body without fixing the crc.
    buf[SLOT_PREFIX_LEN + 10] ^= 0xFF;
    assert!(matches!(decode_slot(&buf), SlotState::Corrupt));
}

#[test]
fn a_key_of_the_whole_length_field_roundtrips() {
    let partition_key = "k".repeat(MAX_KEY_LEN);
    let size_class = size_class_for(slot_bytes_needed("t", &partition_key, 0));

    match decode_slot(&encode_slot(size_class, 1, "t", &partition_key, &[])) {
        SlotState::Occupied(slot) => assert_eq!(slot.partition_key, partition_key),
        _ => panic!("expected occupied slot"),
    }
}

#[test]
fn empty_payload_roundtrips() {
    let size_class = size_class_for(slot_bytes_needed("t", "p", 0));
    let buf = encode_slot(size_class, 9, "t", "p", &[]);
    match decode_slot(&buf) {
        SlotState::Occupied(slot) => assert!(slot.payload.is_empty()),
        _ => panic!("expected occupied slot"),
    }
}

/// CRC32 bit by bit.
fn crc_bit_by_bit(bytes: &[u8]) -> u32 {
    let mut register = 0xffff_ffffu32;
    for byte in bytes {
        register ^= *byte as u32;
        for _ in 0..8 {
            register = if register & 1 == 1 {
                (register >> 1) ^ 0xedb8_8320
            } else {
                register >> 1
            };
        }
    }
    !register
}

#[test]
fn the_checksum_is_crc32() {
    assert_eq!(crc_bit_by_bit(b"123456789"), 0xcbf4_3926);
    // Short ones, and ones long enough for every way the bytes may be folded.
    for len in [0, 1, 3, 7, 15, 16, 64, 1000] {
        let buf = encode_slot(2048, 7, "traders", "pk", &vec![0xa5; len]);
        let end = SLOT_PREFIX_LEN + 4 + "traders".len() + "pk".len() + len;
        assert_eq!(&buf[..4], &crc_bit_by_bit(&buf[4..end]).to_le_bytes());
    }
}

/// The checksum is the crc32 everybody else computes.
#[test]
fn a_slot_carries_the_checksum_of_what_follows_it() {
    let buf = encode_slot(512, 7, "t", "p", &[5]);
    let body_len = u32::from_le_bytes([buf[12], buf[13], buf[14], buf[15]]) as usize;
    assert_eq!(body_len, 7);
    assert_eq!(&buf[4..12], &7u64.to_le_bytes());
    assert_eq!(
        &buf[SLOT_PREFIX_LEN..SLOT_PREFIX_LEN + body_len],
        &[1, 0, 1, 0, b't', b'p', 5]
    );
    let crc = crc32fast::hash(&buf[4..SLOT_PREFIX_LEN + body_len]);
    assert_eq!(&buf[..4], &crc.to_le_bytes());
    assert!(buf[SLOT_PREFIX_LEN + body_len..].iter().all(|byte| *byte == 0));
}

#[test]
fn a_length_which_does_not_fit_the_slot_is_corrupt() {
    let mut buf = encode_slot(512, 7, "t", "p", &[5]);
    buf[12] = 0xff;
    buf[13] = 0xff;
    assert!(matches!(decode_slot(&buf), SlotState::Corrupt));
    assert!(matches!(decode_slot(&[1, 2, 3]), SlotState::Corrupt));
}

fn build_row(row_key: &str, schema_id: u64) -> Arc<DbRow> {
    let mut content = b"an entity called ".to_vec();
    content.extend_from_slice(row_key.as_bytes());
    Arc::new(DbRow {
        partition_key: "pk".to_string(),
        row_key: row_key.to_string(),
        schema_id,
        content_size: content.len(),
        content,
    })
}

fn round_trip(compress: bool) {
    let rows = vec![build_row("rk-1", 7), build_row("rk-2", 9)];

    let payload = serialize(&rows, compress).unwrap();
    let restored = deserialize(&payload).unwrap();

    assert_eq!(restored.len(), 2);

    for (source, restored) in rows.iter().zip(restored.iter()) {
        assert_eq!(source.schema_id, restored.schema_id);
        assert_eq!(source.content, restored.row);
    }
}

#[test]
fn raw_round_trip() {
    round_trip(false);
}

#[test]
fn compressed_round_trip() {
    round_trip(true);
}

#[test]
fn empty_partition_round_trips() {
    let payload = serialize(&[], true).unwrap();
    assert!(deserialize(&payload).unwrap().is_empty());
}

#[test]
fn truncated_payload_is_reported_not_panicked() {
    let rows = vec![build_row("rk-1", 7)];
    let mut payload = serialize(&rows, false).unwrap();
    payload.truncate(payload.len() - 4);

    assert!(deserialize(&payload).is_err());
}

#[test]
fn a_row_count_with_no_rows_behind_it_is_reported_not_allocated() {
    assert!(deserialize(&[FORMAT_RAW, 0xFF, 0xFF, 0xFF, 0xFF]).is_err());
}

#[test]
fn unknown_format_is_reported() {
    assert!(deserialize(&[99, 1, 2, 3]).is_err());
}

#[test]
fn every_broken_payload_says_what_is_wrong() {
    assert_eq!(
        deserialize(&[]).err().unwrap(),
        "partition payload is empty"
    );
    assert_eq!(
        deserialize(&[99, 1, 2, 3]).err().unwrap(),
        "unknown partition payload format 99"
    );
    assert!(deserialize(&[FORMAT_ZSTD, 1, 2, 3])
        .err()
        .unwrap()
        .starts_with("can not zstd-decompress the partition: "));
    assert_eq!(
        deserialize(&[FORMAT_RAW, 0, 0, 0, 0, 9]).err().unwrap(),
        "partition payload has trailing bytes after its rows"
    );
    assert_eq!(
        deserialize_with(&[FORMAT_ZSTD, 1], Err("broken".to_string()))
            .err()
            .unwrap(),
        "can not zstd-decompress the partition: broken"
    );
    assert!(deserialize_with(&[FORMAT_ZSTD, 1], Ok(vec![0, 0, 0, 0]))
        .unwrap()
        .is_empty());
}

/// A compressed payload is a frame any zstd can read.
#[test]
fn a_compressed_payload_is_a_zstd_frame() {
    let rows = vec![build_row(&"x".repeat(5000), 7)];
    let raw = serialize(&rows, false).unwrap();
    let compressed = serialize(&rows, true).unwrap();

    assert_eq!(raw[0], FORMAT_RAW);
    assert_eq!(compressed[0], FORMAT_ZSTD);
    assert!(compressed.len() < raw.len());
    assert_eq!(zstd::decode_all(&compressed[1..]).unwrap(), &raw[1..]);
}

#[test]
fn prefixed_bytes_are_read_back_as_they_were_written() {
    let mut bytes: Vec<u8> = Vec::new();
    write_u32_prefixed_bytes(&mut bytes, b"abc");
    write_u32_prefixed_bytes(&mut bytes, &[]);
    bytes.extend_from_slice(&[1, 0, 0, 0, 0, 0, 0, 2]);

    let mut reader = BinaryReader::new(&bytes);
    assert_eq!(reader.read_u32_prefixed_bytes().unwrap(), b"abc");
    assert!(reader.read_u32_prefixed_bytes().unwrap().is_empty());
    assert!(!reader.is_eof());
    assert_eq!(reader.read_u64().unwrap(), 0x0200_0000_0000_0001);
    assert!(reader.is_eof());
    assert!(reader.read_u32().is_err());
}

#[test]
fn a_length_nobody_wrote_is_reported() {
    let bytes = [0xff, 0xff, 0xff, 0xff, 1];
    let mut reader = BinaryReader::new(&bytes);
    assert!(reader.read_u32_prefixed_bytes().is_err());
}
