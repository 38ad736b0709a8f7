//! What readers are told, and in which pieces.

use my_no_sql_server_grpc::db::{DateTimeAsMicroseconds, DbRow, PartitionRowKeys};
use my_no_sql_server_grpc::leases::Leases;
use my_no_sql_server_grpc::reader::chunker::{
    group_by_partition, split_partition_row_keys, split_partition_rows, split_rows,
    MAX_CHUNK_SIZE, MAX_ROWS_PER_CHUNK,
};
use my_no_sql_server_grpc::reader::reader_session::{PollStep, ReaderSession, MAX_QUEUED_CHUNKS};
use my_no_sql_server_grpc::reader::reader_sessions::{ReaderSessions, SESSION_TTL_SECS};
use my_no_sql_server_grpc::reader::sync_chunk::SyncChunk;
use std::sync::Arc;

fn build_row(payload: &str) -> Arc<DbRow> {
    build_row_of("pk", "rk", payload)
}

fn build_row_of(partition_key: &str, row_key: &str, payload: &str) -> Arc<DbRow> {
    Arc::new(DbRow {
        partition_key: partition_key.to_string(),
        row_key: row_key.to_string(),
        schema_id: 1,
        content_size: payload.len() + partition_key.len() + row_key.len(),
        content: payload.as_bytes().to_vec(),
    })
}

#[test]
fn a_small_batch_stays_one_chunk() {
    let rows: Vec<Arc<DbRow>> = (0..10).map(|_| build_row("x")).collect();
    let chunks = split_rows(rows);

    assert_eq!(chunks.len(), 1);
    assert_eq!(chunks[0].len(), 10);
}

#[test]
fn an_empty_batch_produces_no_chunks() {
    assert!(split_rows(Vec::new()).is_empty());
}

#[test]
fn the_record_count_cuts_the_batch() {
    let rows: Vec<Arc<DbRow>> = (0..MAX_ROWS_PER_CHUNK * 2 + 1)
        .map(|_| build_row("x"))
        .collect();

    let chunks = split_rows(rows);

    assert_eq!(chunks.len(), 3);
    assert_eq!(chunks[0].len(), MAX_ROWS_PER_CHUNK);
    assert_eq!(chunks[1].len(), MAX_ROWS_PER_CHUNK);
    assert_eq!(chunks[2].len(), 1);
}

#[test]
fn the_byte_ceiling_cuts_the_batch_too() {
    let big = "x".repeat(300 * 1024);
    let rows: Vec<Arc<DbRow>> = (0..10).map(|_| build_row(&big)).collect();

    let chunks = split_rows(rows);

    assert!(chunks.len() > 1);
    for chunk in &chunks {
        assert!(chunk.len() < MAX_ROWS_PER_CHUNK);
    }
    // The fourth of them reaches the ceiling.
    assert_eq!(chunks.len(), 3);
    assert_eq!(chunks[0].len(), 4);
    assert_eq!(chunks[2].len(), 2);
}

/// A row larger than the ceiling still has to go somewhere.
#[test]
fn a_row_larger_than_a_chunk_is_a_chunk() {
    let big = "x".repeat(MAX_CHUNK_SIZE + 1);
    let chunks = split_rows(vec![build_row("a"), build_row(&big), build_row("b")]);
    assert_eq!(chunks.iter().map(|chunk| chunk.len()).sum::<usize>(), 3);
    assert!(chunks.iter().all(|chunk| !chunk.is_empty()));
}

#[test]
fn rows_are_grouped_by_partition_in_the_order_they_arrived() {
    let rows = vec![
        build_row_of("b", "rk-1", "x"),
        build_row_of("a", "rk-1", "x"),
        build_row_of("b", "rk-2", "x"),
    ];

    let chunks = split_partition_rows(rows);

    assert_eq!(chunks.len(), 1);

    let keys: Vec<&str> = chunks[0]
        .iter()
        .map(|itm| itm.partition_key.as_str())
        .collect();
    assert_eq!(keys, vec!["b", "a"]);

    assert_eq!(chunks[0][0].rows.len(), 2);
    assert_eq!(chunks[0][1].rows.len(), 1);
}

#[test]
fn an_empty_batch_produces_no_partition_chunks() {
    assert!(split_partition_rows(Vec::new()).is_empty());
}

#[test]
fn a_partition_bigger_than_a_chunk_is_cut_and_still_named_by_every_piece() {
    let rows: Vec<Arc<DbRow>> = (0..MAX_ROWS_PER_CHUNK + 1)
        .map(|no| build_row_of("one", &format!("rk-{no}"), "x"))
        .collect();

    let chunks = split_partition_rows(rows);

    assert_eq!(chunks.len(), 2);
    assert_eq!(chunks[0][0].partition_key, "one");
    assert_eq!(chunks[0][0].rows.len(), MAX_ROWS_PER_CHUNK);
    assert_eq!(chunks[1][0].partition_key, "one");
    assert_eq!(chunks[1][0].rows.len(), 1);
}

#[test]
fn keys_are_cut_like_rows() {
    let row_keys: Vec<String> = (0..MAX_ROWS_PER_CHUNK + 5)
        .map(|no| format!("rk-{no}"))
        .collect();
    let chunks = split_partition_row_keys(vec![PartitionRowKeys {
        partition_key: "one".to_string(),
        row_keys: row_keys.clone(),
    }]);
    let mut glued: Vec<String> = Vec::new();
    for chunk in &chunks {
        for piece in chunk {
            assert_eq!(piece.partition_key, "one");
            glued.extend(piece.row_keys.iter().cloned());
        }
    }
    assert!(chunks.len() > 1);
    assert_eq!(glued, row_keys);
    assert!(split_partition_row_keys(Vec::new()).is_empty());
}

#[test]
fn rows_of_a_partition_stay_in_their_order() {
    let groups = group_by_partition(vec![
        build_row_of("a", "2", "x"),
        build_row_of("b", "9", "x"),
        build_row_of("a", "1", "x"),
    ]);
    assert_eq!(groups.len(), 2);
    let row_keys: Vec<&str> = groups[0]
        .rows
        .iter()
        .map(|row| row.row_key.as_str())
        .collect();
    assert_eq!(row_keys, vec!["2", "1"]);
}

fn moment(micros: i64) -> DateTimeAsMicroseconds {
    DateTimeAsMicroseconds::new(micros)
}

fn new_session() -> ReaderSession {
    ReaderSession::new(
        "1".to_string(),
        "app".to_string(),
        "1.0".to_string(),
        "default".to_string(),
        "127.0.0.1:1".to_string(),
        moment(5),
    )
}

fn clean_table() -> SyncChunk {
    SyncChunk::CleanTable {
        table_name: "traders".to_string(),
    }
}

fn clean_tables(amount: usize) -> Vec<SyncChunk> {
    (0..amount).map(|_| clean_table()).collect()
}

#[test]
fn a_backlog_which_grows_past_the_ceiling_is_thrown_away_with_the_session() {
    let mut session = new_session();

    session.enqueue(clean_tables(MAX_QUEUED_CHUNKS));

    assert_eq!(session.get_monitoring_snapshot().1, MAX_QUEUED_CHUNKS);
    assert!(!session.has_overflowed());

    session.enqueue(vec![clean_table()]);

    assert!(session.has_overflowed());
    assert_eq!(session.get_monitoring_snapshot().1, 0);

    // And nothing accumulates behind it while the reader is on its way back.
    session.enqueue(clean_tables(MAX_QUEUED_CHUNKS));

    assert_eq!(session.get_monitoring_snapshot().1, 0);
}

#[test]
fn nothing_of_a_thrown_away_backlog_is_still_delivered() {
    let mut session = new_session();

    // Whoever waits is woken all the same, to be told to start over.
    assert!(session.enqueue(clean_tables(MAX_QUEUED_CHUNKS + 1)));

    assert!(session.pop().is_none());
    assert!(!session.enqueue(vec![clean_table()]));
    assert!(session.pop().is_none());
}

#[test]
fn what_is_queued_is_told_in_its_order() {
    let mut session = new_session();
    assert!(!session.enqueue(Vec::new()));
    assert!(session.enqueue(vec![
        clean_table(),
        SyncChunk::UpdateRowsEnd {
            table_name: "traders".to_string()
        }
    ]));
    assert!(session.enqueue(vec![SyncChunk::DeleteTable {
        table_name: "orders".to_string()
    }]));

    assert!(matches!(session.pop(), Some(SyncChunk::CleanTable { .. })));
    assert!(matches!(session.pop(), Some(SyncChunk::UpdateRowsEnd { .. })));
    match session.pop() {
        Some(SyncChunk::DeleteTable { table_name }) => assert_eq!(table_name, "orders"),
        _ => panic!("expected the table to go"),
    }
    assert!(session.pop().is_none());
}

#[test]
fn a_poll_waits_only_while_there_is_something_to_wait_for() {
    let mut session = new_session();
    assert!(matches!(session.poll(false), PollStep::Wait));
    assert!(matches!(session.poll(true), PollStep::GiveUp));

    // What is queued is the answer, also where the time is up.
    session.enqueue(vec![
        clean_table(),
        SyncChunk::UpdateRowsEnd {
            table_name: "traders".to_string(),
        },
    ]);
    assert!(matches!(session.poll(false), PollStep::Answer(SyncChunk::CleanTable { .. })));
    assert!(matches!(session.poll(true), PollStep::Answer(SyncChunk::UpdateRowsEnd { .. })));
    assert!(matches!(session.poll(false), PollStep::Wait));

    // A backlog which was thrown away is not waited for.
    session.enqueue(clean_tables(MAX_QUEUED_CHUNKS + 1));
    assert!(matches!(session.poll(false), PollStep::GiveUp));
}

#[test]
fn a_session_lists_its_tables_in_order() {
    let mut session = new_session();
    session.subscribe("traders");
    session.subscribe("orders");
    session.subscribe("traders");
    assert!(session.is_subscribed("orders"));
    assert!(!session.is_subscribed("order"));
    assert_eq!(
        session.get_monitoring_snapshot().0,
        vec!["orders".to_string(), "traders".to_string()]
    );
    session.touch(moment(77));
    assert_eq!(session.get_last_incoming().unix_microseconds, 77);
}

fn create(sessions: &mut ReaderSessions, app: &str, namespace: &str, now: i64) -> String {
    sessions.create(
        app.to_string(),
        "1".to_string(),
        namespace.to_string(),
        "127.0.0.1:1".to_string(),
        moment(now),
    )
}

#[test]
fn a_session_is_found_by_its_id_and_forgotten_when_removed() {
    let mut sessions = ReaderSessions::new();

    let id = create(&mut sessions, "app", "default", 1);

    assert!(sessions.get(&id).is_some());
    assert!(sessions.remove(&id).is_some());
    assert!(sessions.get(&id).is_none());
    assert!(sessions.remove(&id).is_none());
}

#[test]
fn only_sessions_of_the_same_namespace_and_table_are_notified() {
    let mut sessions = ReaderSessions::new();

    let mine = create(&mut sessions, "a", "default", 1);
    sessions.get_mut(&mine).unwrap().subscribe("traders");

    let other_table = create(&mut sessions, "b", "default", 1);
    sessions.get_mut(&other_table).unwrap().subscribe("orders");

    let other_namespace = create(&mut sessions, "c", "alpha", 1);
    sessions
        .get_mut(&other_namespace)
        .unwrap()
        .subscribe("traders");

    let subscribed = sessions.get_subscribed("default", "traders");

    assert_eq!(subscribed.len(), 1);
    assert_eq!(subscribed[0].id, mine);
    assert_eq!(sessions.get_all().len(), 3);
}

#[test]
fn a_session_which_went_quiet_is_collected() {
    let mut sessions = ReaderSessions::new();
    let now = 1_786_346_055_530_973;
    let id = create(&mut sessions, "a", "default", now);

    assert!(sessions.gc(moment(now), SESSION_TTL_SECS).is_empty());
    // On the very last moment of its time it is still there.
    let last = moment(now + SESSION_TTL_SECS * 1_000_000);
    assert!(sessions.gc(last, SESSION_TTL_SECS).is_empty());

    let much_later = moment(now + (SESSION_TTL_SECS + 1) * 1_000_000);

    assert_eq!(
        sessions.gc(much_later, SESSION_TTL_SECS),
        vec![id.clone()]
    );
    assert!(sessions.get(&id).is_none());
}

#[test]
fn a_session_which_asks_is_kept() {
    let mut sessions = ReaderSessions::new();
    let kept = create(&mut sessions, "a", "default", 0);
    let lost = create(&mut sessions, "b", "default", 0);
    sessions.get_mut(&kept).unwrap().touch(moment(50_000_000));
    assert_eq!(
        sessions.gc(moment(60_000_000), SESSION_TTL_SECS),
        vec![lost]
    );
    assert!(sessions.get(&kept).is_some());
}

#[test]
fn an_id_is_never_given_twice() {
    let mut leases: Leases<ReaderSession> = Leases::new();
    assert_eq!(leases.take_id(moment(-7)), "-7-0");
    assert_eq!(leases.take_id(moment(-7)), "-7-1");
    assert_eq!(leases.take_id(moment(12)), "12-2");

    let mut sessions = ReaderSessions::new();
    let first = create(&mut sessions, "a", "default", 5);
    sessions.remove(&first);
    let second = create(&mut sessions, "a", "default", 5);
    assert_ne!(first, second);
    assert_eq!(sessions.get(&second).unwrap().id, second);
}
