//! Transactions being built.

use my_no_sql_server_grpc::db::DateTimeAsMicroseconds;
use my_no_sql_server_grpc::transactions::registry::{Transactions, TRANSACTION_TTL_SECS};

type Registry = Transactions<u32, &'static str>;

fn moment(micros: i64) -> DateTimeAsMicroseconds {
    DateTimeAsMicroseconds::new(micros)
}

fn create(transactions: &mut Registry, now: i64) -> String {
    transactions.create(
        "default".to_string(),
        "traders".to_string(),
        5,
        moment(now),
    )
}

#[test]
fn a_transaction_is_found_by_its_id_and_forgotten_when_removed() {
    let mut transactions = Registry::new();
    let id = create(&mut transactions, 1);

    assert!(transactions.get(&id).is_some());
    assert!(transactions.remove(&id).is_some());
    assert!(transactions.get(&id).is_none());
    // Removing it twice is not an error - that is what lets a client cancel
    // without checking whether it still exists.
    assert!(transactions.remove(&id).is_none());
}

#[test]
fn a_transaction_which_went_quiet_is_collected() {
    let mut transactions = Registry::new();
    let now = 1_786_346_055_530_973;
    let id = create(&mut transactions, now);

    assert!(transactions.gc(moment(now), TRANSACTION_TTL_SECS).is_empty());

    let much_later = moment(now + (TRANSACTION_TTL_SECS + 1) * 1_000_000);

    assert_eq!(
        transactions.gc(much_later, TRANSACTION_TTL_SECS),
        vec![id.clone()]
    );
    assert!(transactions.get(&id).is_none());
}

#[test]
fn what_was_posted_is_taken_once_and_in_its_order() {
    let mut transactions = Registry::new();
    let id = create(&mut transactions, 7);
    let transaction = transactions.get_mut(&id).unwrap();
    assert_eq!(transaction.get_actions_amount(), 0);
    transaction.append(vec!["clean", "insert"]);
    transaction.append(Vec::new());
    transaction.append(vec!["delete"]);
    assert_eq!(transaction.get_actions_amount(), 3);
    transaction.touch(moment(99));

    let transaction = transactions.get(&id).unwrap();
    assert_eq!(transaction.get_last_incoming().unix_microseconds, 99);
    assert_eq!(transaction.started.unix_microseconds, 7);
    assert_eq!(transaction.sync_period, 5);

    let taken = transactions.get_mut(&id).unwrap().take_actions();
    assert_eq!(taken, vec!["clean", "insert", "delete"]);
    assert!(transactions.get_mut(&id).unwrap().take_actions().is_empty());
}

#[test]
fn the_registry_knows_every_transaction() {
    let mut transactions = Registry::new();
    let first = create(&mut transactions, 1);
    let second = create(&mut transactions, 1);
    assert_ne!(first, second);
    assert_eq!(transactions.len(), 2);
    let mut ids: Vec<String> = transactions
        .get_all()
        .iter()
        .map(|transaction| transaction.id.clone())
        .collect();
    ids.sort();
    assert_eq!(ids, vec![first, second]);
}
