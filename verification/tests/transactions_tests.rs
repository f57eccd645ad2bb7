use asmt::transactions::manager::{get_oldest_active_txd, BeginOutcome, EndOutcome, Transaction};
use asmt::transactions::transactions::TransactionStatus;

#[test]
fn begin_gives_a_new_address_the_next_number() {
    let mut t = Transaction::new();
    let mut count = 0u32;
    assert_eq!(t.begin("a", &mut count), BeginOutcome::Started(1));
    assert_eq!(count, 1);
    assert_eq!(t.txd_of("a"), Some(1));
    assert_eq!(t.items.get(&1).unwrap().status, TransactionStatus::Active);
    assert_eq!(t.items.get(&1).unwrap().last_txd, 0);
}

#[test]
fn begin_while_active_changes_nothing() {
    let mut t = Transaction::new();
    let mut count = 0u32;
    t.begin("a", &mut count);
    assert_eq!(t.begin("a", &mut count), BeginOutcome::StillActive);
    assert_eq!(count, 1);
    assert_eq!(t.txd_of("a"), Some(1));
}

#[test]
fn begin_after_commit_follows_the_ended_transaction() {
    let mut t = Transaction::new();
    let mut count = 0u32;
    t.begin("a", &mut count);
    t.begin("b", &mut count);
    t.note_modified_key(1, 7);
    assert_eq!(t.end_transaction("a", true), EndOutcome::Ended(vec![7]));
    assert_eq!(t.items.get(&1).unwrap().status, TransactionStatus::Committed);
    assert_eq!(t.begin("a", &mut count), BeginOutcome::Started(3));
    assert_eq!(t.txd_of("a"), Some(3));
    assert_eq!(t.items.get(&3).unwrap().last_txd, 1);
    assert!(t.items.get(&1).is_none());
}

#[test]
fn begin_with_exhausted_counter_changes_nothing() {
    let mut t = Transaction::new();
    let mut count = u32::MAX;
    assert_eq!(t.begin("a", &mut count), BeginOutcome::Exhausted);
    assert_eq!(count, u32::MAX);
    assert_eq!(t.txd_of("a"), None);
}

#[test]
fn end_without_transaction_or_twice_fails() {
    let mut t = Transaction::new();
    let mut count = 0u32;
    assert_eq!(t.end_transaction("a", true), EndOutcome::NoTransaction);
    t.begin("a", &mut count);
    assert_eq!(t.end_transaction("a", false), EndOutcome::Ended(vec![]));
    assert_eq!(t.items.get(&1).unwrap().status, TransactionStatus::Aborted);
    assert_eq!(t.end_transaction("a", true), EndOutcome::NotActive);
}

#[test]
fn begin_with_missing_record_moves_the_counter_only() {
    let mut t = Transaction::new();
    let mut count = 0u32;
    t.begin("a", &mut count);
    t.items.remove(&1);
    assert_eq!(t.begin("a", &mut count), BeginOutcome::NoRecord);
    assert_eq!(count, 2);
    assert_eq!(t.end_transaction("a", true), EndOutcome::NoRecord);
}

#[test]
fn oldest_active_transaction_among_addresses() {
    let mut t = Transaction::new();
    let mut count = 0u32;
    t.begin("a", &mut count);
    t.begin("b", &mut count);
    t.begin("c", &mut count);
    t.end_transaction("a", true);
    let addrs = vec!["a".to_string(), "b".to_string(), "c".to_string()];
    assert_eq!(get_oldest_active_txd(&t, &addrs), Some(2));
    assert_eq!(get_oldest_active_txd(&t, &vec!["a".to_string()]), None);
}
